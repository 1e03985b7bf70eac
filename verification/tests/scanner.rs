use std::path::PathBuf;

use i18n_version_core::scanner::is_pruned_dir;
use i18n_version_core::{
    discover, read_and_validate, scan, scan_many, FileEntry, FileRef, I18nVersionError, WalkEvent,
};

fn file(root: &str, relative: &str) -> WalkEvent {
    WalkEvent::File {
        relative: relative.to_string(),
        abs_path: PathBuf::from(root).join(relative),
    }
}

fn names(refs: &[FileRef]) -> Vec<String> {
    refs.iter().map(|r| r.relative_path.clone()).collect()
}

fn json_patterns() -> Vec<String> {
    vec!["*.json".to_string()]
}

#[test]
fn scanner_errors_on_missing_root() {
    let root = "/nonexistent-xyz";
    let exists = std::path::Path::new(root).exists();
    let result = discover(root, exists, &["*.json".into()], Vec::new());
    assert!(matches!(result, Err(I18nVersionError::RootNotFound(ref p)) if p == "/nonexistent-xyz"));
}

#[test]
fn scanner_returns_sorted_entries() {
    let walk = vec![
        file("/r", "c.json"),
        file("/r", "a.json"),
        file("/r", "b.json"),
    ];
    let refs = discover("/r", true, &json_patterns(), walk).unwrap();
    assert_eq!(names(&refs), vec!["a.json", "b.json", "c.json"]);
    assert_eq!(refs[0].abs_path, PathBuf::from("/r/a.json"));
}

#[test]
fn scanner_skips_non_matching_files() {
    let walk = vec![file("/r", "a.json"), file("/r", "README.md")];
    let refs = discover("/r", true, &json_patterns(), walk).unwrap();
    assert_eq!(refs.len(), 1);
    assert_eq!(refs[0].relative_path, "a.json");
}

#[test]
fn discover_prunes_node_modules_and_git() {
    let walk = vec![
        file("/r", "a.json"),
        file("/r", "node_modules/pkg/b.json"),
        file("/r", ".git/c.json"),
    ];
    let refs = discover("/r", true, &["**/*.json".to_string()], walk).unwrap();
    assert_eq!(names(&refs), vec!["a.json"], "pruned dirs must not be scanned");
}

#[test]
fn discover_drops_files_below_pruned_dirs_at_any_depth() {
    let walk = vec![
        file("/r", "src/node_modules/x.json"),
        file("/r", "de/.git/objects/y.json"),
        WalkEvent::File {
            relative: "vendor\\node_modules\\z.json".to_string(),
            abs_path: PathBuf::from("/r/vendor/node_modules/z.json"),
        },
        file("/r", "node_modules.json"),
        file("/r", ".git"),
        file("/r", "de/.github/w.json"),
        file("/r", "my_node_modules/v.json"),
        file("/r", "en.json"),
    ];
    let refs = discover("/r", true, &["**/*.json".to_string(), ".git".to_string()], walk).unwrap();
    // A backslash separates components only where the platform says so;
    // elsewhere it is part of a file name.
    let mut expected = vec![".git", "de/.github/w.json", "en.json", "my_node_modules/v.json", "node_modules.json"];
    if !std::path::is_separator('\\') {
        expected.push("vendor/node_modules/z.json");
    }
    assert_eq!(names(&refs), expected);
}

#[test]
fn discover_prunes_only_at_real_separators() {
    let walk = vec![WalkEvent::File {
        relative: "a\\node_modules\\b.json".to_string(),
        abs_path: PathBuf::from("/r/a\\node_modules\\b.json"),
    }];
    let refs = discover("/r", true, &["*.json".to_string()], walk).unwrap();
    if std::path::is_separator('\\') {
        assert!(refs.is_empty());
    } else {
        assert_eq!(names(&refs), vec!["a/node_modules/b.json"]);
    }
}

#[test]
fn scan_reads_discovered_files() {
    let walk = vec![file("/r", "c.json"), file("/r", "a.json"), file("/r", "notes.txt")];
    let refs = discover("/r", true, &json_patterns(), walk).unwrap();
    let contents = |rel: &str| -> Result<Vec<u8>, String> {
        match rel {
            "a.json" => Ok(b"{\"a\":1}".to_vec()),
            "c.json" => Ok(b"[3]".to_vec()),
            _ => Err("not found".to_string()),
        }
    };
    let files: Vec<(FileRef, Result<Vec<u8>, String>)> = refs
        .into_iter()
        .map(|r| {
            let read = contents(&r.relative_path);
            (r, read)
        })
        .collect();
    let entries = scan(files).unwrap();
    assert_eq!(
        entries,
        vec![
            FileEntry { relative_path: "a.json".into(), bytes: b"{\"a\":1}".to_vec() },
            FileEntry { relative_path: "c.json".into(), bytes: b"[3]".to_vec() },
        ]
    );
}

#[test]
fn is_pruned_dir_prunes_named_directories_below_the_root() {
    assert!(is_pruned_dir(1, true, Some("node_modules")));
    assert!(is_pruned_dir(3, true, Some(".git")));
    // The walk root itself is never pruned.
    assert!(!is_pruned_dir(0, true, Some("node_modules")));
    // Only directories are pruned.
    assert!(!is_pruned_dir(1, false, Some("node_modules")));
    // Other names, and names that are not valid Unicode, are kept.
    assert!(!is_pruned_dir(1, true, Some("locales")));
    assert!(!is_pruned_dir(1, true, Some("node_modules2")));
    assert!(!is_pruned_dir(1, true, Some(".gi")));
    assert!(!is_pruned_dir(1, true, None));
}

#[test]
fn discover_orders_by_path_whatever_the_walk_order() {
    let patterns = vec!["**/*.json".to_string()];
    let first = discover(
        "/r",
        true,
        &patterns,
        vec![file("/r", "de/b.json"), file("/r", "en.json"), file("/r", "de/a.json")],
    )
    .unwrap();
    let second = discover(
        "/r",
        true,
        &patterns,
        vec![file("/r", "en.json"), file("/r", "de/a.json"), file("/r", "de/b.json")],
    )
    .unwrap();
    assert_eq!(names(&first), vec!["de/a.json", "de/b.json", "en.json"]);
    assert_eq!(first, second);
}

#[test]
fn discover_orders_by_bytes_not_by_letters() {
    let refs = discover(
        "/r",
        true,
        &json_patterns(),
        vec![file("/r", "b.json"), file("/r", "B.json"), file("/r", "a.json"), file("/r", "é.json")],
    )
    .unwrap();
    assert_eq!(names(&refs), vec!["B.json", "a.json", "b.json", "é.json"]);
}

#[test]
fn discover_writes_backslashes_as_forward_slashes() {
    let walk = vec![WalkEvent::File {
        relative: "sub\\a.json".to_string(),
        abs_path: PathBuf::from("/r/sub/a.json"),
    }];
    let refs = discover("/r", true, &["sub/*.json".to_string()], walk).unwrap();
    assert_eq!(names(&refs), vec!["sub/a.json"]);
}

#[test]
fn discover_keeps_files_that_any_pattern_matches() {
    let walk = vec![file("/r", "a.json"), file("/r", "b.yaml"), file("/r", "c.txt")];
    let patterns = vec!["*.yaml".to_string(), "*.json".to_string()];
    let refs = discover("/r", true, &patterns, walk).unwrap();
    assert_eq!(names(&refs), vec!["a.json", "b.yaml"]);
    let none = discover("/r", true, &[], vec![file("/r", "a.json")]).unwrap();
    assert!(none.is_empty());
}

#[test]
fn discover_reports_invalid_glob() {
    let patterns = vec!["*.json".to_string(), "a[".to_string(), "***".to_string()];
    match discover("/r", true, &patterns, vec![file("/r", "a.json")]) {
        Err(I18nVersionError::InvalidGlob { pattern, message }) => {
            assert_eq!(pattern, "a[");
            assert_eq!(message, "Pattern syntax error near position 1: invalid range pattern");
        }
        other => panic!("unexpected result: {:?}", other),
    }
    match discover("/r", true, &["***".to_string()], Vec::new()) {
        Err(e) => assert_eq!(
            e.to_string(),
            "invalid glob pattern ***: Pattern syntax error near position 2: wildcards are either regular `*` or recursive `**`"
        ),
        other => panic!("unexpected result: {:?}", other),
    }
}

#[test]
fn discover_reports_missing_root_before_bad_patterns() {
    let result = discover("/gone", false, &["a[".to_string()], Vec::new());
    assert!(matches!(result, Err(I18nVersionError::RootNotFound(_))));
}

#[test]
fn discover_reports_first_walk_failure() {
    let walk = vec![
        file("/r", "a.json"),
        WalkEvent::WalkFailed { message: "IO error for operation on /r/x: denied".to_string() },
        WalkEvent::Unrelated { abs_path: PathBuf::from("/elsewhere/b.json"), message: "prefix not found".to_string() },
    ];
    match discover("/r", true, &json_patterns(), walk) {
        Err(I18nVersionError::ScanError { path, message }) => {
            assert_eq!(path, "/r");
            assert_eq!(message, "IO error for operation on /r/x: denied");
        }
        other => panic!("unexpected result: {:?}", other),
    }
}

#[test]
fn discover_reports_path_outside_root() {
    let walk = vec![WalkEvent::Unrelated {
        abs_path: PathBuf::from("/elsewhere/b.json"),
        message: "prefix not found".to_string(),
    }];
    match discover("/r", true, &json_patterns(), walk) {
        Err(I18nVersionError::ReadError { path, message }) => {
            assert_eq!(path, "/elsewhere/b.json");
            assert_eq!(message, "prefix not found");
        }
        other => panic!("unexpected result: {:?}", other),
    }
}

#[test]
fn read_and_validate_accepts_json() {
    let abs = PathBuf::from("/r/en.json");
    let bytes = read_and_validate(&abs, "en.json", Ok(b"{\"k\":1}".to_vec())).unwrap();
    assert_eq!(bytes, b"{\"k\":1}".to_vec());
    let scalar = read_and_validate(&abs, "en.json", Ok(b" 42 ".to_vec())).unwrap();
    assert_eq!(scalar, b" 42 ".to_vec());
}

#[test]
fn read_and_validate_reports_read_failure_with_full_path() {
    let abs = PathBuf::from("/r/locales/en.json");
    match read_and_validate(&abs, "locales/en.json", Err("permission denied".to_string())) {
        Err(I18nVersionError::ReadError { path, message }) => {
            assert_eq!(path, "/r/locales/en.json");
            assert_eq!(message, "permission denied");
        }
        other => panic!("unexpected result: {:?}", other),
    }
}

#[test]
fn read_and_validate_reports_invalid_json_with_relative_path() {
    let abs = PathBuf::from("/r/bad.json");
    let err = read_and_validate(&abs, "bad.json", Ok(b"{ not valid json".to_vec())).unwrap_err();
    assert!(matches!(err, I18nVersionError::InvalidJson { ref path, .. } if path == "bad.json"));
    let msg = err.to_string();
    assert!(msg.starts_with("invalid JSON in bad.json: "), "unexpected message: {msg}");
    assert!(read_and_validate(&abs, "bad.json", Ok(Vec::new())).is_err());
}

fn file_ref(rel: &str) -> FileRef {
    FileRef { relative_path: rel.to_string(), abs_path: PathBuf::from("/r").join(rel) }
}

#[test]
fn scan_reads_every_file_in_order() {
    let files = vec![
        (file_ref("a.json"), Ok(b"{}".to_vec())),
        (file_ref("b.json"), Ok(b"[1]".to_vec())),
    ];
    let entries = scan(files).unwrap();
    assert_eq!(
        entries,
        vec![
            FileEntry { relative_path: "a.json".into(), bytes: b"{}".to_vec() },
            FileEntry { relative_path: "b.json".into(), bytes: b"[1]".to_vec() },
        ]
    );
}

#[test]
fn scan_stops_at_first_failing_file() {
    let files = vec![
        (file_ref("a.json"), Ok(b"{}".to_vec())),
        (file_ref("b.json"), Ok(b"{".to_vec())),
        (file_ref("c.json"), Err("denied".to_string())),
    ];
    assert!(matches!(
        scan(files),
        Err(I18nVersionError::InvalidJson { ref path, .. }) if path == "b.json"
    ));
    let files = vec![
        (file_ref("a.json"), Err("denied".to_string())),
        (file_ref("b.json"), Ok(b"{".to_vec())),
    ];
    assert!(matches!(
        scan(files),
        Err(I18nVersionError::ReadError { ref path, .. }) if path == "/r/a.json"
    ));
}

fn entry(rel: &str) -> FileEntry {
    FileEntry { relative_path: rel.to_string(), bytes: b"{}".to_vec() }
}

#[test]
fn scan_many_lists_entries_under_root_aliases() {
    let roots = vec![
        ("/srv\\web".to_string(), Ok(vec![entry("b.json"), entry("a.json")])),
        (String::new(), Ok(vec![entry("z.json")])),
        ("//app".to_string(), Ok(vec![entry("en.json")])),
    ];
    let all = scan_many(roots).unwrap();
    let paths: Vec<String> = all.iter().map(|e| e.relative_path.clone()).collect();
    assert_eq!(
        paths,
        vec!["app/en.json", "srv/web/a.json", "srv/web/b.json", "z.json"]
    );
}

#[test]
fn scan_many_keeps_paths_of_a_single_root() {
    let roots = vec![("/r".to_string(), Ok(vec![entry("b.json"), entry("a.json")]))];
    let all = scan_many(roots).unwrap();
    let paths: Vec<String> = all.iter().map(|e| e.relative_path.clone()).collect();
    assert_eq!(paths, vec!["a.json", "b.json"]);
}

#[test]
fn scan_many_is_independent_of_root_order() {
    let a = || ("/a".to_string(), Ok(vec![entry("x.json")]));
    let b = || ("/b".to_string(), Ok(vec![entry("x.json"), entry("y.json")]));
    let first = scan_many(vec![a(), b()]).unwrap();
    let second = scan_many(vec![b(), a()]).unwrap();
    assert_eq!(first, second);
    let paths: Vec<String> = first.iter().map(|e| e.relative_path.clone()).collect();
    assert_eq!(paths, vec!["a/x.json", "b/x.json", "b/y.json"]);
}

#[test]
fn scan_many_root_order_does_not_change_a_common_failure() {
    let ok = || ("/a".to_string(), Ok(vec![entry("x.json")]));
    let bad = || ("/b".to_string(), Err(I18nVersionError::RootNotFound("/b".into())));
    for roots in [vec![ok(), bad()], vec![bad(), ok()]] {
        assert!(matches!(
            scan_many(roots),
            Err(I18nVersionError::RootNotFound(ref p)) if p == "/b"
        ));
    }
}

#[test]
fn scan_many_reports_first_failed_root() {
    let roots = vec![
        ("/a".to_string(), Ok(vec![entry("x.json")])),
        ("/b".to_string(), Err(I18nVersionError::RootNotFound("/b".into()))),
        ("/c".to_string(), Err(I18nVersionError::RootNotFound("/c".into()))),
    ];
    assert!(matches!(
        scan_many(roots),
        Err(I18nVersionError::RootNotFound(ref p)) if p == "/b"
    ));
    assert!(scan_many(Vec::new()).unwrap().is_empty());
}

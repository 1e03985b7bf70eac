use std::path::PathBuf;

use i18n_version_core::{
    check_length, compute_hash, discover, read_and_validate, ComputeOptions, FileEntry, I18nVersionError,
    VersionRun, WalkEvent,
};

fn file(root: &str, relative: &str) -> WalkEvent {
    WalkEvent::File {
        relative: relative.to_string(),
        abs_path: PathBuf::from(root).join(relative),
    }
}

fn options(patterns: &[&str], length: u32) -> ComputeOptions {
    ComputeOptions {
        root: "/r".to_string(),
        patterns: patterns.iter().map(|p| p.to_string()).collect(),
        length,
    }
}

/// Runs a computation over an in-memory tree: `contents` maps relative
/// paths to file contents, in the order the walk reports them.
fn run(opts: &ComputeOptions, contents: &[(&str, &[u8])]) -> Result<String, I18nVersionError> {
    let walk = contents.iter().map(|(rel, _)| file(&opts.root, rel)).collect();
    let mut run = VersionRun::start(opts, true, walk)?;
    while let Some(next) = run.next_file() {
        let rel = next.relative_path.clone();
        let bytes = contents.iter().find(|(r, _)| *r == rel).unwrap().1.to_vec();
        run.feed(Ok(bytes))?;
    }
    Ok(run.finish())
}

#[test]
fn compute_version_rejects_invalid_length() {
    let opts = ComputeOptions {
        root: ".".into(),
        patterns: vec!["*.json".into()],
        length: 0,
    };
    assert!(VersionRun::start(&opts, true, Vec::new()).is_err());
    assert!(matches!(
        VersionRun::start(&options(&["*.json"], 65), true, Vec::new()),
        Err(I18nVersionError::InvalidLength(65))
    ));
}

#[test]
fn compute_version_checks_length_before_root() {
    assert!(matches!(
        VersionRun::start(&options(&["*.json"], 0), false, Vec::new()),
        Err(I18nVersionError::InvalidLength(0))
    ));
    assert!(matches!(
        VersionRun::start(&options(&["*.json"], 8), false, Vec::new()),
        Err(I18nVersionError::RootNotFound(ref p)) if p == "/r"
    ));
}

#[test]
fn compute_version_handles_cross_order_files() {
    let opts = options(&["*.json"], 8);
    let h1 = run(&opts, &[("c.json", b"{}"), ("a.json", b"{}"), ("b.json", b"{}")]).unwrap();
    let h2 = run(&opts, &[("a.json", b"{}"), ("b.json", b"{}"), ("c.json", b"{}")]).unwrap();
    assert_eq!(h1.len(), 8);
    assert_eq!(h1, h2);
}

#[test]
fn compute_version_rejects_invalid_json() {
    let opts = options(&["*.json"], 8);
    let err = run(&opts, &[("ok.json", b"{}"), ("bad.json", b"{ not valid json")]).unwrap_err();
    let msg = err.to_string();
    assert!(msg.contains("invalid JSON"), "unexpected message: {msg}");
    assert!(msg.contains("bad.json"), "should name the offending file: {msg}");
}

#[test]
fn compute_version_matches_known_digest() {
    let opts = options(&["**/*.json"], 16);
    let version = run(&opts, &[("en.json", b"{\"k\":1}"), ("notes.txt", b"x")]).unwrap();
    assert_eq!(version, "cbde35ccfb3fd5b8");
}

#[test]
fn streaming_hash_matches_buffered_hash() {
    let contents: [(&str, &[u8]); 2] = [("a.json", b"{\"a\":1}"), ("b.json", b"{\"b\":2}")];
    let patterns = vec!["*.json".to_string()];

    // Buffered reference hash.
    let walk = contents.iter().map(|(rel, _)| file("/r", rel)).collect();
    let refs = discover("/r", true, &patterns, walk).unwrap();
    let entries: Vec<FileEntry> = refs
        .iter()
        .map(|r| FileEntry {
            relative_path: r.relative_path.clone(),
            bytes: read_and_validate(
                &r.abs_path,
                &r.relative_path,
                Ok(contents.iter().find(|(n, _)| *n == r.relative_path).unwrap().1.to_vec()),
            )
            .unwrap(),
        })
        .collect();
    let buffered = compute_hash(&entries, 16);

    // Streaming hash, one file at a time.
    let streamed = run(&options(&["*.json"], 16), &contents).unwrap();

    assert_eq!(buffered, streamed);
    assert_eq!(streamed, "9891349f6cf65c82");
}

#[test]
fn failed_feed_leaves_run_unchanged() {
    let opts = options(&["*.json"], 8);
    let walk = vec![file("/r", "a.json"), file("/r", "b.json")];
    let mut run = VersionRun::start(&opts, true, walk).unwrap();
    assert_eq!(run.next_file().unwrap().relative_path, "a.json");
    let err = run.feed(Err("permission denied".to_string())).unwrap_err();
    assert_eq!(err.to_string(), "failed to read file /r/a.json: permission denied");
    assert_eq!(run.next_file().unwrap().relative_path, "a.json");
    assert!(run.feed(Ok(b"[".to_vec())).is_err());
    run.feed(Ok(b"{}".to_vec())).unwrap();
    assert_eq!(run.next_file().unwrap().relative_path, "b.json");
    run.feed(Ok(b"{}".to_vec())).unwrap();
    assert!(run.next_file().is_none());
    assert_eq!(run.finish(), "bb09c19a");
}

#[test]
fn run_with_no_matching_files_hashes_nothing() {
    let opts = options(&["*.json"], 64);
    let version = run(&opts, &[("readme.md", b"# hi")]).unwrap();
    assert_eq!(
        version,
        "e3b0c44298fc1c149afbf4c8996fb92427ae41e4649b934ca495991b7852b855"
    );
}

#[test]
fn compute_version_unaffected_by_pruned_dirs() {
    let opts = options(&["**/*.json"], 16);
    let before = run(&opts, &[("en.json", b"{\"k\":1}")]).unwrap();

    // Files inside a pruned dir do not change the version.
    let after = run(
        &opts,
        &[("node_modules/dep.json", b"{\"z\":9}"), ("en.json", b"{\"k\":1}"), (".git/x.json", b"[")],
    )
    .unwrap();

    assert_eq!(before, after);
    assert_eq!(before, "cbde35ccfb3fd5b8");
}

#[test]
fn compute_version_is_independent_of_root_location() {
    let contents: [(&str, &[u8]); 2] = [("a.json", b"{}"), ("b.json", b"{}")];
    let mut at_r = options(&["*.json"], 8);
    at_r.root = "/r".to_string();
    let mut at_s = options(&["*.json"], 8);
    at_s.root = "/srv/other".to_string();
    assert_eq!(run(&at_r, &contents).unwrap(), run(&at_s, &contents).unwrap());
}

#[test]
fn compute_version_depends_on_patterns_as_a_set() {
    let contents: [(&str, &[u8]); 3] = [("a.json", b"{}"), ("b.yaml", b"x: 1"), ("c.json", b"[]")];
    let one = run(&options(&["*.json"], 64), &contents).unwrap();
    let repeated = run(&options(&["*.json", "*.json"], 64), &contents).unwrap();
    assert_eq!(one, repeated);
}

#[test]
fn check_length_accepts_only_one_to_sixty_four() {
    assert_eq!(check_length(1).unwrap(), 1);
    assert_eq!(check_length(64).unwrap(), 64);
    assert!(matches!(check_length(0), Err(I18nVersionError::InvalidLength(0))));
    assert!(matches!(check_length(65), Err(I18nVersionError::InvalidLength(65))));
    assert_eq!(
        check_length(u32::MAX).unwrap_err().to_string(),
        "length must be in [1, 64], got 4294967295"
    );
}

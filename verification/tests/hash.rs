use i18n_version_core::{compute_hash, compute_hash_checked, FileEntry, I18nVersionError, VersionHasher};

fn two_entries() -> Vec<FileEntry> {
    vec![
        FileEntry {
            relative_path: "a.json".into(),
            bytes: b"{}".to_vec(),
        },
        FileEntry {
            relative_path: "b.json".into(),
            bytes: b"{}".to_vec(),
        },
    ]
}

#[test]
fn hash_is_deterministic_and_length_clamped() {
    let entries = vec![
        FileEntry {
            relative_path: "a.json".into(),
            bytes: b"{}".to_vec(),
        },
        FileEntry {
            relative_path: "b.json".into(),
            bytes: b"{}".to_vec(),
        },
    ];

    let h8 = compute_hash(&entries, 8);
    assert_eq!(h8.len(), 8);

    let h16 = compute_hash(&entries, 16);
    assert_eq!(h16.len(), 16);
    assert!(h16.starts_with(&h8));

    let h_full = compute_hash(&entries, 64);
    assert_eq!(h_full.len(), 64);

    // Same input → same output
    assert_eq!(compute_hash(&entries, 8), h8);
}

#[test]
fn hash_changes_when_entry_order_changes_after_sort() {
    let e1 = FileEntry { relative_path: "a.json".into(), bytes: b"{\"x\":1}".to_vec() };
    let e2 = FileEntry { relative_path: "b.json".into(), bytes: b"{\"x\":2}".to_vec() };

    let h1 = compute_hash(&[e1.clone(), e2.clone()], 8);
    let h2 = compute_hash(&[e2, e1], 8);
    // Entries are hashed in the order given; different orders give
    // different hashes.
    assert_ne!(h1, h2);
}

#[test]
fn hash_of_no_entries_is_digest_of_empty_input() {
    assert_eq!(
        compute_hash(&[], 64),
        "e3b0c44298fc1c149afbf4c8996fb92427ae41e4649b934ca495991b7852b855"
    );
    assert_eq!(compute_hash(&[], 1), "e");
}

#[test]
fn hash_of_entries_matches_known_digest() {
    let entries = two_entries();
    assert_eq!(
        compute_hash(&entries, 64),
        "bb09c19a9ae91fad14b1b1fd3fb457410c494af95da35a93fc3434f083024020"
    );
    assert_eq!(compute_hash(&entries, 8), "bb09c19a");
}

#[test]
fn hash_is_lowercase_hex() {
    let h = compute_hash(&two_entries(), 64);
    assert!(h.chars().all(|c| c.is_ascii_digit() || ('a'..='f').contains(&c)));
}

#[test]
fn hash_with_length_out_of_range_is_empty() {
    let entries = two_entries();
    assert_eq!(compute_hash(&entries, 0), "");
    assert_eq!(compute_hash(&entries, 65), "");
}

#[test]
fn checked_hash_rejects_length_out_of_range() {
    let entries = two_entries();
    assert!(matches!(
        compute_hash_checked(&entries, 0),
        Err(I18nVersionError::InvalidLength(0))
    ));
    assert!(matches!(
        compute_hash_checked(&entries, 65),
        Err(I18nVersionError::InvalidLength(65))
    ));
    assert_eq!(compute_hash_checked(&entries, 8).unwrap(), "bb09c19a");
    assert_eq!(compute_hash_checked(&entries, 64).unwrap().len(), 64);
}

#[test]
fn hasher_fed_entry_by_entry_matches_compute_hash() {
    let entries = two_entries();
    let mut hasher = VersionHasher::new();
    for e in &entries {
        hasher.update(&e.relative_path, &e.bytes);
    }
    assert_eq!(hasher.finalize(64), compute_hash(&entries, 64));

    let mut hasher = VersionHasher::default();
    hasher.update("a.json", b"{}");
    hasher.update("b.json", b"{}");
    assert_eq!(hasher.finalize(8), "bb09c19a");
}

#[test]
fn hasher_fed_nothing_gives_digest_of_empty_input() {
    assert_eq!(VersionHasher::new().finalize(12), "e3b0c44298fc");
    assert_eq!(VersionHasher::new().finalize(0), "");
}

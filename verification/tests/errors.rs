use i18n_version_core::I18nVersionError;

#[test]
fn error_display_includes_context() {
    let err = I18nVersionError::RootNotFound("/tmp/missing".into());
    assert_eq!(err.to_string(), "root path does not exist: /tmp/missing");
}

#[test]
fn error_invalid_length_message() {
    let err = I18nVersionError::InvalidLength(128);
    assert_eq!(err.to_string(), "length must be in [1, 64], got 128");
}

#[test]
fn invalid_length_message_renders_small_and_large_numbers() {
    assert_eq!(
        I18nVersionError::InvalidLength(0).to_string(),
        "length must be in [1, 64], got 0"
    );
    assert_eq!(
        I18nVersionError::InvalidLength(65).to_string(),
        "length must be in [1, 64], got 65"
    );
    assert_eq!(
        I18nVersionError::InvalidLength(1000007).to_string(),
        "length must be in [1, 64], got 1000007"
    );
}

#[test]
fn scan_error_message_names_root_and_cause() {
    let err = I18nVersionError::ScanError {
        path: "/srv/locales".into(),
        message: "permission denied".into(),
    };
    assert_eq!(
        err.to_string(),
        "failed to scan directory /srv/locales: permission denied"
    );
}

#[test]
fn read_error_message_names_file_and_cause() {
    let err = I18nVersionError::ReadError {
        path: "/srv/locales/en.json".into(),
        message: "No such file or directory (os error 2)".into(),
    };
    assert_eq!(
        err.to_string(),
        "failed to read file /srv/locales/en.json: No such file or directory (os error 2)"
    );
}

#[test]
fn invalid_glob_message_names_pattern_and_cause() {
    let err = I18nVersionError::InvalidGlob {
        pattern: "a[".into(),
        message: "Pattern syntax error near position 1: invalid range pattern".into(),
    };
    assert_eq!(
        err.to_string(),
        "invalid glob pattern a[: Pattern syntax error near position 1: invalid range pattern"
    );
}

#[test]
fn invalid_json_message_names_file_and_cause() {
    let err = I18nVersionError::InvalidJson {
        path: "fr.json".into(),
        message: "EOF while parsing an object at line 1 column 1".into(),
    };
    assert_eq!(
        err.to_string(),
        "invalid JSON in fr.json: EOF while parsing an object at line 1 column 1"
    );
}

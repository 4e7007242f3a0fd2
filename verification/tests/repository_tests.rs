use revius::repository::{
    check_meta_version, check_repository_version, check_schema_version, existing_repo_error, initial_meta, parse_i64,
    parse_schema_version,
};
use revius::ReviusError;

#[test]
fn signed_numbers() {
    assert_eq!(parse_i64("42"), Some(42));
    assert_eq!(parse_i64("+42"), Some(42));
    assert_eq!(parse_i64("-42"), Some(-42));
    assert_eq!(parse_i64("-9223372036854775808"), Some(i64::MIN));
    assert_eq!(parse_i64("9223372036854775807"), Some(i64::MAX));
    assert_eq!(parse_i64("9223372036854775808"), None);
    assert_eq!(parse_i64("-+1"), None);
    assert_eq!(parse_i64("-"), None);
    assert_eq!(parse_i64(""), None);
    assert_eq!(parse_i64("1x"), None);
}

#[test]
fn schema_versions() {
    assert_eq!(parse_schema_version("1").unwrap(), 1);
    match parse_schema_version("one") {
        Err(ReviusError::Db(m)) => assert_eq!(m, "Invalid schema version format: one"),
        _ => panic!("expected an error"),
    }
    assert!(check_schema_version(1).is_ok());
    match check_schema_version(2) {
        Err(ReviusError::Config(m)) => assert_eq!(
            m,
            "Repository uses schema version 2, but this Revius version only supports up to 1.\nPlease upgrade Revius to open this repository."
        ),
        _ => panic!("expected an error"),
    }
    match check_schema_version(0) {
        Err(ReviusError::Config(m)) => assert!(m.starts_with("Repository uses outdated schema version 0 (current: 1).")),
        _ => panic!("expected an error"),
    }
    assert!(check_repository_version(1).is_ok());
    assert!(check_repository_version(-3).is_ok());
    match check_repository_version(5) {
        Err(ReviusError::Db(m)) => assert_eq!(m, "Repository version 5 is too new for this client (max supported: 1)"),
        _ => panic!("expected an error"),
    }
}

#[test]
fn stored_version_when_opening() {
    assert!(check_meta_version(Some("1")).is_ok());
    assert!(matches!(check_meta_version(None), Err(ReviusError::Corrupt(m)) if m == "Missing schema_version in Meta"));
    assert!(matches!(check_meta_version(Some("x")), Err(ReviusError::Corrupt(m)) if m == "Invalid schema_version in Meta"));
    assert!(matches!(check_meta_version(Some("3000000000")), Err(ReviusError::Corrupt(m)) if m == "Invalid schema_version in Meta"));
    assert!(matches!(check_meta_version(Some("2")), Err(ReviusError::Corrupt(m)) if m == "Unsupported repository version: 2"));
}

#[test]
fn new_repository_metadata() {
    let m = initial_meta("u-1");
    let pairs: Vec<(&str, &str)> = m.iter().map(|(k, v)| (k.as_str(), v.as_str())).collect();
    assert_eq!(pairs, vec![("schema_version", "1"), ("repository_uuid", "u-1"), ("HEAD", "ref: refs/heads/main")]);
}

#[test]
fn existing_repository_errors() {
    assert!(matches!(existing_repo_error(Ok("/r".to_string())), ReviusError::AlreadyInitialized(s) if s == "/r"));
    assert!(matches!(existing_repo_error(Err(ReviusError::Corrupt("bad".to_string()))),
        ReviusError::Corrupt(s) if s == "existing .rvs found but repo is corrupt: bad"));
    assert!(matches!(existing_repo_error(Err(ReviusError::NoCommitsYet)),
        ReviusError::Corrupt(s) if s == "existing .rvs found but cannot open repository"));
    assert_eq!(ReviusError::Usage("x".to_string()).exit_code(), 2);
    assert_eq!(ReviusError::Permission("x".to_string()).exit_code(), 126);
    assert_eq!(ReviusError::Cancelled.exit_code(), 130);
    assert_eq!(ReviusError::NoCommitsYet.exit_code(), 1);
}

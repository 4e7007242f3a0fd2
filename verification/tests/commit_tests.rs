use revius::commit::{commit_action, commit_author, commit_object_hash, parse_merge_head, staged_tree};
use revius::hash::digest;
use revius::models::objects::StagedFile;
use revius::models::serialization::serialize_commit;
use revius::ReviusError;

#[test]
fn merge_head_is_read_as_trimmed_hex() {
    let text = format!("  {}\n", "ab".repeat(32));
    assert_eq!(parse_merge_head(text.as_bytes()), Some([0xab; 32]));
    assert_eq!(parse_merge_head(b"xyz"), None);
    assert_eq!(parse_merge_head("ab".repeat(31).as_bytes()), None);
    assert_eq!(parse_merge_head(&[0xff, 0xfe]), None);
    let nbsp = format!("\u{a0}{}\u{3000}", "01".repeat(32));
    assert_eq!(parse_merge_head(nbsp.as_bytes()), Some([1; 32]));
}

#[test]
fn reflog_actions_of_commits() {
    assert_eq!(commit_action("fix", false), "commit: fix");
    assert_eq!(commit_action("join", true), "merge: join");
}

#[test]
fn author_must_be_configured() {
    let (n, e) = commit_author(&Some("A".to_string()), &Some("a@b".to_string())).unwrap();
    assert_eq!((n.as_str(), e.as_str()), ("A", "a@b"));
    assert!(matches!(commit_author(&None, &Some("a@b".to_string())), Err(ReviusError::Config(m)) if m == "User name not configured"));
    assert!(matches!(commit_author(&Some("A".to_string()), &None), Err(ReviusError::Config(m)) if m == "User email not configured"));
}

#[test]
fn empty_staging_cannot_be_committed() {
    assert!(matches!(staged_tree(vec![]), Err(ReviusError::Usage(m)) if m == "Nothing to commit (staging area is empty)"));
    let files = vec![StagedFile { path: "a".to_string(), file_hash: [1; 32], mode: 33188, size: 1, modified_at: 0 }];
    let (_, n) = staged_tree(files).unwrap();
    assert_eq!(n, 1);
}

#[test]
fn commit_hash_is_digest_of_its_text() {
    let h = commit_object_hash(&[1; 32], Some(&[2; 32]), None, "A", "a@b", 5, "msg").unwrap();
    let text = serialize_commit(&[1; 32], Some(&[2; 32]), None, "A", "a@b", 5, "msg").unwrap();
    assert_eq!(h, digest(&text));
    assert!(matches!(commit_object_hash(&[1; 32], None, None, "A\n", "a@b", 5, "m"),
        Err(ReviusError::Db(m)) if m == "Failed to serialize commit: Author name cannot contain newlines"));
}

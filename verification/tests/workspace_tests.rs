use revius::models::objects::StagedFile;
use revius::refs::HeadState;
use revius::workspace::{
    head_update_refs, in_any_scope, matches_any_pattern, plan_restore, reflog_target, reset_action, stage_decision,
    stage_outcome, trusted_staged_hash, StageOutcome,
};

fn strings(v: &[&str]) -> Vec<String> {
    v.iter().map(|s| s.to_string()).collect()
}

#[test]
fn patterns_select_paths() {
    let pats = strings(&["src"]);
    assert!(matches_any_pattern("src", &pats));
    assert!(matches_any_pattern("src/main.rs", &pats));
    assert!(!matches_any_pattern("src_backup/a", &pats));
    assert!(matches_any_pattern("anything", &strings(&["."])));
    assert!(matches_any_pattern("anything", &strings(&[""])));
    assert!(!matches_any_pattern("a", &strings(&[])));
}

#[test]
fn scopes_for_deletions() {
    let scopes = strings(&["docs"]);
    assert!(in_any_scope("docs", &scopes));
    assert!(in_any_scope("docs/a.md", &scopes));
    assert!(!in_any_scope("docsx/a.md", &scopes));
    // The separator is looked for at the scope's length in bytes, counted in characters.
    assert!(!in_any_scope("é/x", &strings(&["é"])));
    assert!(in_any_scope("é/x/y", &strings(&["é"])) == false);
}

#[test]
fn staging_decisions() {
    assert_eq!(stage_decision(&None, &[1; 32]), Some(true));
    assert_eq!(stage_decision(&Some([1; 32]), &[1; 32]), None);
    assert_eq!(stage_decision(&Some([1; 32]), &[2; 32]), Some(false));
    assert!(matches!(stage_outcome(true, 3), StageOutcome::Added { blobs: 3 }));
    assert!(matches!(stage_outcome(false, 0), StageOutcome::Modified { blobs: 0 }));
}

#[test]
fn staged_hash_is_trusted_only_when_metadata_matches() {
    let s = StagedFile { path: "a".to_string(), file_hash: [4; 32], mode: 33188, size: 10, modified_at: 99 };
    assert_eq!(trusted_staged_hash(Some(&s), 99, 10), Some([4; 32]));
    assert_eq!(trusted_staged_hash(Some(&s), 98, 10), None);
    assert_eq!(trusted_staged_hash(Some(&s), 99, 11), None);
    assert_eq!(trusted_staged_hash(None, 99, 10), None);
}

#[test]
fn restore_plan() {
    let source = vec![
        ("src/a".to_string(), [1u8; 32], 33188u32, 3u64),
        ("docs/b".to_string(), [2u8; 32], 33188u32, 4u64),
    ];
    let staged = strings(&["src/a", "src/gone", "docs/c"]);
    let plan = plan_restore(&source, &staged, &strings(&["src"]));
    assert_eq!(plan.upserts.len(), 1);
    assert_eq!(plan.upserts[0].0, "src/a");
    assert_eq!(plan.removals, strings(&["src/gone"]));
    assert_eq!(plan.count, 2);
    let all = plan_restore(&source, &staged, &strings(&["."]));
    assert_eq!(all.upserts.len(), 2);
    assert_eq!(all.removals, strings(&["src/gone", "docs/c"]));
    assert_eq!(all.count, 4);
}

#[test]
fn reflog_targets() {
    assert_eq!(reflog_target(None), None);
    assert_eq!(reflog_target(Some("HEAD")).as_deref(), Some("HEAD"));
    assert_eq!(reflog_target(Some("refs/tags/v1")).as_deref(), Some("refs/tags/v1"));
    assert_eq!(reflog_target(Some("dev")).as_deref(), Some("refs/heads/dev"));
}

#[test]
fn head_moves_are_logged_on_head_and_branch() {
    assert_eq!(head_update_refs(&HeadState::Branch("refs/heads/main".to_string())), strings(&["HEAD", "refs/heads/main"]));
    assert_eq!(head_update_refs(&HeadState::Detached([0; 32])), strings(&["HEAD"]));
}

#[test]
fn reset_message() {
    assert_eq!(reset_action(&[0x12; 32]), "reset: moving to 12121212");
}

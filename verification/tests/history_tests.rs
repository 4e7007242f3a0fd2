use revius::branch::{branch_ref_path, extract_branch_name, get_current_branch_name, plan_create_branch, plan_delete_branch};
use revius::graph::{CommitGraph, CommitNode};
use revius::models::objects::{HeadState as FullHead, StagedFile};
use revius::refs::{get_head_state, head_value_for_branch, infer_ref_type, resolve_head, HeadState};
use revius::resolve::{
    find_commits_by_prefix, hash_matches_prefix, hex_prefix_to_bytes, is_valid_hash_prefix, parse_ancestry,
    resolve_commit_hash, resolve_target, ResolvedTarget,
};
use revius::status::get_status_info;
use revius::switch::{
    build_switch_plan, check_switch_target, check_uncommitted_changes, create_switch_reflog_action, format_target_name,
    get_current_head_state, new_head_state, switch_reflog_action,
};
use revius::ReviusError;

fn h(n: u8) -> [u8; 32] {
    [n; 32]
}

fn node(n: u8, p: Option<u8>) -> CommitNode {
    CommitNode { hash: h(n), parent_hash: p.map(h), merge_parent_hash: None }
}

fn line() -> CommitGraph {
    CommitGraph { nodes: vec![node(1, None), node(2, Some(1)), node(3, Some(2))] }
}

fn refs() -> Vec<(String, [u8; 32])> {
    vec![("refs/heads/main".to_string(), h(3)), ("refs/tags/v1".to_string(), h(1)), ("refs/heads/old".to_string(), h(1))]
}

fn staged(p: &str, n: u8) -> StagedFile {
    StagedFile { path: p.to_string(), file_hash: h(n), mode: 33188, size: 1, modified_at: 0 }
}

#[test]
fn head_records() {
    assert!(matches!(get_head_state(Some("ref: refs/heads/main")), Ok(HeadState::Branch(p)) if p == "refs/heads/main"));
    assert!(matches!(get_head_state(Some(&"07".repeat(32))), Ok(HeadState::Detached(x)) if x == h(7)));
    assert!(matches!(get_head_state(Some("07")), Err(ReviusError::Db(_))));
    assert!(matches!(get_head_state(None), Err(ReviusError::Db(_))));
    assert_eq!(head_value_for_branch("dev"), "ref: refs/heads/dev");
    assert_eq!(infer_ref_type("refs/heads/x").unwrap(), 0);
    assert_eq!(infer_ref_type("refs/tags/x").unwrap(), 1);
    assert_eq!(infer_ref_type("refs/remotes/o/x").unwrap(), 2);
    assert!(matches!(infer_ref_type("x"), Err(ReviusError::Db(m)) if m == "Unknown ref type for path: x"));
    assert_eq!(resolve_head(&HeadState::Branch("refs/heads/main".to_string()), &refs()), Some(h(3)));
    assert_eq!(resolve_head(&HeadState::Branch("refs/heads/none".to_string()), &refs()), None);
}

#[test]
fn branch_paths_and_names() {
    assert_eq!(branch_ref_path("dev"), "refs/heads/dev");
    assert_eq!(extract_branch_name("refs/heads/dev").unwrap(), "dev");
    assert!(matches!(extract_branch_name("refs/tags/v"), Err(ReviusError::Db(_))));
    assert_eq!(get_current_branch_name(&HeadState::Branch("refs/heads/main".to_string())).unwrap().as_deref(), Some("main"));
    assert_eq!(get_current_branch_name(&HeadState::Detached(h(1))).unwrap(), None);
}

#[test]
fn creating_and_deleting_branches() {
    let head = HeadState::Branch("refs/heads/main".to_string());
    assert_eq!(plan_create_branch("dev", &refs(), &head).unwrap(), h(3));
    assert!(matches!(plan_create_branch("old", &refs(), &head), Err(ReviusError::BranchAlreadyExists(n)) if n == "old"));
    assert!(matches!(plan_create_branch("dev", &vec![], &head), Err(ReviusError::NoCommitsYet)));
    assert!(matches!(plan_delete_branch("nope", false, &refs(), &head, &line()), Err(ReviusError::BranchNotFound(n)) if n == "nope"));
    assert!(matches!(plan_delete_branch("main", false, &refs(), &head, &line()), Err(ReviusError::CannotDeleteCurrentBranch(_))));
    assert_eq!(plan_delete_branch("old", false, &refs(), &head, &line()).unwrap(), h(1));
}

#[test]
fn deleting_a_merged_branch_whose_commit_lies_on_a_long_path() {
    // main at 10 has the branch's commit 20 among its ancestors by a long
    // path, and a short path to the root 30 besides.
    let g = CommitGraph {
        nodes: vec![
            CommitNode { hash: h(10), parent_hash: Some(h(11)), merge_parent_hash: Some(h(13)) },
            node(11, Some(12)),
            node(12, Some(20)),
            node(13, Some(30)),
            node(20, Some(30)),
            node(30, None),
        ],
    };
    let refs = vec![("refs/heads/main".to_string(), h(10)), ("refs/heads/topic".to_string(), h(20))];
    let head = HeadState::Branch("refs/heads/main".to_string());
    assert_eq!(plan_delete_branch("topic", false, &refs, &head, &g).unwrap(), h(20));
    assert_eq!(plan_delete_branch("topic", true, &refs, &head, &g).unwrap(), h(20));
    let refs2 = vec![("refs/heads/main".to_string(), h(13)), ("refs/heads/topic".to_string(), h(20))];
    match plan_delete_branch("topic", false, &refs2, &head, &g) {
        Err(ReviusError::Usage(m)) => assert_eq!(
            m,
            "The branch 'topic' is not fully merged. If you are sure you want to delete it, run 'rvs branch -D topic'."
        ),
        _ => panic!("expected a refusal"),
    }
}

#[test]
fn revision_texts() {
    assert_eq!(parse_ancestry("main~2"), ("main".to_string(), 2));
    assert_eq!(parse_ancestry("main^"), ("main".to_string(), 1));
    assert_eq!(parse_ancestry("main"), ("main".to_string(), 0));
    assert!(is_valid_hash_prefix("0a1B"));
    assert!(!is_valid_hash_prefix(""));
    assert!(!is_valid_hash_prefix("xyz"));
    let (bytes, n) = hex_prefix_to_bytes("abc");
    assert_eq!(n, 3);
    assert_eq!(bytes[0], 0xab);
    assert_eq!(bytes[1] >> 4, 0xc);
    assert!(hash_matches_prefix(&[0xab, 0xcd, 0], &bytes, 3));
    assert!(!hash_matches_prefix(&[0xab, 0xdd, 0], &bytes, 3));
}

#[test]
fn resolving_targets() {
    let head = HeadState::Branch("refs/heads/main".to_string());
    let g = line();
    let r = refs();
    assert!(matches!(resolve_target("HEAD", &head, &r, &g), Ok(ResolvedTarget::Branch(n, x)) if n == "main" && x == h(3)));
    assert!(matches!(resolve_target("main", &head, &r, &g), Ok(ResolvedTarget::Branch(n, _)) if n == "main"));
    assert!(matches!(resolve_target("v1", &head, &r, &g), Ok(ResolvedTarget::Commit(x)) if x == h(1)));
    assert!(matches!(resolve_target("0202", &head, &r, &g), Ok(ResolvedTarget::Commit(x)) if x == h(2)));
    assert!(matches!(resolve_target("main~1", &head, &r, &g), Ok(ResolvedTarget::Commit(x)) if x == h(2)));
    assert!(matches!(resolve_target("main~3", &head, &r, &g), Err(ReviusError::TargetNotFound(_))));
    assert!(matches!(resolve_target("ffff", &head, &r, &g), Err(ReviusError::CommitNotFound(_))));
    assert!(matches!(resolve_target("nothing-here", &head, &r, &g), Err(ReviusError::TargetNotFound(t)) if t == "nothing-here"));
    assert_eq!(resolve_commit_hash("main^", &head, &r, &g).unwrap(), h(2));
    let twins = CommitGraph { nodes: vec![node(0xa1, None), CommitNode { hash: { let mut x = h(0xa1); x[31] = 0; x }, parent_hash: None, merge_parent_hash: None }] };
    assert!(matches!(resolve_target("a1", &head, &r, &twins), Err(ReviusError::AmbiguousHashPrefix(_))));
    assert_eq!(find_commits_by_prefix(&g, "01").unwrap(), vec![h(1)]);
    assert!(matches!(find_commits_by_prefix(&g, "zz"), Err(ReviusError::InvalidHashPrefix(_))));
}

#[test]
fn status_lists() {
    let head = vec![("a".to_string(), h(1)), ("b".to_string(), h(1)), ("c".to_string(), h(1))];
    let staging = vec![staged("a", 1), staged("b", 2), staged("n", 3)];
    let work = vec![("a".to_string(), h(9)), ("n".to_string(), h(3)), ("u".to_string(), h(4))];
    let s = get_status_info(Some("main".to_string()), None, &head, &staging, &work);
    assert_eq!(s.staged_new, vec!["n".to_string()]);
    assert_eq!(s.staged_modified, vec!["b".to_string()]);
    assert_eq!(s.staged_deleted, vec!["c".to_string()]);
    assert_eq!(s.unstaged_modified, vec!["a".to_string()]);
    assert_eq!(s.unstaged_deleted, vec!["b".to_string()]);
    assert_eq!(s.untracked, vec!["u".to_string()]);
    assert!(s.has_changes());
    assert!(s.has_staged_changes());
}

#[test]
fn switching() {
    let current = vec![("a".to_string(), h(1), 33188u32, 1u64), ("b".to_string(), h(1), 33188u32, 1u64)];
    let target = vec![("a".to_string(), h(2), 33188u32, 1u64), ("c".to_string(), h(3), 33261u32, 1u64)];
    let plan = build_switch_plan(&current, &target);
    assert_eq!(plan.to_add, vec![("c".to_string(), h(3), 33261)]);
    assert_eq!(plan.to_modify, vec![("a".to_string(), h(2), 33188)]);
    assert_eq!(plan.to_delete, vec!["b".to_string()]);
    let staging = vec![staged("a", 1)];
    assert!(!check_uncommitted_changes(&vec![("a".to_string(), h(1))], &staging));
    assert!(check_uncommitted_changes(&vec![("a".to_string(), h(2))], &staging));
    assert!(check_uncommitted_changes(&vec![], &staging));
    assert!(check_uncommitted_changes(&vec![("a".to_string(), h(1)), ("z".to_string(), h(1))], &staging));
    let t = ResolvedTarget::Branch("dev".to_string(), h(5));
    assert_eq!(format_target_name(&t), "branch 'dev'");
    assert_eq!(format_target_name(&ResolvedTarget::Commit(h(0x1f))), "commit '1f1f1f1f'");
    assert!(matches!(check_switch_target(&FullHead::Branch("dev".to_string(), h(5)), &t), Err(ReviusError::Usage(m)) if m == "Already on branch 'dev'"));
    assert!(check_switch_target(&FullHead::Branch("main".to_string(), h(5)), &t).is_ok());
    assert!(matches!(new_head_state(&t), FullHead::Branch(n, x) if n == "dev" && x == h(5)));
    assert_eq!(switch_reflog_action(&t), "[\"switch\", \"dev\"]");
    assert_eq!(create_switch_reflog_action("x"), "[\"switch\", \"-c\", \"x\"]");
    let (state, hash) = get_current_head_state(&HeadState::Branch("refs/heads/main".to_string()), &refs());
    assert!(matches!(state, FullHead::Branch(n, x) if n == "main" && x == h(3)));
    assert_eq!(hash, Some(h(3)));
    let (state, hash) = get_current_head_state(&HeadState::Branch("refs/heads/new".to_string()), &refs());
    assert!(matches!(state, FullHead::Branch(n, x) if n == "new" && x == [0; 32]));
    assert_eq!(hash, None);
}

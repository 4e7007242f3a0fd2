use revius::graph::{CommitGraph, CommitNode, find_merge_base, commit_parents};
use revius::merge::{
    conflict_list, generate_conflict_content, merge_commit_message, merge_head_content, plan_merge,
    plan_three_way_merge, ConflictType, MergeStrategy, SnapshotEntry,
};
use revius::ReviusError;

fn h(n: u8) -> [u8; 32] {
    [n; 32]
}

fn snap(entries: &[(&str, u8)]) -> Vec<SnapshotEntry> {
    entries.iter().map(|(p, n)| SnapshotEntry { path: p.to_string(), hash: Some(h(*n)), mode: 33188 }).collect()
}

fn node(n: u8, p: Option<u8>, m: Option<u8>) -> CommitNode {
    CommitNode { hash: h(n), parent_hash: p.map(h), merge_parent_hash: m.map(h) }
}

/// Base 1; ours 2 and theirs 3 branch from it; 4 merges 2 and 3.
fn diamond() -> CommitGraph {
    CommitGraph { nodes: vec![node(1, None, None), node(2, Some(1), None), node(3, Some(1), None), node(4, Some(2), Some(3))] }
}

fn clean_hash(plan: &revius::merge::MergePlan, path: &str) -> Option<[u8; 32]> {
    plan.clean.iter().find(|c| c.0 == path).map(|c| c.1)
}

#[test]
fn one_sided_changes_merge_cleanly() {
    let base = snap(&[("a", 1), ("b", 1), ("c", 1)]);
    let ours = snap(&[("a", 2), ("b", 1), ("c", 1), ("new_ours", 5)]);
    let theirs = snap(&[("a", 1), ("b", 3), ("new_theirs", 6)]);
    let plan = plan_three_way_merge(&base, &ours, &theirs);
    assert!(plan.conflicts.is_empty());
    assert_eq!(clean_hash(&plan, "a"), Some(h(2)));
    assert_eq!(clean_hash(&plan, "b"), Some(h(3)));
    assert_eq!(clean_hash(&plan, "c"), None);
    assert_eq!(clean_hash(&plan, "new_ours"), Some(h(5)));
    assert_eq!(clean_hash(&plan, "new_theirs"), Some(h(6)));
    assert_eq!(plan.clean.len(), 4);
}

#[test]
fn same_change_on_both_sides_is_clean() {
    let plan = plan_three_way_merge(&snap(&[("a", 1)]), &snap(&[("a", 2), ("n", 4)]), &snap(&[("a", 2), ("n", 4)]));
    assert!(plan.conflicts.is_empty());
    assert_eq!(clean_hash(&plan, "a"), Some(h(2)));
    assert_eq!(clean_hash(&plan, "n"), Some(h(4)));
}

#[test]
fn conflicts_are_classified() {
    let base = snap(&[("both", 1), ("del_them", 1), ("del_us", 1)]);
    let ours = snap(&[("both", 2), ("del_them", 2), ("added", 7)]);
    let theirs = snap(&[("both", 3), ("del_us", 3), ("added", 8)]);
    let plan = plan_three_way_merge(&base, &ours, &theirs);
    assert!(plan.clean.is_empty());
    assert_eq!(plan.conflicts.len(), 4);
    let kind = |p: &str| plan.conflicts.iter().find(|c| c.path == p).unwrap().conflict_type;
    assert_eq!(kind("both"), ConflictType::BothModified);
    assert_eq!(kind("del_them"), ConflictType::DeletedByThemModifiedByUs);
    assert_eq!(kind("del_us"), ConflictType::DeletedByUsModifiedByThem);
    assert_eq!(kind("added"), ConflictType::BothAdded);
    let c = plan.conflicts.iter().find(|c| c.path == "del_us").unwrap();
    assert_eq!(c.our, None);
    assert_eq!(c.their, Some(h(3)));
    assert_eq!(c.base, Some(h(1)));
    let list = conflict_list(&plan);
    assert_eq!(list.len(), 4);
}

#[test]
fn deletions_without_changes_drop_the_file() {
    let plan = plan_three_way_merge(&snap(&[("x", 1), ("y", 1)]), &snap(&[("y", 1)]), &snap(&[("x", 1)]));
    assert!(plan.clean.is_empty());
    assert!(plan.conflicts.is_empty());
}

#[test]
fn text_conflicts_get_markers() {
    let (content, text) = generate_conflict_content(b"ours line", b"theirs line");
    assert!(text);
    assert_eq!(content, b"<<<<<<< HEAD\nours line\n=======\ntheirs line\n>>>>>>> MERGE_HEAD\n".to_vec());
}

#[test]
fn binary_conflicts_keep_our_version() {
    let (content, text) = generate_conflict_content(&[0xff, 0xfe, 0x00], b"text");
    assert!(!text);
    assert_eq!(content, vec![0xff, 0xfe, 0x00]);
}

#[test]
fn merge_messages() {
    let mut x = [0u8; 32];
    x[0] = 0xab;
    x[1] = 0xcd;
    assert_eq!(merge_commit_message(&x), "Merge commit abcd0000");
    assert_eq!(merge_head_content(&h(0x0f)), "0f".repeat(32).into_bytes());
}

#[test]
fn merge_base_of_diamond() {
    let g = diamond();
    assert_eq!(find_merge_base(&g, h(2), h(3)).unwrap(), Some(h(1)));
    assert_eq!(find_merge_base(&g, h(2), h(2)).unwrap(), Some(h(2)));
    assert_eq!(find_merge_base(&g, h(2), h(4)).unwrap(), Some(h(2)));
}

#[test]
fn merge_base_of_unrelated_histories_is_none() {
    let g = CommitGraph { nodes: vec![node(1, None, None), node(2, None, None)] };
    assert_eq!(find_merge_base(&g, h(1), h(2)).unwrap(), None);
}

#[test]
fn parents_come_first_parent_first() {
    let g = diamond();
    assert_eq!(commit_parents(&g, &h(4)).unwrap(), vec![h(2), h(3)]);
    assert!(matches!(commit_parents(&g, &h(9)), Err(ReviusError::CommitNotFound(_))));
}

#[test]
fn merge_strategies() {
    let g = diamond();
    assert!(matches!(plan_merge(&g, None, h(1)), Err(ReviusError::NoCommitsYet)));
    assert!(matches!(plan_merge(&g, Some(h(2)), h(2)), Ok(MergeStrategy::AlreadyUpToDate)));
    assert!(matches!(plan_merge(&g, Some(h(4)), h(1)), Ok(MergeStrategy::AlreadyUpToDate)));
    match plan_merge(&g, Some(h(2)), h(4)) {
        Ok(MergeStrategy::FastForward { from, to }) => {
            assert_eq!(from, h(2));
            assert_eq!(to, h(4));
        },
        _ => panic!("expected a fast-forward"),
    }
    match plan_merge(&g, Some(h(2)), h(3)) {
        Ok(MergeStrategy::ThreeWay { ours, theirs, base }) => {
            assert_eq!((ours, theirs, base), (h(2), h(3), h(1)));
        },
        _ => panic!("expected a three-way merge"),
    }
    let unrelated = CommitGraph { nodes: vec![node(1, None, None), node(2, None, None)] };
    match plan_merge(&unrelated, Some(h(1)), h(2)) {
        Err(ReviusError::MergeError(m)) => assert_eq!(m, "No common ancestor found"),
        _ => panic!("expected a merge error"),
    }
}

/// 10 has first parent 11 and merge parent 13; 11 -> 12 -> 20 -> 30 and
/// 13 -> 30; 30 is a root.
fn long_and_short_paths() -> CommitGraph {
    CommitGraph {
        nodes: vec![
            node(10, Some(11), Some(13)),
            node(11, Some(12), None),
            node(12, Some(20), None),
            node(13, Some(30), None),
            node(20, Some(30), None),
            node(30, None, None),
        ],
    }
}

#[test]
fn merge_base_is_a_lowest_common_ancestor() {
    let g = long_and_short_paths();
    // 20 is an ancestor of 10 by the long path, and 30 lies below both.
    assert_eq!(find_merge_base(&g, h(10), h(20)).unwrap(), Some(h(20)));
    assert_eq!(find_merge_base(&g, h(20), h(10)).unwrap(), Some(h(20)));
    assert_eq!(find_merge_base(&g, h(13), h(12)).unwrap(), Some(h(30)));
    assert!(matches!(plan_merge(&g, Some(h(10)), h(20)), Ok(MergeStrategy::AlreadyUpToDate)));
    match plan_merge(&g, Some(h(20)), h(10)) {
        Ok(MergeStrategy::FastForward { from, to }) => assert_eq!((from, to), (h(20), h(10))),
        _ => panic!("expected a fast-forward"),
    }
    match plan_merge(&g, Some(h(13)), h(12)) {
        Ok(MergeStrategy::ThreeWay { ours, theirs, base }) => assert_eq!((ours, theirs, base), (h(13), h(12), h(30))),
        _ => panic!("expected a three-way merge"),
    }
}

#[test]
fn merge_base_with_a_shortcut_to_the_root() {
    // 1 has parents 2 and 3; 2 -> 4; 4 -> 3; 3 is a root.
    let g = CommitGraph { nodes: vec![node(1, Some(2), Some(3)), node(2, Some(4), None), node(4, Some(3), None), node(3, None, None)] };
    assert_eq!(find_merge_base(&g, h(1), h(4)).unwrap(), Some(h(4)));
    assert!(matches!(plan_merge(&g, Some(h(1)), h(4)), Ok(MergeStrategy::AlreadyUpToDate)));
}

#[test]
fn merge_base_search_stops_at_a_missing_commit() {
    let g = CommitGraph { nodes: vec![node(1, Some(9), None), node(2, None, None)] };
    assert!(matches!(find_merge_base(&g, h(1), h(2)), Err(ReviusError::CommitNotFound(_))));
    assert!(matches!(plan_merge(&g, Some(h(1)), h(2)), Err(ReviusError::CommitNotFound(_))));
}

#[test]
fn ancestors_are_listed_once() {
    let g = diamond();
    let mut a = revius::graph::ancestors(&g, h(4)).unwrap();
    assert_eq!(a[0], h(4));
    a.sort();
    assert_eq!(a, vec![h(1), h(2), h(3), h(4)]);
    assert_eq!(revius::graph::ancestors(&g, h(1)).unwrap(), vec![h(1)]);
    let broken = CommitGraph { nodes: vec![node(1, Some(9), None)] };
    assert!(matches!(revius::graph::ancestors(&broken, h(1)), Err(ReviusError::CommitNotFound(_))));
}

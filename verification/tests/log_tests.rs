use revius::graph::{CommitGraph, CommitNode};
use revius::log::{first_line, graph_ref_name, history_order, layout_graph, ref_display_name, refs_for};
use revius::models::objects::CommitInfo;

fn h(n: u8) -> [u8; 32] {
    [n; 32]
}

fn node(n: u8, p: Option<u8>, m: Option<u8>) -> CommitNode {
    CommitNode { hash: h(n), parent_hash: p.map(h), merge_parent_hash: m.map(h) }
}

/// 1 is the root; 2 and 3 build on it; 4 merges 3 into 2.
fn diamond() -> CommitGraph {
    CommitGraph { nodes: vec![node(1, None, None), node(2, Some(1), None), node(3, Some(1), None), node(4, Some(2), Some(3))] }
}

fn info(n: u8, p: Option<u8>, m: Option<u8>) -> CommitInfo {
    CommitInfo {
        hash: h(n),
        parent_hash: p.map(h),
        merge_parent_hash: m.map(h),
        tree_hash: h(0),
        author_name: "A".to_string(),
        author_email: "a@b".to_string(),
        timestamp: 0,
        message: "m".to_string(),
        refs: vec![],
    }
}

#[test]
fn history_is_breadth_first_and_lists_each_commit_once() {
    let g = diamond();
    assert_eq!(history_order(&g, Some(h(4)), false, None), vec![h(4), h(2), h(3), h(1)]);
}

#[test]
fn history_first_parent_only() {
    assert_eq!(history_order(&diamond(), Some(h(4)), true, None), vec![h(4), h(2), h(1)]);
}

#[test]
fn history_limit() {
    let g = diamond();
    assert_eq!(history_order(&g, Some(h(4)), false, Some(2)), vec![h(4), h(2)]);
    assert!(history_order(&g, Some(h(4)), false, Some(0)).is_empty());
    assert_eq!(history_order(&g, Some(h(4)), false, Some(1)), vec![h(4)]);
}

#[test]
fn history_without_head_is_empty_and_unknown_commits_are_skipped() {
    let g = diamond();
    assert!(history_order(&g, None, false, None).is_empty());
    assert!(history_order(&g, Some(h(9)), false, None).is_empty());
    let broken = CommitGraph { nodes: vec![node(5, Some(9), None)] };
    assert_eq!(history_order(&broken, Some(h(5)), false, None), vec![h(5)]);
}

#[test]
fn graph_lanes_for_a_merge() {
    let commits = vec![info(4, Some(2), Some(3)), info(2, Some(1), None), info(3, Some(1), None), info(1, None, None)];
    let rows = layout_graph(&commits);
    let got: Vec<(usize, usize, bool)> = rows.iter().map(|r| (r.lane, r.width, r.connector)).collect();
    assert_eq!(got, vec![(0, 1, true), (0, 2, false), (1, 2, false), (0, 1, false)]);
}

#[test]
fn graph_lanes_for_a_line() {
    let commits = vec![info(3, Some(2), None), info(2, Some(1), None), info(1, None, None)];
    let got: Vec<(usize, usize, bool)> = layout_graph(&commits).iter().map(|r| (r.lane, r.width, r.connector)).collect();
    assert_eq!(got, vec![(0, 1, false), (0, 1, false), (0, 1, false)]);
}

#[test]
fn graph_lanes_for_two_tips() {
    let commits = vec![info(5, Some(1), None), info(6, Some(1), None), info(1, None, None)];
    let got: Vec<(usize, usize, bool)> = layout_graph(&commits).iter().map(|r| (r.lane, r.width, r.connector)).collect();
    assert_eq!(got, vec![(0, 1, false), (1, 2, false), (0, 1, false)]);
}

#[test]
fn refs_pointing_at_a_commit() {
    let refs = vec![("refs/heads/main".to_string(), h(1)), ("refs/tags/v1".to_string(), h(2)), ("refs/heads/dev".to_string(), h(1))];
    assert_eq!(refs_for(&refs, &h(1)), vec!["refs/heads/main".to_string(), "refs/heads/dev".to_string()]);
    assert!(refs_for(&refs, &h(3)).is_empty());
}

#[test]
fn ref_names_as_shown() {
    assert_eq!(ref_display_name("refs/heads/main"), "main");
    assert_eq!(ref_display_name("refs/tags/v1"), "v1");
    assert_eq!(ref_display_name("HEAD"), "HEAD");
    assert_eq!(graph_ref_name("refs/heads/main"), "main");
    assert_eq!(graph_ref_name("refs/tags/v1"), "refs/tags/v1");
}

#[test]
fn first_line_of_messages() {
    assert_eq!(first_line("subject\nbody"), "subject");
    assert_eq!(first_line("subject\r\nbody"), "subject");
    assert_eq!(first_line(""), "");
    assert_eq!(first_line("\nsecond"), "");
    assert_eq!(first_line("only"), "only");
}

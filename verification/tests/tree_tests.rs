use revius::models::objects::{StagedFile, TreeEntry};
use revius::tree::{build_tree_from_files, child_path, split_path_parts, write_tree, TreeNode, DIR_MODE};
use revius::hash::digest;
use revius::models::serialization::serialize_tree_entry;
use revius::ReviusError;

fn staged(path: &str, n: u8) -> StagedFile {
    StagedFile { path: path.to_string(), file_hash: [n; 32], mode: 33188, size: 1, modified_at: 0 }
}

fn names(node: &TreeNode) -> Vec<String> {
    match node {
        TreeNode::Dir { children } => children.iter().map(|c| c.0.clone()).collect(),
        TreeNode::File { .. } => vec![],
    }
}

fn child<'a>(node: &'a TreeNode, name: &str) -> &'a TreeNode {
    match node {
        TreeNode::Dir { children } => &children.iter().find(|c| c.0 == name).unwrap().1,
        TreeNode::File { .. } => panic!("not a directory"),
    }
}

#[test]
fn split_path_drops_empty_components() {
    assert_eq!(split_path_parts("/a//b/"), vec!["a".to_string(), "b".to_string()]);
    assert_eq!(split_path_parts("src/main.rs"), vec!["src".to_string(), "main.rs".to_string()]);
    assert!(split_path_parts("").is_empty());
    assert!(split_path_parts("///").is_empty());
}

#[test]
fn tree_keeps_children_sorted() {
    let root = build_tree_from_files(vec![staged("src/main.rs", 1), staged("README", 2), staged("src/lib.rs", 3)]).unwrap();
    assert_eq!(names(&root), vec!["README".to_string(), "src".to_string()]);
    let src = child(&root, "src");
    assert_eq!(names(src), vec!["lib.rs".to_string(), "main.rs".to_string()]);
    match child(src, "main.rs") {
        TreeNode::File { hash, mode } => {
            assert_eq!(*hash, [1u8; 32]);
            assert_eq!(*mode, 33188);
        },
        _ => panic!("expected a file"),
    }
}

#[test]
fn file_where_directory_is_needed_is_a_conflict() {
    let r = build_tree_from_files(vec![staged("a/b", 1), staged("a/b/c/d", 2)]);
    match r {
        Err(ReviusError::Path(m)) => assert_eq!(m, "Path conflict: 'a/b' is a file, cannot create directory for 'a/b/c/d'"),
        _ => panic!("expected a path conflict"),
    }
}

#[test]
fn file_whose_parent_is_a_file_is_a_conflict() {
    match build_tree_from_files(vec![staged("a/b", 1), staged("a/b/c", 2)]) {
        Err(ReviusError::Path(m)) => assert_eq!(m, "Path conflict: 'a/b' is a file, cannot create file 'a/b/c'"),
        _ => panic!("expected a path conflict"),
    }
}

#[test]
fn later_file_replaces_directory() {
    let root = build_tree_from_files(vec![staged("a/b", 1), staged("a", 2)]).unwrap();
    assert_eq!(names(&root), vec!["a".to_string()]);
    assert!(matches!(child(&root, "a"), TreeNode::File { .. }));
}

#[test]
fn later_staging_of_same_path_wins_and_empty_paths_are_skipped() {
    let root = build_tree_from_files(vec![staged("f", 1), staged("", 5), staged("f", 2)]).unwrap();
    assert_eq!(names(&root), vec!["f".to_string()]);
    assert!(matches!(child(&root, "f"), TreeNode::File { hash, .. } if *hash == [2u8; 32]));
}

#[test]
fn empty_staging_gives_empty_root() {
    let root = build_tree_from_files(vec![]).unwrap();
    assert!(names(&root).is_empty());
    assert!(matches!(TreeNode::new_dir(), TreeNode::Dir { children } if children.is_empty()));
    assert!(matches!(TreeNode::new_file([1; 32], 7), TreeNode::File { mode: 7, .. }));
}

#[test]
fn write_tree_hashes_entries_children_first() {
    let root = build_tree_from_files(vec![staged("d/x", 1), staged("y", 2)]).unwrap();
    let mut groups: Vec<([u8; 32], Vec<TreeEntry>)> = Vec::new();
    let h = write_tree(&root, &mut groups).unwrap();
    let sub_hash = digest(&serialize_tree_entry(33188, "x", &[1; 32]));
    let mut root_bytes = serialize_tree_entry(DIR_MODE, "d", &sub_hash);
    root_bytes.extend(serialize_tree_entry(33188, "y", &[2; 32]));
    assert_eq!(h, digest(&root_bytes));
    assert_eq!(groups.len(), 2);
    assert_eq!(groups[0].0, sub_hash);
    assert_eq!(groups[1].0, h);
    assert_eq!(groups[1].1.len(), 2);
    assert_eq!(groups[1].1[0].name, "d");
    assert!(groups[1].1[0].is_dir);
    assert_eq!(groups[1].1[0].mode, 16384);
    assert_eq!(groups[1].1[0].object_hash, sub_hash);
    assert_eq!(groups[1].1[1].parent_hash, h);
    assert!(!groups[1].1[1].is_dir);
}

#[test]
fn write_tree_refuses_a_file_node() {
    let mut groups = Vec::new();
    match write_tree(&TreeNode::File { hash: [0; 32], mode: 1 }, &mut groups) {
        Err(ReviusError::Db(m)) => assert_eq!(m, "Cannot write tree for file node"),
        _ => panic!("expected an error"),
    }
    assert!(groups.is_empty());
}

#[test]
fn child_paths_join_with_slash() {
    assert_eq!(child_path("", "a"), "a");
    assert_eq!(child_path("src/x", "a.rs"), "src/x/a.rs");
}

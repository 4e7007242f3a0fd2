use vstd::prelude::*;
use crate::hash::{digest, spec_blake3};
use crate::models::objects::TreeEntry;
use crate::models::serialization::{serialize_tree_entry, spec_tree_entry};
use crate::text::append_slice;
use crate::paths::{seq_lt, sorted_strict, lemma_sorted_distinct, lemma_lt_total, lemma_lt_trans, lemma_lt_irrefl, string_lt};

verus! {

/// An in-memory directory tree built from the staged files. A directory
/// keeps its children sorted by name, each name once.
#[derive(Debug)]
pub enum TreeNode {
    Dir { children: Vec<(String, TreeNode)> },
    File { hash: [u8; 32], mode: u32 },
}

impl TreeNode {
    /// An empty directory.
    pub fn new_dir() -> (n: TreeNode)
        ensures
            n matches TreeNode::Dir { children } && children@.len() == 0,
    {
        TreeNode::Dir { children: Vec::new() }
    }

    /// A file with the given hash and mode.
    pub fn new_file(hash: [u8; 32], mode: u32) -> (n: TreeNode)
        ensures
            n == (TreeNode::File { hash, mode }),
    {
        TreeNode::File { hash, mode }
    }
}

/// The names of a directory's children, in order.
pub open spec fn child_names(cs: Seq<(String, TreeNode)>) -> Seq<Seq<char>> {
    cs.map_values(|c: (String, TreeNode)| c.0@)
}

pub open spec fn has_child(cs: Seq<(String, TreeNode)>, name: Seq<char>) -> bool {
    exists|i: int| 0 <= i < cs.len() && (#[trigger] cs[i]).0@ == name
}

pub open spec fn child_index(cs: Seq<(String, TreeNode)>, name: Seq<char>) -> int {
    choose|i: int| 0 <= i < cs.len() && (#[trigger] cs[i]).0@ == name
}

/// The child of a directory with the given name.
pub open spec fn child_of(cs: Seq<(String, TreeNode)>, name: Seq<char>) -> Option<TreeNode> {
    if has_child(cs, name) {
        Some(cs[child_index(cs, name)].1)
    } else {
        None
    }
}

/// The node reached from `n` by following the names in `path`.
pub open spec fn node_at(n: TreeNode, path: Seq<Seq<char>>) -> Option<TreeNode>
    decreases path.len(),
{
    if path.len() == 0 {
        Some(n)
    } else {
        match n {
            TreeNode::File { .. } => None,
            TreeNode::Dir { children } => match child_of(children@, path[0]) {
                Some(c) => node_at(c, path.drop_first()),
                None => None,
            },
        }
    }
}

/// The file (hash and mode) at `path`, if a file is there.
pub open spec fn file_at(n: TreeNode, path: Seq<Seq<char>>) -> Option<(Seq<u8>, u32)> {
    match node_at(n, path) {
        Some(TreeNode::File { hash, mode }) => Some((hash@, mode)),
        _ => None,
    }
}

pub open spec fn dir_sorted(n: TreeNode) -> bool {
    match n {
        TreeNode::Dir { children } => sorted_strict(child_names(children@)),
        TreeNode::File { .. } => true,
    }
}

/// Every directory of the tree has its children strictly sorted by name.
pub open spec fn tree_wf(n: TreeNode) -> bool {
    forall|path: Seq<Seq<char>>| node_ok(#[trigger] node_at(n, path))
}

/// A node that is a directory has a child.
pub open spec fn dir_nonempty(o: Option<TreeNode>) -> bool {
    match o {
        Some(TreeNode::Dir { children }) => children@.len() > 0,
        _ => true,
    }
}

/// Every directory below the root has at least one child.
pub open spec fn no_empty_subdirs(n: TreeNode) -> bool {
    forall|path: Seq<Seq<char>>| path.len() > 0 ==> dir_nonempty(#[trigger] node_at(n, path))
}

/// Replacing the child `name` by a non-empty directory, or a file, with no
/// empty directories below keeps a directory free of empty subdirectories.
proof fn lemma_no_empty_step(old_cs: Vec<(String, TreeNode)>, cs: Vec<(String, TreeNode)>, name: Seq<char>, c: TreeNode)
    requires
        no_empty_subdirs(TreeNode::Dir { children: old_cs }),
        forall|x: Seq<char>| #[trigger] child_of(cs@, x) == (if x == name { Some(c) } else { child_of(old_cs@, x) }),
        dir_nonempty(Some(c)),
        no_empty_subdirs(c),
    ensures
        no_empty_subdirs(TreeNode::Dir { children: cs }),
{
    lemma_dir_paths(old_cs, cs, name, c);
    assert forall|path: Seq<Seq<char>>| path.len() > 0 implies dir_nonempty(#[trigger] node_at(TreeNode::Dir { children: cs }, path)) by {
        if path[0] == name {
            if path.len() == 1 {
                assert(path.drop_first() =~= Seq::<Seq<char>>::empty());
                assert(node_at(c, path.drop_first()) == Some(c));
            } else {
                assert(path.drop_first().len() > 0);
                assert(dir_nonempty(node_at(c, path.drop_first())));
            }
        } else {
            assert(dir_nonempty(node_at(TreeNode::Dir { children: old_cs }, path)));
        }
    }
}

pub open spec fn node_ok(o: Option<TreeNode>) -> bool {
    match o {
        Some(x) => dir_sorted(x),
        None => true,
    }
}

proof fn lemma_child_of_at(cs: Seq<(String, TreeNode)>, i: int)
    requires
        sorted_strict(child_names(cs)),
        0 <= i < cs.len(),
    ensures
        child_of(cs, cs[i].0@) == Some(cs[i].1),
{
    assert(child_names(cs)[i] == cs[i].0@);
    assert(has_child(cs, cs[i].0@));
    let j = child_index(cs, cs[i].0@);
    if j != i {
        lemma_sorted_distinct(child_names(cs), i, j);
        assert(child_names(cs)[j] == cs[j].0@);
    }
}

proof fn lemma_child_of_absent(cs: Seq<(String, TreeNode)>, name: Seq<char>)
    requires
        forall|i: int| 0 <= i < cs.len() ==> (#[trigger] cs[i]).0@ != name,
    ensures
        child_of(cs, name) is None,
{
}

/// Replacing a child keeps the other children where they were.
proof fn lemma_child_of_update(cs: Seq<(String, TreeNode)>, i: int, s: String, c: TreeNode)
    requires
        sorted_strict(child_names(cs)),
        0 <= i < cs.len(),
        s@ == cs[i].0@,
    ensures
        child_names(cs.update(i, (s, c))) == child_names(cs),
        forall|x: Seq<char>| #[trigger] child_of(cs.update(i, (s, c)), x)
            == (if x == s@ { Some(c) } else { child_of(cs, x) }),
{
    let ns = cs.update(i, (s, c));
    assert(child_names(ns) =~= child_names(cs));
    assert forall|x: Seq<char>| #[trigger] child_of(ns, x) == (if x == s@ { Some(c) } else { child_of(cs, x) }) by {
        if x == s@ {
            lemma_child_of_at(ns, i);
        } else {
            if has_child(cs, x) {
                let j = child_index(cs, x);
                assert(ns[j] == cs[j]);
                lemma_child_of_at(cs, j);
                lemma_child_of_at(ns, j);
            } else {
                assert forall|j: int| 0 <= j < ns.len() implies (#[trigger] ns[j]).0@ != x by {
                    if j != i {
                        assert(ns[j] == cs[j]);
                    }
                }
            }
        }
    }
}

/// Inserting a child at its sorted place keeps the order and the other children.
proof fn lemma_child_of_insert(cs: Seq<(String, TreeNode)>, pos: int, s: String, c: TreeNode)
    requires
        sorted_strict(child_names(cs)),
        0 <= pos <= cs.len(),
        forall|i: int| 0 <= i < pos ==> seq_lt((#[trigger] cs[i]).0@, s@),
        forall|i: int| pos <= i < cs.len() ==> seq_lt(s@, (#[trigger] cs[i]).0@),
    ensures
        sorted_strict(child_names(cs.insert(pos, (s, c)))),
        forall|x: Seq<char>| #[trigger] child_of(cs.insert(pos, (s, c)), x)
            == (if x == s@ { Some(c) } else { child_of(cs, x) }),
{
    let ns = cs.insert(pos, (s, c));
    let names = child_names(ns);
    let old_names = child_names(cs);
    assert forall|a: int, b: int| 0 <= a < b < names.len() implies seq_lt(#[trigger] names[a], #[trigger] names[b]) by {
        assert(names[a] == ns[a].0@ && names[b] == ns[b].0@);
        if b < pos {
            assert(old_names[a] == cs[a].0@ && old_names[b] == cs[b].0@);
        } else if a > pos {
            assert(old_names[a - 1] == cs[a - 1].0@ && old_names[b - 1] == cs[b - 1].0@);
        } else if a == pos {
            assert(ns[b] == cs[b - 1]);
        } else if b == pos {
            assert(ns[a] == cs[a]);
        } else {
            assert(ns[a] == cs[a] && ns[b] == cs[b - 1]);
            lemma_lt_trans(cs[a].0@, s@, cs[b - 1].0@);
        }
    }
    assert forall|x: Seq<char>| #[trigger] child_of(ns, x) == (if x == s@ { Some(c) } else { child_of(cs, x) }) by {
        if x == s@ {
            lemma_child_of_at(ns, pos);
        } else {
            if has_child(cs, x) {
                let j = child_index(cs, x);
                lemma_child_of_at(cs, j);
                if j < pos {
                    assert(ns[j] == cs[j]);
                    lemma_child_of_at(ns, j);
                } else {
                    assert(ns[j + 1] == cs[j]);
                    lemma_child_of_at(ns, j + 1);
                }
            } else {
                assert forall|j: int| 0 <= j < ns.len() implies (#[trigger] ns[j]).0@ != x by {
                    if j < pos {
                        assert(ns[j] == cs[j]);
                    } else if j > pos {
                        assert(ns[j] == cs[j - 1]);
                    }
                }
            }
        }
    }
}

/// A directory whose children differ from another's only under `name`.
proof fn lemma_dir_paths(d1: Vec<(String, TreeNode)>, d2: Vec<(String, TreeNode)>, name: Seq<char>, c: TreeNode)
    requires
        forall|x: Seq<char>| #[trigger] child_of(d2@, x) == (if x == name { Some(c) } else { child_of(d1@, x) }),
    ensures
        forall|path: Seq<Seq<char>>| path.len() > 0 ==> #[trigger] node_at(TreeNode::Dir { children: d2 }, path)
            == (if path[0] == name { node_at(c, path.drop_first()) } else { node_at(TreeNode::Dir { children: d1 }, path) }),
{
    assert forall|path: Seq<Seq<char>>| path.len() > 0 implies #[trigger] node_at(TreeNode::Dir { children: d2 }, path)
            == (if path[0] == name { node_at(c, path.drop_first()) } else { node_at(TreeNode::Dir { children: d1 }, path) }) by {
        assert(child_of(d2@, path[0]) == (if path[0] == name { Some(c) } else { child_of(d1@, path[0]) }));
    }
}

/// Finds `name` among sorted children: whether it is there, and its position
/// or the position where it would go.
fn find_child(cs: &Vec<(String, TreeNode)>, name: &String) -> (r: (bool, usize))
    requires
        sorted_strict(child_names(cs@)),
    ensures
        r.1 <= cs@.len(),
        r.0 ==> r.1 < cs@.len() && cs@[r.1 as int].0@ == name@,
        !r.0 ==> (forall|i: int| 0 <= i < r.1 ==> seq_lt((#[trigger] cs@[i]).0@, name@))
            && (forall|i: int| r.1 <= i < cs@.len() ==> seq_lt(name@, (#[trigger] cs@[i]).0@)),
{
    let mut pos: usize = 0;
    while pos < cs.len() && string_lt(&cs[pos].0, name)
        invariant
            pos <= cs@.len(),
            sorted_strict(child_names(cs@)),
            forall|i: int| 0 <= i < pos ==> seq_lt((#[trigger] cs@[i]).0@, name@),
        decreases cs@.len() - pos,
    {
        pos = pos + 1;
    }
    if pos < cs.len() && cs[pos].0 == *name {
        return (true, pos);
    }
    proof {
        if pos < cs@.len() {
            lemma_lt_total(cs@[pos as int].0@, name@);
            assert forall|i: int| pos <= i < cs@.len() implies seq_lt(name@, (#[trigger] cs@[i]).0@) by {
                if i > pos {
                    assert(child_names(cs@)[pos as int] == cs@[pos as int].0@);
                    assert(child_names(cs@)[i] == cs@[i].0@);
                    lemma_lt_trans(name@, cs@[pos as int].0@, cs@[i].0@);
                }
            }
        }
    }
    (false, pos)
}


/// The first depth `j >= from` below the last name of `rest` at which a file
/// stands on the way to `rest`, where a directory is needed.
pub open spec fn conflict_from(d: TreeNode, rest: Seq<Seq<char>>, from: int) -> Option<int>
    decreases rest.len() - from,
{
    if from >= rest.len() - 1 {
        None
    } else if file_at(d, rest.subrange(0, from + 1)) is Some {
        Some(from)
    } else {
        conflict_from(d, rest, from + 1)
    }
}

pub open spec fn is_prefix(a: Seq<Seq<char>>, b: Seq<Seq<char>>) -> bool {
    a.len() <= b.len() && b.subrange(0, a.len() as int) == a
}

/// What is at `key` after a file is placed at `rest`: the file at `rest`
/// itself, nothing below it (a directory there is replaced), and elsewhere
/// what was there before.
pub open spec fn placed(d: TreeNode, rest: Seq<Seq<char>>, hash: Seq<u8>, mode: u32, key: Seq<Seq<char>>) -> Option<(Seq<u8>, u32)> {
    if is_prefix(rest, key) {
        if key.len() == rest.len() {
            Some((hash, mode))
        } else {
            None
        }
    } else {
        file_at(d, key)
    }
}

pub open spec fn shift(o: Option<int>) -> Option<int> {
    match o {
        Some(x) => Some(x + 1),
        None => None,
    }
}

proof fn lemma_node_at_child(d: Vec<(String, TreeNode)>, name: Seq<char>, c: TreeNode, p: Seq<Seq<char>>)
    requires
        child_of(d@, name) == Some(c),
    ensures
        node_at(TreeNode::Dir { children: d }, seq![name] + p) == node_at(c, p),
{
    let q = seq![name] + p;
    assert(q[0] == name);
    assert(q.drop_first() =~= p);
}

proof fn lemma_conflict_child(d: Vec<(String, TreeNode)>, rest: Seq<Seq<char>>, c: TreeNode, j: int)
    requires
        rest.len() > 0,
        child_of(d@, rest[0]) == Some(c),
        0 <= j,
    ensures
        conflict_from(TreeNode::Dir { children: d }, rest, j + 1) == shift(conflict_from(c, rest.drop_first(), j)),
    decreases rest.len() - j,
{
    let r2 = rest.drop_first();
    if j + 1 < rest.len() - 1 {
        assert(rest.subrange(0, j + 2) =~= seq![rest[0]] + r2.subrange(0, j + 1));
        lemma_node_at_child(d, rest[0], c, r2.subrange(0, j + 1));
        lemma_conflict_child(d, rest, c, j + 1);
    }
}

proof fn lemma_conflict_absent(d: Vec<(String, TreeNode)>, rest: Seq<Seq<char>>, j: int)
    requires
        rest.len() > 0,
        child_of(d@, rest[0]) is None,
        0 <= j,
    ensures
        conflict_from(TreeNode::Dir { children: d }, rest, j) is None,
    decreases rest.len() - j,
{
    if j < rest.len() - 1 {
        let q = rest.subrange(0, j + 1);
        assert(q[0] == rest[0]);
        lemma_conflict_absent(d, rest, j + 1);
    }
}

proof fn lemma_empty_dir_files(d: Vec<(String, TreeNode)>, key: Seq<Seq<char>>)
    requires
        d@.len() == 0,
    ensures
        file_at(TreeNode::Dir { children: d }, key) is None,
{
    if key.len() > 0 {
        lemma_child_of_absent(d@, key[0]);
    }
}

/// Places a file at `parts[k..]` below the directory with children
/// `children`, creating the directories on the way; fails with the depth of
/// a file that stands where a directory is needed.
fn insert_into(children: Vec<(String, TreeNode)>, parts: &Vec<String>, k: usize, hash: [u8; 32], mode: u32)
    -> (r: Result<Vec<(String, TreeNode)>, usize>)
    requires
        k < parts@.len(),
        tree_wf(TreeNode::Dir { children }),
        no_empty_subdirs(TreeNode::Dir { children }),
    ensures
        ({
            let d = TreeNode::Dir { children };
            let rest = crate::paths::strs(parts@).subrange(k as int, parts@.len() as int);
            match r {
                Err(j) => k <= j && conflict_from(d, rest, 0) == Some(j - k),
                Ok(nc) => conflict_from(d, rest, 0) is None
                    && tree_wf(TreeNode::Dir { children: nc })
                    && nc@.len() > 0 && no_empty_subdirs(TreeNode::Dir { children: nc })
                    && forall|key: Seq<Seq<char>>| #[trigger] file_at(TreeNode::Dir { children: nc }, key)
                        == placed(d, rest, hash@, mode, key),
            }
        }),
    decreases parts@.len() - k,
{
    let ghost d = TreeNode::Dir { children };
    let ghost old_cs = children;
    let ghost rest = crate::paths::strs(parts@).subrange(k as int, parts@.len() as int);
    let ghost name = parts@[k as int]@;
    proof {
        assert(rest[0] == name);
        assert(node_at(d, Seq::empty()) == Some(d));
        assert(dir_sorted(d));
    }
    let mut children = children;
    let (found, pos) = find_child(&children, &parts[k]);
    if k == parts.len() - 1 {
        let leaf = TreeNode::File { hash, mode };
        let nm = parts[k].clone();
        if found {
            let _ = children.remove(pos);
            children.insert(pos, (nm, leaf));
            proof {
                assert(children@ =~= old_cs@.update(pos as int, (nm, leaf)));
                lemma_child_of_update(old_cs@, pos as int, nm, leaf);
            }
        } else {
            children.insert(pos, (nm, leaf));
            proof {
                lemma_child_of_insert(old_cs@, pos as int, nm, leaf);
            }
        }
        proof {
            let nd = TreeNode::Dir { children };
            lemma_dir_paths(old_cs, children, name, leaf);
            lemma_no_empty_step(old_cs, children, name, leaf);
            assert forall|path: Seq<Seq<char>>| node_ok(#[trigger] node_at(nd, path)) by {
                if path.len() > 0 && path[0] != name {
                    assert(node_at(d, path) == node_at(nd, path));
                }
            }
            assert forall|key: Seq<Seq<char>>| #[trigger] file_at(nd, key) == placed(d, rest, hash@, mode, key) by {
                if key.len() > 0 {
                    if key[0] == name {
                        assert(key.subrange(0, 1) =~= rest);
                    } else {
                        assert(key.subrange(0, 1) != rest) by {
                            assert(key.subrange(0, 1)[0] == key[0]);
                        }
                    }
                }
            }
        }
        return Ok(children);
    }
    if found {
        let (nm, child) = children.remove(pos);
        let ghost c = child;
        proof {
            lemma_child_of_at(old_cs@, pos as int);
            assert(child_of(old_cs@, name) == Some(c));
        }
        match child {
            TreeNode::File { .. } => {
                proof {
                    lemma_node_at_child(old_cs, name, c, Seq::empty());
                    assert(rest.subrange(0, 1) =~= seq![name] + Seq::<Seq<char>>::empty());
                }
                Err(k)
            },
            TreeNode::Dir { children: gc } => {
                proof {
                    assert forall|path: Seq<Seq<char>>| node_ok(#[trigger] node_at(c, path)) by {
                        lemma_node_at_child(old_cs, name, c, path);
                        assert(node_at(d, seq![name] + path) == node_at(c, path));
                    }
                    assert forall|path: Seq<Seq<char>>| path.len() > 0 implies dir_nonempty(#[trigger] node_at(c, path)) by {
                        lemma_node_at_child(old_cs, name, c, path);
                        assert((seq![name] + path).len() > 0);
                        assert(dir_nonempty(node_at(d, seq![name] + path)));
                    }
                    assert(rest.drop_first() =~= crate::paths::strs(parts@).subrange(k + 1, parts@.len() as int));
                    lemma_conflict_child(old_cs, rest, c, 0);
                    assert(rest.subrange(0, 1) =~= seq![name] + Seq::<Seq<char>>::empty());
                    lemma_node_at_child(old_cs, name, c, Seq::empty());
                }
                match insert_into(gc, parts, k + 1, hash, mode) {
                    Err(j) => Err(j),
                    Ok(ngc) => {
                        let nc = TreeNode::Dir { children: ngc };
                        children.insert(pos, (nm, nc));
                        proof {
                            assert(children@ =~= old_cs@.update(pos as int, (nm, nc)));
                            lemma_child_of_update(old_cs@, pos as int, nm, nc);
                            tree_step(d, old_cs, children, rest, name, c, nc, hash@, mode);
                            lemma_no_empty_step(old_cs, children, name, nc);
                        }
                        Ok(children)
                    },
                }
            },
        }
    } else {
        proof {
            assert forall|i: int| 0 <= i < old_cs@.len() implies (#[trigger] old_cs@[i]).0@ != name by {
                lemma_lt_irrefl(name);
            }
            lemma_child_of_absent(old_cs@, name);
            lemma_conflict_absent(old_cs, rest, 0);
            assert(rest.drop_first() =~= crate::paths::strs(parts@).subrange(k + 1, parts@.len() as int));
        }
        let empty: Vec<(String, TreeNode)> = Vec::new();
        proof {
            assert forall|path: Seq<Seq<char>>| node_ok(#[trigger] node_at(TreeNode::Dir { children: empty }, path)) by {
                if path.len() > 0 {
                    lemma_child_of_absent(empty@, path[0]);
                }
            }
            assert forall|path: Seq<Seq<char>>| path.len() > 0 implies dir_nonempty(#[trigger] node_at(TreeNode::Dir { children: empty }, path)) by {
                lemma_child_of_absent(empty@, path[0]);
            }
            let r2 = rest.drop_first();
            lemma_child_of_absent(empty@, r2[0]);
            lemma_conflict_absent(empty, r2, 0);
        }
        match insert_into(empty, parts, k + 1, hash, mode) {
            Err(j) => Err(j),
            Ok(ngc) => {
                let nc = TreeNode::Dir { children: ngc };
                let nm = parts[k].clone();
                children.insert(pos, (nm, nc));
                proof {
                    lemma_child_of_insert(old_cs@, pos as int, nm, nc);
                    assert forall|key: Seq<Seq<char>>| #[trigger] file_at(TreeNode::Dir { children: empty }, key) is None by {
                        lemma_empty_dir_files(empty, key);
                    }
                    tree_step_new(d, old_cs, children, rest, name, empty, nc, hash@, mode);
                    lemma_no_empty_step(old_cs, children, name, nc);
                }
                Ok(children)
            },
        }
    }
}

proof fn tree_step(
    d: TreeNode,
    old_cs: Vec<(String, TreeNode)>,
    cs: Vec<(String, TreeNode)>,
    rest: Seq<Seq<char>>,
    name: Seq<char>,
    c: TreeNode,
    nc: TreeNode,
    hash: Seq<u8>,
    mode: u32,
)
    requires
        d == (TreeNode::Dir { children: old_cs }),
        rest.len() > 1,
        rest[0] == name,
        tree_wf(d),
        tree_wf(nc),
        child_of(old_cs@, name) == Some(c),
        sorted_strict(child_names(cs@)),
        forall|x: Seq<char>| #[trigger] child_of(cs@, x) == (if x == name { Some(nc) } else { child_of(old_cs@, x) }),
        forall|key: Seq<Seq<char>>| #[trigger] file_at(nc, key) == placed(c, rest.drop_first(), hash, mode, key),
    ensures
        tree_wf(TreeNode::Dir { children: cs }),
        forall|key: Seq<Seq<char>>| #[trigger] file_at(TreeNode::Dir { children: cs }, key) == placed(d, rest, hash, mode, key),
{
    let nd = TreeNode::Dir { children: cs };
    assert(rest =~= seq![name] + rest.drop_first());
    lemma_dir_paths(old_cs, cs, name, nc);
    assert forall|path: Seq<Seq<char>>| node_ok(#[trigger] node_at(nd, path)) by {
        if path.len() > 0 {
            if path[0] == name {
                assert(node_at(nc, path.drop_first()) == node_at(nd, path));
            } else {
                assert(node_at(d, path) == node_at(nd, path));
            }
        }
    }
    assert forall|key: Seq<Seq<char>>| #[trigger] file_at(nd, key) == placed(d, rest, hash, mode, key) by {
        if key.len() > 0 {
            if key[0] == name {
                let k2 = key.drop_first();
                assert(file_at(nc, k2) == placed(c, rest.drop_first(), hash, mode, k2));
                assert(key =~= seq![name] + k2);
                lemma_node_at_child(old_cs, name, c, k2);
                if is_prefix(rest.drop_first(), k2) {
                    assert(key.subrange(0, rest.len() as int) =~= seq![name] + k2.subrange(0, rest.len() - 1));
                } else if is_prefix(rest, key) {
                    assert(k2.subrange(0, rest.len() - 1) =~= key.subrange(0, rest.len() as int).drop_first());
                }
            } else {
                if is_prefix(rest, key) {
                    assert(key.subrange(0, rest.len() as int)[0] == key[0]);
                }
            }
        } else {
            assert(!is_prefix(rest, key));
        }
    }
}

proof fn tree_step_new(
    d: TreeNode,
    old_cs: Vec<(String, TreeNode)>,
    cs: Vec<(String, TreeNode)>,
    rest: Seq<Seq<char>>,
    name: Seq<char>,
    empty: Vec<(String, TreeNode)>,
    nc: TreeNode,
    hash: Seq<u8>,
    mode: u32,
)
    requires
        d == (TreeNode::Dir { children: old_cs }),
        rest.len() > 1,
        rest[0] == name,
        tree_wf(d),
        tree_wf(nc),
        child_of(old_cs@, name) is None,
        forall|key: Seq<Seq<char>>| #[trigger] file_at(TreeNode::Dir { children: empty }, key) is None,
        sorted_strict(child_names(cs@)),
        forall|x: Seq<char>| #[trigger] child_of(cs@, x) == (if x == name { Some(nc) } else { child_of(old_cs@, x) }),
        forall|key: Seq<Seq<char>>| #[trigger] file_at(nc, key)
            == placed(TreeNode::Dir { children: empty }, rest.drop_first(), hash, mode, key),
    ensures
        tree_wf(TreeNode::Dir { children: cs }),
        forall|key: Seq<Seq<char>>| #[trigger] file_at(TreeNode::Dir { children: cs }, key) == placed(d, rest, hash, mode, key),
{
    let nd = TreeNode::Dir { children: cs };
    assert(rest =~= seq![name] + rest.drop_first());
    lemma_dir_paths(old_cs, cs, name, nc);
    assert forall|path: Seq<Seq<char>>| node_ok(#[trigger] node_at(nd, path)) by {
        if path.len() > 0 {
            if path[0] == name {
                assert(node_at(nc, path.drop_first()) == node_at(nd, path));
            } else {
                assert(node_at(d, path) == node_at(nd, path));
            }
        }
    }
    assert forall|key: Seq<Seq<char>>| #[trigger] file_at(nd, key) == placed(d, rest, hash, mode, key) by {
        if key.len() > 0 {
            if key[0] == name {
                let k2 = key.drop_first();
                assert(file_at(nc, k2) == placed(TreeNode::Dir { children: empty }, rest.drop_first(), hash, mode, k2));
                assert(file_at(TreeNode::Dir { children: empty }, k2) is None);
                assert(key =~= seq![name] + k2);
                assert(node_at(d, key) is None);
                if is_prefix(rest.drop_first(), k2) {
                    assert(key.subrange(0, rest.len() as int) =~= seq![name] + k2.subrange(0, rest.len() - 1));
                } else if is_prefix(rest, key) {
                    assert(k2.subrange(0, rest.len() - 1) =~= key.subrange(0, rest.len() as int).drop_first());
                }
            } else {
                if is_prefix(rest, key) {
                    assert(key.subrange(0, rest.len() as int)[0] == key[0]);
                }
            }
        } else {
            assert(!is_prefix(rest, key));
        }
    }
}


/// The components of a path: the non-empty pieces between '/' characters.
pub open spec fn split_rec(p: Seq<char>, cur: Seq<char>) -> Seq<Seq<char>>
    decreases p.len(),
{
    if p.len() == 0 {
        if cur.len() == 0 { Seq::empty() } else { seq![cur] }
    } else if p[0] == '/' {
        (if cur.len() == 0 { Seq::<Seq<char>>::empty() } else { seq![cur] }) + split_rec(p.drop_first(), Seq::empty())
    } else {
        split_rec(p.drop_first(), cur.push(p[0]))
    }
}

pub open spec fn split_path(p: Seq<char>) -> Seq<Seq<char>> {
    split_rec(p, Seq::empty())
}

/// Splits a path into its non-empty components.
pub fn split_path_parts(path: &str) -> (r: Vec<String>)
    ensures
        crate::paths::strs(r@) == split_path(path@),
{
    let cs = crate::text::str_chars(path);
    let mut out: Vec<String> = Vec::new();
    let mut cur: Vec<char> = Vec::new();
    let mut i: usize = 0;
    assert(cs@.subrange(0, cs@.len() as int) =~= cs@);
    assert(crate::paths::strs(out@) =~= Seq::<Seq<char>>::empty());
    assert(cur@ =~= Seq::<char>::empty());
    while i < cs.len()
        invariant
            cs@ == path@,
            i <= cs@.len(),
            crate::paths::strs(out@) + split_rec(cs@.subrange(i as int, cs@.len() as int), cur@) == split_path(path@),
        decreases cs@.len() - i,
    {
        let ghost rest = cs@.subrange(i as int, cs@.len() as int);
        assert(rest[0] == cs@[i as int]);
        assert(rest.drop_first() =~= cs@.subrange(i + 1, cs@.len() as int));
        if cs[i] == '/' {
            if cur.len() > 0 {
                let piece = crate::text::string_from_chars(cur.as_slice());
                let ghost before = out@;
                out.push(piece);
                proof {
                    assert(crate::paths::strs(out@) =~= crate::paths::strs(before) + seq![cur@]);
                }
            } else {
                assert(cur@ =~= Seq::<char>::empty());
            }
            cur = Vec::new();
            proof {
                assert(cur@ =~= Seq::<char>::empty());
            }
        } else {
            cur.push(cs[i]);
        }
        i = i + 1;
    }
    let ghost rest = cs@.subrange(i as int, cs@.len() as int);
    assert(rest.len() == 0);
    if cur.len() > 0 {
        let piece = crate::text::string_from_chars(cur.as_slice());
        let ghost before = out@;
        out.push(piece);
        proof {
            assert(crate::paths::strs(out@) =~= crate::paths::strs(before) + seq![cur@]);
        }
    } else {
        assert(crate::paths::strs(out@) =~= crate::paths::strs(out@) + Seq::<Seq<char>>::empty());
    }
    out
}

/// A flat view of the files of a tree: path components to (hash, mode).
pub type FileMap = Map<Seq<Seq<char>>, (Seq<u8>, u32)>;

pub open spec fn lookup(f: FileMap, key: Seq<Seq<char>>) -> Option<(Seq<u8>, u32)> {
    if f.contains_key(key) {
        Some(f[key])
    } else {
        None
    }
}

/// The first depth `j >= from` below the last component of `parts` at which
/// a file already stands, where a directory is needed.
pub open spec fn map_conflict(f: FileMap, parts: Seq<Seq<char>>, from: int) -> Option<int>
    decreases parts.len() - from,
{
    if from >= parts.len() - 1 {
        None
    } else if f.contains_key(parts.subrange(0, from + 1)) {
        Some(from)
    } else {
        map_conflict(f, parts, from + 1)
    }
}

/// The files after a file is placed at `parts`: it replaces whatever was at
/// that path or below it.
pub open spec fn map_place(f: FileMap, parts: Seq<Seq<char>>, hash: Seq<u8>, mode: u32) -> FileMap {
    Map::new(
        |key: Seq<Seq<char>>| if is_prefix(parts, key) { key.len() == parts.len() } else { f.contains_key(key) },
        |key: Seq<Seq<char>>| if is_prefix(parts, key) { (hash, mode) } else { f[key] },
    )
}

/// The files the staged list describes, placed one after another; or the
/// position of the first file that cannot be placed and the depth of the
/// file that stands in its way. A path with no components is skipped.
pub open spec fn build_files(files: Seq<crate::models::objects::StagedFile>) -> Result<FileMap, (int, int)>
    decreases files.len(),
{
    if files.len() == 0 {
        Ok(Map::empty())
    } else {
        match build_files(files.drop_last()) {
            Err(e) => Err(e),
            Ok(f) => {
                let file = files.last();
                let parts = split_path(file.path@);
                if parts.len() == 0 {
                    Ok(f)
                } else {
                    match map_conflict(f, parts, 0) {
                        Some(j) => Err((files.len() - 1, j)),
                        None => Ok(map_place(f, parts, file.file_hash@, file.mode)),
                    }
                }
            },
        }
    }
}

/// Components joined with '/'.
pub open spec fn join_slash(parts: Seq<Seq<char>>) -> Seq<char>
    decreases parts.len(),
{
    if parts.len() == 0 {
        Seq::empty()
    } else if parts.len() == 1 {
        parts[0]
    } else {
        join_slash(parts.drop_last()) + seq!['/'] + parts.last()
    }
}

/// The message of a path conflict.
/// The refusal of a file whose way is blocked by a file at its first
/// `j + 1` path components: where that file stands at the new file's parent,
/// the new file cannot be created; further up, its directory cannot be.
pub open spec fn conflict_message(parts: Seq<Seq<char>>, j: int, file_path: Seq<char>) -> Seq<char> {
    if j + 2 == parts.len() {
        "Path conflict: '"@ + join_slash(parts.subrange(0, j + 1)) + "' is a file, cannot create file '"@ + file_path + "'"@
    } else {
        "Path conflict: '"@ + join_slash(parts.subrange(0, j + 1)) + "' is a file, cannot create directory for '"@ + file_path
            + "'"@
    }
}

fn join_parts(parts: &Vec<String>, n: usize) -> (r: String)
    requires
        n <= parts@.len(),
    ensures
        r@ == join_slash(crate::paths::strs(parts@).subrange(0, n as int)),
{
    let mut s = String::new();
    let mut i: usize = 0;
    while i < n
        invariant
            i <= n <= parts@.len(),
            s@ == join_slash(crate::paths::strs(parts@).subrange(0, i as int)),
        decreases n - i,
    {
        let ghost sub = crate::paths::strs(parts@).subrange(0, i + 1);
        assert(sub.drop_last() =~= crate::paths::strs(parts@).subrange(0, i as int));
        if i > 0 {
            crate::text::push_char(&mut s, '/');
        }
        s.append(parts[i].as_str());
        i = i + 1;
        proof {
            if i == 1 {
                assert(s@ =~= sub[0]);
            } else {
                assert(s@ =~= join_slash(sub.drop_last()) + seq!['/'] + sub.last());
            }
        }
    }
    s
}

proof fn lemma_conflict_bound(d: TreeNode, rest: Seq<Seq<char>>, from: int)
    ensures
        conflict_from(d, rest, from) matches Some(x) ==> from <= x < rest.len() - 1,
    decreases rest.len() - from,
{
    if from < rest.len() - 1 {
        lemma_conflict_bound(d, rest, from + 1);
    }
}

proof fn lemma_conflict_agrees(t: TreeNode, f: FileMap, parts: Seq<Seq<char>>, j: int)
    requires
        forall|key: Seq<Seq<char>>| #[trigger] file_at(t, key) == lookup(f, key),
    ensures
        conflict_from(t, parts, j) == map_conflict(f, parts, j),
    decreases parts.len() - j,
{
    if j < parts.len() - 1 {
        assert(file_at(t, parts.subrange(0, j + 1)) == lookup(f, parts.subrange(0, j + 1)));
        lemma_conflict_agrees(t, f, parts, j + 1);
    }
}

/// Builds the in-memory tree of the staged files. Directories are created
/// as needed; a later file replaces an earlier file or directory at the same
/// path; a file standing where a directory is needed is a path conflict.
pub fn build_tree_from_files(files: Vec<crate::models::objects::StagedFile>) -> (r: Result<TreeNode, crate::ReviusError>)
    ensures
        match build_files(files@) {
            Ok(f) => r matches Ok(root) && root is Dir && tree_wf(root) && no_empty_subdirs(root)
                && forall|key: Seq<Seq<char>>| #[trigger] file_at(root, key) == lookup(f, key),
            Err((i, j)) => r matches Err(crate::ReviusError::Path(msg))
                && msg@ == conflict_message(split_path(files@[i].path@), j, files@[i].path@),
        },
{
    let mut children: Vec<(String, TreeNode)> = Vec::new();
    let mut idx: usize = 0;
    proof {
        assert forall|path: Seq<Seq<char>>| node_ok(#[trigger] node_at(TreeNode::Dir { children }, path)) by {
            if path.len() > 0 {
                lemma_child_of_absent(children@, path[0]);
            }
        }
        assert forall|path: Seq<Seq<char>>| path.len() > 0 implies dir_nonempty(#[trigger] node_at(TreeNode::Dir { children }, path)) by {
            lemma_child_of_absent(children@, path[0]);
        }
        assert forall|key: Seq<Seq<char>>| #[trigger] file_at(TreeNode::Dir { children }, key) == lookup(Map::empty(), key) by {
            lemma_empty_dir_files(children, key);
        }
        assert(files@.subrange(0, 0) =~= Seq::<crate::models::objects::StagedFile>::empty());
    }
    while idx < files.len()
        invariant
            idx <= files@.len(),
            build_files(files@.subrange(0, idx as int)) is Ok,
            tree_wf(TreeNode::Dir { children }),
            no_empty_subdirs(TreeNode::Dir { children }),
            forall|key: Seq<Seq<char>>| #[trigger] file_at(TreeNode::Dir { children }, key)
                == lookup(build_files(files@.subrange(0, idx as int))->Ok_0, key),
        decreases files@.len() - idx,
    {
        let ghost f = build_files(files@.subrange(0, idx as int))->Ok_0;
        let ghost sub = files@.subrange(0, idx + 1);
        assert(sub.drop_last() =~= files@.subrange(0, idx as int));
        assert(sub.last() == files@[idx as int]);
        let file = &files[idx];
        let parts = split_path_parts(file.path.as_str());
        if parts.len() > 0 {
            proof {
                assert(crate::paths::strs(parts@).subrange(0, parts@.len() as int) =~= crate::paths::strs(parts@));
                lemma_conflict_agrees(TreeNode::Dir { children }, f, split_path(file.path@), 0);
            }
            let ghost old_dir = TreeNode::Dir { children };
            match insert_into(children, &parts, 0, file.file_hash, file.mode) {
                Ok(nc) => {
                    children = nc;
                    proof {
                        let g = map_place(f, split_path(file.path@), file.file_hash@, file.mode);
                        assert(build_files(sub) == Ok::<FileMap, (int, int)>(g));
                        assert forall|key: Seq<Seq<char>>| #[trigger] file_at(TreeNode::Dir { children }, key) == lookup(g, key) by {
                            assert(file_at(TreeNode::Dir { children }, key) == placed(old_dir, split_path(file.path@), file.file_hash@, file.mode, key));
                            assert(file_at(old_dir, key) == lookup(f, key));
                        }
                    }
                },
                Err(j) => {
                    proof {
                        lemma_conflict_bound(old_dir, crate::paths::strs(parts@).subrange(0, parts@.len() as int), 0);
                    }
                    let conflict_path = join_parts(&parts, j + 1);
                    let mut msg = String::from_str("Path conflict: '");
                    msg.append(conflict_path.as_str());
                    if j + 2 == parts.len() {
                        msg.append("' is a file, cannot create file '");
                    } else {
                        msg.append("' is a file, cannot create directory for '");
                    }
                    msg.append(file.path.as_str());
                    msg.append("'");
                    proof {
                        assert(build_files(files@.subrange(0, idx + 1)) == Err::<FileMap, (int, int)>((idx as int, j as int)));
                        lemma_build_files_err(files@, idx + 1);
                    }
                    return Err(crate::ReviusError::Path(msg));
                },
            }
        } else {
            assert(build_files(sub) == build_files(files@.subrange(0, idx as int)));
        }
        idx = idx + 1;
    }
    assert(files@.subrange(0, idx as int) =~= files@);
    Ok(TreeNode::Dir { children })
}

/// Once the fold has failed, it fails the same way on every longer prefix.
proof fn lemma_build_files_err(files: Seq<crate::models::objects::StagedFile>, n: int)
    requires
        0 < n <= files.len(),
        build_files(files.subrange(0, n)) is Err,
    ensures
        build_files(files) == build_files(files.subrange(0, n)),
    decreases files.len() - n,
{
    if n < files.len() {
        let sub = files.subrange(0, n + 1);
        assert(sub.drop_last() =~= files.subrange(0, n));
        lemma_build_files_err(files, n + 1);
    } else {
        assert(files.subrange(0, n) =~= files);
    }
}


/// The hash and mode of the last staged file whose path has the components `key`.
pub open spec fn last_staged(files: Seq<crate::models::objects::StagedFile>, key: Seq<Seq<char>>) -> Option<(Seq<u8>, u32)>
    decreases files.len(),
{
    if files.len() == 0 {
        None
    } else if key.len() > 0 && split_path(files.last().path@) == key {
        Some((files.last().file_hash@, files.last().mode))
    } else {
        last_staged(files.drop_last(), key)
    }
}

/// No staged path lies strictly inside another staged path.
pub open spec fn no_nested_paths(files: Seq<crate::models::objects::StagedFile>) -> bool {
    forall|i: int, j: int| 0 <= i < files.len() && 0 <= j < files.len()
        ==> !(is_prefix(split_path((#[trigger] files[i]).path@), split_path((#[trigger] files[j]).path@))
            && split_path(files[i].path@).len() < split_path(files[j].path@).len())
}

/// When no staged path lies inside another, building never conflicts and
/// the tree holds exactly the staged files, a later staging of the same
/// path replacing an earlier one.
pub proof fn law_tree_holds_staged_files(files: Seq<crate::models::objects::StagedFile>)
    requires
        no_nested_paths(files),
    ensures
        build_files(files) is Ok,
        forall|key: Seq<Seq<char>>| #[trigger] lookup(build_files(files)->Ok_0, key) == last_staged(files, key),
    decreases files.len(),
{
    if files.len() > 0 {
        let prev = files.drop_last();
        assert forall|i: int, j: int| 0 <= i < prev.len() && 0 <= j < prev.len()
            implies !(is_prefix(split_path((#[trigger] prev[i]).path@), split_path((#[trigger] prev[j]).path@))
                && split_path(prev[i].path@).len() < split_path(prev[j].path@).len()) by {
            assert(prev[i] == files[i] && prev[j] == files[j]);
        }
        law_tree_holds_staged_files(prev);
        let f = build_files(prev)->Ok_0;
        let file = files.last();
        let parts = split_path(file.path@);
        let n = files.len() - 1;
        if parts.len() > 0 {
            lemma_no_conflict(prev, files, f, parts, 0);
            let g = map_place(f, parts, file.file_hash@, file.mode);
            assert forall|key: Seq<Seq<char>>| #[trigger] lookup(g, key) == last_staged(files, key) by {
                assert(lookup(f, key) == last_staged(prev, key));
                if is_prefix(parts, key) && key.len() > parts.len() {
                    if f.contains_key(key) {
                        lemma_staged_key(prev, key);
                        let i = choose|i: int| 0 <= i < prev.len() && split_path(prev[i].path@) == key;
                        assert(files[i] == prev[i]);
                        assert(!(is_prefix(split_path(files[n].path@), split_path(files[i].path@))
                            && split_path(files[n].path@).len() < split_path(files[i].path@).len()));
                    }
                }
                if is_prefix(parts, key) && key.len() == parts.len() {
                    assert(key =~= parts);
                }
                if key == parts {
                    assert(is_prefix(parts, key)) by {
                        assert(key.subrange(0, parts.len() as int) =~= parts);
                    }
                }
            }
        }
    }
}

proof fn lemma_staged_key(files: Seq<crate::models::objects::StagedFile>, key: Seq<Seq<char>>)
    requires
        last_staged(files, key) is Some,
    ensures
        exists|i: int| 0 <= i < files.len() && split_path(files[i].path@) == key,
    decreases files.len(),
{
    if !(key.len() > 0 && split_path(files.last().path@) == key) {
        lemma_staged_key(files.drop_last(), key);
        let i = choose|i: int| 0 <= i < files.drop_last().len() && split_path(files.drop_last()[i].path@) == key;
        assert(files[i] == files.drop_last()[i]);
    }
}

proof fn lemma_no_conflict(
    prev: Seq<crate::models::objects::StagedFile>,
    files: Seq<crate::models::objects::StagedFile>,
    f: FileMap,
    parts: Seq<Seq<char>>,
    j: int,
)
    requires
        files.len() > 0,
        prev == files.drop_last(),
        no_nested_paths(files),
        parts == split_path(files.last().path@),
        0 <= j,
        forall|key: Seq<Seq<char>>| #[trigger] lookup(f, key) == last_staged(prev, key),
    ensures
        map_conflict(f, parts, j) is None,
    decreases parts.len() - j,
{
    if j < parts.len() - 1 {
        let key = parts.subrange(0, j + 1);
        if f.contains_key(key) {
            assert(lookup(f, key) == last_staged(prev, key));
            lemma_staged_key(prev, key);
            let i = choose|i: int| 0 <= i < prev.len() && split_path(prev[i].path@) == key;
            let n = files.len() - 1;
            assert(files[i] == prev[i]);
            assert(is_prefix(split_path(files[i].path@), split_path(files[n].path@)));
        }
        lemma_no_conflict(prev, files, f, parts, j + 1);
    }
}


/// The mode a directory entry is stored with (octal 040000).
pub const DIR_MODE: u32 = 16384;

/// The hash of a directory: the digest of its entries' binary forms, in
/// order, a subdirectory entering with its own hash.
pub open spec fn dir_hash(cs: Seq<(String, TreeNode)>) -> Seq<u8> {
    spec_blake3(dir_serial(cs))
}

/// The binary form of a directory's entries, in order.
pub open spec fn dir_serial(cs: Seq<(String, TreeNode)>) -> Seq<u8>
    decreases cs,
{
    if cs.len() == 0 {
        Seq::empty()
    } else {
        dir_serial(cs.drop_last()) + child_bytes(cs.last())
    }
}

/// The binary form of one entry of a directory.
pub open spec fn child_bytes(c: (String, TreeNode)) -> Seq<u8>
    decreases c,
{
    match c.1 {
        TreeNode::File { hash, mode } => spec_tree_entry(mode, c.0@, hash@),
        TreeNode::Dir { children } => spec_tree_entry(DIR_MODE, c.0@, spec_blake3(dir_serial(children@))),
    }
}

/// A stored row: parent hash, name, object hash, mode and whether it is a directory.
pub type RowView = (Seq<u8>, Seq<char>, Seq<u8>, u32, bool);

pub open spec fn row_view(e: TreeEntry) -> RowView {
    (e.parent_hash@, e.name@, e.object_hash@, e.mode, e.is_dir)
}

/// The row that stores one entry of the directory with hash `parent`.
pub open spec fn child_row(parent: Seq<u8>, c: (String, TreeNode)) -> RowView {
    match c.1 {
        TreeNode::File { hash, mode } => (parent, c.0@, hash@, mode, false),
        TreeNode::Dir { children } => (parent, c.0@, dir_hash(children@), DIR_MODE, true),
    }
}

/// The rows of one directory with hash `parent`, in the order of its entries.
pub open spec fn dir_rows(parent: Seq<u8>, cs: Seq<(String, TreeNode)>) -> Seq<RowView> {
    cs.map_values(|c: (String, TreeNode)| child_row(parent, c))
}

/// The stored groups of a directory and all directories below it, each
/// directory after those below it: (directory hash, its rows).
pub open spec fn dir_groups(cs: Seq<(String, TreeNode)>) -> Seq<(Seq<u8>, Seq<RowView>)> {
    children_groups(cs) + seq![(dir_hash(cs), dir_rows(dir_hash(cs), cs))]
}

/// The groups of the subdirectories of a directory, in order of its entries.
pub open spec fn children_groups(cs: Seq<(String, TreeNode)>) -> Seq<(Seq<u8>, Seq<RowView>)>
    decreases cs,
{
    if cs.len() == 0 {
        Seq::empty()
    } else {
        children_groups(cs.drop_last()) + child_groups(cs.last())
    }
}

pub open spec fn child_groups(c: (String, TreeNode)) -> Seq<(Seq<u8>, Seq<RowView>)>
    decreases c,
{
    match c.1 {
        TreeNode::File { .. } => Seq::empty(),
        TreeNode::Dir { children } => children_groups(children@)
            + seq![(spec_blake3(dir_serial(children@)), dir_rows(spec_blake3(dir_serial(children@)), children@))],
    }
}

pub open spec fn groups_view(g: Seq<([u8; 32], Vec<TreeEntry>)>) -> Seq<(Seq<u8>, Seq<RowView>)> {
    g.map_values(|x: ([u8; 32], Vec<TreeEntry>)| (x.0@, x.1@.map_values(|e: TreeEntry| row_view(e))))
}

/// Computes the hash of a directory tree and the rows that store it. For
/// every directory, children first, `groups` receives its hash and its rows;
/// a group whose hash is already stored need not be written again. A file
/// node is not a tree.
pub fn write_tree(node: &TreeNode, groups: &mut Vec<([u8; 32], Vec<TreeEntry>)>) -> (r: Result<[u8; 32], crate::ReviusError>)
    ensures
        match *node {
            TreeNode::File { .. } => r matches Err(crate::ReviusError::Db(m))
                && m@ == "Cannot write tree for file node"@ && final(groups)@ == old(groups)@,
            TreeNode::Dir { children } => r matches Ok(h) && h@ == dir_hash(children@)
                && groups_view(final(groups)@) == groups_view(old(groups)@) + dir_groups(children@),
        },
    decreases node,
{
    match node {
        TreeNode::File { .. } => Err(crate::ReviusError::Db(String::from_str("Cannot write tree for file node"))),
        TreeNode::Dir { children } => {
            let ghost g0 = groups_view(groups@);
            let mut data: Vec<(String, [u8; 32], u32, bool)> = Vec::new();
            let mut serialized: Vec<u8> = Vec::new();
            let mut i: usize = 0;
            while i < children.len()
                invariant
                    *node == (TreeNode::Dir { children: *children }),
                    i <= children@.len(),
                    data@.len() == i,
                    serialized@ == dir_serial(children@.subrange(0, i as int)),
                    groups_view(groups@) == g0 + children_groups(children@.subrange(0, i as int)),
                    forall|j: int| 0 <= j < i ==> ({
                        let c = children@[j];
                        let d = #[trigger] data@[j];
                        &&& d.0@ == c.0@
                        &&& match c.1 {
                            TreeNode::File { hash, mode } => d.1@ == hash@ && d.2 == mode && !d.3,
                            TreeNode::Dir { children: gc } => d.1@ == dir_hash(gc@) && d.2 == DIR_MODE && d.3,
                        }
                    }),
                decreases children.len() - i,
            {
                proof {
                    assert(decreases_to!(*node => (*node)->children));
                    assert(decreases_to!((*node)->children => (*node)->children@));
                    assert(decreases_to!(children@ => children@[i as int]));
                    assert(decreases_to!(children@[i as int] => children@[i as int].1));
                }
                let ghost sub = children@.subrange(0, i + 1);
                proof {
                    assert(sub.drop_last() =~= children@.subrange(0, i as int));
                    assert(sub.last() == children@[i as int]);
                }
                let name = children[i].0.clone();
                match &children[i].1 {
                    TreeNode::File { hash, mode } => {
                        let bytes = serialize_tree_entry(*mode, name.as_str(), hash);
                        append_slice(&mut serialized, bytes.as_slice());
                        data.push((name, *hash, *mode, false));
                        proof {
                            assert(child_groups(sub.last()) =~= Seq::<(Seq<u8>, Seq<RowView>)>::empty());
                            assert(child_bytes(sub.last()) == spec_tree_entry(*mode, name@, hash@));
                            assert(dir_serial(sub) == dir_serial(sub.drop_last()) + child_bytes(sub.last()));
                            assert(children_groups(sub) == children_groups(sub.drop_last()) + child_groups(sub.last()));
                            assert(groups_view(groups@) =~= g0 + children_groups(sub));
                        }
                    },
                    TreeNode::Dir { children: gc } => {
                        let ghost before = groups_view(groups@);
                        let child_hash = match write_tree(&children[i].1, groups) {
                            Ok(h) => h,
                            Err(e) => {
                                return Err(e);
                            },
                        };
                        let bytes = serialize_tree_entry(DIR_MODE, name.as_str(), &child_hash);
                        append_slice(&mut serialized, bytes.as_slice());
                        data.push((name, child_hash, DIR_MODE, true));
                        proof {
                            assert(child_groups(sub.last()) == dir_groups(gc@));
                            assert(child_bytes(sub.last()) == spec_tree_entry(DIR_MODE, name@, child_hash@));
                            assert(dir_serial(sub) == dir_serial(sub.drop_last()) + child_bytes(sub.last()));
                            assert(children_groups(sub) == children_groups(sub.drop_last()) + child_groups(sub.last()));
                            assert(groups_view(groups@) =~= g0 + children_groups(sub));
                        }
                    },
                }
                i = i + 1;
            }
            proof {
                assert(children@.subrange(0, i as int) =~= children@);
            }
            let parent_hash = digest(serialized.as_slice());
            let mut rows: Vec<TreeEntry> = Vec::new();
            let mut k: usize = 0;
            while k < data.len()
                invariant
                    k <= data@.len(),
                    data@.len() == children@.len(),
                    parent_hash@ == dir_hash(children@),
                    rows@.map_values(|e: TreeEntry| row_view(e)) == dir_rows(parent_hash@, children@).subrange(0, k as int),
                    forall|j: int| 0 <= j < data@.len() ==> ({
                        let c = children@[j];
                        let d = #[trigger] data@[j];
                        &&& d.0@ == c.0@
                        &&& match c.1 {
                            TreeNode::File { hash, mode } => d.1@ == hash@ && d.2 == mode && !d.3,
                            TreeNode::Dir { children: gc } => d.1@ == dir_hash(gc@) && d.2 == DIR_MODE && d.3,
                        }
                    }),
                decreases data@.len() - k,
            {
                let d = &data[k];
                let ghost before = rows@;
                let e = TreeEntry { parent_hash, name: d.0.clone(), object_hash: d.1, mode: d.2, is_dir: d.3 };
                rows.push(e);
                proof {
                    assert(before.map_values(|e: TreeEntry| row_view(e)).len() == k);
                    assert(row_view(e) == child_row(parent_hash@, children@[k as int]));
                    assert(rows@ == before.push(e));
                    assert(rows@.map_values(|e: TreeEntry| row_view(e)) =~= dir_rows(parent_hash@, children@).subrange(0, k + 1));
                }
                k = k + 1;
            }
            let ghost before = groups@;
            groups.push((parent_hash, rows));
            proof {
                assert(groups_view(groups@) =~= groups_view(before) + seq![(parent_hash@, rows@.map_values(|e: TreeEntry| row_view(e)))]);
                assert(rows@.map_values(|e: TreeEntry| row_view(e)) =~= dir_rows(parent_hash@, children@));
            }
            Ok(parent_hash)
        },
    }
}

/// The path of a tree entry below a directory path: the name alone at the
/// root, else "<prefix>/<name>".
pub open spec fn spec_child_path(prefix: Seq<char>, name: Seq<char>) -> Seq<char> {
    if prefix.len() == 0 {
        name
    } else {
        prefix + seq!['/'] + name
    }
}

/// Joins a directory path and an entry name.
pub fn child_path(prefix: &str, name: &str) -> (r: String)
    ensures
        r@ == spec_child_path(prefix@, name@),
{
    if prefix.unicode_len() == 0 {
        String::from_str(name)
    } else {
        let mut s = String::from_str(prefix);
        crate::text::push_char(&mut s, '/');
        s.append(name);
        assert(s@ =~= prefix@ + seq!['/'] + name@);
        s
    }
}

} // verus!

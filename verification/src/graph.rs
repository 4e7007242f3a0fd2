use vstd::prelude::*;
use vstd::set_lib::lemma_len_subset;
use crate::error::ReviusError;
use crate::hash::{hash_eq, hash_copy, hash_to_short_hex};

verus! {

/// A commit as history sees it: its hash and its parents.
#[derive(Debug)]
pub struct CommitNode {
    pub hash: [u8; 32],
    pub parent_hash: Option<[u8; 32]>,
    pub merge_parent_hash: Option<[u8; 32]>,
}

/// The commits of a repository, each with its parents.
#[derive(Debug)]
pub struct CommitGraph {
    pub nodes: Vec<CommitNode>,
}

/// No commit hash occurs twice.
pub open spec fn graph_wf(nodes: Seq<CommitNode>) -> bool {
    forall|i: int, j: int|
        0 <= i < nodes.len() && 0 <= j < nodes.len() && i != j ==> nodes[i].hash@ != nodes[j].hash@
}

pub open spec fn has_commit(nodes: Seq<CommitNode>, h: Seq<u8>) -> bool {
    exists|i: int| 0 <= i < nodes.len() && nodes[i].hash@ == h
}

pub open spec fn opt_view(h: Option<[u8; 32]>) -> Seq<Seq<u8>> {
    match h {
        Some(x) => seq![x@],
        None => seq![],
    }
}

/// The parents of a commit, first parent first.
pub open spec fn node_parents(n: CommitNode) -> Seq<Seq<u8>> {
    opt_view(n.parent_hash) + opt_view(n.merge_parent_hash)
}

/// The position of the commit with hash `h`.
pub open spec fn commit_index(nodes: Seq<CommitNode>, h: Seq<u8>) -> int {
    choose|i: int| 0 <= i < nodes.len() && nodes[i].hash@ == h
}

/// The parents of the commit with hash `h`, or nothing if it is unknown.
pub open spec fn graph_parents(nodes: Seq<CommitNode>, h: Seq<u8>) -> Option<Seq<Seq<u8>>> {
    if has_commit(nodes, h) {
        Some(node_parents(nodes[commit_index(nodes, h)]))
    } else {
        None
    }
}

pub open spec fn is_parent(nodes: Seq<CommitNode>, child: Seq<u8>, p: Seq<u8>) -> bool {
    graph_parents(nodes, child) matches Some(ps) && ps.contains(p)
}

/// `to` is reached from `from` by following at most `n` parent links.
pub open spec fn reach(nodes: Seq<CommitNode>, from: Seq<u8>, to: Seq<u8>, n: nat) -> bool
    decreases n,
{
    if n == 0 {
        from == to
    } else {
        reach(nodes, from, to, (n - 1) as nat) || exists|mid: Seq<u8>|
            reach(nodes, from, mid, (n - 1) as nat) && #[trigger] is_parent(nodes, mid, to)
    }
}

/// `to` is `from` itself or one of its ancestors.
pub open spec fn is_ancestor(nodes: Seq<CommitNode>, from: Seq<u8>, to: Seq<u8>) -> bool {
    exists|n: nat| #[trigger] reach(nodes, from, to, n)
}

pub proof fn lemma_ancestor_refl(nodes: Seq<CommitNode>, h: Seq<u8>)
    ensures
        is_ancestor(nodes, h, h),
{
    assert(reach(nodes, h, h, 0));
}

pub proof fn lemma_ancestor_step(nodes: Seq<CommitNode>, from: Seq<u8>, mid: Seq<u8>, p: Seq<u8>)
    requires
        is_ancestor(nodes, from, mid),
        is_parent(nodes, mid, p),
    ensures
        is_ancestor(nodes, from, p),
{
    let n = choose|n: nat| #[trigger] reach(nodes, from, mid, n);
    assert(reach(nodes, from, p, n + 1));
}

pub proof fn lemma_parents_at(nodes: Seq<CommitNode>, i: int)
    requires
        graph_wf(nodes),
        0 <= i < nodes.len(),
    ensures
        graph_parents(nodes, nodes[i].hash@) == Some(node_parents(nodes[i])),
{
    let h = nodes[i].hash@;
    assert(has_commit(nodes, h));
    let k = commit_index(nodes, h);
    assert(k == i);
}

/// The parents of a commit, first parent first.
pub fn commit_parents(graph: &CommitGraph, commit_hash: &[u8; 32]) -> (r: Result<
    Vec<[u8; 32]>,
    ReviusError,
>)
    requires
        graph_wf(graph.nodes@),
    ensures
        match r {
            Ok(ps) => graph_parents(graph.nodes@, commit_hash@) == Some(
                ps@.map_values(|h: [u8; 32]| h@),
            ),
            Err(e) => graph_parents(graph.nodes@, commit_hash@) is None && e is CommitNotFound,
        },
{
    let mut i: usize = 0;
    while i < graph.nodes.len()
        invariant
            graph_wf(graph.nodes@),
            i <= graph.nodes@.len(),
            forall|j: int| 0 <= j < i ==> graph.nodes@[j].hash@ != commit_hash@,
        decreases graph.nodes@.len() - i,
    {
        if hash_eq(&graph.nodes[i].hash, commit_hash) {
            let node = &graph.nodes[i];
            let mut ps: Vec<[u8; 32]> = Vec::new();
            match &node.parent_hash {
                Some(p) => ps.push(hash_copy(p)),
                None => {},
            }
            match &node.merge_parent_hash {
                Some(p) => ps.push(hash_copy(p)),
                None => {},
            }
            proof {
                lemma_parents_at(graph.nodes@, i as int);
                assert(ps@.map_values(|h: [u8; 32]| h@) =~= node_parents(*node));
            }
            return Ok(ps);
        }
        i = i + 1;
    }
    Err(ReviusError::CommitNotFound(hash_to_short_hex(commit_hash)))
}

pub open spec fn views(v: Seq<[u8; 32]>) -> Seq<Seq<u8>> {
    v.map_values(|h: [u8; 32]| h@)
}

pub fn contains_hash(v: &Vec<[u8; 32]>, h: &[u8; 32]) -> (r: bool)
    ensures
        r == views(v@).contains(h@),
{
    let mut i: usize = 0;
    while i < v.len()
        invariant
            i <= v@.len(),
            forall|j: int| 0 <= j < i ==> v@[j]@ != h@,
        decreases v@.len() - i,
    {
        if hash_eq(&v[i], h) {
            assert(views(v@)[i as int] == h@);
            return true;
        }
        i = i + 1;
    }
    assert forall|j: int| 0 <= j < views(v@).len() implies views(v@)[j] != h@ by {
        assert(views(v@)[j] == v@[j]@);
    }
    false
}

/// Every hash that a search can meet: the two starting commits and every parent
/// that the graph names.
pub open spec fn universe(nodes: Seq<CommitNode>, a: Seq<u8>, b: Seq<u8>) -> Seq<Seq<u8>> {
    seq![a, b] + Seq::new(
        nodes.len(),
        |i: int|
            match nodes[i].parent_hash {
                Some(p) => p@,
                None => a,
            },
    ) + Seq::new(
        nodes.len(),
        |i: int|
            match nodes[i].merge_parent_hash {
                Some(p) => p@,
                None => a,
            },
    )
}

pub proof fn lemma_parent_in_universe(nodes: Seq<CommitNode>, a: Seq<u8>, b: Seq<u8>, c: Seq<u8>, p: Seq<u8>)
    requires
        is_parent(nodes, c, p),
    ensures
        universe(nodes, a, b).contains(p),
        universe(nodes, a, b).to_set().contains(p),
{
    assert(has_commit(nodes, c));
    let i = commit_index(nodes, c);
    let n = nodes[i];
    let u = universe(nodes, a, b);
    let ps = node_parents(n);
    assert(graph_parents(nodes, c) == Some(ps));
    assert(ps.contains(p));
    let k = choose|k: int| 0 <= k < ps.len() && ps[k] == p;
    match n.parent_hash {
        Some(pp) => {
            if k == 0 {
                assert(ps[0] == pp@);
                assert(u[2 + i] == p);
            } else {
                let mm = n.merge_parent_hash->0;
                assert(ps[1] == mm@);
                assert(u[2 + nodes.len() + i] == p);
            }
        },
        None => {
            let mm = n.merge_parent_hash->0;
            assert(ps[0] == mm@);
            assert(u[2 + nodes.len() + i] == p);
        },
    }
}

proof fn lemma_visited_bound(visited: Seq<[u8; 32]>, u: Set<Seq<u8>>, bound: nat)
    requires
        views(visited).no_duplicates(),
        forall|x: Seq<u8>| #[trigger] views(visited).contains(x) ==> u.contains(x),
        u.finite(),
        u.len() <= bound,
    ensures
        visited.len() <= bound,
{
    let s = views(visited);
    s.unique_seq_to_set();
    assert(s.to_set().subset_of(u));
    lemma_len_subset(s.to_set(), u);
}

/// Each of the first `n` commits has all its parents among `s`.
pub open spec fn closed_upto(nodes: Seq<CommitNode>, s: Seq<Seq<u8>>, n: int) -> bool {
    forall|i: int, p: Seq<u8>| 0 <= i < n && #[trigger] is_parent(nodes, s[i], p) ==> s.contains(p)
}

/// A set of commits that holds `a` and the parents of each of its commits
/// holds every ancestor of `a`.
proof fn lemma_closed_holds_ancestors(nodes: Seq<CommitNode>, s: Seq<Seq<u8>>, a: Seq<u8>, c: Seq<u8>, n: nat)
    requires
        s.contains(a),
        closed_upto(nodes, s, s.len() as int),
        reach(nodes, a, c, n),
    ensures
        s.contains(c),
    decreases n,
{
    if n > 0 {
        if reach(nodes, a, c, (n - 1) as nat) {
            lemma_closed_holds_ancestors(nodes, s, a, c, (n - 1) as nat);
        } else {
            let mid = choose|mid: Seq<u8>| reach(nodes, a, mid, (n - 1) as nat) && #[trigger] is_parent(nodes, mid, c);
            lemma_closed_holds_ancestors(nodes, s, a, mid, (n - 1) as nat);
            let i = choose|i: int| 0 <= i < s.len() && s[i] == mid;
            assert(is_parent(nodes, s[i], c));
        }
    }
}

proof fn lemma_views_push(v: Seq<[u8; 32]>, h: [u8; 32])
    ensures
        views(v.push(h)) =~= views(v).push(h@),
{
}

proof fn lemma_reach_trans(nodes: Seq<CommitNode>, a: Seq<u8>, b: Seq<u8>, c: Seq<u8>, n: nat, m: nat)
    requires
        reach(nodes, a, b, n),
        reach(nodes, b, c, m),
    ensures
        reach(nodes, a, c, n + m),
    decreases m,
{
    if m > 0 {
        if reach(nodes, b, c, (m - 1) as nat) {
            lemma_reach_trans(nodes, a, b, c, n, (m - 1) as nat);
            assert(reach(nodes, a, c, (n + m - 1) as nat));
        } else {
            let mid = choose|mid: Seq<u8>| reach(nodes, b, mid, (m - 1) as nat) && #[trigger] is_parent(nodes, mid, c);
            lemma_reach_trans(nodes, a, b, mid, n, (m - 1) as nat);
            assert(reach(nodes, a, mid, (n + m - 1) as nat) && is_parent(nodes, mid, c));
        }
    }
}

/// An ancestor of an ancestor is an ancestor.
pub proof fn lemma_ancestor_trans(nodes: Seq<CommitNode>, a: Seq<u8>, b: Seq<u8>, c: Seq<u8>)
    requires
        is_ancestor(nodes, a, b),
        is_ancestor(nodes, b, c),
    ensures
        is_ancestor(nodes, a, c),
{
    let n = choose|n: nat| #[trigger] reach(nodes, a, b, n);
    let m = choose|m: nat| #[trigger] reach(nodes, b, c, m);
    lemma_reach_trans(nodes, a, b, c, n, m);
}

/// Every ancestor of `a` is a commit of the graph.
pub open spec fn all_present(nodes: Seq<CommitNode>, a: Seq<u8>) -> bool {
    forall|x: Seq<u8>| #[trigger] is_ancestor(nodes, a, x) ==> has_commit(nodes, x)
}

/// No commit is an ancestor of both `a` and `b`.
pub open spec fn no_common_ancestor(nodes: Seq<CommitNode>, a: Seq<u8>, b: Seq<u8>) -> bool {
    forall|c: Seq<u8>| #[trigger] is_ancestor(nodes, a, c) ==> !is_ancestor(nodes, b, c)
}

/// `m` is a common ancestor of `a` and `b`, and every common ancestor that
/// has `m` among its ancestors is also an ancestor of `m`: none lies strictly
/// below it.
pub open spec fn is_lowest_common_ancestor(nodes: Seq<CommitNode>, a: Seq<u8>, b: Seq<u8>, m: Seq<u8>) -> bool {
    &&& is_ancestor(nodes, a, m)
    &&& is_ancestor(nodes, b, m)
    &&& forall|c: Seq<u8>| #[trigger] is_ancestor(nodes, c, m) && is_ancestor(nodes, a, c) && is_ancestor(nodes, b, c)
        ==> is_ancestor(nodes, m, c)
}

/// No two different commits are each other's ancestors.
pub open spec fn acyclic(nodes: Seq<CommitNode>) -> bool {
    forall|x: Seq<u8>, y: Seq<u8>| #![trigger is_ancestor(nodes, x, y), is_ancestor(nodes, y, x)]
        is_ancestor(nodes, x, y) && is_ancestor(nodes, y, x) ==> x == y
}

/// In a history without cycles, no proper descendant of a lowest common
/// ancestor is itself a common ancestor.
pub proof fn law_lowest_common_ancestor_has_no_common_descendant(
    nodes: Seq<CommitNode>,
    a: Seq<u8>,
    b: Seq<u8>,
    m: Seq<u8>,
    c: Seq<u8>,
)
    requires
        acyclic(nodes),
        is_lowest_common_ancestor(nodes, a, b, m),
        is_ancestor(nodes, a, c),
        is_ancestor(nodes, b, c),
        is_ancestor(nodes, c, m),
    ensures
        c == m,
{
    assert(is_ancestor(nodes, m, c));
}

/// Every ancestor of a commit, each once, the commit first; an error when
/// one of them is not in the graph.
pub fn ancestors(graph: &CommitGraph, start: [u8; 32]) -> (r: Result<Vec<[u8; 32]>, ReviusError>)
    requires
        graph_wf(graph.nodes@),
    ensures
        match r {
            Ok(v) => views(v@).no_duplicates() && all_present(graph.nodes@, start@)
                && forall|x: Seq<u8>| #![trigger views(v@).contains(x)] #![trigger is_ancestor(graph.nodes@, start@, x)]
                    views(v@).contains(x) <==> is_ancestor(graph.nodes@, start@, x),
            Err(e) => e is CommitNotFound && !all_present(graph.nodes@, start@),
        },
{
    let ghost nodes = graph.nodes@;
    let ghost useq = universe(nodes, start@, start@);
    let ghost u = useq.to_set();
    let ghost bound: int = useq.len() as int;
    proof {
        useq.lemma_cardinality_of_set();
        lemma_ancestor_refl(nodes, start@);
        assert(useq[0] == start@);
    }
    let mut visited: Vec<[u8; 32]> = Vec::new();
    visited.push(start);
    proof {
        assert(views(visited@) =~= seq![start@]);
        assert(views(visited@)[0] == start@);
    }
    let mut i: usize = 0;
    while i < visited.len()
        invariant
            graph_wf(graph.nodes@),
            nodes == graph.nodes@,
            u == universe(nodes, start@, start@).to_set(),
            u.finite(),
            u.len() <= bound,
            i <= visited@.len(),
            visited@.len() <= bound,
            views(visited@).contains(start@),
            views(visited@).no_duplicates(),
            forall|x: Seq<u8>| #[trigger] views(visited@).contains(x) ==> is_ancestor(nodes, start@, x) && u.contains(x),
            closed_upto(nodes, views(visited@), i as int),
            forall|j: int| 0 <= j < i ==> has_commit(nodes, #[trigger] views(visited@)[j]),
        decreases bound - i,
    {
        let cur = visited[i];
        proof {
            assert(views(visited@)[i as int] == cur@);
            assert(views(visited@).contains(cur@));
        }
        let parents = match commit_parents(graph, &cur) {
            Ok(p) => p,
            Err(e) => {
                proof {
                    assert(is_ancestor(nodes, start@, cur@));
                    assert(!has_commit(nodes, cur@));
                }
                return Err(e);
            },
        };
        let ghost v0 = visited@;
        let mut k: usize = 0;
        while k < parents.len()
            invariant
                graph_wf(graph.nodes@),
                nodes == graph.nodes@,
                u == universe(nodes, start@, start@).to_set(),
                u.finite(),
                u.len() <= bound,
                i < v0.len(),
                views(v0)[i as int] == cur@,
                is_ancestor(nodes, start@, cur@),
                graph_parents(nodes, cur@) == Some(parents@.map_values(|h: [u8; 32]| h@)),
                k <= parents@.len(),
                visited@.len() >= v0.len(),
                visited@.subrange(0, v0.len() as int) == v0,
                visited@.len() <= bound,
                views(visited@).no_duplicates(),
                forall|x: Seq<u8>| #[trigger] views(visited@).contains(x) ==> is_ancestor(nodes, start@, x) && u.contains(x),
                closed_upto(nodes, views(v0), i as int),
                forall|j: int| 0 <= j < i ==> has_commit(nodes, #[trigger] views(v0)[j]),
                views(v0).contains(start@),
                forall|j: int| 0 <= j < k ==> views(visited@).contains(#[trigger] parents@[j]@),
            decreases parents@.len() - k,
        {
            let parent = parents[k];
            proof {
                assert(parents@.map_values(|h: [u8; 32]| h@)[k as int] == parent@);
                assert(is_parent(nodes, cur@, parent@));
                lemma_ancestor_step(nodes, start@, cur@, parent@);
                lemma_parent_in_universe(nodes, start@, start@, cur@, parent@);
            }
            let ghost v1 = visited@;
            if !contains_hash(&visited, &parent) {
                visited.push(parent);
                proof {
                    lemma_views_push(v1, parent);
                    assert forall|a: int, b: int| 0 <= a < views(visited@).len() && 0 <= b < views(visited@).len() && a != b
                        implies views(visited@)[a] != views(visited@)[b] by {
                        if a < views(v1).len() && b < views(v1).len() {
                        } else if a < views(v1).len() {
                            assert(views(v1).contains(views(v1)[a]));
                        } else {
                            assert(views(v1).contains(views(v1)[b]));
                        }
                    }
                    assert forall|x: Seq<u8>| #[trigger] views(visited@).contains(x) implies is_ancestor(nodes, start@, x)
                        && u.contains(x) by {
                        if x != parent@ {
                            let j = choose|j: int| 0 <= j < views(visited@).len() && views(visited@)[j] == x;
                            assert(views(v1)[j] == x);
                            assert(views(v1).contains(x));
                        }
                    }
                    lemma_visited_bound(visited@, u, bound as nat);
                    assert(visited@.subrange(0, v0.len() as int) =~= v1.subrange(0, v0.len() as int));
                    assert forall|j: int| 0 <= j < k + 1 implies views(visited@).contains(#[trigger] parents@[j]@) by {
                        if j < k {
                            assert(views(v1).contains(parents@[j]@));
                            let t = choose|t: int| 0 <= t < views(v1).len() && views(v1)[t] == parents@[j]@;
                            assert(views(visited@)[t] == parents@[j]@);
                        } else {
                            assert(views(visited@)[views(visited@).len() - 1] == parent@);
                        }
                    }
                }
            } else {
                proof {
                    assert(views(visited@).contains(parents@[k as int]@));
                }
            }
            k = k + 1;
        }
        proof {
            let vs = views(visited@);
            assert forall|j: int| 0 <= j < v0.len() implies #[trigger] vs[j] == views(v0)[j] by {
                assert(visited@.subrange(0, v0.len() as int)[j] == v0[j]);
            }
            assert forall|j: int, p: Seq<u8>| 0 <= j < i + 1 && #[trigger] is_parent(nodes, vs[j], p) implies vs.contains(p) by {
                assert(vs[j] == views(v0)[j]);
                if j < i {
                    assert(views(v0).contains(p));
                    let t = choose|t: int| 0 <= t < views(v0).len() && views(v0)[t] == p;
                    assert(vs[t] == views(v0)[t]);
                } else {
                    let ps = parents@.map_values(|h: [u8; 32]| h@);
                    assert(ps.contains(p));
                    let j2 = choose|j2: int| 0 <= j2 < ps.len() && ps[j2] == p;
                    assert(parents@[j2]@ == p);
                }
            }
            assert forall|j: int| 0 <= j < i + 1 implies has_commit(nodes, #[trigger] vs[j]) by {
                assert(vs[j] == views(v0)[j]);
            }
            let t = choose|t: int| 0 <= t < views(v0).len() && views(v0)[t] == start@;
            assert(vs[t] == start@);
        }
        i = i + 1;
    }
    proof {
        let vs = views(visited@);
        assert forall|x: Seq<u8>| is_ancestor(nodes, start@, x) implies #[trigger] vs.contains(x) by {
            let n = choose|n: nat| #[trigger] reach(nodes, start@, x, n);
            lemma_closed_holds_ancestors(nodes, vs, start@, x, n);
        }
        assert forall|x: Seq<u8>| #[trigger] is_ancestor(nodes, start@, x) implies has_commit(nodes, x) by {
            assert(vs.contains(x));
            let j = choose|j: int| 0 <= j < vs.len() && vs[j] == x;
        }
    }
    Ok(visited)
}

/// Among some commits, one that none of the others lies strictly below: a
/// commit replaces the current choice when the choice is its ancestor but it
/// is not the choice's.
fn lowest_of(graph: &CommitGraph, common: &Vec<[u8; 32]>) -> (r: Result<[u8; 32], ReviusError>)
    requires
        graph_wf(graph.nodes@),
        common@.len() > 0,
    ensures
        match r {
            Ok(m) => views(common@).contains(m@) && forall|j: int| 0 <= j < common@.len()
                ==> (is_ancestor(graph.nodes@, (#[trigger] common@[j])@, m@) ==> is_ancestor(graph.nodes@, m@, common@[j]@)),
            Err(e) => e is CommitNotFound && exists|j: int| 0 <= j < common@.len() && !all_present(graph.nodes@, (#[trigger] common@[j])@),
        },
{
    let ghost nodes = graph.nodes@;
    let mut best = common[0];
    let mut best_anc = match ancestors(graph, best) {
        Ok(v) => v,
        Err(e) => {
            proof {
                assert(!all_present(nodes, common@[0]@));
            }
            return Err(e);
        },
    };
    proof {
        assert(views(common@)[0] == best@);
        lemma_ancestor_refl(nodes, best@);
    }
    let mut i: usize = 1;
    while i < common.len()
        invariant
            graph_wf(graph.nodes@),
            nodes == graph.nodes@,
            1 <= i <= common@.len(),
            views(common@).contains(best@),
            forall|x: Seq<u8>| #![trigger views(best_anc@).contains(x)] #![trigger is_ancestor(nodes, best@, x)]
                views(best_anc@).contains(x) <==> is_ancestor(nodes, best@, x),
            forall|j: int| 0 <= j < i ==> (is_ancestor(nodes, (#[trigger] common@[j])@, best@) ==> is_ancestor(nodes, best@, common@[j]@)),
        decreases common@.len() - i,
    {
        let x = common[i];
        let xa = match ancestors(graph, x) {
            Ok(v) => v,
            Err(e) => {
                proof {
                    assert(!all_present(nodes, common@[i as int]@));
                }
                return Err(e);
            },
        };
        proof {
            lemma_ancestor_refl(nodes, x@);
        }
        if contains_hash(&xa, &best) && !contains_hash(&best_anc, &x) {
            proof {
                assert(is_ancestor(nodes, x@, best@));
                assert(!is_ancestor(nodes, best@, x@));
                assert forall|j: int| 0 <= j < i + 1 && is_ancestor(nodes, (#[trigger] common@[j])@, x@)
                    implies is_ancestor(nodes, x@, common@[j]@) by {
                    if j < i {
                        lemma_ancestor_trans(nodes, common@[j]@, x@, best@);
                        lemma_ancestor_trans(nodes, best@, common@[j]@, x@);
                    }
                }
                assert(views(common@)[i as int] == x@);
            }
            best = x;
            best_anc = xa;
        } else {
            proof {
                assert(is_ancestor(nodes, common@[i as int]@, best@) ==> is_ancestor(nodes, best@, common@[i as int]@));
            }
        }
        i = i + 1;
    }
    Ok(best)
}

/// Finds the merge base of two commits: a lowest common ancestor, none of
/// whose proper descendants is a common ancestor (where history has no
/// cycles); none when they share no ancestor; an error when one of their
/// ancestors is missing from the graph.
pub fn find_merge_base(graph: &CommitGraph, commit1: [u8; 32], commit2: [u8; 32]) -> (r: Result<
    Option<[u8; 32]>,
    ReviusError,
>)
    requires
        graph_wf(graph.nodes@),
    ensures
        commit1@ == commit2@ ==> (r matches Ok(Some(h)) && h@ == commit1@),
        commit1@ != commit2@ ==> (r is Ok <==> all_present(graph.nodes@, commit1@) && all_present(graph.nodes@, commit2@)),
        r matches Ok(Some(m)) ==> is_lowest_common_ancestor(graph.nodes@, commit1@, commit2@, m@),
        r matches Ok(None) ==> no_common_ancestor(graph.nodes@, commit1@, commit2@),
        r is Err ==> r->Err_0 is CommitNotFound,
{
    let ghost nodes = graph.nodes@;
    if hash_eq(&commit1, &commit2) {
        proof {
            lemma_ancestor_refl(nodes, commit1@);
        }
        return Ok(Some(commit1));
    }
    let a1 = ancestors(graph, commit1)?;
    let a2 = ancestors(graph, commit2)?;
    let mut common: Vec<[u8; 32]> = Vec::new();
    let mut i: usize = 0;
    while i < a1.len()
        invariant
            i <= a1@.len(),
            forall|x: Seq<u8>| #[trigger] views(common@).contains(x) ==> views(a1@).contains(x) && views(a2@).contains(x),
            forall|j: int| 0 <= j < i && views(a2@).contains(#[trigger] views(a1@)[j]) ==> views(common@).contains(views(a1@)[j]),
        decreases a1@.len() - i,
    {
        let ghost c0 = common@;
        assert(views(a1@)[i as int] == a1@[i as int]@);
        if contains_hash(&a2, &a1[i]) {
            common.push(a1[i]);
            proof {
                lemma_views_push(c0, a1@[i as int]);
                assert forall|x: Seq<u8>| #[trigger] views(common@).contains(x) implies views(a1@).contains(x)
                    && views(a2@).contains(x) by {
                    if x != a1@[i as int]@ {
                        let j = choose|j: int| 0 <= j < views(common@).len() && views(common@)[j] == x;
                        assert(views(c0)[j] == x);
                        assert(views(c0).contains(x));
                    }
                }
                assert forall|j: int| 0 <= j < i + 1 && views(a2@).contains(#[trigger] views(a1@)[j])
                    implies views(common@).contains(views(a1@)[j]) by {
                    if j < i {
                        let t = choose|t: int| 0 <= t < views(c0).len() && views(c0)[t] == views(a1@)[j];
                        assert(views(common@)[t] == views(a1@)[j]);
                    } else {
                        assert(views(common@)[views(common@).len() - 1] == views(a1@)[j]);
                    }
                }
            }
        }
        i = i + 1;
    }
    proof {
        assert forall|c: Seq<u8>| is_ancestor(nodes, commit1@, c) && is_ancestor(nodes, commit2@, c)
            implies #[trigger] views(common@).contains(c) by {
            assert(views(a1@).contains(c));
            let j = choose|j: int| 0 <= j < views(a1@).len() && views(a1@)[j] == c;
            assert(views(a2@).contains(views(a1@)[j]));
        }
    }
    if common.len() == 0 {
        proof {
            assert forall|c: Seq<u8>| #[trigger] is_ancestor(nodes, commit1@, c) implies !is_ancestor(nodes, commit2@, c) by {
                if is_ancestor(nodes, commit2@, c) {
                    assert(views(common@).contains(c));
                }
            }
        }
        return Ok(None);
    }
    match lowest_of(graph, &common) {
        Ok(m) => {
            proof {
                assert(views(common@).contains(m@));
                assert forall|c: Seq<u8>| #[trigger] is_ancestor(nodes, c, m@) && is_ancestor(nodes, commit1@, c)
                    && is_ancestor(nodes, commit2@, c) implies is_ancestor(nodes, m@, c) by {
                    assert(views(common@).contains(c));
                    let j = choose|j: int| 0 <= j < views(common@).len() && views(common@)[j] == c;
                    assert(common@[j]@ == c);
                }
            }
            Ok(Some(m))
        },
        Err(e) => {
            proof {
                let j = choose|j: int| 0 <= j < common@.len() && !all_present(nodes, (#[trigger] common@[j])@);
                let c = common@[j]@;
                assert(views(common@)[j] == c);
                assert(views(common@).contains(c));
                let y = choose|y: Seq<u8>| #[trigger] is_ancestor(nodes, c, y) && !has_commit(nodes, y);
                lemma_ancestor_trans(nodes, commit1@, c, y);
            }
            Err(e)
        },
    }
}

} // verus!

use vstd::prelude::*;
use crate::graph::{is_ancestor, lemma_ancestor_refl, lemma_ancestor_step, CommitGraph, CommitNode, graph_wf, has_commit, commit_index, node_parents, opt_view, views,
    universe, contains_hash, lemma_parents_at, lemma_parent_in_universe, is_parent, graph_parents};
use crate::hash::{hash_eq, hash_copy};
use crate::models::objects::CommitInfo;
use crate::text::{has_prefix, strip_prefix, str_chars, string_from_chars, find_char, first_index_of};

verus! {

broadcast use vstd::seq_lib::seq_to_set_is_finite;

/// The parents a history walk follows from a commit: the first parent only,
/// or both.
pub open spec fn walk_parents(n: CommitNode, first_parent: bool) -> Seq<Seq<u8>> {
    if first_parent {
        opt_view(n.parent_hash)
    } else {
        node_parents(n)
    }
}

/// The state of a history walk: commits still to visit, commits seen, commits listed.
pub type WalkState = (Seq<Seq<u8>>, Set<Seq<u8>>, Seq<Seq<u8>>);

/// One step of the walk: the first queued commit is taken; a commit seen
/// before is skipped; an unknown commit is marked seen and skipped; a known
/// commit is listed and its parents are queued.
pub open spec fn walk_step(nodes: Seq<CommitNode>, first_parent: bool, s: WalkState) -> WalkState {
    let h = s.0[0];
    let q = s.0.drop_first();
    if s.1.contains(h) {
        (q, s.1, s.2)
    } else if !has_commit(nodes, h) {
        (q, s.1.insert(h), s.2)
    } else {
        (q + walk_parents(nodes[commit_index(nodes, h)], first_parent), s.1.insert(h), s.2.push(h))
    }
}

/// The walk run for at most `fuel` steps; it stops when the queue is empty or
/// when listing a commit reaches the limit.
pub open spec fn walk_run(nodes: Seq<CommitNode>, first_parent: bool, limit: Option<usize>, s: WalkState, fuel: nat) -> Seq<Seq<u8>>
    decreases fuel,
{
    if fuel == 0 || s.0.len() == 0 {
        s.2
    } else {
        let t = walk_step(nodes, first_parent, s);
        if t.2.len() > s.2.len() && (limit matches Some(l) && t.2.len() >= l) {
            t.2
        } else {
            walk_run(nodes, first_parent, limit, t, (fuel - 1) as nat)
        }
    }
}

/// The commits of the history from HEAD, breadth first, each once; no HEAD
/// or a limit of zero gives no history. The fuel is enough for the walk to
/// finish.
pub open spec fn commit_history(nodes: Seq<CommitNode>, head: Option<Seq<u8>>, first_parent: bool, limit: Option<usize>) -> Seq<Seq<u8>> {
    match head {
        None => Seq::empty(),
        Some(h) => if limit == Some(0usize) {
            Seq::empty()
        } else {
            walk_run(nodes, first_parent, limit, (seq![h], Set::empty(), Seq::empty()),
                (2 * universe(nodes, h, h).len() + 1) as nat)
        },
    }
}

/// A walk that has listed fewer than `l` commits lists at most `l`.
proof fn lemma_walk_run_limit(nodes: Seq<CommitNode>, first_parent: bool, l: usize, s: WalkState, fuel: nat)
    requires
        s.2.len() < l,
    ensures
        walk_run(nodes, first_parent, Some(l), s, fuel).len() <= l,
    decreases fuel,
{
    if fuel > 0 && s.0.len() > 0 {
        let t = walk_step(nodes, first_parent, s);
        assert(t.2.len() <= s.2.len() + 1);
        if !(t.2.len() > s.2.len() && t.2.len() >= l) {
            lemma_walk_run_limit(nodes, first_parent, l, t, (fuel - 1) as nat);
        }
    }
}

/// Finds the position of a commit.
pub fn node_index(graph: &CommitGraph, h: &[u8; 32]) -> (r: Option<usize>)
    requires
        graph_wf(graph.nodes@),
    ensures
        match r {
            Some(i) => i < graph.nodes@.len() && graph.nodes@[i as int].hash@ == h@ && commit_index(graph.nodes@, h@) == i,
            None => !has_commit(graph.nodes@, h@),
        },
{
    let mut i: usize = 0;
    while i < graph.nodes.len()
        invariant
            graph_wf(graph.nodes@),
            i <= graph.nodes@.len(),
            forall|j: int| 0 <= j < i ==> graph.nodes@[j].hash@ != h@,
        decreases graph.nodes@.len() - i,
    {
        if hash_eq(&graph.nodes[i].hash, h) {
            proof {
                assert(has_commit(graph.nodes@, h@));
                let k = commit_index(graph.nodes@, h@);
                if k != i {
                    assert(graph.nodes@[k].hash@ == h@);
                }
            }
            return Some(i);
        }
        i = i + 1;
    }
    None
}

/// The measure that a walk step lowers: queued commits, and twice the
/// commits of the universe not yet seen.
pub open spec fn walk_measure(s: WalkState, u: Set<Seq<u8>>) -> int {
    (s.0.len() + 2 * u.difference(s.1).len()) as int
}

/// The commits of the history from HEAD, breadth first, as the log lists
/// them: `first_parent` follows first parents only, and listing stops when
/// `limit` commits are listed: never more than `limit`.
pub fn history_order(graph: &CommitGraph, head: Option<[u8; 32]>, first_parent: bool, limit: Option<usize>) -> (r: Vec<[u8; 32]>)
    requires
        graph_wf(graph.nodes@),
        graph.nodes@.len() <= usize::MAX / 16,
    ensures
        views(r@) == commit_history(graph.nodes@, match head { Some(h) => Some(h@), None => None }, first_parent, limit),
        limit matches Some(l) ==> r@.len() <= l,
{
    let start = match head {
        None => {
            return Vec::new();
        },
        Some(h) => h,
    };
    match limit {
        Some(l) => {
            if l == 0 {
                return Vec::new();
            }
        },
        None => {},
    }
    proof {
        if limit is Some {
            lemma_walk_run_limit(graph.nodes@, first_parent, limit->0, (seq![start@], Set::empty(), Seq::empty()),
                (2 * universe(graph.nodes@, start@, start@).len() + 1) as nat);
        }
    }
    let ghost nodes = graph.nodes@;
    let ghost useq = universe(nodes, start@, start@);
    let ghost u = useq.to_set();
    let ghost fuel: nat = (2 * useq.len() + 1) as nat;
    let ghost target = commit_history(nodes, Some(start@), first_parent, limit);
    let mut queue: Vec<[u8; 32]> = Vec::new();
    queue.push(start);
    let mut qi: usize = 0;
    let mut visited: Vec<[u8; 32]> = Vec::new();
    let mut out: Vec<[u8; 32]> = Vec::new();
    let mut done = false;
    let ghost mut steps: nat = 0;
    proof {
        useq.lemma_cardinality_of_set();
        assert(useq[0] == start@);
        assert(u.contains(start@));
        assert(views(queue@).subrange(0, 1) =~= seq![start@]);
        assert(views(visited@).to_set() =~= Set::<Seq<u8>>::empty());
        assert(views(out@) =~= Seq::<Seq<u8>>::empty());
        assert(u.difference(Set::empty()) =~= u);
    }
    while qi < queue.len() && !done
        invariant
            nodes == graph.nodes@,
            graph_wf(nodes),
            nodes.len() <= usize::MAX / 16,
            useq == universe(nodes, start@, start@),
            u == useq.to_set(),
            u.len() <= useq.len(),
            fuel == 2 * useq.len() + 1,
            target == walk_run(nodes, first_parent, limit, (seq![start@], Set::empty(), Seq::empty()), fuel),
            qi <= queue@.len(),
            queue@.len() <= 1 + 2 * steps,
            steps <= fuel,
            out@.len() <= steps,
            views(visited@).no_duplicates(),
            forall|x: Seq<u8>| #[trigger] views(visited@).contains(x) ==> u.contains(x),
            forall|i: int| qi <= i < queue@.len() ==> u.contains(#[trigger] queue@[i]@),
            done ==> views(out@) == target,
            !done ==> steps + walk_measure((views(queue@).subrange(qi as int, queue@.len() as int), views(visited@).to_set(), views(out@)), u) <= fuel,
            !done ==> walk_run(nodes, first_parent, limit,
                (views(queue@).subrange(qi as int, queue@.len() as int), views(visited@).to_set(), views(out@)),
                (fuel - steps) as nat) == target,
        decreases fuel - steps,
    {
        let ghost s = (views(queue@).subrange(qi as int, queue@.len() as int), views(visited@).to_set(), views(out@));
        let ghost t = walk_step(nodes, first_parent, s);
        let ghost vis0 = visited@;
        let ghost q0 = queue@;
        let ghost out0 = out@;
        proof {
            assert(s.0[0] == queue@[qi as int]@);
            assert(s.0.drop_first() =~= views(queue@).subrange(qi + 1, queue@.len() as int));
        }
        let h = hash_copy(&queue[qi]);
        qi = qi + 1;
        proof {
            steps = steps + 1;
        }
        if contains_hash(&visited, &h) {
            proof {
                assert(views(visited@).to_set().contains(h@));
                assert(t == (views(queue@).subrange(qi as int, queue@.len() as int), views(visited@).to_set(), views(out@)));
            }
        } else {
            visited.push(h);
            proof {
                assert(views(visited@) =~= views(vis0).push(h@));
                assert forall|x: Seq<u8>| views(visited@).to_set().contains(x) <==> s.1.insert(h@).contains(x) by {
                    if views(visited@).contains(x) && x != h@ {
                        let j = choose|j: int| 0 <= j < views(visited@).len() && views(visited@)[j] == x;
                        assert(views(vis0)[j] == x);
                    }
                    if views(vis0).contains(x) {
                        let j = choose|j: int| 0 <= j < views(vis0).len() && views(vis0)[j] == x;
                        assert(views(visited@)[j] == x);
                    }
                    if x == h@ {
                        assert(views(visited@)[views(vis0).len() as int] == x);
                    }
                }
                assert(views(visited@).to_set() =~= s.1.insert(h@));
                assert(u.contains(h@));
                assert(u.difference(s.1.insert(h@)) =~= u.difference(s.1).remove(h@));
                assert forall|i: int, j: int| 0 <= i < views(visited@).len() && 0 <= j < views(visited@).len() && i != j
                    implies views(visited@)[i] != views(visited@)[j] by {
                    if i < views(vis0).len() && j < views(vis0).len() {
                    } else if i < views(vis0).len() {
                        assert(views(vis0).contains(views(vis0)[i]));
                    } else {
                        assert(views(vis0).contains(views(vis0)[j]));
                    }
                }
                assert forall|x: Seq<u8>| #[trigger] views(visited@).contains(x) implies u.contains(x) by {
                    if x != h@ {
                        let j = choose|j: int| 0 <= j < views(visited@).len() && views(visited@)[j] == x;
                        assert(views(vis0)[j] == x);
                        assert(views(vis0).contains(x));
                    }
                }
            }
            match node_index(graph, &h) {
                None => {
                    proof {
                        assert(t == (views(queue@).subrange(qi as int, queue@.len() as int), views(visited@).to_set(), views(out@)));
                    }
                },
                Some(i) => {
                    out.push(h);
                    let node = &graph.nodes[i];
                    let ghost q1 = queue@;
                    match &node.parent_hash {
                        Some(p) => {
                            queue.push(hash_copy(p));
                        },
                        None => {},
                    }
                    if !first_parent {
                        match &node.merge_parent_hash {
                            Some(m) => {
                                queue.push(hash_copy(m));
                            },
                            None => {},
                        }
                    }
                    proof {
                        lemma_parents_at(nodes, i as int);
                        let ps = walk_parents(nodes[i as int], first_parent);
                        assert(views(queue@) =~= views(q1) + ps);
                        assert(views(queue@).subrange(qi as int, queue@.len() as int) =~= views(q1).subrange(qi as int, q1.len() as int) + ps);
                        assert(views(out@) =~= views(out0).push(h@));
                        assert(t == (views(queue@).subrange(qi as int, queue@.len() as int), views(visited@).to_set(), views(out@)));
                        assert forall|k: int| 0 <= k < ps.len() implies u.contains(#[trigger] ps[k]) by {
                            assert(node_parents(nodes[i as int]).contains(ps[k])) by {
                                if first_parent {
                                    assert(node_parents(nodes[i as int])[0] == ps[k]);
                                }
                            }
                            assert(is_parent(nodes, h@, ps[k]));
                            lemma_parent_in_universe(nodes, start@, start@, h@, ps[k]);
                        }
                        assert forall|k: int| qi <= k < queue@.len() implies u.contains(#[trigger] queue@[k]@) by {
                            if k >= q1.len() {
                                assert(queue@[k]@ == views(queue@)[k]);
                                assert(views(queue@)[k] == ps[k - q1.len()]);
                            } else {
                                assert(queue@[k] == q1[k]);
                            }
                        }
                    }
                    match limit {
                        Some(l) => {
                            if out.len() >= l {
                                done = true;
                            }
                        },
                        None => {},
                    }
                },
            }
        }
        proof {
            let s2 = (views(queue@).subrange(qi as int, queue@.len() as int), views(visited@).to_set(), views(out@));
            assert(s2 == t);
            assert(walk_measure(t, u) < walk_measure(s, u));
            assert(walk_run(nodes, first_parent, limit, s, (fuel - steps + 1) as nat) == target);
        }
    }
    proof {
        if !done {
            assert(views(queue@).subrange(qi as int, queue@.len() as int).len() == 0);
        }
    }
    out
}


/// The refs that point at a commit, in the order given.
pub open spec fn refs_at(refs: Seq<(String, [u8; 32])>, h: Seq<u8>) -> Seq<Seq<char>>
    decreases refs.len(),
{
    if refs.len() == 0 {
        Seq::empty()
    } else {
        refs_at(refs.drop_last(), h) + (if refs.last().1@ == h { seq![refs.last().0@] } else { Seq::empty() })
    }
}

/// The paths of the refs that point at `hash`.
pub fn refs_for(all_refs: &Vec<(String, [u8; 32])>, hash: &[u8; 32]) -> (r: Vec<String>)
    ensures
        crate::paths::strs(r@) == refs_at(all_refs@, hash@),
{
    let mut out: Vec<String> = Vec::new();
    let mut i: usize = 0;
    while i < all_refs.len()
        invariant
            i <= all_refs@.len(),
            crate::paths::strs(out@) == refs_at(all_refs@.subrange(0, i as int), hash@),
        decreases all_refs@.len() - i,
    {
        let ghost sub = all_refs@.subrange(0, i + 1);
        assert(sub.drop_last() =~= all_refs@.subrange(0, i as int));
        let ghost before = out@;
        if hash_eq(&all_refs[i].1, hash) {
            out.push(all_refs[i].0.clone());
            assert(crate::paths::strs(out@) =~= crate::paths::strs(before).push(all_refs@[i as int].0@));
        }
        i = i + 1;
        assert(crate::paths::strs(out@) =~= refs_at(sub, hash@));
    }
    assert(all_refs@.subrange(0, i as int) =~= all_refs@);
    out
}

/// How a ref is shown next to a commit: a branch or tag by its short name.
pub open spec fn spec_ref_display(p: Seq<char>) -> Seq<char> {
    if has_prefix(p, "refs/heads/"@) {
        p.subrange(11, p.len() as int)
    } else if has_prefix(p, "refs/tags/"@) {
        p.subrange(10, p.len() as int)
    } else {
        p
    }
}

/// The short name of a ref: without "refs/heads/" or "refs/tags/".
pub fn ref_display_name(ref_path: &str) -> (r: String)
    ensures
        r@ == spec_ref_display(ref_path@),
{
    proof {
        reveal_strlit("refs/heads/");
        reveal_strlit("refs/tags/");
    }
    match strip_prefix(ref_path, "refs/heads/") {
        Some(b) => b,
        None => match strip_prefix(ref_path, "refs/tags/") {
            Some(t) => t,
            None => String::from_str(ref_path),
        },
    }
}

/// How the graph view shows a ref: a branch by its short name, else the full path.
pub open spec fn spec_graph_ref(p: Seq<char>) -> Seq<char> {
    if has_prefix(p, "refs/heads/"@) {
        p.subrange(11, p.len() as int)
    } else {
        p
    }
}

/// The name of a ref in the graph view: without "refs/heads/".
pub fn graph_ref_name(ref_path: &str) -> (r: String)
    ensures
        r@ == spec_graph_ref(ref_path@),
{
    proof {
        reveal_strlit("refs/heads/");
    }
    match strip_prefix(ref_path, "refs/heads/") {
        Some(b) => b,
        None => String::from_str(ref_path),
    }
}

/// The first line of a message (`str::lines`): up to the first line feed,
/// without a carriage return before it; empty for an empty message.
pub open spec fn spec_first_line(m: Seq<char>) -> Seq<char> {
    let line = match first_index_of(m, '\n') {
        Some(i) => m.subrange(0, i),
        None => m,
    };
    if line.len() > 0 && line.last() == '\r' {
        line.drop_last()
    } else {
        line
    }
}

/// The first line of a commit message.
pub fn first_line(message: &str) -> (r: String)
    ensures
        r@ == spec_first_line(message@),
{
    let cs = str_chars(message);
    let end = match find_char(cs.as_slice(), '\n') {
        Some(i) => i,
        None => cs.len(),
    };
    let mut stop = end;
    if end > 0 && cs[end - 1] == '\r' {
        stop = end - 1;
    }
    let r = string_from_chars(&cs.as_slice()[0..stop]);
    proof {
        let line = match first_index_of(message@, '\n') {
            Some(i) => message@.subrange(0, i),
            None => message@,
        };
        assert(line =~= cs@.subrange(0, end as int));
        if end > 0 && cs@[end - 1] == '\r' {
            assert(line.drop_last() =~= cs@.subrange(0, stop as int));
        } else {
            assert(line =~= cs@.subrange(0, stop as int));
        }
    }
    r
}

/// One commit of the graph view: the lane of its '*' among `width` lanes,
/// and whether a connector line with '\' in the next lane follows.
#[derive(Debug)]
pub struct GraphRow {
    pub lane: usize,
    pub width: usize,
    pub connector: bool,
}

/// The position of `h` among the lanes, or the number of lanes.
pub open spec fn find_lane(lanes: Seq<Seq<u8>>, h: Seq<u8>) -> int
    decreases lanes.len(),
{
    if lanes.len() == 0 {
        0
    } else if lanes[0] == h {
        0
    } else {
        1 + find_lane(lanes.drop_first(), h)
    }
}

/// The lanes without repeats, each kept where it first occurs.
pub open spec fn dedup(s: Seq<Seq<u8>>) -> Seq<Seq<u8>>
    decreases s.len(),
{
    if s.len() == 0 {
        Seq::empty()
    } else if dedup(s.drop_last()).contains(s.last()) {
        dedup(s.drop_last())
    } else {
        dedup(s.drop_last()).push(s.last())
    }
}

/// One commit of the graph: it takes the lane that waits for it, or a new
/// lane at the right; its first parent takes its place, a second parent
/// gets a new lane just right of it, a root frees its lane; lanes that
/// wait for the same commit are joined into the leftmost.
pub open spec fn lane_step(lanes: Seq<Seq<u8>>, h: Seq<u8>, p1: Option<Seq<u8>>, p2: Option<Seq<u8>>) -> ((int, int, bool), Seq<Seq<u8>>) {
    let idx = find_lane(lanes, h);
    let l1 = if idx == lanes.len() { lanes.push(h) } else { lanes };
    let width = l1.len() as int;
    match p1 {
        Some(a) => match p2 {
            Some(b) => ((idx, width, true), dedup(l1.update(idx, a).insert(idx + 1, b))),
            None => ((idx, width, false), dedup(l1.update(idx, a))),
        },
        None => ((idx, width, false), dedup(l1.remove(idx))),
    }
}

pub open spec fn opt_hash(h: Option<[u8; 32]>) -> Option<Seq<u8>> {
    match h {
        Some(x) => Some(x@),
        None => None,
    }
}

/// The rows of the graph view of a list of commits, and the lanes after it.
pub open spec fn graph_layout(commits: Seq<CommitInfo>) -> (Seq<(int, int, bool)>, Seq<Seq<u8>>)
    decreases commits.len(),
{
    if commits.len() == 0 {
        (Seq::empty(), Seq::empty())
    } else {
        let prev = graph_layout(commits.drop_last());
        let c = commits.last();
        let st = lane_step(prev.1, c.hash@, opt_hash(c.parent_hash), opt_hash(c.merge_parent_hash));
        (prev.0.push(st.0), st.1)
    }
}

pub open spec fn row_view(r: GraphRow) -> (int, int, bool) {
    (r.lane as int, r.width as int, r.connector)
}

proof fn lemma_dedup_props(s: Seq<Seq<u8>>)
    ensures
        dedup(s).len() <= s.len(),
        dedup(s).no_duplicates(),
        forall|x: Seq<u8>| dedup(s).contains(x) <==> s.contains(x),
    decreases s.len(),
{
    if s.len() > 0 {
        lemma_dedup_props(s.drop_last());
        let d = dedup(s.drop_last());
        assert forall|x: Seq<u8>| dedup(s).contains(x) <==> s.contains(x) by {
            if s.drop_last().contains(x) {
                let j = choose|j: int| 0 <= j < s.drop_last().len() && s.drop_last()[j] == x;
                assert(s[j] == x);
            }
            if s.contains(x) && x != s.last() {
                let j = choose|j: int| 0 <= j < s.len() && s[j] == x;
                assert(s.drop_last()[j] == x);
            }
            if !d.contains(s.last()) {
                if dedup(s).contains(x) && x != s.last() {
                    let j = choose|j: int| 0 <= j < dedup(s).len() && dedup(s)[j] == x;
                    assert(d[j] == x);
                }
                if d.contains(x) {
                    let j = choose|j: int| 0 <= j < d.len() && d[j] == x;
                    assert(dedup(s)[j] == x);
                }
                assert(dedup(s)[d.len() as int] == s.last());
            }
            assert(s[s.len() - 1] == s.last());
        }
    }
}

fn find_lane_exec(lanes: &Vec<[u8; 32]>, h: &[u8; 32]) -> (r: usize)
    ensures
        r as int == find_lane(views(lanes@), h@),
        r <= lanes@.len(),
{
    let mut i: usize = 0;
    assert(views(lanes@).subrange(0, lanes@.len() as int) =~= views(lanes@));
    while i < lanes.len()
        invariant
            i <= lanes@.len(),
            find_lane(views(lanes@), h@) == i + find_lane(views(lanes@).subrange(i as int, lanes@.len() as int), h@),
        decreases lanes@.len() - i,
    {
        let ghost t = views(lanes@).subrange(i as int, lanes@.len() as int);
        assert(t[0] == lanes@[i as int]@);
        if hash_eq(&lanes[i], h) {
            return i;
        }
        assert(t.drop_first() =~= views(lanes@).subrange(i + 1, lanes@.len() as int));
        i = i + 1;
    }
    i
}

fn dedup_exec(lanes: &Vec<[u8; 32]>) -> (r: Vec<[u8; 32]>)
    ensures
        views(r@) == dedup(views(lanes@)),
        r@.len() <= lanes@.len(),
{
    let mut out: Vec<[u8; 32]> = Vec::new();
    let mut i: usize = 0;
    while i < lanes.len()
        invariant
            i <= lanes@.len(),
            views(out@) == dedup(views(lanes@).subrange(0, i as int)),
            out@.len() <= i,
        decreases lanes@.len() - i,
    {
        let ghost sub = views(lanes@).subrange(0, i + 1);
        assert(sub.drop_last() =~= views(lanes@).subrange(0, i as int));
        assert(sub.last() == lanes@[i as int]@);
        if !contains_hash(&out, &lanes[i]) {
            let ghost before = out@;
            out.push(hash_copy(&lanes[i]));
            assert(views(out@) =~= views(before).push(lanes@[i as int]@));
        }
        i = i + 1;
    }
    assert(views(lanes@).subrange(0, i as int) =~= views(lanes@));
    out
}

/// The lane layout of the graph view of the log: for each commit, the lane of
/// its '*', the number of lanes drawn, and whether a merge connector follows.
pub fn layout_graph(commits: &Vec<CommitInfo>) -> (r: Vec<GraphRow>)
    requires
        commits@.len() <= usize::MAX / 4,
    ensures
        r@.map_values(|x: GraphRow| row_view(x)) == graph_layout(commits@).0,
        forall|i: int| 0 <= i < r@.len() ==> (#[trigger] r@[i]).lane < r@[i].width,
{
    let mut lanes: Vec<[u8; 32]> = Vec::new();
    let mut rows: Vec<GraphRow> = Vec::new();
    let mut k: usize = 0;
    while k < commits.len()
        invariant
            k <= commits@.len(),
            commits@.len() <= usize::MAX / 4,
            lanes@.len() <= 2 * k,
            rows@.map_values(|x: GraphRow| row_view(x)) == graph_layout(commits@.subrange(0, k as int)).0,
            views(lanes@) == graph_layout(commits@.subrange(0, k as int)).1,
            forall|i: int| 0 <= i < rows@.len() ==> (#[trigger] rows@[i]).lane < rows@[i].width,
        decreases commits@.len() - k,
    {
        let ghost sub = commits@.subrange(0, k + 1);
        let ghost lv = views(lanes@);
        proof {
            assert(sub.drop_last() =~= commits@.subrange(0, k as int));
            assert(sub.last() == commits@[k as int]);
        }
        let c = &commits[k];
        let idx = find_lane_exec(&lanes, &c.hash);
        if idx == lanes.len() {
            lanes.push(hash_copy(&c.hash));
            assert(views(lanes@) =~= lv.push(c.hash@));
        }
        let ghost l1 = views(lanes@);
        let width = lanes.len();
        let mut connector = false;
        match &c.parent_hash {
            Some(p1) => {
                lanes.set(idx, hash_copy(p1));
                assert(views(lanes@) =~= l1.update(idx as int, p1@));
                match &c.merge_parent_hash {
                    Some(p2) => {
                        let ghost l2 = views(lanes@);
                        lanes.insert(idx + 1, hash_copy(p2));
                        assert(views(lanes@) =~= l2.insert(idx + 1, p2@));
                        connector = true;
                    },
                    None => {},
                }
            },
            None => {
                let _ = lanes.remove(idx);
                assert(views(lanes@) =~= l1.remove(idx as int));
            },
        }
        let next = dedup_exec(&lanes);
        proof {
            lemma_dedup_props(views(lanes@));
        }
        lanes = next;
        let ghost rows0 = rows@;
        rows.push(GraphRow { lane: idx, width, connector });
        proof {
            assert(rows@.map_values(|x: GraphRow| row_view(x)) =~= rows0.map_values(|x: GraphRow| row_view(x)).push(row_view(rows@[rows0.len() as int])));
        }
        k = k + 1;
    }
    assert(commits@.subrange(0, k as int) =~= commits@);
    rows
}

/// In the graph view no two lanes ever wait for the same commit, and each
/// row's '*' stands within the lanes drawn.
pub proof fn law_graph_lanes_distinct(commits: Seq<CommitInfo>)
    ensures
        graph_layout(commits).1.no_duplicates(),
        forall|i: int| 0 <= i < graph_layout(commits).0.len() ==> 0 <= (#[trigger] graph_layout(commits).0[i]).0 < graph_layout(commits).0[i].1,
    decreases commits.len(),
{
    if commits.len() > 0 {
        law_graph_lanes_distinct(commits.drop_last());
        let prev = graph_layout(commits.drop_last());
        let c = commits.last();
        let st = lane_step(prev.1, c.hash@, opt_hash(c.parent_hash), opt_hash(c.merge_parent_hash));
        lemma_find_lane_bound(prev.1, c.hash@);
        let idx = find_lane(prev.1, c.hash@);
        let l1 = if idx == prev.1.len() { prev.1.push(c.hash@) } else { prev.1 };
        match opt_hash(c.parent_hash) {
            Some(a) => match opt_hash(c.merge_parent_hash) {
                Some(b) => lemma_dedup_props(l1.update(idx, a).insert(idx + 1, b)),
                None => lemma_dedup_props(l1.update(idx, a)),
            },
            None => lemma_dedup_props(l1.remove(idx)),
        }
        let rows = graph_layout(commits).0;
        assert forall|i: int| 0 <= i < rows.len() implies 0 <= (#[trigger] rows[i]).0 < rows[i].1 by {
            if i < prev.0.len() {
                assert(rows[i] == prev.0[i]);
            }
        }
    }
}

proof fn lemma_find_lane_bound(lanes: Seq<Seq<u8>>, h: Seq<u8>)
    ensures
        0 <= find_lane(lanes, h) <= lanes.len(),
    decreases lanes.len(),
{
    if lanes.len() > 0 && lanes[0] != h {
        lemma_find_lane_bound(lanes.drop_first(), h);
    }
}

pub open spec fn walk_inv(nodes: Seq<CommitNode>, head: Seq<u8>, s: WalkState) -> bool {
    &&& s.2.no_duplicates()
    &&& forall|x: Seq<u8>| s.2.contains(x) ==> s.1.contains(x)
    &&& forall|x: Seq<u8>| s.1.contains(x) ==> is_ancestor(nodes, head, x)
    &&& forall|i: int| 0 <= i < s.0.len() ==> is_ancestor(nodes, head, #[trigger] s.0[i])
}

proof fn lemma_walk_step_inv(nodes: Seq<CommitNode>, first_parent: bool, head: Seq<u8>, s: WalkState)
    requires
        walk_inv(nodes, head, s),
        s.0.len() > 0,
    ensures
        walk_inv(nodes, head, walk_step(nodes, first_parent, s)),
{
    let h = s.0[0];
    let t = walk_step(nodes, first_parent, s);
    assert(is_ancestor(nodes, head, h));
    if !s.1.contains(h) && has_commit(nodes, h) {
        let n = nodes[commit_index(nodes, h)];
        let ps = walk_parents(n, first_parent);
        assert(graph_parents(nodes, h) == Some(node_parents(n)));
        assert forall|i: int| 0 <= i < t.0.len() implies is_ancestor(nodes, head, #[trigger] t.0[i]) by {
            if i < s.0.len() - 1 {
                assert(t.0[i] == s.0[i + 1]);
            } else {
                let k = i - (s.0.len() - 1);
                assert(t.0[i] == ps[k]);
                assert(node_parents(n).contains(ps[k])) by {
                    if first_parent {
                        assert(node_parents(n)[0] == ps[k]);
                    } else {
                        assert(node_parents(n)[k] == ps[k]);
                    }
                }
                lemma_ancestor_step(nodes, head, h, ps[k]);
            }
        }
        assert forall|x: Seq<u8>| t.2.contains(x) implies t.1.contains(x) by {
            if x != h {
                let j = choose|j: int| 0 <= j < t.2.len() && t.2[j] == x;
                assert(s.2[j] == x);
                assert(s.2.contains(x));
            }
        }
        assert(!s.2.contains(h));
        assert forall|a: int, b: int| 0 <= a < t.2.len() && 0 <= b < t.2.len() && a != b implies t.2[a] != t.2[b] by {
            if a < s.2.len() && b < s.2.len() {
            } else if a < s.2.len() {
                assert(s.2.contains(s.2[a]));
            } else {
                assert(s.2.contains(s.2[b]));
            }
        }
    } else {
        assert forall|i: int| 0 <= i < t.0.len() implies is_ancestor(nodes, head, #[trigger] t.0[i]) by {
            assert(t.0[i] == s.0[i + 1]);
        }
    }
}

proof fn lemma_walk_run_inv(nodes: Seq<CommitNode>, first_parent: bool, limit: Option<usize>, head: Seq<u8>, s: WalkState, fuel: nat)
    requires
        walk_inv(nodes, head, s),
    ensures
        walk_run(nodes, first_parent, limit, s, fuel).no_duplicates(),
        forall|x: Seq<u8>| walk_run(nodes, first_parent, limit, s, fuel).contains(x) ==> is_ancestor(nodes, head, x),
    decreases fuel,
{
    if fuel > 0 && s.0.len() > 0 {
        lemma_walk_step_inv(nodes, first_parent, head, s);
        let t = walk_step(nodes, first_parent, s);
        lemma_walk_run_inv(nodes, first_parent, limit, head, t, (fuel - 1) as nat);
    }
}

/// The history lists each commit once, and only HEAD and its ancestors.
pub proof fn law_history_lists_ancestors_once(nodes: Seq<CommitNode>, head: Seq<u8>, first_parent: bool, limit: Option<usize>)
    ensures
        commit_history(nodes, Some(head), first_parent, limit).no_duplicates(),
        forall|x: Seq<u8>| #[trigger] commit_history(nodes, Some(head), first_parent, limit).contains(x)
            ==> is_ancestor(nodes, head, x),
{
    let s: WalkState = (seq![head], Set::empty(), Seq::empty());
    assert(Seq::<Seq<u8>>::empty().no_duplicates());
    lemma_ancestor_refl(nodes, head);
    assert(walk_inv(nodes, head, s));
    lemma_walk_run_inv(nodes, first_parent, limit, head, s, (2 * universe(nodes, head, head).len() + 1) as nat);
}

/// `b` is a parent that the walk follows from the commit `a`.
pub open spec fn walk_edge(nodes: Seq<CommitNode>, first_parent: bool, a: Seq<u8>, b: Seq<u8>) -> bool {
    has_commit(nodes, a) && walk_parents(nodes[commit_index(nodes, a)], first_parent).contains(b)
}

/// `to` is reached from `from` by at most `n` parent links that the walk follows.
pub open spec fn walk_reach(nodes: Seq<CommitNode>, first_parent: bool, from: Seq<u8>, to: Seq<u8>, n: nat) -> bool
    decreases n,
{
    if n == 0 {
        from == to
    } else {
        walk_reach(nodes, first_parent, from, to, (n - 1) as nat) || exists|mid: Seq<u8>|
            walk_reach(nodes, first_parent, from, mid, (n - 1) as nat) && #[trigger] walk_edge(nodes, first_parent, mid, to)
    }
}

pub open spec fn walk_reachable(nodes: Seq<CommitNode>, first_parent: bool, from: Seq<u8>, to: Seq<u8>) -> bool {
    exists|n: nat| #[trigger] walk_reach(nodes, first_parent, from, to, n)
}

/// What a walk keeps towards listing everything: seen commits of the graph
/// are listed, their followed parents are seen or queued, and HEAD is seen
/// or queued.
pub open spec fn walk_complete_inv(nodes: Seq<CommitNode>, first_parent: bool, head: Seq<u8>, s: WalkState) -> bool {
    &&& forall|x: Seq<u8>| s.1.contains(x) && has_commit(nodes, x) ==> #[trigger] s.2.contains(x)
    &&& forall|x: Seq<u8>, p: Seq<u8>| #[trigger] s.1.contains(x) && #[trigger] walk_edge(nodes, first_parent, x, p)
        ==> s.1.contains(p) || s.0.contains(p)
    &&& s.1.contains(head) || s.0.contains(head)
}

proof fn lemma_walk_step_complete(nodes: Seq<CommitNode>, first_parent: bool, head: Seq<u8>, s: WalkState)
    requires
        walk_complete_inv(nodes, first_parent, head, s),
        s.0.len() > 0,
    ensures
        walk_complete_inv(nodes, first_parent, head, walk_step(nodes, first_parent, s)),
{
    let h = s.0[0];
    let q = s.0.drop_first();
    let t = walk_step(nodes, first_parent, s);
    assert forall|p: Seq<u8>| s.0.contains(p) && p != h implies q.contains(p) by {
        let j = choose|j: int| 0 <= j < s.0.len() && s.0[j] == p;
        assert(j > 0);
        assert(q[j - 1] == p);
    }
    if s.1.contains(h) {
        assert(t == (q, s.1, s.2));
    } else if !has_commit(nodes, h) {
        assert(t == (q, s.1.insert(h), s.2));
        assert forall|x: Seq<u8>, p: Seq<u8>| #[trigger] t.1.contains(x) && #[trigger] walk_edge(nodes, first_parent, x, p)
            implies t.1.contains(p) || t.0.contains(p) by {
            assert(x != h);
            assert(s.1.contains(p) || s.0.contains(p));
        }
    } else {
        let ps = walk_parents(nodes[commit_index(nodes, h)], first_parent);
        assert(t == (q + ps, s.1.insert(h), s.2.push(h)));
        assert forall|x: Seq<u8>| t.1.contains(x) && has_commit(nodes, x) implies #[trigger] t.2.contains(x) by {
            if x == h {
                assert(t.2[s.2.len() as int] == h);
            } else {
                assert(s.2.contains(x));
                let j = choose|j: int| 0 <= j < s.2.len() && s.2[j] == x;
                assert(t.2[j] == x);
            }
        }
        assert forall|x: Seq<u8>, p: Seq<u8>| #[trigger] t.1.contains(x) && #[trigger] walk_edge(nodes, first_parent, x, p)
            implies t.1.contains(p) || t.0.contains(p) by {
            if x == h {
                assert(ps.contains(p));
                let k = choose|k: int| 0 <= k < ps.len() && ps[k] == p;
                assert(t.0[q.len() + k] == p);
            } else {
                assert(s.1.contains(p) || s.0.contains(p));
                if s.0.contains(p) && p != h {
                    assert(q.contains(p));
                    let j = choose|j: int| 0 <= j < q.len() && q[j] == p;
                    assert(t.0[j] == p);
                }
            }
        }
        if s.0.contains(head) && head != h {
            assert(q.contains(head));
            let j = choose|j: int| 0 <= j < q.len() && q[j] == head;
            assert(t.0[j] == head);
        }
    }
}

/// Every queued commit lies in `u`.
pub open spec fn queued_in(s: WalkState, u: Set<Seq<u8>>) -> bool {
    forall|i: int| 0 <= i < s.0.len() ==> u.contains(#[trigger] s.0[i])
}

proof fn lemma_walk_step_measure(nodes: Seq<CommitNode>, first_parent: bool, head: Seq<u8>, s: WalkState)
    requires
        s.0.len() > 0,
        queued_in(s, universe(nodes, head, head).to_set()),
    ensures
        queued_in(walk_step(nodes, first_parent, s), universe(nodes, head, head).to_set()),
        walk_measure(walk_step(nodes, first_parent, s), universe(nodes, head, head).to_set())
            < walk_measure(s, universe(nodes, head, head).to_set()),
{
    let u = universe(nodes, head, head).to_set();
    let h = s.0[0];
    let q = s.0.drop_first();
    let t = walk_step(nodes, first_parent, s);
    assert(u.contains(h));
    universe(nodes, head, head).lemma_cardinality_of_set();
    assert forall|i: int| 0 <= i < q.len() implies u.contains(#[trigger] q[i]) by {
        assert(q[i] == s.0[i + 1]);
    }
    if s.1.contains(h) {
    } else if !has_commit(nodes, h) {
        assert(u.difference(s.1.insert(h)) =~= u.difference(s.1).remove(h));
    } else {
        let n = nodes[commit_index(nodes, h)];
        let ps = walk_parents(n, first_parent);
        assert(graph_parents(nodes, h) == Some(node_parents(n)));
        assert(u.difference(s.1.insert(h)) =~= u.difference(s.1).remove(h));
        assert forall|i: int| 0 <= i < t.0.len() implies u.contains(#[trigger] t.0[i]) by {
            if i < q.len() {
                assert(t.0[i] == q[i]);
            } else {
                let k = i - q.len();
                assert(t.0[i] == ps[k]);
                assert(node_parents(n).contains(ps[k])) by {
                    if first_parent {
                        assert(node_parents(n)[0] == ps[k]);
                    } else {
                        assert(node_parents(n)[k] == ps[k]);
                    }
                }
                assert(is_parent(nodes, h, ps[k]));
                lemma_parent_in_universe(nodes, head, head, h, ps[k]);
            }
        }
    }
}

/// A set that holds `a` and the followed parents of its commits holds
/// everything the walk reaches from `a`.
proof fn lemma_closed_holds_reached(nodes: Seq<CommitNode>, first_parent: bool, seen: Set<Seq<u8>>, a: Seq<u8>, c: Seq<u8>, n: nat)
    requires
        seen.contains(a),
        forall|x: Seq<u8>, p: Seq<u8>| #[trigger] seen.contains(x) && #[trigger] walk_edge(nodes, first_parent, x, p)
            ==> seen.contains(p),
        walk_reach(nodes, first_parent, a, c, n),
    ensures
        seen.contains(c),
    decreases n,
{
    if n > 0 {
        if walk_reach(nodes, first_parent, a, c, (n - 1) as nat) {
            lemma_closed_holds_reached(nodes, first_parent, seen, a, c, (n - 1) as nat);
        } else {
            let mid = choose|mid: Seq<u8>| walk_reach(nodes, first_parent, a, mid, (n - 1) as nat)
                && #[trigger] walk_edge(nodes, first_parent, mid, c);
            lemma_closed_holds_reached(nodes, first_parent, seen, a, mid, (n - 1) as nat);
        }
    }
}

proof fn lemma_walk_run_complete(nodes: Seq<CommitNode>, first_parent: bool, head: Seq<u8>, s: WalkState, fuel: nat, c: Seq<u8>)
    requires
        walk_complete_inv(nodes, first_parent, head, s),
        queued_in(s, universe(nodes, head, head).to_set()),
        fuel >= walk_measure(s, universe(nodes, head, head).to_set()),
        walk_reachable(nodes, first_parent, head, c),
        has_commit(nodes, c),
    ensures
        walk_run(nodes, first_parent, None, s, fuel).contains(c),
    decreases fuel,
{
    if s.0.len() == 0 {
        assert forall|x: Seq<u8>, p: Seq<u8>| #[trigger] s.1.contains(x) && #[trigger] walk_edge(nodes, first_parent, x, p)
            implies s.1.contains(p) by {
            assert(s.1.contains(p) || s.0.contains(p));
        }
        assert(!s.0.contains(head));
        let n = choose|n: nat| #[trigger] walk_reach(nodes, first_parent, head, c, n);
        lemma_closed_holds_reached(nodes, first_parent, s.1, head, c, n);
        assert(s.1.contains(c) && has_commit(nodes, c));
        assert(s.2.contains(c));
    } else {
        assert(fuel > 0);
        lemma_walk_step_complete(nodes, first_parent, head, s);
        lemma_walk_step_measure(nodes, first_parent, head, s);
        let t = walk_step(nodes, first_parent, s);
        lemma_walk_run_complete(nodes, first_parent, head, t, (fuel - 1) as nat, c);
    }
}

/// Without a limit, the history lists every commit of the graph that the
/// walk reaches from HEAD through the parents it follows (first parents
/// only with `first_parent`).
pub proof fn law_history_lists_every_reachable_commit(nodes: Seq<CommitNode>, head: Seq<u8>, first_parent: bool, c: Seq<u8>)
    requires
        walk_reachable(nodes, first_parent, head, c),
        has_commit(nodes, c),
    ensures
        commit_history(nodes, Some(head), first_parent, None).contains(c),
{
    let useq = universe(nodes, head, head);
    let u = useq.to_set();
    let s: WalkState = (seq![head], Set::empty(), Seq::empty());
    useq.lemma_cardinality_of_set();
    assert(useq[0] == head);
    assert(u.contains(head));
    assert(s.0[0] == head);
    assert(s.0.contains(head));
    assert(u.difference(Set::empty()) =~= u);
    assert(queued_in(s, u));
    assert(walk_complete_inv(nodes, first_parent, head, s));
    lemma_walk_run_complete(nodes, first_parent, head, s, (2 * useq.len() + 1) as nat, c);
}


proof fn lemma_find_lane_hit(lanes: Seq<Seq<u8>>, h: Seq<u8>)
    ensures
        find_lane(lanes, h) < lanes.len() ==> lanes[find_lane(lanes, h)] == h,
        find_lane(lanes, h) == lanes.len() ==> !lanes.contains(h),
    decreases lanes.len(),
{
    lemma_find_lane_bound(lanes, h);
    if lanes.len() > 0 && lanes[0] != h {
        lemma_find_lane_hit(lanes.drop_first(), h);
        if lanes.contains(h) {
            let j = choose|j: int| 0 <= j < lanes.len() && lanes[j] == h;
            assert(lanes.drop_first()[j - 1] == h);
        }
        lemma_find_lane_bound(lanes.drop_first(), h);
        let k = find_lane(lanes.drop_first(), h);
        assert(find_lane(lanes, h) == 1 + k);
        if k < lanes.len() - 1 {
            assert(lanes[1 + k] == lanes.drop_first()[k]);
        }
    }
}

/// A root commit (no first parent) frees its lane: afterwards no lane waits
/// for it, and fewer lanes are drawn than on its own row.
pub proof fn law_root_frees_its_lane(commits: Seq<CommitInfo>, c: CommitInfo)
    requires
        c.parent_hash is None,
    ensures
        !graph_layout(commits.push(c)).1.contains(c.hash@),
        graph_layout(commits.push(c)).1.len() < graph_layout(commits.push(c)).0.last().1,
{
    let all = commits.push(c);
    assert(all.drop_last() =~= commits);
    assert(all.last() == c);
    law_graph_lanes_distinct(commits);
    let lanes = graph_layout(commits).1;
    let h = c.hash@;
    lemma_find_lane_hit(lanes, h);
    lemma_find_lane_bound(lanes, h);
    let idx = find_lane(lanes, h);
    let l1 = if idx == lanes.len() { lanes.push(h) } else { lanes };
    assert(l1[idx] == h);
    assert(l1.no_duplicates()) by {
        if idx == lanes.len() {
            assert forall|a: int, b: int| 0 <= a < l1.len() && 0 <= b < l1.len() && a != b implies l1[a] != l1[b] by {
                if a < lanes.len() && b < lanes.len() {
                } else if a < lanes.len() {
                    assert(lanes.contains(lanes[a]));
                } else {
                    assert(lanes.contains(lanes[b]));
                }
            }
        }
    }
    let rest = l1.remove(idx);
    assert(!rest.contains(h)) by {
        if rest.contains(h) {
            let j = choose|j: int| 0 <= j < rest.len() && rest[j] == h;
            if j < idx {
                assert(rest[j] == l1[j]);
            } else {
                assert(rest[j] == l1[j + 1]);
            }
        }
    }
    lemma_dedup_props(rest);
    assert(graph_layout(all).1 == dedup(rest));
    assert(graph_layout(all).0.last().1 == l1.len());
}

} // verus!

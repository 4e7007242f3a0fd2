use vstd::prelude::*;
use crate::error::ReviusError;
use crate::graph::{CommitGraph, graph_wf, graph_parents, commit_parents, views};
use crate::hash::{hash_copy, hash_to_short_hex, spec_hex_value, is_hex_char, hex_value};
use crate::paths::{pair_lookup, pairs_distinct, lookup_pair};
use crate::refs::HeadState;
use crate::text::{str_chars, string_from_chars, first_index_of, find_char, spec_parse_unsigned, parse_unsigned, has_prefix, strip_prefix, concat, str_eq};

verus! {

/// What a revision text resolves to: a branch with its commit, or a commit.
#[derive(Debug)]
pub enum ResolvedTarget {
    Branch(String, [u8; 32]),
    Commit([u8; 32]),
}

pub open spec fn target_hash(t: ResolvedTarget) -> Seq<u8> {
    match t {
        ResolvedTarget::Branch(_, h) => h@,
        ResolvedTarget::Commit(h) => h@,
    }
}

impl ResolvedTarget {
    /// The commit the target stands for.
    pub fn hash(&self) -> (h: [u8; 32])
        ensures
            h@ == target_hash(*self),
    {
        match self {
            ResolvedTarget::Branch(_, h) => *h,
            ResolvedTarget::Commit(h) => *h,
        }
    }
}

/// How many times `c` occurs in `s`.
pub open spec fn count_char(s: Seq<char>, c: char) -> nat
    decreases s.len(),
{
    if s.len() == 0 {
        0
    } else {
        count_char(s.drop_last(), c) + if s.last() == c { 1nat } else { 0nat }
    }
}

/// Splits "base~n", "base~" and "base^^" into the base and the number of
/// first-parent steps; a count that does not parse counts as one step.
pub open spec fn spec_parse_ancestry(t: Seq<char>) -> (Seq<char>, nat) {
    match first_index_of(t, '~') {
        Some(pos) => {
            let rest = t.subrange(pos + 1, t.len() as int);
            (t.subrange(0, pos), if rest.len() == 0 {
                1
            } else {
                match spec_parse_unsigned(rest, usize::MAX as nat) {
                    Some(v) => v,
                    None => 1,
                }
            })
        },
        None => match first_index_of(t, '^') {
            Some(pos) => (t.subrange(0, pos), count_char(t.subrange(pos, t.len() as int), '^')),
            None => (t, 0),
        },
    }
}

/// Parses the ancestry suffix of a revision text.
pub fn parse_ancestry(target: &str) -> (r: (String, usize))
    ensures
        (r.0@, r.1 as nat) == spec_parse_ancestry(target@),
{
    let cs = str_chars(target);
    let n = cs.len();
    match find_char(cs.as_slice(), '~') {
        Some(pos) => {
            let base = string_from_chars(&cs.as_slice()[0..pos]);
            let rest = string_from_chars(&cs.as_slice()[pos + 1..n]);
            let count: usize = if pos + 1 == n {
                1
            } else {
                match parse_unsigned(rest.as_str(), usize::MAX as u64) {
                    Some(v) => v as usize,
                    None => 1,
                }
            };
            (base, count)
        },
        None => match find_char(cs.as_slice(), '^') {
            Some(pos) => {
                let base = string_from_chars(&cs.as_slice()[0..pos]);
                let mut count: usize = 0;
                let mut i: usize = pos;
                while i < n
                    invariant
                        cs@ == target@,
                        n == cs@.len(),
                        pos <= i <= n,
                        count == count_char(cs@.subrange(pos as int, i as int), '^'),
                        count <= i - pos,
                    decreases n - i,
                {
                    proof {
                        assert(cs@.subrange(pos as int, i + 1).drop_last() =~= cs@.subrange(pos as int, i as int));
                    }
                    if cs[i] == '^' {
                        count = count + 1;
                    }
                    i = i + 1;
                }
                (base, count)
            },
            None => (String::from_str(target), 0),
        },
    }
}

/// A hash prefix: one to 64 hexadecimal digits.
pub open spec fn spec_valid_hash_prefix(p: Seq<char>) -> bool {
    1 <= p.len() <= 64 && forall|i: int| 0 <= i < p.len() ==> is_hex_char(#[trigger] p[i])
}

/// Whether a text can be a hash prefix.
pub fn is_valid_hash_prefix(prefix: &str) -> (r: bool)
    ensures
        r == spec_valid_hash_prefix(prefix@),
{
    let cs = str_chars(prefix);
    if cs.len() < 1 || cs.len() > 64 {
        return false;
    }
    let mut i: usize = 0;
    while i < cs.len()
        invariant
            cs@ == prefix@,
            i <= cs@.len(),
            forall|j: int| 0 <= j < i ==> is_hex_char(#[trigger] cs@[j]),
        decreases cs@.len() - i,
    {
        if hex_value(cs[i]).is_none() {
            return false;
        }
        i = i + 1;
    }
    true
}

/// The `i`-th hex digit (nibble) of a byte sequence, high nibble first.
pub open spec fn nibble(h: Seq<u8>, i: int) -> int {
    if i % 2 == 0 {
        h[i / 2] as int / 16
    } else {
        h[i / 2] as int % 16
    }
}

/// The hex text of `h` starts with the digits of `p` (either case).
pub open spec fn prefix_matches(h: Seq<u8>, p: Seq<char>) -> bool {
    p.len() <= 2 * h.len() && forall|i: int| 0 <= i < p.len() ==> nibble(h, i) == spec_hex_value(#[trigger] p[i])->0 as int
}

/// The bytes of a hex prefix, the last one padded with a zero digit when the
/// digit count is odd, and the digit count.
pub fn hex_prefix_to_bytes(prefix: &str) -> (r: (Vec<u8>, usize))
    requires
        spec_valid_hash_prefix(prefix@),
    ensures
        r.1 == prefix@.len(),
        r.0@.len() == (prefix@.len() + 1) / 2,
        forall|i: int| 0 <= i < prefix@.len() ==> nibble(r.0@, i) == spec_hex_value(#[trigger] prefix@[i])->0 as int,
{
    let cs = str_chars(prefix);
    let n = cs.len();
    let mut out: Vec<u8> = Vec::new();
    let mut k: usize = 0;
    while k < (n + 1) / 2
        invariant
            cs@ == prefix@,
            n == cs@.len(),
            1 <= n <= 64,
            forall|i: int| 0 <= i < n ==> is_hex_char(#[trigger] cs@[i]),
            k <= (n + 1) / 2,
            out@.len() == k,
            forall|i: int| 0 <= i < 2 * k && i < n ==> nibble(out@, i) == spec_hex_value(#[trigger] cs@[i])->0 as int,
        decreases (n + 1) / 2 - k,
    {
        let hi = hex_value(cs[2 * k]).unwrap();
        let lo: u8 = if 2 * k + 1 < n { hex_value(cs[2 * k + 1]).unwrap() } else { 0 };
        let b: u8 = 16 * hi + lo;
        let ghost old_out = out@;
        out.push(b);
        proof {
            assert forall|i: int| 0 <= i < 2 * (k + 1) && i < n implies nibble(out@, i) == spec_hex_value(#[trigger] cs@[i])->0 as int by {
                if i < 2 * k {
                    assert(out@[i / 2] == old_out[i / 2]);
                } else {
                    assert(out@[i / 2] == b);
                    assert(i / 2 == k);
                }
            }
        }
        k = k + 1;
    }
    (out, n)
}

/// Byte-level prefix test: the first `hex_len / 2` bytes are equal and, when
/// `hex_len` is odd, so are the high nibbles of the next byte.
pub open spec fn spec_hash_matches_prefix(hash: Seq<u8>, prefix_bytes: Seq<u8>, hex_len: int) -> bool {
    hash.len() >= prefix_bytes.len() && (forall|i: int| 0 <= i < hex_len / 2 ==> hash[i] == prefix_bytes[i]) && (
    hex_len % 2 == 1 ==> (hash[hex_len / 2] >> 4) == (prefix_bytes[hex_len / 2] >> 4))
}

/// Whether a hash starts with the given prefix bytes.
pub fn hash_matches_prefix(hash: &[u8], prefix_bytes: &[u8], hex_len: usize) -> (r: bool)
    requires
        hex_len / 2 + hex_len % 2 <= prefix_bytes@.len(),
    ensures
        r == spec_hash_matches_prefix(hash@, prefix_bytes@, hex_len as int),
{
    let full_bytes = hex_len / 2;
    let has_nibble = hex_len % 2 == 1;
    if hash.len() < prefix_bytes.len() {
        return false;
    }
    let mut i: usize = 0;
    while i < full_bytes
        invariant
            full_bytes == hex_len / 2,
            full_bytes <= prefix_bytes@.len() <= hash@.len(),
            i <= full_bytes,
            forall|j: int| 0 <= j < i ==> hash@[j] == prefix_bytes@[j],
        decreases full_bytes - i,
    {
        if hash[i] != prefix_bytes[i] {
            return false;
        }
        i = i + 1;
    }
    if has_nibble {
        let hash_nibble = hash[full_bytes] >> 4;
        let prefix_nibble = prefix_bytes[full_bytes] >> 4;
        if hash_nibble != prefix_nibble {
            return false;
        }
    }
    true
}

proof fn lemma_byte_split(x: u8)
    ensures
        x >> 4 == x / 16,
        x == 16 * (x / 16) + x % 16,
{
    assert(x >> 4 == x / 16) by (bit_vector);
}

proof fn lemma_prefix_equiv(hash: Seq<u8>, pb: Seq<u8>, p: Seq<char>)
    requires
        hash.len() == 32,
        spec_valid_hash_prefix(p),
        pb.len() == (p.len() + 1) / 2,
        forall|i: int| 0 <= i < p.len() ==> nibble(pb, i) == spec_hex_value(#[trigger] p[i])->0 as int,
    ensures
        spec_hash_matches_prefix(hash, pb, p.len() as int) == prefix_matches(hash, p),
{
    let n = p.len() as int;
    if spec_hash_matches_prefix(hash, pb, n) {
        assert forall|i: int| 0 <= i < n implies nibble(hash, i) == spec_hex_value(#[trigger] p[i])->0 as int by {
            let k = i / 2;
            lemma_byte_split(hash[k]);
            lemma_byte_split(pb[k]);
            if k < n / 2 {
                assert(hash[k] == pb[k]);
            } else {
                assert(i % 2 == 0);
                assert(n % 2 == 1);
            }
            assert(nibble(pb, i) == spec_hex_value(p[i])->0 as int);
        }
    }
    if prefix_matches(hash, p) {
        assert forall|k: int| 0 <= k < n / 2 implies hash[k] == pb[k] by {
            lemma_byte_split(hash[k]);
            lemma_byte_split(pb[k]);
            assert(nibble(hash, 2 * k) == spec_hex_value(p[2 * k])->0 as int);
            assert(nibble(hash, 2 * k + 1) == spec_hex_value(p[2 * k + 1])->0 as int);
            assert(nibble(pb, 2 * k) == spec_hex_value(p[2 * k])->0 as int);
            assert(nibble(pb, 2 * k + 1) == spec_hex_value(p[2 * k + 1])->0 as int);
        }
        if n % 2 == 1 {
            let k = n / 2;
            lemma_byte_split(hash[k]);
            lemma_byte_split(pb[k]);
            assert(nibble(hash, 2 * k) == spec_hex_value(p[2 * k])->0 as int);
            assert(nibble(pb, 2 * k) == spec_hex_value(p[2 * k])->0 as int);
        }
    }
}


/// The hashes of all commits, in graph order.
pub open spec fn commit_hashes(nodes: Seq<crate::graph::CommitNode>) -> Seq<Seq<u8>> {
    nodes.map_values(|n: crate::graph::CommitNode| n.hash@)
}

/// The commits whose hash starts with a hex prefix, in graph order.
pub fn find_commits_by_prefix(graph: &CommitGraph, prefix: &str) -> (r: Result<Vec<[u8; 32]>, ReviusError>)
    ensures
        !spec_valid_hash_prefix(prefix@) ==> (r matches Err(ReviusError::InvalidHashPrefix(p)) && p@ == prefix@),
        spec_valid_hash_prefix(prefix@) ==> (r matches Ok(v) && views(v@) == commit_hashes(graph.nodes@).filter(
            |h: Seq<u8>| prefix_matches(h, prefix@),
        )),
{
    if !is_valid_hash_prefix(prefix) {
        return Err(ReviusError::InvalidHashPrefix(String::from_str(prefix)));
    }
    let (prefix_bytes, hex_len) = hex_prefix_to_bytes(prefix);
    let ghost pred = |h: Seq<u8>| prefix_matches(h, prefix@);
    let ghost all = commit_hashes(graph.nodes@);
    let mut matches: Vec<[u8; 32]> = Vec::new();
    let mut i: usize = 0;
    proof {
        reveal(Seq::filter);
        assert(all.subrange(0, 0).filter(pred) =~= Seq::empty());
        assert(views(matches@) =~= Seq::empty());
    }
    while i < graph.nodes.len()
        invariant
            i <= graph.nodes@.len(),
            all == commit_hashes(graph.nodes@),
            pred == (|h: Seq<u8>| prefix_matches(h, prefix@)),
            spec_valid_hash_prefix(prefix@),
            hex_len == prefix@.len(),
            prefix_bytes@.len() == (prefix@.len() + 1) / 2,
            forall|j: int| 0 <= j < prefix@.len() ==> nibble(prefix_bytes@, j) == spec_hex_value(#[trigger] prefix@[j])->0 as int,
            views(matches@) == all.subrange(0, i as int).filter(pred),
        decreases graph.nodes@.len() - i,
    {
        let h = &graph.nodes[i].hash;
        let ok = hash_matches_prefix(h, prefix_bytes.as_slice(), hex_len);
        proof {
            lemma_prefix_equiv(h@, prefix_bytes@, prefix@);
            reveal(Seq::filter);
            assert(all.subrange(0, i + 1).drop_last() =~= all.subrange(0, i as int));
            assert(all.subrange(0, i + 1).last() == h@);
        }
        if ok {
            matches.push(hash_copy(h));
            assert(views(matches@) =~= all.subrange(0, i + 1).filter(pred));
        } else {
            assert(views(matches@) =~= all.subrange(0, i + 1).filter(pred));
        }
        i = i + 1;
    }
    assert(all.subrange(0, i as int) =~= all);
    Ok(matches)
}


/// The branch name shown for a reference path: the path without
/// "refs/heads/", or the whole path.
pub open spec fn shown_branch_name(p: Seq<char>) -> Seq<char> {
    if has_prefix(p, "refs/heads/"@) {
        p.subrange("refs/heads/"@.len() as int, p.len() as int)
    } else {
        p
    }
}

/// The commits whose hash the text `base` is a prefix of.
pub open spec fn prefix_candidates(nodes: Seq<crate::graph::CommitNode>, base: Seq<char>) -> Seq<Seq<u8>> {
    commit_hashes(nodes).filter(|h: Seq<u8>| prefix_matches(h, base))
}

/// Resolution of a revision without ancestry suffix: HEAD, then a branch,
/// then a tag, then a commit hash prefix.
pub open spec fn resolve_base_ok(
    r: Result<ResolvedTarget, ReviusError>,
    base: Seq<char>,
    head: HeadState,
    refs: Seq<(String, [u8; 32])>,
    nodes: Seq<crate::graph::CommitNode>,
) -> bool {
    if base == "HEAD"@ {
        match head {
            HeadState::Branch(p) => match pair_lookup(refs, p@) {
                Some(h) => r matches Ok(ResolvedTarget::Branch(n, x)) && x@ == h && n@ == shown_branch_name(p@),
                None => r matches Err(ReviusError::Db(_)),
            },
            HeadState::Detached(h) => r matches Ok(ResolvedTarget::Commit(x)) && x@ == h@,
        }
    } else {
        match pair_lookup(refs, "refs/heads/"@ + base) {
            Some(h) => r matches Ok(ResolvedTarget::Branch(n, x)) && n@ == base && x@ == h,
            None => match pair_lookup(refs, "refs/tags/"@ + base) {
                Some(h) => r matches Ok(ResolvedTarget::Commit(x)) && x@ == h,
                None => if spec_valid_hash_prefix(base) {
                    let m = prefix_candidates(nodes, base);
                    if m.len() == 0 {
                        r matches Err(ReviusError::CommitNotFound(t)) && t@ == base
                    } else if m.len() == 1 {
                        r matches Ok(ResolvedTarget::Commit(x)) && x@ == m[0]
                    } else {
                        r matches Err(ReviusError::AmbiguousHashPrefix(t)) && t@ == base
                    }
                } else {
                    r matches Err(ReviusError::TargetNotFound(t)) && t@ == base
                },
            },
        }
    }
}

fn resolve_base(
    base: &str,
    head: &HeadState,
    refs: &Vec<(String, [u8; 32])>,
    graph: &CommitGraph,
) -> (r: Result<ResolvedTarget, ReviusError>)
    requires
        pairs_distinct(refs@),
    ensures
        resolve_base_ok(r, base@, *head, refs@, graph.nodes@),
{
    if str_eq(base, "HEAD") {
        match head {
            HeadState::Branch(ref_path) => {
                let name = match strip_prefix(ref_path.as_str(), "refs/heads/") {
                    Some(n) => n,
                    None => ref_path.clone(),
                };
                match lookup_pair(refs, ref_path) {
                    Some(h) => {
                        return Ok(ResolvedTarget::Branch(name, h));
                    },
                    None => {
                        let mut msg = concat("Ref ", ref_path.as_str());
                        msg.append(" not found");
                        return Err(ReviusError::Db(msg));
                    },
                }
            },
            HeadState::Detached(h) => {
                return Ok(ResolvedTarget::Commit(*h));
            },
        }
    }
    let branch_path = concat("refs/heads/", base);
    match lookup_pair(refs, &branch_path) {
        Some(h) => {
            return Ok(ResolvedTarget::Branch(String::from_str(base), h));
        },
        None => {},
    }
    let tag_path = concat("refs/tags/", base);
    match lookup_pair(refs, &tag_path) {
        Some(h) => {
            return Ok(ResolvedTarget::Commit(h));
        },
        None => {},
    }
    if is_valid_hash_prefix(base) {
        let matches = find_commits_by_prefix(graph, base)?;
        if matches.len() == 0 {
            return Err(ReviusError::CommitNotFound(String::from_str(base)));
        } else if matches.len() == 1 {
            proof {
                assert(views(matches@)[0] == matches@[0]@);
            }
            return Ok(ResolvedTarget::Commit(matches[0]));
        } else {
            return Err(ReviusError::AmbiguousHashPrefix(String::from_str(base)));
        }
    }
    Err(ReviusError::TargetNotFound(String::from_str(base)))
}

/// The outcome of following first parents.
pub enum Walk {
    Reached(Seq<u8>),
    Missing,
    Root(Seq<u8>),
}

/// Follows the first parent `n` times from `h`.
pub open spec fn walk_first_parent(nodes: Seq<crate::graph::CommitNode>, h: Seq<u8>, n: nat) -> Walk
    decreases n,
{
    if n == 0 {
        Walk::Reached(h)
    } else {
        match graph_parents(nodes, h) {
            None => Walk::Missing,
            Some(ps) => if ps.len() == 0 {
                Walk::Root(h)
            } else {
                walk_first_parent(nodes, ps[0], (n - 1) as nat)
            },
        }
    }
}

/// Resolves a revision text (branch, tag, HEAD or hash prefix, with an
/// optional "~n" or "^" ancestry suffix) to a target. After an ancestry
/// step the target is always a plain commit.
pub fn resolve_target(
    target: &str,
    head: &HeadState,
    refs: &Vec<(String, [u8; 32])>,
    graph: &CommitGraph,
) -> (r: Result<ResolvedTarget, ReviusError>)
    requires
        pairs_distinct(refs@),
        graph_wf(graph.nodes@),
    ensures
        ({
            let (base, gens) = spec_parse_ancestry(target@);
            gens == 0 ==> resolve_base_ok(r, base, *head, refs@, graph.nodes@)
        }),
        ({
            let (base, gens) = spec_parse_ancestry(target@);
            gens > 0 ==> match r {
                Ok(t) => t is Commit && exists|b: ResolvedTarget| #[trigger] resolve_base_ok(Ok(b), base, *head, refs@, graph.nodes@)
                    && walk_first_parent(graph.nodes@, target_hash(b), gens) == Walk::Reached(target_hash(t)),
                Err(e) => resolve_base_ok(Err(e), base, *head, refs@, graph.nodes@) || exists|b: ResolvedTarget| #[trigger] resolve_base_ok(Ok(b), base, *head, refs@, graph.nodes@)
                    && ((walk_first_parent(graph.nodes@, target_hash(b), gens) is Missing && e is CommitNotFound)
                    || (walk_first_parent(graph.nodes@, target_hash(b), gens) is Root && e is TargetNotFound)),
            }
        }),
{
    let (base_str, generations) = parse_ancestry(target);
    let resolved = resolve_base(base_str.as_str(), head, refs, graph)?;
    if generations == 0 {
        return Ok(resolved);
    }
    let ghost b = resolved;
    let ghost gens = generations as nat;
    let mut current_hash = resolved.hash();
    let mut k: usize = 0;
    while k < generations
        invariant
            graph_wf(graph.nodes@),
            k <= generations,
            gens == generations as nat,
            generations > 0,
            (base_str@, generations as nat) == spec_parse_ancestry(target@),
            resolve_base_ok(Ok(b), base_str@, *head, refs@, graph.nodes@),
            forall|m: nat| #[trigger] walk_first_parent(graph.nodes@, target_hash(b), (k + m) as nat) == walk_first_parent(graph.nodes@, current_hash@, m),
        decreases generations - k,
    {
        let parents = match commit_parents(graph, &current_hash) {
            Ok(ps) => ps,
            Err(e) => {
                proof {
                    assert(walk_first_parent(graph.nodes@, target_hash(b), (k + (gens - k) as nat) as nat) == walk_first_parent(graph.nodes@, current_hash@, (gens - k) as nat));
                    assert((k + (gens - k) as nat) as nat == gens);
                    assert(walk_first_parent(graph.nodes@, current_hash@, (gens - k) as nat) is Missing);
                    assert(resolve_base_ok(Ok(b), base_str@, *head, refs@, graph.nodes@)
                        && walk_first_parent(graph.nodes@, target_hash(b), gens) is Missing && e is CommitNotFound);
                }
                return Err(e);
            },
        };
        if parents.len() == 0 {
            proof {
                assert(walk_first_parent(graph.nodes@, target_hash(b), (k + (gens - k) as nat) as nat) == walk_first_parent(graph.nodes@, current_hash@, (gens - k) as nat));
                assert((k + (gens - k) as nat) as nat == gens);
                assert(walk_first_parent(graph.nodes@, current_hash@, (gens - k) as nat) is Root);
                assert(resolve_base_ok(Ok(b), base_str@, *head, refs@, graph.nodes@)
                    && walk_first_parent(graph.nodes@, target_hash(b), gens) is Root);
            }
            let mut msg = concat("Commit ", hash_to_short_hex(&current_hash).as_str());
            msg.append(" has no parent (reached root)");
            return Err(ReviusError::TargetNotFound(msg));
        }
        let next = parents[0];
        proof {
            assert(parents@.map_values(|h: [u8; 32]| h@)[0] == next@);
            assert forall|m: nat| #[trigger] walk_first_parent(graph.nodes@, target_hash(b), (k + 1 + m) as nat) == walk_first_parent(graph.nodes@, next@, m) by {
                assert(walk_first_parent(graph.nodes@, target_hash(b), (k + (m + 1)) as nat) == walk_first_parent(graph.nodes@, current_hash@, (m + 1) as nat));
            }
        }
        current_hash = next;
        k = k + 1;
    }
    proof {
        assert(walk_first_parent(graph.nodes@, target_hash(b), (k + 0) as nat) == walk_first_parent(graph.nodes@, current_hash@, 0));
        assert(k == generations);
        assert(walk_first_parent(graph.nodes@, target_hash(b), gens) == Walk::Reached(current_hash@));
        let base = spec_parse_ancestry(target@).0;
        assert(base == base_str@);
        assert(resolve_base_ok(Ok(b), base, *head, refs@, graph.nodes@));
        assert(exists|b: ResolvedTarget| #[trigger] resolve_base_ok(Ok(b), base, *head, refs@, graph.nodes@)
            && walk_first_parent(graph.nodes@, target_hash(b), gens) == Walk::Reached(current_hash@));
    }
    Ok(ResolvedTarget::Commit(current_hash))
}

/// The commit a revision text resolves to.
pub fn resolve_commit_hash(
    target: &str,
    head: &HeadState,
    refs: &Vec<(String, [u8; 32])>,
    graph: &CommitGraph,
) -> (r: Result<[u8; 32], ReviusError>)
    requires
        pairs_distinct(refs@),
        graph_wf(graph.nodes@),
    ensures
        ({
            let (base, gens) = spec_parse_ancestry(target@);
            gens == 0 ==> exists|t: Result<ResolvedTarget, ReviusError>| resolve_base_ok(t, base, *head, refs@, graph.nodes@)
                && match (t, r) {
                    (Ok(x), Ok(h)) => target_hash(x) == h@,
                    (Err(e1), Err(e2)) => e1 == e2,
                    _ => false,
                }
        }),
        ({
            let (base, gens) = spec_parse_ancestry(target@);
            gens > 0 ==> match r {
                Ok(h) => exists|b: ResolvedTarget| #[trigger] resolve_base_ok(Ok(b), base, *head, refs@, graph.nodes@)
                    && walk_first_parent(graph.nodes@, target_hash(b), gens) == Walk::Reached(h@),
                Err(e) => resolve_base_ok(Err(e), base, *head, refs@, graph.nodes@) || exists|b: ResolvedTarget| #[trigger] resolve_base_ok(Ok(b), base, *head, refs@, graph.nodes@)
                    && ((walk_first_parent(graph.nodes@, target_hash(b), gens) is Missing && e is CommitNotFound)
                    || (walk_first_parent(graph.nodes@, target_hash(b), gens) is Root && e is TargetNotFound)),
            }
        }),
{
    let t = resolve_target(target, head, refs, graph);
    match t {
        Ok(x) => Ok(x.hash()),
        Err(e) => Err(e),
    }
}


/// `k` caret characters.
pub open spec fn carets(k: nat) -> Seq<char> {
    Seq::new(k, |i: int| '^')
}

proof fn lemma_count_carets(k: nat)
    ensures
        count_char(carets(k), '^') == k,
    decreases k,
{
    if k > 0 {
        assert(carets(k).drop_last() =~= carets((k - 1) as nat));
        lemma_count_carets((k - 1) as nat);
    }
}

/// A revision text that ends in `k` carets, after a base with no '~' or
/// '^', names the base and `k` first-parent steps: each caret adds a step.
pub proof fn law_each_caret_is_one_step(base: Seq<char>, k: nat)
    requires
        !base.contains('~'),
        !base.contains('^'),
        k >= 1,
    ensures
        spec_parse_ancestry(base + carets(k)) == (base, k),
{
    let t = base + carets(k);
    let b = base.len() as int;
    assert(!t.contains('~')) by {
        if t.contains('~') {
            let j = choose|j: int| 0 <= j < t.len() && t[j] == '~';
            if j < b {
                assert(base[j] == '~');
            } else {
                assert(carets(k)[j - b] == '^');
            }
        }
    }
    assert(t[b] == '^');
    assert(t.contains('^'));
    let pos = first_index_of(t, '^')->0;
    assert(0 <= pos < t.len() && t[pos] == '^' && forall|j: int| 0 <= j < pos ==> t[j] != '^');
    if pos < b {
        assert(base[pos] == '^');
        assert(base.contains('^'));
    }
    assert(pos == b);
    assert(t.subrange(0, b) =~= base);
    assert(t.subrange(b, t.len() as int) =~= carets(k));
    lemma_count_carets(k);
}

/// A step of "~n" ancestry from a commit whose first parent is `p` goes on
/// from `p`, whatever its merge parent is.
pub proof fn law_ancestry_follows_first_parent(nodes: Seq<crate::graph::CommitNode>, i: int, n: nat)
    requires
        graph_wf(nodes),
        0 <= i < nodes.len(),
        nodes[i].parent_hash is Some,
    ensures
        walk_first_parent(nodes, nodes[i].hash@, n + 1) == walk_first_parent(nodes, nodes[i].parent_hash->0@, n),
{
    crate::graph::lemma_parents_at(nodes, i);
    assert(crate::graph::node_parents(nodes[i])[0] == nodes[i].parent_hash->0@);
    assert((n + 1 - 1) as nat == n);
}

} // verus!

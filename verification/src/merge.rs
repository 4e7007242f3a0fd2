use vstd::prelude::*;
use vstd::utf8::{encode_utf8, valid_utf8};
use crate::error::ReviusError;
use crate::graph::{CommitGraph, graph_wf, is_ancestor, find_merge_base, no_common_ancestor, all_present, ancestors, contains_hash, is_lowest_common_ancestor};
use crate::hash::{hash_eq, hash_copy, hash_to_short_hex, spec_hex, to_hex};
use crate::text::{append_slice, append_str, utf8_text};

verus! {

/// How a path conflicts when two histories are joined.
#[derive(Debug, Clone, Copy, PartialEq, Eq, Structural)]
pub enum ConflictType {
    BothModified,
    DeletedByUsModifiedByThem,
    DeletedByThemModifiedByUs,
    BothAdded,
}

/// A conflicting path reported by a merge.
#[derive(Debug)]
pub struct MergeConflict {
    pub path: String,
    pub conflict_type: ConflictType,
}

/// The outcome of joining the current HEAD with another commit.
#[derive(Debug)]
pub enum MergeResult {
    FastForward { from: [u8; 32], to: [u8; 32] },
    AlreadyUpToDate,
    MergeCommit { commit_hash: [u8; 32], files_changed: usize },
    Conflicts(Vec<MergeConflict>),
}

/// One path of a flattened tree: its file hash (`None` for a directory) and mode.
#[derive(Debug)]
pub struct SnapshotEntry {
    pub path: String,
    pub hash: Option<[u8; 32]>,
    pub mode: u32,
}

/// A path whose versions could not be joined automatically.
#[derive(Debug)]
pub struct ConflictEntry {
    pub path: String,
    pub base: Option<[u8; 32]>,
    pub our: Option<[u8; 32]>,
    pub their: Option<[u8; 32]>,
    pub mode: u32,
    pub conflict_type: ConflictType,
}

/// The files that merge cleanly, with their hash and mode, and the conflicts.
#[derive(Debug)]
pub struct MergePlan {
    pub clean: Vec<(String, [u8; 32], u32)>,
    pub conflicts: Vec<ConflictEntry>,
}

/// The file a snapshot entry stands for: hash and mode, or nothing for a directory.
pub open spec fn entry_file(e: SnapshotEntry) -> Option<(Seq<u8>, u32)> {
    match e.hash {
        Some(h) => Some((h@, e.mode)),
        None => None,
    }
}

/// No path occurs twice in a snapshot.
pub open spec fn snapshot_wf(s: Seq<SnapshotEntry>) -> bool {
    forall|i: int, j: int|
        0 <= i < s.len() && 0 <= j < s.len() && i != j ==> s[i].path@ != s[j].path@
}

pub open spec fn snapshot_has_path(s: Seq<SnapshotEntry>, p: Seq<char>) -> bool {
    exists|i: int| 0 <= i < s.len() && s[i].path@ == p
}

/// The file a snapshot holds at a path, if any.
pub open spec fn snapshot_lookup(s: Seq<SnapshotEntry>, p: Seq<char>) -> Option<(Seq<u8>, u32)> {
    if snapshot_has_path(s, p) {
        entry_file(s[choose|i: int| 0 <= i < s.len() && s[i].path@ == p])
    } else {
        None
    }
}

/// What happens to one path when base, ours and theirs are joined.
pub enum MergeOutcome {
    /// The path holds this file afterwards.
    Take(Seq<u8>, u32),
    /// The path is absent afterwards.
    Drop,
    /// The versions conflict; `mode` is kept for the conflicted file.
    Conflict {
        conflict_type: ConflictType,
        mode: u32,
        base: Option<Seq<u8>>,
        our: Option<Seq<u8>>,
        their: Option<Seq<u8>>,
    },
}

/// The three-way merge rules for a single path.
pub open spec fn merge_outcome(
    b: Option<(Seq<u8>, u32)>,
    o: Option<(Seq<u8>, u32)>,
    t: Option<(Seq<u8>, u32)>,
) -> MergeOutcome {
    match (b, o, t) {
        (Some(b), Some(o), Some(t)) => {
            if b.0 == o.0 && o.0 == t.0 {
                MergeOutcome::Take(o.0, o.1)
            } else if b.0 == t.0 && b.0 != o.0 {
                MergeOutcome::Take(o.0, o.1)
            } else if b.0 == o.0 && b.0 != t.0 {
                MergeOutcome::Take(t.0, t.1)
            } else if o.0 == t.0 {
                MergeOutcome::Take(o.0, o.1)
            } else {
                MergeOutcome::Conflict {
                    conflict_type: ConflictType::BothModified,
                    mode: o.1,
                    base: Some(b.0),
                    our: Some(o.0),
                    their: Some(t.0),
                }
            }
        },
        (None, Some(o), None) => MergeOutcome::Take(o.0, o.1),
        (None, None, Some(t)) => MergeOutcome::Take(t.0, t.1),
        (None, Some(o), Some(t)) => {
            if o.0 == t.0 {
                MergeOutcome::Take(o.0, o.1)
            } else {
                MergeOutcome::Conflict {
                    conflict_type: ConflictType::BothAdded,
                    mode: o.1,
                    base: None,
                    our: Some(o.0),
                    their: Some(t.0),
                }
            }
        },
        (Some(_), None, None) => MergeOutcome::Drop,
        (Some(b), Some(o), None) => {
            if b.0 != o.0 {
                MergeOutcome::Conflict {
                    conflict_type: ConflictType::DeletedByThemModifiedByUs,
                    mode: o.1,
                    base: Some(b.0),
                    our: Some(o.0),
                    their: None,
                }
            } else {
                MergeOutcome::Drop
            }
        },
        (Some(b), None, Some(t)) => {
            if b.0 != t.0 {
                MergeOutcome::Conflict {
                    conflict_type: ConflictType::DeletedByUsModifiedByThem,
                    mode: t.1,
                    base: Some(b.0),
                    our: None,
                    their: Some(t.0),
                }
            } else {
                MergeOutcome::Drop
            }
        },
        (None, None, None) => MergeOutcome::Drop,
    }
}

/// The outcome for a path across three snapshots.
pub open spec fn path_outcome(
    base: Seq<SnapshotEntry>,
    ours: Seq<SnapshotEntry>,
    theirs: Seq<SnapshotEntry>,
    p: Seq<char>,
) -> MergeOutcome {
    merge_outcome(snapshot_lookup(base, p), snapshot_lookup(ours, p), snapshot_lookup(theirs, p))
}

pub open spec fn opt_hash_view(h: Option<[u8; 32]>) -> Option<Seq<u8>> {
    match h {
        Some(x) => Some(x@),
        None => None,
    }
}

/// The conflict entry describes the given outcome.
pub open spec fn conflict_matches(c: ConflictEntry, out: MergeOutcome) -> bool {
    out == MergeOutcome::Conflict {
        conflict_type: c.conflict_type,
        mode: c.mode,
        base: opt_hash_view(c.base),
        our: opt_hash_view(c.our),
        their: opt_hash_view(c.their),
    }
}

/// A merge plan lists exactly the paths whose outcome is a file (in `clean`)
/// and exactly the paths whose outcome is a conflict (in `conflicts`), each once.
pub open spec fn merge_plan_matches(
    plan: MergePlan,
    base: Seq<SnapshotEntry>,
    ours: Seq<SnapshotEntry>,
    theirs: Seq<SnapshotEntry>,
) -> bool {
    let clean = plan.clean@;
    let conflicts = plan.conflicts@;
    &&& forall|i: int|
        0 <= i < clean.len() ==> path_outcome(base, ours, theirs, (#[trigger] clean[i]).0@)
            == MergeOutcome::Take(clean[i].1@, clean[i].2)
    &&& forall|i: int, j: int|
        0 <= i < clean.len() && 0 <= j < clean.len() && i != j ==> (#[trigger] clean[i]).0@
            != (#[trigger] clean[j]).0@
    &&& forall|p: Seq<char>|
        (#[trigger] path_outcome(base, ours, theirs, p)) is Take ==> exists|i: int|
            0 <= i < clean.len() && (#[trigger] clean[i]).0@ == p
    &&& forall|i: int|
        0 <= i < conflicts.len() ==> conflict_matches(
            #[trigger] conflicts[i],
            path_outcome(base, ours, theirs, conflicts[i].path@),
        )
    &&& forall|i: int, j: int|
        0 <= i < conflicts.len() && 0 <= j < conflicts.len() && i != j
            ==> (#[trigger] conflicts[i]).path@ != (#[trigger] conflicts[j]).path@
    &&& forall|p: Seq<char>|
        (#[trigger] path_outcome(base, ours, theirs, p)) is Conflict ==> exists|i: int|
            0 <= i < conflicts.len() && (#[trigger] conflicts[i]).path@ == p
}

/// Index of the entry with the given path.
fn find_path(s: &Vec<SnapshotEntry>, p: &String) -> (r: Option<usize>)
    ensures
        r matches Some(i) ==> i < s@.len() && s@[i as int].path@ == p@,
        r is None ==> !snapshot_has_path(s@, p@),
{
    let mut i: usize = 0;
    while i < s.len()
        invariant
            i <= s@.len(),
            forall|j: int| 0 <= j < i ==> s@[j].path@ != p@,
        decreases s@.len() - i,
    {
        if s[i].path == *p {
            return Some(i);
        }
        i = i + 1;
    }
    None
}

proof fn lemma_lookup_at(s: Seq<SnapshotEntry>, i: int)
    requires
        snapshot_wf(s),
        0 <= i < s.len(),
    ensures
        snapshot_has_path(s, s[i].path@),
        snapshot_lookup(s, s[i].path@) == entry_file(s[i]),
{
    let p = s[i].path@;
    assert(snapshot_has_path(s, p));
    let k = choose|k: int| 0 <= k < s.len() && s[k].path@ == p;
    assert(k == i);
}

/// The file a snapshot holds at a path.
fn lookup_file(s: &Vec<SnapshotEntry>, p: &String) -> (r: Option<([u8; 32], u32)>)
    requires
        snapshot_wf(s@),
    ensures
        match r {
            Some((h, m)) => snapshot_lookup(s@, p@) == Some((h@, m)),
            None => snapshot_lookup(s@, p@) is None,
        },
{
    match find_path(s, p) {
        None => None,
        Some(i) => {
            proof {
                lemma_lookup_at(s@, i as int);
            }
            match &s[i].hash {
                Some(h) => Some((hash_copy(h), s[i].mode)),
                None => None,
            }
        },
    }
}

fn hash_of(f: &Option<([u8; 32], u32)>) -> (r: Option<[u8; 32]>)
    ensures
        opt_hash_view(r) == match f {
            Some(x) => Some(x.0@),
            None => None::<Seq<u8>>,
        },
{
    match f {
        Some((h, _)) => Some(hash_copy(h)),
        None => None,
    }
}

/// Applies the merge rules to one path.
fn decide_path(
    path: &String,
    b: Option<([u8; 32], u32)>,
    o: Option<([u8; 32], u32)>,
    t: Option<([u8; 32], u32)>,
) -> (r: (Option<([u8; 32], u32)>, Option<ConflictEntry>))
    ensures
        ({
            let bv = match b { Some(x) => Some((x.0@, x.1)), None => None };
            let ov = match o { Some(x) => Some((x.0@, x.1)), None => None };
            let tv = match t { Some(x) => Some((x.0@, x.1)), None => None };
            let out = merge_outcome(bv, ov, tv);
            &&& match r.0 {
                Some((h, m)) => out == MergeOutcome::Take(h@, m),
                None => !(out is Take),
            }
            &&& match r.1 {
                Some(c) => conflict_matches(c, out) && c.path@ == path@,
                None => !(out is Conflict),
            }
        }),
{
    let bh = hash_of(&b);
    let oh = hash_of(&o);
    let th = hash_of(&t);
    match (b, o, t) {
        (Some(b), Some(o), Some(t)) => {
            let bo = hash_eq(&b.0, &o.0);
            let ot = hash_eq(&o.0, &t.0);
            let bt = hash_eq(&b.0, &t.0);
            if bo && ot {
                (Some(o), None)
            } else if bt && !bo {
                (Some(o), None)
            } else if bo && !bt {
                (Some(t), None)
            } else if ot {
                (Some(o), None)
            } else {
                (None, Some(ConflictEntry {
                    path: path.clone(),
                    base: bh,
                    our: oh,
                    their: th,
                    mode: o.1,
                    conflict_type: ConflictType::BothModified,
                }))
            }
        },
        (None, Some(o), None) => (Some(o), None),
        (None, None, Some(t)) => (Some(t), None),
        (None, Some(o), Some(t)) => {
            if hash_eq(&o.0, &t.0) {
                (Some(o), None)
            } else {
                (None, Some(ConflictEntry {
                    path: path.clone(),
                    base: bh,
                    our: oh,
                    their: th,
                    mode: o.1,
                    conflict_type: ConflictType::BothAdded,
                }))
            }
        },
        (Some(_), None, None) => (None, None),
        (Some(b), Some(o), None) => {
            if !hash_eq(&b.0, &o.0) {
                (None, Some(ConflictEntry {
                    path: path.clone(),
                    base: bh,
                    our: oh,
                    their: th,
                    mode: o.1,
                    conflict_type: ConflictType::DeletedByThemModifiedByUs,
                }))
            } else {
                (None, None)
            }
        },
        (Some(b), None, Some(t)) => {
            if !hash_eq(&b.0, &t.0) {
                (None, Some(ConflictEntry {
                    path: path.clone(),
                    base: bh,
                    our: oh,
                    their: th,
                    mode: t.1,
                    conflict_type: ConflictType::DeletedByUsModifiedByThem,
                }))
            } else {
                (None, None)
            }
        },
        (None, None, None) => (None, None),
    }
}


/// The set of paths a snapshot names.
pub open spec fn paths_of(s: Seq<SnapshotEntry>) -> Set<Seq<char>> {
    Set::new(|p: Seq<char>| snapshot_has_path(s, p))
}

/// `clean` and `conflicts` are exactly right for the paths in `done`.
#[verifier::opaque]
spec fn partial_plan(
    clean: Seq<(String, [u8; 32], u32)>,
    conflicts: Seq<ConflictEntry>,
    done: Set<Seq<char>>,
    base: Seq<SnapshotEntry>,
    ours: Seq<SnapshotEntry>,
    theirs: Seq<SnapshotEntry>,
) -> bool {
    &&& forall|i: int|
        0 <= i < clean.len() ==> done.contains((#[trigger] clean[i]).0@) && path_outcome(
            base,
            ours,
            theirs,
            clean[i].0@,
        ) == MergeOutcome::Take(clean[i].1@, clean[i].2)
    &&& forall|i: int, j: int|
        0 <= i < clean.len() && 0 <= j < clean.len() && i != j ==> (#[trigger] clean[i]).0@
            != (#[trigger] clean[j]).0@
    &&& forall|p: Seq<char>|
        done.contains(p) && (#[trigger] path_outcome(base, ours, theirs, p)) is Take
            ==> exists|i: int| 0 <= i < clean.len() && (#[trigger] clean[i]).0@ == p
    &&& forall|i: int|
        0 <= i < conflicts.len() ==> done.contains((#[trigger] conflicts[i]).path@)
            && conflict_matches(conflicts[i], path_outcome(base, ours, theirs, conflicts[i].path@))
    &&& forall|i: int, j: int|
        0 <= i < conflicts.len() && 0 <= j < conflicts.len() && i != j
            ==> (#[trigger] conflicts[i]).path@ != (#[trigger] conflicts[j]).path@
    &&& forall|p: Seq<char>|
        done.contains(p) && (#[trigger] path_outcome(base, ours, theirs, p)) is Conflict
            ==> exists|i: int| 0 <= i < conflicts.len() && (#[trigger] conflicts[i]).path@ == p
}

/// Plans the paths of `list` that neither `skip1` nor `skip2` names.
fn plan_list(
    list: &Vec<SnapshotEntry>,
    skip1: &Vec<SnapshotEntry>,
    skip2: &Vec<SnapshotEntry>,
    base: &Vec<SnapshotEntry>,
    ours: &Vec<SnapshotEntry>,
    theirs: &Vec<SnapshotEntry>,
    clean: &mut Vec<(String, [u8; 32], u32)>,
    conflicts: &mut Vec<ConflictEntry>,
)
    requires
        snapshot_wf(list@),
        snapshot_wf(base@),
        snapshot_wf(ours@),
        snapshot_wf(theirs@),
        partial_plan(
            old(clean)@,
            old(conflicts)@,
            paths_of(skip1@).union(paths_of(skip2@)),
            base@,
            ours@,
            theirs@,
        ),
    ensures
        partial_plan(
            final(clean)@,
            final(conflicts)@,
            paths_of(skip1@).union(paths_of(skip2@)).union(paths_of(list@)),
            base@,
            ours@,
            theirs@,
        ),
{
    let ghost start = paths_of(skip1@).union(paths_of(skip2@));
    assert(start.union(paths_of(list@.subrange(0, 0))) =~= start);
    let mut k: usize = 0;
    while k < list.len()
        invariant
            k <= list@.len(),
            snapshot_wf(list@),
            snapshot_wf(base@),
            snapshot_wf(ours@),
            snapshot_wf(theirs@),
            start == paths_of(skip1@).union(paths_of(skip2@)),
            partial_plan(
                clean@,
                conflicts@,
                start.union(paths_of(list@.subrange(0, k as int))),
                base@,
                ours@,
                theirs@,
            ),
        decreases list@.len() - k,
    {
        let ghost done = start.union(paths_of(list@.subrange(0, k as int)));
        let ghost done2 = start.union(paths_of(list@.subrange(0, k + 1)));
        let path = &list[k].path;
        assert(done2 =~= done.insert(path@)) by {
            assert forall|p: Seq<char>| done2.contains(p) <==> done.insert(path@).contains(p) by {
                if snapshot_has_path(list@.subrange(0, k + 1), p) {
                    let i = choose|i: int| 0 <= i < k + 1 && (#[trigger] list@.subrange(0, k + 1)[i]).path@ == p;
                    if i < k {
                        assert(list@.subrange(0, k as int)[i].path@ == p);
                    }
                }
                if snapshot_has_path(list@.subrange(0, k as int), p) {
                    let i = choose|i: int| 0 <= i < k && (#[trigger] list@.subrange(0, k as int)[i]).path@ == p;
                    assert(list@.subrange(0, k + 1)[i].path@ == p);
                }
                if p == path@ {
                    assert(list@.subrange(0, k + 1)[k as int].path@ == p);
                }
            }
        }
        let skipped = find_path(skip1, path).is_some() || find_path(skip2, path).is_some();
        if !skipped {
            assert(!done.contains(path@)) by {
                if snapshot_has_path(list@.subrange(0, k as int), path@) {
                    let i = choose|i: int| 0 <= i < k && (#[trigger] list@.subrange(0, k as int)[i]).path@ == path@;
                    assert(list@[i].path@ == list@[k as int].path@);
                }
            }
            let b = lookup_file(base, path);
            let o = lookup_file(ours, path);
            let t = lookup_file(theirs, path);
            let (take, conflict) = decide_path(path, b, o, t);
            let ghost c1 = clean@;
            let ghost f1 = conflicts@;
            match take {
                Some((h, m)) => {
                    clean.push((path.clone(), h, m));
                },
                None => {},
            }
            match conflict {
                Some(c) => {
                    conflicts.push(c);
                },
                None => {},
            }
            proof {
                reveal(partial_plan);
                let c2 = clean@;
                let f2 = conflicts@;
                let out = path_outcome(base@, ours@, theirs@, path@);
                assert forall|p: Seq<char>|
                    done2.contains(p) && (#[trigger] path_outcome(base@, ours@, theirs@, p)) is Take
                    implies exists|i: int| 0 <= i < c2.len() && (#[trigger] c2[i]).0@ == p by {
                    if p == path@ {
                        assert(c2[c2.len() - 1].0@ == p);
                    } else {
                        assert(done.contains(p));
                        let i = choose|i: int| 0 <= i < c1.len() && (#[trigger] c1[i]).0@ == p;
                        assert(c2[i] == c1[i]);
                    }
                }
                assert forall|p: Seq<char>|
                    done2.contains(p) && (#[trigger] path_outcome(base@, ours@, theirs@, p)) is Conflict
                    implies exists|i: int| 0 <= i < f2.len() && (#[trigger] f2[i]).path@ == p by {
                    if p == path@ {
                        assert(f2[f2.len() - 1].path@ == p);
                    } else {
                        assert(done.contains(p));
                        let i = choose|i: int| 0 <= i < f1.len() && (#[trigger] f1[i]).path@ == p;
                        assert(f2[i] == f1[i]);
                    }
                }
                assert forall|i: int| 0 <= i < c2.len() implies done2.contains((#[trigger] c2[i]).0@)
                    && path_outcome(base@, ours@, theirs@, c2[i].0@) == MergeOutcome::Take(c2[i].1@, c2[i].2) by {
                    if i < c1.len() {
                        assert(c2[i] == c1[i]);
                    }
                }
                assert forall|i: int, j: int|
                    0 <= i < c2.len() && 0 <= j < c2.len() && i != j implies (#[trigger] c2[i]).0@
                        != (#[trigger] c2[j]).0@ by {
                    if i < c1.len() {
                        assert(c2[i] == c1[i]);
                    }
                    if j < c1.len() {
                        assert(c2[j] == c1[j]);
                    }
                }
                assert forall|i: int| 0 <= i < f2.len() implies done2.contains((#[trigger] f2[i]).path@)
                    && conflict_matches(f2[i], path_outcome(base@, ours@, theirs@, f2[i].path@)) by {
                    if i < f1.len() {
                        assert(f2[i] == f1[i]);
                    }
                }
                assert forall|i: int, j: int|
                    0 <= i < f2.len() && 0 <= j < f2.len() && i != j implies (#[trigger] f2[i]).path@
                        != (#[trigger] f2[j]).path@ by {
                    if i < f1.len() {
                        assert(f2[i] == f1[i]);
                    }
                    if j < f1.len() {
                        assert(f2[j] == f1[j]);
                    }
                }
            }
        } else {
            assert(done.contains(path@));
            proof {
                reveal(partial_plan);
            }
        }
        k = k + 1;
    }
    assert(list@.subrange(0, list@.len() as int) =~= list@);
}

proof fn lemma_outcome_needs_path(
    base: Seq<SnapshotEntry>,
    ours: Seq<SnapshotEntry>,
    theirs: Seq<SnapshotEntry>,
    p: Seq<char>,
)
    requires
        !(path_outcome(base, ours, theirs, p) is Drop),
    ensures
        paths_of(base).union(paths_of(ours)).union(paths_of(theirs)).contains(p),
{
}

proof fn lemma_partial_plan_complete(
    plan: MergePlan,
    base: Seq<SnapshotEntry>,
    ours: Seq<SnapshotEntry>,
    theirs: Seq<SnapshotEntry>,
)
    requires
        partial_plan(
            plan.clean@,
            plan.conflicts@,
            paths_of(base).union(paths_of(ours)).union(paths_of(theirs)),
            base,
            ours,
            theirs,
        ),
    ensures
        merge_plan_matches(plan, base, ours, theirs),
{
    reveal(partial_plan);
    let all = paths_of(base).union(paths_of(ours)).union(paths_of(theirs));
    assert forall|p: Seq<char>|
        (#[trigger] path_outcome(base, ours, theirs, p)) is Take implies exists|i: int|
            0 <= i < plan.clean@.len() && (#[trigger] plan.clean@[i]).0@ == p by {
        lemma_outcome_needs_path(base, ours, theirs, p);
        assert(all.contains(p));
    }
    assert forall|p: Seq<char>|
        (#[trigger] path_outcome(base, ours, theirs, p)) is Conflict implies exists|i: int|
            0 <= i < plan.conflicts@.len() && (#[trigger] plan.conflicts@[i]).path@ == p by {
        lemma_outcome_needs_path(base, ours, theirs, p);
        assert(all.contains(p));
    }
}

/// Separates the paths of base, ours and theirs into those that merge
/// cleanly and those that conflict.
pub fn plan_three_way_merge(
    base_tree: &Vec<SnapshotEntry>,
    our_tree: &Vec<SnapshotEntry>,
    their_tree: &Vec<SnapshotEntry>,
) -> (plan: MergePlan)
    requires
        snapshot_wf(base_tree@),
        snapshot_wf(our_tree@),
        snapshot_wf(their_tree@),
    ensures
        merge_plan_matches(plan, base_tree@, our_tree@, their_tree@),
{
    let mut clean: Vec<(String, [u8; 32], u32)> = Vec::new();
    let mut conflicts: Vec<ConflictEntry> = Vec::new();
    let empty: Vec<SnapshotEntry> = Vec::new();
    proof {
        reveal(partial_plan);
        assert(paths_of(empty@).union(paths_of(empty@)) =~= Set::empty());
    }
    plan_list(base_tree, &empty, &empty, base_tree, our_tree, their_tree, &mut clean, &mut conflicts);
    assert(paths_of(empty@).union(paths_of(empty@)).union(paths_of(base_tree@)) =~= paths_of(
        base_tree@,
    ).union(paths_of(empty@)));
    plan_list(our_tree, base_tree, &empty, base_tree, our_tree, their_tree, &mut clean, &mut conflicts);
    assert(paths_of(base_tree@).union(paths_of(empty@)).union(paths_of(our_tree@)) =~= paths_of(
        base_tree@,
    ).union(paths_of(our_tree@)));
    plan_list(their_tree, base_tree, our_tree, base_tree, our_tree, their_tree, &mut clean, &mut conflicts);
    let plan = MergePlan { clean, conflicts };
    proof {
        lemma_partial_plan_complete(plan, base_tree@, our_tree@, their_tree@);
    }
    plan
}


/// The conflict type seen from the other side.
pub open spec fn mirror_conflict(c: ConflictType) -> ConflictType {
    match c {
        ConflictType::BothModified => ConflictType::BothModified,
        ConflictType::BothAdded => ConflictType::BothAdded,
        ConflictType::DeletedByUsModifiedByThem => ConflictType::DeletedByThemModifiedByUs,
        ConflictType::DeletedByThemModifiedByUs => ConflictType::DeletedByUsModifiedByThem,
    }
}

pub open spec fn file_hash(f: Option<(Seq<u8>, u32)>) -> Option<Seq<u8>> {
    match f {
        Some(x) => Some(x.0),
        None => None,
    }
}

/// Swapping ours and theirs gives the same file content for a clean path,
/// drops the same paths, and mirrors the kind of each conflict.
pub proof fn law_merge_symmetric(
    b: Option<(Seq<u8>, u32)>,
    o: Option<(Seq<u8>, u32)>,
    t: Option<(Seq<u8>, u32)>,
)
    ensures
        (merge_outcome(b, o, t) is Take) == (merge_outcome(b, t, o) is Take),
        (merge_outcome(b, o, t) is Drop) == (merge_outcome(b, t, o) is Drop),
        merge_outcome(b, o, t) matches MergeOutcome::Take(h1, _) ==> merge_outcome(b, t, o) matches MergeOutcome::Take(h2, _) && h1 == h2,
        merge_outcome(b, o, t) matches MergeOutcome::Conflict { conflict_type: c1, .. } ==> merge_outcome(b, t, o) matches MergeOutcome::Conflict { conflict_type: c2, .. } && c2 == mirror_conflict(c1),
{
}

/// When their side did not change anything, the result is our side.
pub proof fn law_merge_theirs_unchanged(b: Option<(Seq<u8>, u32)>, o: Option<(Seq<u8>, u32)>)
    ensures
        merge_outcome(b, o, b) == match o {
            Some(x) => MergeOutcome::Take(x.0, x.1),
            None => MergeOutcome::Drop,
        },
{
}

/// When our side did not change anything, the result holds their content;
/// their mode is kept too, unless the content equals the base.
pub proof fn law_merge_ours_unchanged(b: Option<(Seq<u8>, u32)>, t: Option<(Seq<u8>, u32)>)
    ensures
        match t {
            Some(x) => merge_outcome(b, b, t) matches MergeOutcome::Take(h, m) && h == x.0 && (
            file_hash(b) != Some(x.0) ==> m == x.1),
            None => merge_outcome(b, b, t) is Drop,
        },
{
}

/// When both sides made the same change, the result is that change.
pub proof fn law_merge_same_change(b: Option<(Seq<u8>, u32)>, o: Option<(Seq<u8>, u32)>)
    ensures
        merge_outcome(b, o, o) == match o {
            Some(x) => MergeOutcome::Take(x.0, x.1),
            None => MergeOutcome::Drop,
        },
{
}

/// A conflict arises only where both sides changed the path, in different ways.
pub proof fn law_merge_conflict_needs_two_changes(
    b: Option<(Seq<u8>, u32)>,
    o: Option<(Seq<u8>, u32)>,
    t: Option<(Seq<u8>, u32)>,
)
    ensures
        merge_outcome(b, o, t) is Conflict ==> file_hash(o) != file_hash(b) && file_hash(t)
            != file_hash(b) && file_hash(o) != file_hash(t),
{
}

/// A clean result holds the content of one of the two sides.
pub proof fn law_merge_takes_a_side(
    b: Option<(Seq<u8>, u32)>,
    o: Option<(Seq<u8>, u32)>,
    t: Option<(Seq<u8>, u32)>,
)
    ensures
        merge_outcome(b, o, t) matches MergeOutcome::Take(h, m) ==> (o == Some((h, m)) || t == Some(
            (h, m),
        )),
{
}

/// A plan for which their side equals the base has no conflicts, and its
/// clean files are exactly our files.
pub proof fn law_merge_plan_theirs_unchanged(
    plan: MergePlan,
    base: Seq<SnapshotEntry>,
    ours: Seq<SnapshotEntry>,
    theirs: Seq<SnapshotEntry>,
)
    requires
        merge_plan_matches(plan, base, ours, theirs),
        forall|p: Seq<char>| #[trigger] snapshot_lookup(theirs, p) == snapshot_lookup(base, p),
    ensures
        plan.conflicts@.len() == 0,
        forall|i: int|
            0 <= i < plan.clean@.len() ==> snapshot_lookup(ours, (#[trigger] plan.clean@[i]).0@)
                == Some((plan.clean@[i].1@, plan.clean@[i].2)),
        forall|p: Seq<char>|
            (#[trigger] snapshot_lookup(ours, p)) is Some ==> exists|i: int|
                0 <= i < plan.clean@.len() && (#[trigger] plan.clean@[i]).0@ == p,
{
    if plan.conflicts@.len() > 0 {
        let c = plan.conflicts@[0];
        let p = c.path@;
        assert(snapshot_lookup(theirs, p) == snapshot_lookup(base, p));
        law_merge_theirs_unchanged(snapshot_lookup(base, p), snapshot_lookup(ours, p));
    }
    assert forall|i: int| 0 <= i < plan.clean@.len() implies snapshot_lookup(
        ours,
        (#[trigger] plan.clean@[i]).0@,
    ) == Some((plan.clean@[i].1@, plan.clean@[i].2)) by {
        let p = plan.clean@[i].0@;
        assert(snapshot_lookup(theirs, p) == snapshot_lookup(base, p));
        law_merge_theirs_unchanged(snapshot_lookup(base, p), snapshot_lookup(ours, p));
    }
    assert forall|p: Seq<char>| (#[trigger] snapshot_lookup(ours, p)) is Some implies exists|i: int|
        0 <= i < plan.clean@.len() && (#[trigger] plan.clean@[i]).0@ == p by {
        assert(snapshot_lookup(theirs, p) == snapshot_lookup(base, p));
        law_merge_theirs_unchanged(snapshot_lookup(base, p), snapshot_lookup(ours, p));
        assert(path_outcome(base, ours, theirs, p) is Take);
    }
}


/// What joining HEAD with a target commit comes to, before any file is touched.
#[derive(Debug)]
pub enum MergeStrategy {
    AlreadyUpToDate,
    FastForward { from: [u8; 32], to: [u8; 32] },
    ThreeWay { ours: [u8; 32], theirs: [u8; 32], base: [u8; 32] },
}

/// Decides how to merge `target` into HEAD: there must be a HEAD commit; the
/// same commit, or a target that is an ancestor of HEAD, is already up to
/// date; a HEAD that is an ancestor of the target fast-forwards; otherwise a
/// lowest common ancestor is the base of a three-way merge, and without one
/// the merge fails. A commit missing from the history on either side is an
/// error.
pub fn plan_merge(graph: &CommitGraph, head: Option<[u8; 32]>, target: [u8; 32]) -> (r: Result<MergeStrategy, ReviusError>)
    requires
        graph_wf(graph.nodes@),
    ensures
        match head {
            None => r matches Err(ReviusError::NoCommitsYet),
            Some(c) => if c@ == target@ {
                r matches Ok(MergeStrategy::AlreadyUpToDate)
            } else if !(all_present(graph.nodes@, c@) && all_present(graph.nodes@, target@)) {
                r matches Err(ReviusError::CommitNotFound(_))
            } else if is_ancestor(graph.nodes@, c@, target@) {
                r matches Ok(MergeStrategy::AlreadyUpToDate)
            } else if is_ancestor(graph.nodes@, target@, c@) {
                r matches Ok(MergeStrategy::FastForward { from, to }) && from@ == c@ && to@ == target@
            } else if no_common_ancestor(graph.nodes@, c@, target@) {
                r matches Err(ReviusError::MergeError(m)) && m@ == "No common ancestor found"@
            } else {
                r matches Ok(MergeStrategy::ThreeWay { ours, theirs, base }) && ours@ == c@ && theirs@ == target@
                    && is_lowest_common_ancestor(graph.nodes@, c@, target@, base@)
            },
        },
{
    let current = match head {
        Some(c) => c,
        None => {
            return Err(ReviusError::NoCommitsYet);
        },
    };
    if hash_eq(&current, &target) {
        return Ok(MergeStrategy::AlreadyUpToDate);
    }
    let from_current = match ancestors(graph, current) {
        Ok(v) => v,
        Err(e) => {
            return Err(e);
        },
    };
    let from_target = match ancestors(graph, target) {
        Ok(v) => v,
        Err(e) => {
            return Err(e);
        },
    };
    if contains_hash(&from_current, &target) {
        return Ok(MergeStrategy::AlreadyUpToDate);
    }
    if contains_hash(&from_target, &current) {
        return Ok(MergeStrategy::FastForward { from: current, to: target });
    }
    match find_merge_base(graph, current, target) {
        Ok(Some(base)) => Ok(MergeStrategy::ThreeWay { ours: current, theirs: target, base }),
        Ok(None) => Err(ReviusError::MergeError(String::from_str("No common ancestor found"))),
        Err(e) => Err(e),
    }
}

/// The text written in place of a conflicting file: both versions between
/// conflict markers.
pub open spec fn conflict_markers(ours: Seq<u8>, theirs: Seq<u8>) -> Seq<u8> {
    encode_utf8("<<<<<<< HEAD\n"@) + ours + encode_utf8("\n=======\n"@) + theirs
        + encode_utf8("\n>>>>>>> MERGE_HEAD\n"@)
}

/// The content of a conflicting file and whether markers could be written:
/// when both versions are text, both between conflict markers; otherwise our
/// version unchanged.
pub fn generate_conflict_content(ours: &[u8], theirs: &[u8]) -> (r: (Vec<u8>, bool))
    ensures
        r.1 == (valid_utf8(ours@) && valid_utf8(theirs@)),
        r.1 ==> r.0@ == conflict_markers(ours@, theirs@),
        !r.1 ==> r.0@ == ours@,
{
    if utf8_text(ours).is_some() && utf8_text(theirs).is_some() {
        let mut content: Vec<u8> = Vec::new();
        append_str(&mut content, "<<<<<<< HEAD\n");
        append_slice(&mut content, ours);
        append_str(&mut content, "\n=======\n");
        append_slice(&mut content, theirs);
        append_str(&mut content, "\n>>>>>>> MERGE_HEAD\n");
        assert(content@ =~= conflict_markers(ours@, theirs@));
        (content, true)
    } else {
        let mut content: Vec<u8> = Vec::new();
        append_slice(&mut content, ours);
        assert(content@ =~= ours@);
        (content, false)
    }
}

/// The message of a merge commit: "Merge commit " and the short hash of the
/// merged commit.
pub fn merge_commit_message(their_commit: &[u8; 32]) -> (r: String)
    ensures
        r@ == "Merge commit "@ + spec_hex(their_commit@.subrange(0, 4)),
{
    let mut m = String::from_str("Merge commit ");
    let short = hash_to_short_hex(their_commit);
    m.append(short.as_str());
    m
}

/// The content of the MERGE_HEAD marker: the full hex hash of the merged commit.
pub fn merge_head_content(their_commit: &[u8; 32]) -> (r: Vec<u8>)
    ensures
        r@ == encode_utf8(spec_hex(their_commit@)),
{
    let hx = to_hex(their_commit);
    let mut out: Vec<u8> = Vec::new();
    append_str(&mut out, hx.as_str());
    out
}

/// The conflicts a merge reports, one for each conflicting path of the plan.
pub fn conflict_list(plan: &MergePlan) -> (r: Vec<MergeConflict>)
    ensures
        r@.len() == plan.conflicts@.len(),
        forall|i: int| 0 <= i < r@.len() ==> (#[trigger] r@[i]).path@ == plan.conflicts@[i].path@
            && r@[i].conflict_type == plan.conflicts@[i].conflict_type,
{
    let mut out: Vec<MergeConflict> = Vec::new();
    let mut i: usize = 0;
    while i < plan.conflicts.len()
        invariant
            i <= plan.conflicts@.len(),
            out@.len() == i,
            forall|j: int| 0 <= j < i ==> (#[trigger] out@[j]).path@ == plan.conflicts@[j].path@
                && out@[j].conflict_type == plan.conflicts@[j].conflict_type,
        decreases plan.conflicts@.len() - i,
    {
        let c = &plan.conflicts[i];
        out.push(MergeConflict { path: c.path.clone(), conflict_type: c.conflict_type });
        i = i + 1;
    }
    out
}

} // verus!

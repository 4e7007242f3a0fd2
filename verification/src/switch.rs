use vstd::prelude::*;
use crate::hash::{hash_eq, hash_copy};
use crate::error::ReviusError;
use crate::hash::{hash_to_short_hex, to_hex, spec_hex};
use crate::models::objects::{HeadState, StagedFile, SwitchPlan};
use crate::paths::{pairs_distinct, lookup_pair};
use crate::refs;
use crate::resolve::{ResolvedTarget, shown_branch_name};
use crate::text::{concat, str_eq, strip_prefix};
use crate::paths::{pair_has, pair_lookup, find_pair};
use crate::status::{staged_keys, staged_lookup, staged_wf, lemma_staged_lookup_at};

verus! {

/// One file of a tree: path, file hash, mode and size.
pub type TreeFile = (String, [u8; 32], u32, u64);

/// No path occurs twice.
pub open spec fn files_wf(v: Seq<TreeFile>) -> bool {
    forall|i: int, j: int| 0 <= i < v.len() && 0 <= j < v.len() && i != j ==> v[i].0@ != v[j].0@
}

pub open spec fn files_has(v: Seq<TreeFile>, p: Seq<char>) -> bool {
    exists|i: int| 0 <= i < v.len() && v[i].0@ == p
}

pub open spec fn files_index(v: Seq<TreeFile>, p: Seq<char>) -> int {
    choose|i: int| 0 <= i < v.len() && v[i].0@ == p
}

/// The hash and mode a tree holds at a path.
pub open spec fn files_lookup(v: Seq<TreeFile>, p: Seq<char>) -> Option<(Seq<u8>, u32)> {
    if files_has(v, p) {
        Some((v[files_index(v, p)].1@, v[files_index(v, p)].2))
    } else {
        None
    }
}

/// The hash a tree holds at a path it has.
pub open spec fn files_hash(v: Seq<TreeFile>, p: Seq<char>) -> Seq<u8> {
    v[files_index(v, p)].1@
}

pub proof fn lemma_files_lookup_at(v: Seq<TreeFile>, i: int)
    requires
        files_wf(v),
        0 <= i < v.len(),
    ensures
        files_has(v, v[i].0@),
        files_lookup(v, v[i].0@) == Some((v[i].1@, v[i].2)),
{
    let p = v[i].0@;
    assert(files_has(v, p));
    let k = files_index(v, p);
    assert(k == i);
}

fn find_file(v: &Vec<TreeFile>, p: &String) -> (r: Option<usize>)
    ensures
        r matches Some(i) ==> i < v@.len() && v@[i as int].0@ == p@,
        r is None ==> !files_has(v@, p@),
{
    let mut i: usize = 0;
    while i < v.len()
        invariant
            i <= v@.len(),
            forall|j: int| 0 <= j < i ==> v@[j].0@ != p@,
        decreases v@.len() - i,
    {
        if v[i].0 == *p {
            return Some(i);
        }
        i = i + 1;
    }
    None
}

pub open spec fn entry_view(e: (String, [u8; 32], u32)) -> (Seq<char>, Seq<u8>, u32) {
    (e.0@, e.1@, e.2)
}

pub open spec fn entries_view(v: Seq<(String, [u8; 32], u32)>) -> Seq<(Seq<char>, Seq<u8>, u32)> {
    v.map_values(|e: (String, [u8; 32], u32)| entry_view(e))
}

pub open spec fn strs_view(v: Seq<String>) -> Seq<Seq<char>> {
    v.map_values(|s: String| s@)
}

/// The plan takes `current` to `target`: a target file is added when the path
/// is new, modified when its hash differs, and a current path that the target
/// lacks is deleted; each path is listed once.
pub open spec fn switch_plan_matches(plan: SwitchPlan, current: Seq<TreeFile>, target: Seq<TreeFile>) -> bool {
    let add = entries_view(plan.to_add@);
    let modify = entries_view(plan.to_modify@);
    let delete = strs_view(plan.to_delete@);
    &&& add.no_duplicates()
    &&& modify.no_duplicates()
    &&& delete.no_duplicates()
    &&& forall|e: (Seq<char>, Seq<u8>, u32)| #[trigger] add.contains(e) <==> (files_lookup(target, e.0)
        == Some((e.1, e.2)) && !files_has(current, e.0))
    &&& forall|e: (Seq<char>, Seq<u8>, u32)| #[trigger] modify.contains(e) <==> (files_lookup(target, e.0)
        == Some((e.1, e.2)) && files_has(current, e.0) && files_hash(current, e.0) != e.1)
    &&& forall|p: Seq<char>| #[trigger] delete.contains(p) <==> (files_has(current, p) && !files_has(target, p))
}

/// Plans the working-directory changes that take the `current` tree (none
/// before the first commit) to the `target` tree.
pub fn build_switch_plan(current_files: &Vec<TreeFile>, target_files: &Vec<TreeFile>) -> (plan: SwitchPlan)
    requires
        files_wf(current_files@),
        files_wf(target_files@),
    ensures
        switch_plan_matches(plan, current_files@, target_files@),
{
    let mut to_add: Vec<(String, [u8; 32], u32)> = Vec::new();
    let mut to_modify: Vec<(String, [u8; 32], u32)> = Vec::new();
    let mut to_delete: Vec<String> = Vec::new();
    let mut i: usize = 0;
    while i < target_files.len()
        invariant
            i <= target_files@.len(),
            files_wf(current_files@),
            files_wf(target_files@),
            forall|k: int| 0 <= k < to_add@.len() ==> exists|j: int| 0 <= j < i && entry_view(#[trigger] to_add@[k]) == (target_files@[j].0@, target_files@[j].1@, target_files@[j].2),
            forall|k: int| 0 <= k < to_modify@.len() ==> exists|j: int| 0 <= j < i && entry_view(#[trigger] to_modify@[k]) == (target_files@[j].0@, target_files@[j].1@, target_files@[j].2),
            entries_view(to_add@).no_duplicates(),
            entries_view(to_modify@).no_duplicates(),
            forall|e: (Seq<char>, Seq<u8>, u32)| #[trigger] entries_view(to_add@).contains(e) <==> (
                files_lookup(target_files@, e.0) == Some((e.1, e.2)) && !files_has(current_files@, e.0)
                && exists|j: int| 0 <= j < i && target_files@[j].0@ == e.0),
            forall|e: (Seq<char>, Seq<u8>, u32)| #[trigger] entries_view(to_modify@).contains(e) <==> (
                files_lookup(target_files@, e.0) == Some((e.1, e.2)) && files_has(current_files@, e.0)
                && files_hash(current_files@, e.0) != e.1
                && exists|j: int| 0 <= j < i && target_files@[j].0@ == e.0),
        decreases target_files@.len() - i,
    {
        let path = &target_files[i].0;
        let hash = &target_files[i].1;
        let mode = target_files[i].2;
        let ghost ev = (path@, hash@, mode);
        let ghost a0 = to_add@;
        let ghost m0 = to_modify@;
        proof {
            lemma_files_lookup_at(target_files@, i as int);
        }
        let existing = find_file(current_files, path);
        let is_new = existing.is_none();
        let is_mod = match existing {
            Some(j) => !hash_eq(&current_files[j].1, hash),
            None => false,
        };
        proof {
            if let Some(j) = existing {
                lemma_files_lookup_at(current_files@, j as int);
                assert(files_has(current_files@, path@));
                assert(files_hash(current_files@, path@) == current_files@[j as int].1@);
            }
            assert(target_files@[i as int].0@ == path@);
        }
        if is_new {
            to_add.push((path.clone(), hash_copy(hash), mode));
        }
        if is_mod {
            to_modify.push((path.clone(), hash_copy(hash), mode));
        }
        proof {
            assert forall|e: (Seq<char>, Seq<u8>, u32)| #[trigger] entries_view(to_add@).contains(e) <==> (
                files_lookup(target_files@, e.0) == Some((e.1, e.2)) && !files_has(current_files@, e.0)
                && exists|j: int| 0 <= j < i + 1 && target_files@[j].0@ == e.0) by {
                if entries_view(to_add@).contains(e) {
                    let k = choose|k: int| 0 <= k < entries_view(to_add@).len() && entries_view(to_add@)[k] == e;
                    if k < a0.len() {
                        assert(entries_view(a0)[k] == e);
                        assert(entries_view(a0).contains(e));
                    } else {
                        assert(e == ev);
                        assert(target_files@[i as int].0@ == e.0);
                    }
                }
                if files_lookup(target_files@, e.0) == Some((e.1, e.2)) && !files_has(current_files@, e.0)
                    && exists|j: int| 0 <= j < i + 1 && target_files@[j].0@ == e.0 {
                    let j = choose|j: int| 0 <= j < i + 1 && target_files@[j].0@ == e.0;
                    if j < i {
                        assert(entries_view(a0).contains(e));
                        let k = choose|k: int| 0 <= k < entries_view(a0).len() && entries_view(a0)[k] == e;
                        assert(entries_view(to_add@)[k] == e);
                    } else {
                        assert(e.0 == path@);
                        assert(e == ev);
                        assert(entries_view(to_add@)[entries_view(to_add@).len() - 1] == e);
                    }
                }
            }
            assert forall|e: (Seq<char>, Seq<u8>, u32)| #[trigger] entries_view(to_modify@).contains(e) <==> (
                files_lookup(target_files@, e.0) == Some((e.1, e.2)) && files_has(current_files@, e.0)
                && files_hash(current_files@, e.0) != e.1
                && exists|j: int| 0 <= j < i + 1 && target_files@[j].0@ == e.0) by {
                if entries_view(to_modify@).contains(e) {
                    let k = choose|k: int| 0 <= k < entries_view(to_modify@).len() && entries_view(to_modify@)[k] == e;
                    if k < m0.len() {
                        assert(entries_view(m0)[k] == e);
                        assert(entries_view(m0).contains(e));
                    } else {
                        assert(e == ev);
                        assert(target_files@[i as int].0@ == e.0);
                    }
                }
                if files_lookup(target_files@, e.0) == Some((e.1, e.2)) && files_has(current_files@, e.0)
                    && files_hash(current_files@, e.0) != e.1
                    && exists|j: int| 0 <= j < i + 1 && target_files@[j].0@ == e.0 {
                    let j = choose|j: int| 0 <= j < i + 1 && target_files@[j].0@ == e.0;
                    if j < i {
                        assert(entries_view(m0).contains(e));
                        let k = choose|k: int| 0 <= k < entries_view(m0).len() && entries_view(m0)[k] == e;
                        assert(entries_view(to_modify@)[k] == e);
                    } else {
                        assert(e.0 == path@);
                        assert(e == ev);
                        assert(entries_view(to_modify@)[entries_view(to_modify@).len() - 1] == e);
                    }
                }
            }
            assert forall|a: int, b: int| 0 <= a < b < entries_view(to_add@).len() implies entries_view(to_add@)[a] != entries_view(to_add@)[b] by {
                if b >= a0.len() {
                    let ja = choose|j: int| 0 <= j < i && entry_view(#[trigger] to_add@[a]) == (target_files@[j].0@, target_files@[j].1@, target_files@[j].2);
                    assert(target_files@[ja].0@ != target_files@[i as int].0@);
                } else {
                    assert(entries_view(a0)[a] != entries_view(a0)[b]);
                }
            }
            assert forall|a: int, b: int| 0 <= a < b < entries_view(to_modify@).len() implies entries_view(to_modify@)[a] != entries_view(to_modify@)[b] by {
                if b >= m0.len() {
                    let ja = choose|j: int| 0 <= j < i && entry_view(#[trigger] to_modify@[a]) == (target_files@[j].0@, target_files@[j].1@, target_files@[j].2);
                    assert(target_files@[ja].0@ != target_files@[i as int].0@);
                } else {
                    assert(entries_view(m0)[a] != entries_view(m0)[b]);
                }
            }
            assert forall|k: int| 0 <= k < to_add@.len() implies exists|j: int| 0 <= j < i + 1 && entry_view(#[trigger] to_add@[k]) == (target_files@[j].0@, target_files@[j].1@, target_files@[j].2) by {
                if k < a0.len() {
                    assert(to_add@[k] == a0[k]);
                    let j = choose|j: int| 0 <= j < i && entry_view(#[trigger] a0[k]) == (target_files@[j].0@, target_files@[j].1@, target_files@[j].2);
                } else {
                    assert(entry_view(to_add@[k]) == (target_files@[i as int].0@, target_files@[i as int].1@, target_files@[i as int].2));
                }
            }
            assert forall|k: int| 0 <= k < to_modify@.len() implies exists|j: int| 0 <= j < i + 1 && entry_view(#[trigger] to_modify@[k]) == (target_files@[j].0@, target_files@[j].1@, target_files@[j].2) by {
                if k < m0.len() {
                    assert(to_modify@[k] == m0[k]);
                    let j = choose|j: int| 0 <= j < i && entry_view(#[trigger] m0[k]) == (target_files@[j].0@, target_files@[j].1@, target_files@[j].2);
                } else {
                    assert(entry_view(to_modify@[k]) == (target_files@[i as int].0@, target_files@[i as int].1@, target_files@[i as int].2));
                }
            }
        }
        i = i + 1;
    }
    let mut i: usize = 0;
    while i < current_files.len()
        invariant
            i <= current_files@.len(),
            files_wf(current_files@),
            files_wf(target_files@),
            forall|k: int| 0 <= k < to_delete@.len() ==> exists|j: int| 0 <= j < i && (#[trigger] to_delete@[k])@ == current_files@[j].0@,
            strs_view(to_delete@).no_duplicates(),
            forall|p: Seq<char>| #[trigger] strs_view(to_delete@).contains(p) <==> (files_has(current_files@, p)
                && !files_has(target_files@, p) && exists|j: int| 0 <= j < i && current_files@[j].0@ == p),
        decreases current_files@.len() - i,
    {
        let path = &current_files[i].0;
        let ghost d0 = to_delete@;
        let gone = find_file(target_files, path).is_none();
        if gone {
            to_delete.push(path.clone());
        }
        proof {
            assert(files_has(current_files@, path@)) by {
                assert(current_files@[i as int].0@ == path@);
            }
            assert forall|p: Seq<char>| #[trigger] strs_view(to_delete@).contains(p) <==> (files_has(current_files@, p)
                && !files_has(target_files@, p) && exists|j: int| 0 <= j < i + 1 && current_files@[j].0@ == p) by {
                if strs_view(to_delete@).contains(p) {
                    let k = choose|k: int| 0 <= k < strs_view(to_delete@).len() && strs_view(to_delete@)[k] == p;
                    if k < d0.len() {
                        assert(strs_view(d0)[k] == p);
                        assert(strs_view(d0).contains(p));
                    } else {
                        assert(p == path@);
                        assert(current_files@[i as int].0@ == p);
                    }
                }
                if files_has(current_files@, p) && !files_has(target_files@, p) && exists|j: int| 0 <= j < i + 1 && current_files@[j].0@ == p {
                    let j = choose|j: int| 0 <= j < i + 1 && current_files@[j].0@ == p;
                    if j < i {
                        assert(strs_view(d0).contains(p));
                        let k = choose|k: int| 0 <= k < strs_view(d0).len() && strs_view(d0)[k] == p;
                        assert(strs_view(to_delete@)[k] == p);
                    } else {
                        assert(p == path@);
                        assert(strs_view(to_delete@)[strs_view(to_delete@).len() - 1] == p);
                    }
                }
            }
            assert forall|a: int, b: int| 0 <= a < b < strs_view(to_delete@).len() implies strs_view(to_delete@)[a] != strs_view(to_delete@)[b] by {
                if b >= d0.len() {
                    let ja = choose|j: int| 0 <= j < i && (#[trigger] to_delete@[a])@ == current_files@[j].0@;
                    assert(current_files@[ja].0@ != current_files@[i as int].0@);
                } else {
                    assert(strs_view(d0)[a] != strs_view(d0)[b]);
                }
            }
            assert forall|k: int| 0 <= k < to_delete@.len() implies exists|j: int| 0 <= j < i + 1 && (#[trigger] to_delete@[k])@ == current_files@[j].0@ by {
                if k < d0.len() {
                    assert(to_delete@[k] == d0[k]);
                    let j = choose|j: int| 0 <= j < i && (#[trigger] d0[k])@ == current_files@[j].0@;
                } else {
                    assert(to_delete@[k]@ == current_files@[i as int].0@);
                }
            }
        }
        i = i + 1;
    }
    let plan = SwitchPlan { to_add, to_modify, to_delete };
    proof {
        assert forall|e: (Seq<char>, Seq<u8>, u32)| #[trigger] entries_view(plan.to_add@).contains(e) <==> (files_lookup(target_files@, e.0)
            == Some((e.1, e.2)) && !files_has(current_files@, e.0)) by {
            if files_lookup(target_files@, e.0) == Some((e.1, e.2)) {
                let j = files_index(target_files@, e.0);
            }
        }
        assert forall|e: (Seq<char>, Seq<u8>, u32)| #[trigger] entries_view(plan.to_modify@).contains(e) <==> (files_lookup(target_files@, e.0)
            == Some((e.1, e.2)) && files_has(current_files@, e.0) && files_hash(current_files@, e.0) != e.1) by {
            if files_lookup(target_files@, e.0) == Some((e.1, e.2)) {
                let j = files_index(target_files@, e.0);
            }
        }
    }
    plan
}


/// The hash a path holds after the plan is applied to `current`.
pub open spec fn planned_hash(plan: SwitchPlan, current: Seq<TreeFile>, p: Seq<char>) -> Option<Seq<u8>> {
    let add = entries_view(plan.to_add@);
    let modify = entries_view(plan.to_modify@);
    if exists|e: (Seq<char>, Seq<u8>, u32)| (add.contains(e) || modify.contains(e)) && e.0 == p {
        Some((choose|e: (Seq<char>, Seq<u8>, u32)| (add.contains(e) || modify.contains(e)) && e.0 == p).1)
    } else if strs_view(plan.to_delete@).contains(p) {
        None
    } else {
        match files_lookup(current, p) {
            Some(f) => Some(f.0),
            None => None,
        }
    }
}

/// Applying a switch plan to the current tree gives every path the content
/// the target tree holds there, and removes the paths the target lacks.
pub proof fn law_switch_plan_reaches_target(plan: SwitchPlan, current: Seq<TreeFile>, target: Seq<TreeFile>, p: Seq<char>)
    requires
        switch_plan_matches(plan, current, target),
    ensures
        planned_hash(plan, current, p) == match files_lookup(target, p) {
            Some(f) => Some(f.0),
            None => None::<Seq<u8>>,
        },
{
    let add = entries_view(plan.to_add@);
    let modify = entries_view(plan.to_modify@);
    if exists|e: (Seq<char>, Seq<u8>, u32)| (add.contains(e) || modify.contains(e)) && e.0 == p {
        let e = choose|e: (Seq<char>, Seq<u8>, u32)| (add.contains(e) || modify.contains(e)) && e.0 == p;
        if add.contains(e) {
        } else {
            assert(modify.contains(e));
        }
    } else {
        match files_lookup(target, p) {
            Some(f) => {
                let e = (p, f.0, f.1);
                if !files_has(current, p) {
                    assert(add.contains(e));
                } else if files_hash(current, p) != f.0 {
                    assert(modify.contains(e));
                }
            },
            None => {
                if files_has(current, p) {
                    assert(strs_view(plan.to_delete@).contains(p));
                }
            },
        }
    }
}

/// The working directory differs from the staging area: a file is new or
/// changed, or a staged file is missing.
pub open spec fn has_uncommitted(work: Seq<(String, [u8; 32])>, staged: Seq<StagedFile>) -> bool {
    (exists|i: int| 0 <= i < work.len() && staged_lookup(staged, work[i].0@) != Some(work[i].1@))
    || (exists|j: int| 0 <= j < staged.len() && !pair_has(work, staged[j].path@))
}

fn find_staged_index(v: &Vec<StagedFile>, p: &String) -> (r: Option<usize>)
    ensures
        r matches Some(i) ==> i < v@.len() && v@[i as int].path@ == p@,
        r is None ==> !staged_keys(v@).contains(p@),
{
    let mut i: usize = 0;
    while i < v.len()
        invariant
            i <= v@.len(),
            forall|j: int| 0 <= j < i ==> v@[j].path@ != p@,
        decreases v@.len() - i,
    {
        if v[i].path == *p {
            return Some(i);
        }
        i = i + 1;
    }
    proof {
        if staged_keys(v@).contains(p@) {
            let j = choose|j: int| 0 <= j < staged_keys(v@).len() && staged_keys(v@)[j] == p@;
            assert(v@[j].path@ == p@);
        }
    }
    None
}

/// Whether the working directory (hashed files by path) has changes that the
/// staging area does not hold.
pub fn check_uncommitted_changes(workdir_files: &Vec<(String, [u8; 32])>, staged: &Vec<StagedFile>) -> (r: bool)
    requires
        staged_wf(staged@),
    ensures
        r == has_uncommitted(workdir_files@, staged@),
{
    let mut i: usize = 0;
    while i < workdir_files.len()
        invariant
            i <= workdir_files@.len(),
            staged_wf(staged@),
            forall|k: int| 0 <= k < i ==> staged_lookup(staged@, workdir_files@[k].0@) == Some(workdir_files@[k].1@),
        decreases workdir_files@.len() - i,
    {
        match find_staged_index(staged, &workdir_files[i].0) {
            Some(j) => {
                proof {
                    lemma_staged_lookup_at(staged@, j as int);
                }
                if !hash_eq(&staged[j].file_hash, &workdir_files[i].1) {
                    return true;
                }
            },
            None => {
                return true;
            },
        }
        i = i + 1;
    }
    let mut j: usize = 0;
    while j < staged.len()
        invariant
            j <= staged@.len(),
            i == workdir_files@.len(),
            forall|k: int| 0 <= k < i ==> staged_lookup(staged@, workdir_files@[k].0@) == Some(workdir_files@[k].1@),
            forall|k: int| 0 <= k < j ==> pair_has(workdir_files@, staged@[k].path@),
        decreases staged@.len() - j,
    {
        if find_pair(workdir_files, &staged[j].path).is_none() {
            return true;
        }
        j = j + 1;
    }
    false
}


/// How a target is named in messages.
pub open spec fn spec_target_name(t: ResolvedTarget) -> Seq<char> {
    match t {
        ResolvedTarget::Branch(n, _) => "branch '"@ + n@ + "'"@,
        ResolvedTarget::Commit(h) => "commit '"@ + spec_hex(h@.subrange(0, 4)) + "'"@,
    }
}

/// Names a switch target for messages.
pub fn format_target_name(target: &ResolvedTarget) -> (r: String)
    ensures
        r@ == spec_target_name(*target),
{
    match target {
        ResolvedTarget::Branch(name, _) => {
            let mut s = concat("branch '", name.as_str());
            s.append("'");
            s
        },
        ResolvedTarget::Commit(hash) => {
            let short = hash_to_short_hex(hash);
            let mut s = concat("commit '", short.as_str());
            s.append("'");
            s
        },
    }
}

/// HEAD together with its commit: on a branch, the branch's name and commit
/// (zeros and no commit before the first commit); detached, the commit.
pub fn get_current_head_state(head: &refs::HeadState, refs_list: &Vec<(String, [u8; 32])>) -> (r: (HeadState, Option<[u8; 32]>))
    requires
        pairs_distinct(refs_list@),
    ensures
        match *head {
            refs::HeadState::Branch(p) => match pair_lookup(refs_list@, p@) {
                Some(h) => (r.0 matches HeadState::Branch(n, x) && n@ == shown_branch_name(p@) && x@ == h)
                    && (r.1 matches Some(y) && y@ == h),
                None => (r.0 matches HeadState::Branch(n, x) && n@ == shown_branch_name(p@) && x@ == Seq::new(32, |i: int| 0u8))
                    && r.1 is None,
            },
            refs::HeadState::Detached(h) => (r.0 matches HeadState::Detached(x) && x@ == h@) && (r.1 matches Some(y) && y@ == h@),
        },
{
    match head {
        refs::HeadState::Branch(ref_path) => {
            let name = match strip_prefix(ref_path.as_str(), "refs/heads/") {
                Some(n) => n,
                None => ref_path.clone(),
            };
            match lookup_pair(refs_list, ref_path) {
                Some(h) => (HeadState::Branch(name, h), Some(h)),
                None => {
                    let zero: [u8; 32] = [0u8; 32];
                    assert(zero@ =~= Seq::new(32, |i: int| 0u8));
                    (HeadState::Branch(name, zero), None)
                },
            }
        },
        refs::HeadState::Detached(h) => (HeadState::Detached(*h), Some(*h)),
    }
}

/// Refuses a switch to where HEAD already is: the same branch, or (when
/// detached) the same commit named as a commit.
pub fn check_switch_target(previous_head: &HeadState, target: &ResolvedTarget) -> (r: Result<(), ReviusError>)
    ensures
        match (*previous_head, *target) {
            (HeadState::Branch(c, _), ResolvedTarget::Branch(t, _)) => if c@ == t@ {
                r matches Err(ReviusError::Usage(m)) && m@ == "Already on "@ + spec_target_name(*target)
            } else {
                r is Ok
            },
            (HeadState::Detached(h), ResolvedTarget::Commit(t)) => if h@ == t@ {
                r matches Err(ReviusError::Usage(m)) && m@ == "Already on "@ + spec_target_name(*target)
            } else {
                r is Ok
            },
            _ => r is Ok,
        },
{
    let same = match (previous_head, target) {
        (HeadState::Branch(c, _), ResolvedTarget::Branch(t, _)) => str_eq(c.as_str(), t.as_str()),
        (HeadState::Detached(h), ResolvedTarget::Commit(t)) => hash_eq(h, t),
        _ => false,
    };
    if same {
        let name = format_target_name(target);
        return Err(ReviusError::Usage(concat("Already on ", name.as_str())));
    }
    Ok(())
}

/// Where HEAD stands after switching to a target.
pub fn new_head_state(target: &ResolvedTarget) -> (r: HeadState)
    ensures
        match *target {
            ResolvedTarget::Branch(n, h) => r matches HeadState::Branch(m, x) && m@ == n@ && x@ == h@,
            ResolvedTarget::Commit(h) => r matches HeadState::Detached(x) && x@ == h@,
        },
{
    match target {
        ResolvedTarget::Branch(n, h) => HeadState::Branch(n.clone(), *h),
        ResolvedTarget::Commit(h) => HeadState::Detached(*h),
    }
}

/// The reference-log action recorded for a switch.
pub fn switch_reflog_action(target: &ResolvedTarget) -> (r: String)
    ensures
        r@ == "[\"switch\", \""@ + match *target {
            ResolvedTarget::Branch(n, _) => n@,
            ResolvedTarget::Commit(h) => spec_hex(h@),
        } + "\"]"@,
{
    let shown = match target {
        ResolvedTarget::Branch(n, _) => n.clone(),
        ResolvedTarget::Commit(h) => to_hex(h),
    };
    let mut s = concat("[\"switch\", \"", shown.as_str());
    s.append("\"]");
    s
}

/// The reference-log action recorded when a branch is created by a switch.
pub fn create_switch_reflog_action(branch_name: &str) -> (r: String)
    ensures
        r@ == "[\"switch\", \"-c\", \""@ + branch_name@ + "\"]"@,
{
    let mut s = concat("[\"switch\", \"-c\", \"", branch_name);
    s.append("\"]");
    s
}

} // verus!

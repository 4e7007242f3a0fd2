use vstd::prelude::*;
use crate::hash::hash_eq;
use crate::models::objects::{StagedFile, StatusInfo};
use crate::paths::{find_pair, lookup_pair, lemma_sorted_pairs_distinct, lemma_selected_start, lemma_selected_step, lemma_sorted_distinct, pair_has, pair_keys, pair_lookup, pairs_wf, selected, sorted_strict, strs};

verus! {

/// The paths of staged files.
pub open spec fn staged_keys(v: Seq<StagedFile>) -> Seq<Seq<char>> {
    v.map_values(|f: StagedFile| f.path@)
}

/// Staged files ordered by path, each path once.
pub open spec fn staged_wf(v: Seq<StagedFile>) -> bool {
    sorted_strict(staged_keys(v))
}

pub open spec fn staged_index(v: Seq<StagedFile>, p: Seq<char>) -> int {
    choose|i: int| 0 <= i < v.len() && v[i].path@ == p
}

/// The hash staged under a path.
pub open spec fn staged_lookup(v: Seq<StagedFile>, p: Seq<char>) -> Option<Seq<u8>> {
    if staged_keys(v).contains(p) {
        Some(v[staged_index(v, p)].file_hash@)
    } else {
        None
    }
}

pub proof fn lemma_staged_lookup_at(v: Seq<StagedFile>, i: int)
    requires
        staged_wf(v),
        0 <= i < v.len(),
    ensures
        staged_keys(v).contains(v[i].path@),
        staged_lookup(v, v[i].path@) == Some(v[i].file_hash@),
{
    let p = v[i].path@;
    assert(staged_keys(v)[i] == p);
    let k = staged_index(v, p);
    if k != i {
        lemma_sorted_distinct(staged_keys(v), k, i);
        assert(staged_keys(v)[k] == p);
    }
}

/// Staged but absent from HEAD.
pub open spec fn is_staged_new(head: Seq<(String, [u8; 32])>, p: Seq<char>) -> bool {
    pair_lookup(head, p) is None
}

/// Staged with content other than HEAD's.
pub open spec fn is_staged_modified(
    head: Seq<(String, [u8; 32])>,
    staged: Seq<StagedFile>,
    p: Seq<char>,
) -> bool {
    pair_lookup(head, p) is Some && pair_lookup(head, p) != staged_lookup(staged, p)
}

/// Staged but missing from the working directory.
pub open spec fn is_unstaged_deleted(work: Seq<(String, [u8; 32])>, p: Seq<char>) -> bool {
    pair_lookup(work, p) is None
}

/// Staged with working-directory content other than the staged one.
pub open spec fn is_unstaged_modified(
    work: Seq<(String, [u8; 32])>,
    staged: Seq<StagedFile>,
    p: Seq<char>,
) -> bool {
    pair_lookup(work, p) is Some && pair_lookup(work, p) != staged_lookup(staged, p)
}

/// In HEAD but no longer staged.
pub open spec fn is_staged_deleted(staged: Seq<StagedFile>, p: Seq<char>) -> bool {
    !staged_keys(staged).contains(p)
}

/// In the working directory but neither in HEAD nor staged.
pub open spec fn is_untracked(
    head: Seq<(String, [u8; 32])>,
    staged: Seq<StagedFile>,
    p: Seq<char>,
) -> bool {
    !pair_has(head, p) && !staged_keys(staged).contains(p)
}

fn find_staged(v: &Vec<StagedFile>, p: &String) -> (r: Option<usize>)
    ensures
        r matches Some(i) ==> i < v@.len() && v@[i as int].path@ == p@,
        r is None ==> !staged_keys(v@).contains(p@),
{
    let mut i: usize = 0;
    while i < v.len()
        invariant
            i <= v@.len(),
            forall|j: int| 0 <= j < i ==> v@[j].path@ != p@,
        decreases v@.len() - i,
    {
        if v[i].path == *p {
            return Some(i);
        }
        i = i + 1;
    }
    proof {
        if staged_keys(v@).contains(p@) {
            let j = choose|j: int| 0 <= j < staged_keys(v@).len() && staged_keys(v@)[j] == p@;
            assert(v@[j].path@ == p@);
        }
    }
    None
}

fn differs(a: &Option<[u8; 32]>, b: &[u8; 32]) -> (r: bool)
    ensures
        r == match a {
            Some(x) => x@ != b@,
            None => false,
        },
{
    match a {
        Some(x) => !hash_eq(x, b),
        None => false,
    }
}

proof fn lemma_strs_push(v: Seq<String>, s: String)
    ensures
        strs(v.push(s)) =~= strs(v).push(s@),
{
}

/// Compares HEAD, the staging area and the working directory. Each list is
/// sorted and names exactly the paths of its kind.
pub fn get_status_info(
    branch_name: Option<String>,
    detached_commit: Option<[u8; 32]>,
    head_files: &Vec<(String, [u8; 32])>,
    staged: &Vec<StagedFile>,
    workdir_files: &Vec<(String, [u8; 32])>,
) -> (s: StatusInfo)
    requires
        pairs_wf(head_files@),
        staged_wf(staged@),
        pairs_wf(workdir_files@),
    ensures
        s.branch_name == branch_name,
        s.detached_commit == detached_commit,
        selected(strs(s.staged_new@), staged_keys(staged@), staged@.len() as int,
            |p: Seq<char>| is_staged_new(head_files@, p)),
        selected(strs(s.staged_modified@), staged_keys(staged@), staged@.len() as int,
            |p: Seq<char>| is_staged_modified(head_files@, staged@, p)),
        selected(strs(s.unstaged_deleted@), staged_keys(staged@), staged@.len() as int,
            |p: Seq<char>| is_unstaged_deleted(workdir_files@, p)),
        selected(strs(s.unstaged_modified@), staged_keys(staged@), staged@.len() as int,
            |p: Seq<char>| is_unstaged_modified(workdir_files@, staged@, p)),
        selected(strs(s.staged_deleted@), pair_keys(head_files@), head_files@.len() as int,
            |p: Seq<char>| is_staged_deleted(staged@, p)),
        selected(strs(s.untracked@), pair_keys(workdir_files@), workdir_files@.len() as int,
            |p: Seq<char>| is_untracked(head_files@, staged@, p)),
{
    let ghost sk = staged_keys(staged@);
    let ghost p_new = |p: Seq<char>| is_staged_new(head_files@, p);
    let ghost p_mod = |p: Seq<char>| is_staged_modified(head_files@, staged@, p);
    let ghost p_udel = |p: Seq<char>| is_unstaged_deleted(workdir_files@, p);
    let ghost p_umod = |p: Seq<char>| is_unstaged_modified(workdir_files@, staged@, p);
    let mut staged_new: Vec<String> = Vec::new();
    let mut staged_modified: Vec<String> = Vec::new();
    let mut unstaged_modified: Vec<String> = Vec::new();
    let mut unstaged_deleted: Vec<String> = Vec::new();
    proof {
        lemma_selected_start(sk, p_new);
        lemma_selected_start(sk, p_mod);
        lemma_selected_start(sk, p_udel);
        lemma_selected_start(sk, p_umod);
        assert(strs(staged_new@) =~= Seq::empty());
        assert(strs(staged_modified@) =~= Seq::empty());
        assert(strs(unstaged_modified@) =~= Seq::empty());
        assert(strs(unstaged_deleted@) =~= Seq::empty());
    }
    let mut i: usize = 0;
    while i < staged.len()
        invariant
            i <= staged@.len(),
            pairs_wf(head_files@),
            staged_wf(staged@),
            pairs_wf(workdir_files@),
            sk == staged_keys(staged@),
            p_new == (|p: Seq<char>| is_staged_new(head_files@, p)),
            p_mod == (|p: Seq<char>| is_staged_modified(head_files@, staged@, p)),
            p_udel == (|p: Seq<char>| is_unstaged_deleted(workdir_files@, p)),
            p_umod == (|p: Seq<char>| is_unstaged_modified(workdir_files@, staged@, p)),
            selected(strs(staged_new@), sk, i as int, p_new),
            selected(strs(staged_modified@), sk, i as int, p_mod),
            selected(strs(unstaged_deleted@), sk, i as int, p_udel),
            selected(strs(unstaged_modified@), sk, i as int, p_umod),
        decreases staged@.len() - i,
    {
        let file = &staged[i];
        let path = &file.path;
        proof {
            lemma_staged_lookup_at(staged@, i as int);
            assert(sk[i as int] == path@);
            lemma_selected_step(strs(staged_new@), sk, i as int, p_new);
            lemma_selected_step(strs(staged_modified@), sk, i as int, p_mod);
            lemma_selected_step(strs(unstaged_deleted@), sk, i as int, p_udel);
            lemma_selected_step(strs(unstaged_modified@), sk, i as int, p_umod);
        }
        proof {
            lemma_sorted_pairs_distinct(head_files@);
            lemma_sorted_pairs_distinct(workdir_files@);
        }
        let head_hash = lookup_pair(head_files, path);
        if head_hash.is_none() {
            proof { lemma_strs_push(staged_new@, *path); }
            staged_new.push(path.clone());
        } else if differs(&head_hash, &file.file_hash) {
            proof { lemma_strs_push(staged_modified@, *path); }
            staged_modified.push(path.clone());
        }
        let work_hash = lookup_pair(workdir_files, path);
        if work_hash.is_none() {
            proof { lemma_strs_push(unstaged_deleted@, *path); }
            unstaged_deleted.push(path.clone());
        } else if differs(&work_hash, &file.file_hash) {
            proof { lemma_strs_push(unstaged_modified@, *path); }
            unstaged_modified.push(path.clone());
        }
        i = i + 1;
    }
    let ghost hk = pair_keys(head_files@);
    let ghost p_del = |p: Seq<char>| is_staged_deleted(staged@, p);
    let mut staged_deleted: Vec<String> = Vec::new();
    proof {
        lemma_selected_start(hk, p_del);
        assert(strs(staged_deleted@) =~= Seq::empty());
    }
    let mut i: usize = 0;
    while i < head_files.len()
        invariant
            i <= head_files@.len(),
            pairs_wf(head_files@),
            hk == pair_keys(head_files@),
            p_del == (|p: Seq<char>| is_staged_deleted(staged@, p)),
            selected(strs(staged_deleted@), hk, i as int, p_del),
        decreases head_files@.len() - i,
    {
        let path = &head_files[i].0;
        proof {
            assert(hk[i as int] == path@);
            lemma_selected_step(strs(staged_deleted@), hk, i as int, p_del);
        }
        let found = find_staged(staged, path);
        if found.is_none() {
            proof { lemma_strs_push(staged_deleted@, *path); }
            staged_deleted.push(path.clone());
        } else {
            proof {
                let j = found->0 as int;
                assert(staged_keys(staged@)[j] == path@);
            }
        }
        i = i + 1;
    }
    let ghost wk = pair_keys(workdir_files@);
    let ghost p_unt = |p: Seq<char>| is_untracked(head_files@, staged@, p);
    let mut untracked: Vec<String> = Vec::new();
    proof {
        lemma_selected_start(wk, p_unt);
        assert(strs(untracked@) =~= Seq::empty());
    }
    let mut i: usize = 0;
    while i < workdir_files.len()
        invariant
            i <= workdir_files@.len(),
            pairs_wf(workdir_files@),
            wk == pair_keys(workdir_files@),
            p_unt == (|p: Seq<char>| is_untracked(head_files@, staged@, p)),
            selected(strs(untracked@), wk, i as int, p_unt),
        decreases workdir_files@.len() - i,
    {
        let path = &workdir_files[i].0;
        proof {
            assert(wk[i as int] == path@);
            lemma_selected_step(strs(untracked@), wk, i as int, p_unt);
        }
        let in_head = find_pair(head_files, path);
        let in_staged = find_staged(staged, path);
        if in_head.is_none() && in_staged.is_none() {
            proof { lemma_strs_push(untracked@, *path); }
            untracked.push(path.clone());
        } else {
            proof {
                if in_staged is Some {
                    let j = in_staged->0 as int;
                    assert(staged_keys(staged@)[j] == path@);
                }
            }
        }
        i = i + 1;
    }
    StatusInfo {
        branch_name,
        detached_commit,
        staged_new,
        staged_modified,
        staged_deleted,
        unstaged_modified,
        unstaged_deleted,
        untracked,
    }
}

} // verus!

use vstd::prelude::*;
use crate::error::ReviusError;
use crate::graph::{CommitGraph, graph_wf, has_commit, is_ancestor, ancestors, contains_hash, all_present};
use crate::hash::{hash_eq, hash_to_short_hex, to_hex, spec_hex};
use crate::paths::{pair_has, pair_lookup, pairs_distinct, find_pair, lookup_pair, lemma_pair_lookup_at};
use crate::refs::{HeadState, resolve_head, spec_resolve_head};
use crate::text::{has_prefix, strip_prefix, concat, str_eq};

verus! {

/// The reference path of a branch.
pub fn branch_ref_path(branch_name: &str) -> (r: String)
    ensures
        r@ == "refs/heads/"@ + branch_name@,
{
    concat("refs/heads/", branch_name)
}

/// The branch name a reference path names.
pub fn extract_branch_name(ref_path: &str) -> (r: Result<String, ReviusError>)
    ensures
        has_prefix(ref_path@, "refs/heads/"@) ==> (r matches Ok(n) && n@ == ref_path@.subrange(
            "refs/heads/"@.len() as int,
            ref_path@.len() as int,
        )),
        !has_prefix(ref_path@, "refs/heads/"@) ==> r matches Err(ReviusError::Db(_)),
{
    match strip_prefix(ref_path, "refs/heads/") {
        Some(n) => Ok(n),
        None => Err(ReviusError::Db(concat("Invalid branch ref path: ", ref_path))),
    }
}

/// The name of the branch HEAD is on, if any.
pub open spec fn spec_current_branch(head: HeadState) -> Option<Seq<char>> {
    match head {
        HeadState::Branch(p) => if has_prefix(p@, "refs/heads/"@) {
            Some(p@.subrange("refs/heads/"@.len() as int, p@.len() as int))
        } else {
            None
        },
        HeadState::Detached(_) => None,
    }
}

/// HEAD names a reference outside "refs/heads/".
pub open spec fn head_malformed(head: HeadState) -> bool {
    head matches HeadState::Branch(p) && !has_prefix(p@, "refs/heads/"@)
}

/// The current branch name (none when HEAD is detached).
pub fn get_current_branch_name(head: &HeadState) -> (r: Result<Option<String>, ReviusError>)
    ensures
        head_malformed(*head) ==> r matches Err(ReviusError::Db(_)),
        !head_malformed(*head) ==> r is Ok && match r->Ok_0 {
            Some(n) => spec_current_branch(*head) == Some(n@),
            None => spec_current_branch(*head) is None,
        },
{
    match head {
        HeadState::Branch(ref_path) => Ok(Some(extract_branch_name(ref_path.as_str())?)),
        HeadState::Detached(_) => Ok(None),
    }
}

/// Checks that a new branch may start at HEAD's commit; returns that commit.
pub fn plan_create_branch(
    branch_name: &str,
    refs: &Vec<(String, [u8; 32])>,
    head: &HeadState,
) -> (r: Result<[u8; 32], ReviusError>)
    requires
        pairs_distinct(refs@),
    ensures
        pair_has(refs@, "refs/heads/"@ + branch_name@) ==> (r matches Err(ReviusError::BranchAlreadyExists(n)) && n@ == branch_name@),
        !pair_has(refs@, "refs/heads/"@ + branch_name@) ==> match spec_resolve_head(*head, refs@) {
            Some(h) => r matches Ok(c) && c@ == h,
            None => r matches Err(ReviusError::NoCommitsYet),
        },
{
    let ref_path = branch_ref_path(branch_name);
    if find_pair(refs, &ref_path).is_some() {
        return Err(ReviusError::BranchAlreadyExists(String::from_str(branch_name)));
    }
    match resolve_head(head, refs) {
        Some(c) => Ok(c),
        None => Err(ReviusError::NoCommitsYet),
    }
}

/// Checks that a branch may be created at a given commit (inside a switch).
pub fn create_branch_in_tx(
    branch_name: &str,
    commit_hash: &[u8; 32],
    refs: &Vec<(String, [u8; 32])>,
    graph: &CommitGraph,
) -> (r: Result<(), ReviusError>)
    ensures
        !has_commit(graph.nodes@, commit_hash@) ==> (r matches Err(ReviusError::CommitNotFound(s)) && s@ == spec_hex(commit_hash@)),
        has_commit(graph.nodes@, commit_hash@) && pair_has(refs@, "refs/heads/"@ + branch_name@) ==> (r matches Err(ReviusError::BranchAlreadyExists(n)) && n@ == branch_name@),
        has_commit(graph.nodes@, commit_hash@) && !pair_has(refs@, "refs/heads/"@ + branch_name@) ==> r is Ok,
{
    let mut found = false;
    let mut i: usize = 0;
    while i < graph.nodes.len()
        invariant
            i <= graph.nodes@.len(),
            found == exists|j: int| 0 <= j < i && graph.nodes@[j].hash@ == commit_hash@,
        decreases graph.nodes@.len() - i,
    {
        if hash_eq(&graph.nodes[i].hash, commit_hash) {
            found = true;
        }
        i = i + 1;
    }
    if !found {
        return Err(ReviusError::CommitNotFound(to_hex(commit_hash)));
    }
    let ref_path = branch_ref_path(branch_name);
    if find_pair(refs, &ref_path).is_some() {
        return Err(ReviusError::BranchAlreadyExists(String::from_str(branch_name)));
    }
    Ok(())
}

/// What renaming a branch does.
#[derive(Debug)]
pub struct BranchRename {
    pub old_ref_path: String,
    pub new_ref_path: String,
    pub commit_hash: [u8; 32],
    pub is_current: bool,
    pub old_name: String,
}

/// Checks a rename of `old_name` (the current branch when absent) to
/// `new_name` and gathers what the rename changes.
pub fn plan_rename_branch(
    old_name: Option<&str>,
    new_name: &str,
    refs: &Vec<(String, [u8; 32])>,
    head: &HeadState,
) -> (r: Result<BranchRename, ReviusError>)
    requires
        pairs_distinct(refs@),
    ensures
        old_name is None && head_malformed(*head) ==> r matches Err(ReviusError::Db(_)),
        old_name is None && !head_malformed(*head) && spec_current_branch(*head) is None ==> r matches Err(ReviusError::DetachedHead(_)),
        r matches Ok(plan) ==> {
            let old = match old_name {
                Some(n) => n@,
                None => spec_current_branch(*head)->0,
            };
            &&& plan.old_name@ == old
            &&& plan.old_ref_path@ == "refs/heads/"@ + old
            &&& plan.new_ref_path@ == "refs/heads/"@ + new_name@
            &&& pair_lookup(refs@, plan.old_ref_path@) == Some(plan.commit_hash@)
            &&& !pair_has(refs@, plan.new_ref_path@)
            &&& plan.is_current == (spec_current_branch(*head) == Some(old))
        },
        ({
            let known = old_name is Some || (!head_malformed(*head) && spec_current_branch(*head) is Some);
            let old = match old_name {
                Some(n) => n@,
                None => spec_current_branch(*head)->0,
            };
            known ==> (
                (!pair_has(refs@, "refs/heads/"@ + old) ==> (r matches Err(ReviusError::BranchNotFound(n)) && n@ == old))
                && (pair_has(refs@, "refs/heads/"@ + old) && pair_has(refs@, "refs/heads/"@ + new_name@)
                    ==> (r matches Err(ReviusError::BranchAlreadyExists(n)) && n@ == new_name@))
                && (pair_has(refs@, "refs/heads/"@ + old) && !pair_has(refs@, "refs/heads/"@ + new_name@)
                    && !head_malformed(*head) ==> r is Ok)
            )
        }),
{
    let old_branch_name: String = match old_name {
        Some(n) => String::from_str(n),
        None => match get_current_branch_name(head)? {
            Some(n) => n,
            None => {
                let shown = match resolve_head(head, refs) {
                    Some(h) => hash_to_short_hex(&h),
                    None => String::from_str("unknown"),
                };
                return Err(ReviusError::DetachedHead(shown));
            },
        },
    };
    let old_ref_path = branch_ref_path(old_branch_name.as_str());
    let new_ref_path = branch_ref_path(new_name);
    let commit_hash = match lookup_pair(refs, &old_ref_path) {
        Some(h) => h,
        None => {
            proof {
                if pair_has(refs@, old_ref_path@) {
                    let j = choose|j: int| 0 <= j < refs@.len() && refs@[j].0@ == old_ref_path@;
                    lemma_pair_lookup_at(refs@, j);
                }
            }
            return Err(ReviusError::BranchNotFound(old_branch_name));
        },
    };
    if find_pair(refs, &new_ref_path).is_some() {
        return Err(ReviusError::BranchAlreadyExists(String::from_str(new_name)));
    }
    let is_current = match get_current_branch_name(head)? {
        Some(current) => str_eq(current.as_str(), old_branch_name.as_str()),
        None => false,
    };
    Ok(BranchRename { old_ref_path, new_ref_path, commit_hash, is_current, old_name: old_branch_name })
}

/// The refusal to delete a branch that is not merged.
pub open spec fn unmerged_message(name: Seq<char>) -> Seq<char> {
    "The branch '"@ + name + "' is not fully merged. If you are sure you want to delete it, run 'rvs branch -D "@ + name
        + "'."@
}

/// Checks that a branch may be deleted and returns the commit it points at.
/// Without `force`, the branch's commit must be HEAD or one of its
/// ancestors.
pub fn plan_delete_branch(
    branch_name: &str,
    force: bool,
    refs: &Vec<(String, [u8; 32])>,
    head: &HeadState,
    graph: &CommitGraph,
) -> (r: Result<[u8; 32], ReviusError>)
    requires
        pairs_distinct(refs@),
        graph_wf(graph.nodes@),
    ensures
        !pair_has(refs@, "refs/heads/"@ + branch_name@) ==> (r matches Err(ReviusError::BranchNotFound(n)) && n@ == branch_name@),
        pair_has(refs@, "refs/heads/"@ + branch_name@) && head_malformed(*head) ==> r matches Err(ReviusError::Db(_)),
        pair_has(refs@, "refs/heads/"@ + branch_name@) && spec_current_branch(*head) == Some(branch_name@)
            ==> (r matches Err(ReviusError::CannotDeleteCurrentBranch(n)) && n@ == branch_name@),
        pair_has(refs@, "refs/heads/"@ + branch_name@) && !head_malformed(*head) && spec_current_branch(*head) != Some(branch_name@)
            && !force && spec_resolve_head(*head, refs@) is None ==> r matches Err(ReviusError::NoCommitsYet),
        pair_has(refs@, "refs/heads/"@ + branch_name@) && !head_malformed(*head) && spec_current_branch(*head) != Some(branch_name@)
            && force ==> (r matches Ok(c) && Some(c@) == pair_lookup(refs@, "refs/heads/"@ + branch_name@)),
        pair_has(refs@, "refs/heads/"@ + branch_name@) && !head_malformed(*head) && spec_current_branch(*head) != Some(branch_name@)
            && !force && spec_resolve_head(*head, refs@) is Some ==> ({
                let c = pair_lookup(refs@, "refs/heads/"@ + branch_name@)->0;
                let h = spec_resolve_head(*head, refs@)->0;
                if !all_present(graph.nodes@, h) {
                    r matches Err(ReviusError::CommitNotFound(_))
                } else if is_ancestor(graph.nodes@, h, c) {
                    r matches Ok(y) && y@ == c
                } else {
                    r matches Err(ReviusError::Usage(m)) && m@ == unmerged_message(branch_name@)
                }
            }),
        r matches Ok(c) ==> Some(c@) == pair_lookup(refs@, "refs/heads/"@ + branch_name@) && (!force ==> is_ancestor(
            graph.nodes@,
            spec_resolve_head(*head, refs@)->0,
            c@,
        )),
{
    let ref_path = branch_ref_path(branch_name);
    let commit_hash = match lookup_pair(refs, &ref_path) {
        Some(h) => h,
        None => {
            proof {
                if pair_has(refs@, ref_path@) {
                    let j = choose|j: int| 0 <= j < refs@.len() && refs@[j].0@ == ref_path@;
                    lemma_pair_lookup_at(refs@, j);
                }
            }
            return Err(ReviusError::BranchNotFound(String::from_str(branch_name)));
        },
    };
    proof {
        assert(pair_has(refs@, ref_path@));
    }
    match get_current_branch_name(head)? {
        Some(current) => {
            if str_eq(current.as_str(), branch_name) {
                return Err(ReviusError::CannotDeleteCurrentBranch(String::from_str(branch_name)));
            }
        },
        None => {},
    }
    if !force {
        let head_commit = match resolve_head(head, refs) {
            Some(h) => h,
            None => {
                return Err(ReviusError::NoCommitsYet);
            },
        };
        let merged = contains_hash(&ancestors(graph, head_commit)?, &commit_hash);
        if !merged {
            let mut msg = concat("The branch '", branch_name);
            msg.append("' is not fully merged. If you are sure you want to delete it, run 'rvs branch -D ");
            msg.append(branch_name);
            msg.append("'.");
            return Err(ReviusError::Usage(msg));
        }
    }
    Ok(commit_hash)
}

} // verus!

use vstd::prelude::*;
use crate::merge::ConflictType;
use crate::models::objects::StatusInfo;

verus! {

/// The closing line of a status report: a clean tree, or unstaged work with
/// or without untracked files; nothing when changes are staged.
pub fn status_footer(status: &StatusInfo) -> (r: Option<String>)
    ensures
        !(status.staged_new@.len() > 0 || status.staged_modified@.len() > 0 || status.staged_deleted@.len() > 0
            || status.unstaged_modified@.len() > 0 || status.unstaged_deleted@.len() > 0 || status.untracked@.len() > 0)
            ==> (r matches Some(s) && s@ == "nothing to commit, working tree clean"@),
        (status.unstaged_modified@.len() > 0 || status.unstaged_deleted@.len() > 0 || status.untracked@.len() > 0)
            && !(status.staged_new@.len() > 0 || status.staged_modified@.len() > 0 || status.staged_deleted@.len() > 0)
            ==> (r matches Some(s) && s@ == (if status.untracked@.len() > 0 {
                "no changes added to commit (use \"rvs add\" and/or \"rvs commit\")"@
            } else {
                "no changes added to commit (use \"rvs add\")"@
            })),
        (status.staged_new@.len() > 0 || status.staged_modified@.len() > 0 || status.staged_deleted@.len() > 0) ==> r is None,
{
    if !status.has_changes() {
        Some(String::from_str("nothing to commit, working tree clean"))
    } else if !status.has_staged_changes() {
        if status.untracked.len() > 0 {
            Some(String::from_str("no changes added to commit (use \"rvs add\" and/or \"rvs commit\")"))
        } else {
            Some(String::from_str("no changes added to commit (use \"rvs add\")"))
        }
    } else {
        None
    }
}

/// How a conflict is described to the user.
pub fn conflict_description(t: ConflictType) -> (r: &'static str)
    ensures
        r@ == match t {
            ConflictType::BothModified => "both modified"@,
            ConflictType::DeletedByUsModifiedByThem => "deleted by us, modified by them"@,
            ConflictType::DeletedByThemModifiedByUs => "deleted by them, modified by us"@,
            ConflictType::BothAdded => "both added (different content)"@,
        },
{
    match t {
        ConflictType::BothModified => "both modified",
        ConflictType::DeletedByUsModifiedByThem => "deleted by us, modified by them",
        ConflictType::DeletedByThemModifiedByUs => "deleted by them, modified by us",
        ConflictType::BothAdded => "both added (different content)",
    }
}

} // verus!

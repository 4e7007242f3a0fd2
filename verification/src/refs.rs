use vstd::prelude::*;
use crate::error::ReviusError;
use crate::hash::{spec_hex, spec_hex_decode, hex_decode, hex_encode, vec_to_hash};
use crate::paths::{pair_has, pair_lookup, pairs_distinct, find_pair, lookup_pair};
use crate::text::{has_prefix, starts_with, strip_prefix, concat};

verus! {

/// Where the HEAD record points: a reference path, or a commit directly.
#[derive(Debug)]
pub enum HeadState {
    Branch(String),
    Detached([u8; 32]),
}

pub const REF_TYPE_BRANCH: u8 = 0;

pub const REF_TYPE_TAG: u8 = 1;

pub const REF_TYPE_REMOTE: u8 = 2;

/// The kind of a reference, by the prefix of its path.
pub open spec fn spec_ref_type(p: Seq<char>) -> Option<u8> {
    if has_prefix(p, "refs/heads/"@) {
        Some(REF_TYPE_BRANCH)
    } else if has_prefix(p, "refs/tags/"@) {
        Some(REF_TYPE_TAG)
    } else if has_prefix(p, "refs/remotes/"@) {
        Some(REF_TYPE_REMOTE)
    } else {
        None
    }
}

/// Infers a reference's kind from its path.
pub fn infer_ref_type(ref_path: &str) -> (r: Result<u8, ReviusError>)
    ensures
        match spec_ref_type(ref_path@) {
            Some(t) => r == Ok::<u8, ReviusError>(t),
            None => r matches Err(ReviusError::Db(_)),
        },
{
    if starts_with(ref_path, "refs/heads/") {
        Ok(REF_TYPE_BRANCH)
    } else if starts_with(ref_path, "refs/tags/") {
        Ok(REF_TYPE_TAG)
    } else if starts_with(ref_path, "refs/remotes/") {
        Ok(REF_TYPE_REMOTE)
    } else {
        Err(ReviusError::Db(concat("Unknown ref type for path: ", ref_path)))
    }
}

/// The reference path a HEAD value names, after its "ref: " prefix.
pub open spec fn head_ref_path(v: Seq<char>) -> Seq<char> {
    v.subrange("ref: "@.len() as int, v.len() as int)
}

/// Reads the HEAD record: "ref: <path>" names a reference; anything else must
/// be the hex text of a 32-byte commit hash.
pub fn get_head_state(head_value: Option<&str>) -> (r: Result<HeadState, ReviusError>)
    ensures
        match head_value {
            None => r matches Err(ReviusError::Db(_)),
            Some(v) => if has_prefix(v@, "ref: "@) {
                r matches Ok(HeadState::Branch(p)) && p@ == head_ref_path(v@)
            } else {
                match spec_hex_decode(v@) {
                    Some(b) => if b.len() == 32 {
                        r matches Ok(HeadState::Detached(h)) && h@ == b
                    } else {
                        r matches Err(ReviusError::Db(_))
                    },
                    None => r matches Err(ReviusError::Db(_)),
                }
            },
        },
{
    let v = match head_value {
        Some(v) => v,
        None => {
            return Err(ReviusError::Db(String::from_str("HEAD not found")));
        },
    };
    match strip_prefix(v, "ref: ") {
        Some(p) => Ok(HeadState::Branch(p)),
        None => match hex_decode(v) {
            Some(bytes) => match vec_to_hash(bytes.as_slice()) {
                Ok(h) => Ok(HeadState::Detached(h)),
                Err(_) => Err(ReviusError::Db(String::from_str("Invalid HEAD hash: wrong length"))),
            },
            None => Err(ReviusError::Db(String::from_str("Invalid HEAD hash: not hexadecimal"))),
        },
    }
}

/// How HEAD moves to a new commit.
#[derive(Debug)]
pub enum HeadUpdate {
    /// Point the existing reference at the commit.
    UpdateRef { path: String },
    /// Create the reference (first commit on a branch) with the given kind.
    CreateRef { path: String, ref_type: u8 },
    /// HEAD is detached: store the commit's hex text in HEAD itself.
    SetDetached { value: String },
}

/// Decides how HEAD moves to `commit_hash`, given the HEAD record and the
/// existing references.
pub fn plan_head_update(
    head_value: Option<&str>,
    refs: &Vec<(String, [u8; 32])>,
    commit_hash: &[u8; 32],
) -> (r: Result<HeadUpdate, ReviusError>)
    ensures
        match head_value {
            None => r matches Err(ReviusError::Db(_)),
            Some(v) => if v@.len() == 0 {
                r matches Err(ReviusError::Db(_))
            } else if has_prefix(v@, "ref: "@) {
                let p = head_ref_path(v@);
                if pair_has(refs@, p) {
                    r matches Ok(HeadUpdate::UpdateRef { path }) && path@ == p
                } else {
                    match spec_ref_type(p) {
                        Some(t) => r matches Ok(HeadUpdate::CreateRef { path, ref_type }) && path@ == p
                            && ref_type == t,
                        None => r matches Err(ReviusError::Db(_)),
                    }
                }
            } else {
                r matches Ok(HeadUpdate::SetDetached { value }) && value@ == spec_hex(commit_hash@)
            },
        },
{
    let v = match head_value {
        Some(v) => v,
        None => {
            return Err(ReviusError::Db(String::from_str("HEAD not found in Meta table")));
        },
    };
    if v.unicode_len() == 0 {
        return Err(ReviusError::Db(String::from_str("HEAD value is empty")));
    }
    match strip_prefix(v, "ref: ") {
        Some(path) => {
            if find_pair(refs, &path).is_some() {
                Ok(HeadUpdate::UpdateRef { path })
            } else {
                let ref_type = infer_ref_type(path.as_str())?;
                Ok(HeadUpdate::CreateRef { path, ref_type })
            }
        },
        None => Ok(HeadUpdate::SetDetached { value: hex_encode(commit_hash) }),
    }
}

/// The HEAD record that attaches HEAD to a branch.
pub fn head_value_for_branch(branch_name: &str) -> (r: String)
    ensures
        r@ == "ref: refs/heads/"@ + branch_name@,
{
    concat("ref: refs/heads/", branch_name)
}


/// The commit HEAD stands for: the commit of the reference it names (none
/// before the first commit), or the detached commit.
pub open spec fn spec_resolve_head(head: HeadState, refs: Seq<(String, [u8; 32])>) -> Option<Seq<u8>> {
    match head {
        HeadState::Branch(p) => pair_lookup(refs, p@),
        HeadState::Detached(h) => Some(h@),
    }
}

/// Resolves HEAD to a commit hash.
pub fn resolve_head(head: &HeadState, refs: &Vec<(String, [u8; 32])>) -> (r: Option<[u8; 32]>)
    requires
        pairs_distinct(refs@),
    ensures
        match r {
            Some(h) => spec_resolve_head(*head, refs@) == Some(h@),
            None => spec_resolve_head(*head, refs@) is None,
        },
{
    match head {
        HeadState::Branch(p) => lookup_pair(refs, p),
        HeadState::Detached(h) => Some(*h),
    }
}

/// The HEAD record written for a branch reads back as that branch's reference.
pub proof fn law_head_branch_roundtrip(branch_name: Seq<char>)
    ensures
        has_prefix("ref: refs/heads/"@ + branch_name, "ref: "@),
        head_ref_path("ref: refs/heads/"@ + branch_name) == "refs/heads/"@ + branch_name,
{
    reveal_strlit("ref: refs/heads/");
    reveal_strlit("ref: ");
    reveal_strlit("refs/heads/");
    let v = "ref: refs/heads/"@ + branch_name;
    assert(v.subrange(0, 5) =~= "ref: "@);
    assert(v.subrange(5, v.len() as int) =~= "refs/heads/"@ + branch_name);
}

} // verus!

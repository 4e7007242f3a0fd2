use vstd::prelude::*;
use vstd::utf8::{encode_utf8, valid_utf8, decode_utf8};
use crate::error::ReviusError;
use crate::hash::{digest, spec_blake3, spec_hex, spec_hex_decode, hex_decode, law_hex_roundtrip, lemma_hex_chars};
use crate::text::{trim_front, trim_back, is_white};
use crate::models::objects::StagedFile;
use crate::models::serialization::{serialize_commit, author_error, author_line, commit_text};
use crate::text::{utf8_text, trim, spec_trim};
use crate::tree::{TreeNode, build_tree_from_files, build_files, file_at, lookup, tree_wf, no_empty_subdirs, conflict_message, split_path};

verus! {

/// The merge parent recorded in MERGE_HEAD: its content, as text without
/// surrounding white space, must be the hex form of a 32-byte hash.
pub open spec fn spec_merge_head(content: Seq<u8>) -> Option<Seq<u8>> {
    if valid_utf8(content) {
        match spec_hex_decode(spec_trim(decode_utf8(content))) {
            Some(v) => if v.len() == 32 { Some(v) } else { None },
            None => None,
        }
    } else {
        None
    }
}

/// Reads the merge parent from the content of MERGE_HEAD; anything that is
/// not a hex hash is ignored.
pub fn parse_merge_head(content: &[u8]) -> (r: Option<[u8; 32]>)
    ensures
        match spec_merge_head(content@) {
            Some(v) => r matches Some(h) && h@ == v,
            None => r is None,
        },
{
    let text = match utf8_text(content) {
        Some(t) => t,
        None => {
            return None;
        },
    };
    let trimmed = trim(text.as_str());
    match hex_decode(trimmed.as_str()) {
        Some(bytes) => {
            if bytes.len() == 32 {
                Some(crate::hash::hash_from_slice(bytes.as_slice()))
            } else {
                None
            }
        },
        None => None,
    }
}

/// The reflog action of a commit: "merge: <message>" when it concludes a
/// merge, else "commit: <message>".
pub fn commit_action(message: &str, is_merge: bool) -> (r: String)
    ensures
        r@ == (if is_merge { "merge: "@ } else { "commit: "@ }) + message@,
{
    let mut r = if is_merge { String::from_str("merge: ") } else { String::from_str("commit: ") };
    r.append(message);
    r
}

/// The configured author of a commit: both name and email must be set.
pub fn commit_author(user_name: &Option<String>, user_email: &Option<String>) -> (r: Result<(String, String), ReviusError>)
    ensures
        match (user_name, user_email) {
            (Some(n), Some(e)) => r matches Ok((rn, re)) && rn@ == n@ && re@ == e@,
            (None, _) => r matches Err(ReviusError::Config(m)) && m@ == "User name not configured"@,
            (Some(_), None) => r matches Err(ReviusError::Config(m)) && m@ == "User email not configured"@,
        },
{
    let name = match user_name {
        Some(n) => n.clone(),
        None => {
            return Err(ReviusError::Config(String::from_str("User name not configured")));
        },
    };
    let email = match user_email {
        Some(e) => e.clone(),
        None => {
            return Err(ReviusError::Config(String::from_str("User email not configured")));
        },
    };
    Ok((name, email))
}

/// The tree of the staged files and how many files it holds; committing an
/// empty staging area is a usage error.
pub fn staged_tree(staged: Vec<StagedFile>) -> (r: Result<(TreeNode, usize), ReviusError>)
    ensures
        staged@.len() == 0 ==> (r matches Err(ReviusError::Usage(m)) && m@ == "Nothing to commit (staging area is empty)"@),
        staged@.len() > 0 ==> match build_files(staged@) {
            Ok(f) => r matches Ok((root, n)) && n == staged@.len() && root is Dir && tree_wf(root) && no_empty_subdirs(root)
                && forall|key: Seq<Seq<char>>| #[trigger] file_at(root, key) == lookup(f, key),
            Err((i, j)) => r matches Err(ReviusError::Path(msg))
                && msg@ == conflict_message(split_path(staged@[i].path@), j, staged@[i].path@),
        },
{
    if staged.len() == 0 {
        return Err(ReviusError::Usage(String::from_str("Nothing to commit (staging area is empty)")));
    }
    let n = staged.len();
    let root = build_tree_from_files(staged)?;
    Ok((root, n))
}

/// The hash of a commit: the digest of its text; fails, as a storage error,
/// where the author cannot be written.
pub fn commit_object_hash(
    tree_hash: &[u8; 32],
    parent_hash: Option<&[u8; 32]>,
    merge_parent_hash: Option<&[u8; 32]>,
    author_name: &str,
    author_email: &str,
    timestamp: i64,
    message: &str,
) -> (r: Result<[u8; 32], ReviusError>)
    ensures
        match author_error(author_name@, author_email@) {
            Some(msg) => r matches Err(ReviusError::Db(m)) && m@ == "Failed to serialize commit: "@ + msg,
            None => r matches Ok(h) && h@ == spec_blake3(encode_utf8(commit_text(
                tree_hash@,
                match parent_hash { Some(p) => Some(*p), None => None },
                match merge_parent_hash { Some(p) => Some(*p), None => None },
                author_line(author_name@, author_email@, timestamp),
                message@,
            ))),
        },
{
    match serialize_commit(tree_hash, parent_hash, merge_parent_hash, author_name, author_email, timestamp, message) {
        Ok(bytes) => Ok(digest(bytes.as_slice())),
        Err(e) => {
            let mut m = String::from_str("Failed to serialize commit: ");
            m.append(e.as_str());
            Err(ReviusError::Db(m))
        },
    }
}

/// What a merge writes to MERGE_HEAD (the hex text of the merged commit)
/// is read back by a commit as that commit.
pub proof fn law_merge_head_roundtrip(h: Seq<u8>)
    requires
        h.len() == 32,
    ensures
        spec_merge_head(encode_utf8(spec_hex(h))) == Some(h),
{
    let t = spec_hex(h);
    vstd::utf8::encode_utf8_valid_utf8(t);
    vstd::utf8::encode_utf8_decode_utf8(t);
    assert(t.len() == 64);
    lemma_hex_chars(h, 0);
    lemma_hex_chars(h, 63);
    assert(!is_white(t[0]));
    assert(trim_front(t) == t);
    assert(t.last() == t[63]);
    assert(!is_white(t.last()));
    assert(trim_back(t) == t);
    law_hex_roundtrip(h);
}

} // verus!

use vstd::prelude::*;
use vstd::utf8::encode_utf8;
use crate::hash::{hash_eq, hash_copy, hash_to_short_hex, spec_hex};
use crate::models::objects::StagedFile;
use crate::refs::HeadState;
use crate::text::{has_prefix, starts_with, str_eq, concat, str_chars};

verus! {

/// A path is selected by a pattern that is "." or empty (everything), that
/// equals it, or that names a directory above it.
pub open spec fn pattern_matches(path: Seq<char>, pattern: Seq<char>) -> bool {
    pattern == "."@ || pattern.len() == 0 || path == pattern || has_prefix(path, pattern + seq!['/'])
}

pub open spec fn spec_matches_any(path: Seq<char>, patterns: Seq<Seq<char>>) -> bool {
    exists|i: int| 0 <= i < patterns.len() && pattern_matches(path, #[trigger] patterns[i])
}

/// Whether a path is selected by any of the patterns.
pub fn matches_any_pattern(path: &str, patterns: &Vec<String>) -> (r: bool)
    ensures
        r == spec_matches_any(path@, crate::paths::strs(patterns@)),
{
    let mut i: usize = 0;
    while i < patterns.len()
        invariant
            i <= patterns@.len(),
            forall|j: int| 0 <= j < i ==> !pattern_matches(path@, #[trigger] crate::paths::strs(patterns@)[j]),
        decreases patterns@.len() - i,
    {
        let p = &patterns[i];
        assert(crate::paths::strs(patterns@)[i as int] == p@);
        if str_eq(p.as_str(), ".") || p.unicode_len() == 0 || str_eq(path, p.as_str()) {
            assert(pattern_matches(path@, crate::paths::strs(patterns@)[i as int]));
            return true;
        }
        let mut dir = p.clone();
        crate::text::push_char(&mut dir, '/');
        assert(dir@ =~= p@ + seq!['/']);
        if starts_with(path, dir.as_str()) {
            assert(pattern_matches(path@, crate::paths::strs(patterns@)[i as int]));
            return true;
        }
        i = i + 1;
    }
    false
}

/// A staged path lies within a scope the user named: it is the scope, or
/// it starts with the scope and has '/' at the character position given by
/// the scope's length in bytes.
pub open spec fn spec_in_scope(path: Seq<char>, scope: Seq<char>) -> bool {
    path == scope || (has_prefix(path, scope) && encode_utf8(scope).len() < path.len()
        && path[encode_utf8(scope).len() as int] == '/')
}

/// Whether a staged path falls under any of the scopes.
pub fn in_any_scope(path: &str, scopes: &Vec<String>) -> (r: bool)
    ensures
        r == exists|i: int| 0 <= i < scopes@.len() && spec_in_scope(path@, #[trigger] scopes@[i]@),
{
    let cs = str_chars(path);
    let mut i: usize = 0;
    while i < scopes.len()
        invariant
            cs@ == path@,
            i <= scopes@.len(),
            forall|j: int| 0 <= j < i ==> !spec_in_scope(path@, #[trigger] scopes@[j]@),
        decreases scopes@.len() - i,
    {
        let scope = scopes[i].as_str();
        if str_eq(path, scope) {
            return true;
        }
        let blen = scope.as_bytes().len();
        if starts_with(path, scope) && blen < cs.len() && cs[blen] == '/' {
            return true;
        }
        i = i + 1;
    }
    false
}

/// What staging one file did.
#[derive(Debug)]
pub enum StageOutcome {
    Added { blobs: u64 },
    Modified { blobs: u64 },
    Deleted,
    Unchanged,
}

/// Whether a file must be stored, given the hash staged for its path
/// before: not when it is staged with the same hash; `Some(true)` when it
/// is new, `Some(false)` when it is modified.
pub fn stage_decision(previous: &Option<[u8; 32]>, file_hash: &[u8; 32]) -> (r: Option<bool>)
    ensures
        match previous {
            None => r == Some(true),
            Some(p) => if p@ == file_hash@ { r is None } else { r == Some(false) },
        },
{
    match previous {
        None => Some(true),
        Some(p) => if hash_eq(p, file_hash) { None } else { Some(false) },
    }
}

/// The outcome of staging a file that had to be stored.
pub fn stage_outcome(is_new: bool, blobs: u64) -> (r: StageOutcome)
    ensures
        is_new ==> r == (StageOutcome::Added { blobs }),
        !is_new ==> r == (StageOutcome::Modified { blobs }),
{
    if is_new { StageOutcome::Added { blobs } } else { StageOutcome::Modified { blobs } }
}

/// The staged hash that a working file can be trusted to have without
/// reading it: the staged file's hash when its recorded time and size match.
pub fn trusted_staged_hash(staged: Option<&StagedFile>, mtime: i64, size: u64) -> (r: Option<[u8; 32]>)
    ensures
        match staged {
            Some(s) => if s.modified_at == mtime && s.size == size {
                r matches Some(h) && h@ == s.file_hash@
            } else {
                r is None
            },
            None => r is None,
        },
{
    match staged {
        Some(s) => {
            if s.modified_at == mtime && s.size == size {
                Some(hash_copy(&s.file_hash))
            } else {
                None
            }
        },
        None => None,
    }
}

/// What restoring from a source commit does to staging: the source files
/// to write, the staged paths to remove, and how many entries change.
#[derive(Debug)]
pub struct RestorePlan {
    pub upserts: Vec<(String, [u8; 32], u32, u64)>,
    pub removals: Vec<String>,
    pub count: usize,
}

pub open spec fn source_has(source: Seq<(String, [u8; 32], u32, u64)>, p: Seq<char>) -> bool {
    exists|i: int| 0 <= i < source.len() && (#[trigger] source[i]).0@ == p
}

/// Restoring paths from a source: each source file the patterns select is
/// written to staging, in source order; each staged path the patterns select
/// that the source lacks is removed, in staging order.
pub fn plan_restore(
    source_files: &Vec<(String, [u8; 32], u32, u64)>,
    staged_paths: &Vec<String>,
    patterns: &Vec<String>,
) -> (r: RestorePlan)
    requires
        source_files@.len() + staged_paths@.len() <= usize::MAX,
    ensures
        r.upserts@.map_values(|e: (String, [u8; 32], u32, u64)| (e.0@, e.1@, e.2, e.3))
            == source_files@.filter(|e: (String, [u8; 32], u32, u64)| spec_matches_any(e.0@, crate::paths::strs(patterns@)))
                .map_values(|e: (String, [u8; 32], u32, u64)| (e.0@, e.1@, e.2, e.3)),
        crate::paths::strs(r.removals@) == crate::paths::strs(staged_paths@).filter(|p: Seq<char>|
            spec_matches_any(p, crate::paths::strs(patterns@)) && !source_has(source_files@, p)),
        r.count == r.upserts@.len() + r.removals@.len(),
{
    let ghost pats = crate::paths::strs(patterns@);
    let ghost keep = |e: (String, [u8; 32], u32, u64)| spec_matches_any(e.0@, pats);
    let ghost vw = |e: (String, [u8; 32], u32, u64)| (e.0@, e.1@, e.2, e.3);
    let mut upserts: Vec<(String, [u8; 32], u32, u64)> = Vec::new();
    let mut i: usize = 0;
    while i < source_files.len()
        invariant
            pats == crate::paths::strs(patterns@),
            keep == (|e: (String, [u8; 32], u32, u64)| spec_matches_any(e.0@, pats)),
            vw == (|e: (String, [u8; 32], u32, u64)| (e.0@, e.1@, e.2, e.3)),
            i <= source_files@.len(),
            upserts@.len() <= i,
            upserts@.map_values(vw) == source_files@.subrange(0, i as int).filter(keep).map_values(vw),
        decreases source_files@.len() - i,
    {
        let e = &source_files[i];
        let ghost sub = source_files@.subrange(0, i + 1);
        proof {
            assert(sub.drop_last() =~= source_files@.subrange(0, i as int));
            reveal(Seq::filter);
        }
        let ghost before = upserts@;
        if matches_any_pattern(e.0.as_str(), patterns) {
            upserts.push((e.0.clone(), hash_copy(&e.1), e.2, e.3));
            proof {
                assert(sub.filter(keep) == source_files@.subrange(0, i as int).filter(keep).push(sub.last()));
                assert(upserts@.map_values(vw) =~= before.map_values(vw).push(vw(source_files@[i as int])));
            }
        } else {
            proof {
                assert(sub.filter(keep) == source_files@.subrange(0, i as int).filter(keep));
            }
        }
        i = i + 1;
    }
    assert(source_files@.subrange(0, i as int) =~= source_files@);
    let mut removals: Vec<String> = Vec::new();
    let ghost drop_it = |p: Seq<char>| spec_matches_any(p, pats) && !source_has(source_files@, p);
    let mut k: usize = 0;
    while k < staged_paths.len()
        invariant
            pats == crate::paths::strs(patterns@),
            drop_it == (|p: Seq<char>| spec_matches_any(p, pats) && !source_has(source_files@, p)),
            k <= staged_paths@.len(),
            removals@.len() <= k,
            crate::paths::strs(removals@) == crate::paths::strs(staged_paths@).subrange(0, k as int).filter(drop_it),
        decreases staged_paths@.len() - k,
    {
        let p = &staged_paths[k];
        let ghost sub = crate::paths::strs(staged_paths@).subrange(0, k + 1);
        proof {
            assert(sub.drop_last() =~= crate::paths::strs(staged_paths@).subrange(0, k as int));
            assert(sub.last() == p@);
            reveal(Seq::filter);
        }
        let ghost before = removals@;
        if matches_any_pattern(p.as_str(), patterns) && !source_contains(source_files, p) {
            removals.push(p.clone());
            proof {
                assert(crate::paths::strs(removals@) =~= crate::paths::strs(before).push(p@));
            }
        }
        k = k + 1;
    }
    assert(crate::paths::strs(staged_paths@).subrange(0, k as int) =~= crate::paths::strs(staged_paths@));
    let count = upserts.len() + removals.len();
    RestorePlan { upserts, removals, count }
}

fn source_contains(source_files: &Vec<(String, [u8; 32], u32, u64)>, p: &String) -> (r: bool)
    ensures
        r == source_has(source_files@, p@),
{
    let mut i: usize = 0;
    while i < source_files.len()
        invariant
            i <= source_files@.len(),
            forall|j: int| 0 <= j < i ==> (#[trigger] source_files@[j]).0@ != p@,
        decreases source_files@.len() - i,
    {
        if source_files[i].0 == *p {
            return true;
        }
        i = i + 1;
    }
    false
}

/// The ref whose log is read: "HEAD", a full "refs/..." path, or a branch
/// name made into its ref path; all refs when none is named.
pub open spec fn spec_reflog_target(name: Option<Seq<char>>) -> Option<Seq<char>> {
    match name {
        None => None,
        Some(n) => if n == "HEAD"@ {
            Some("HEAD"@)
        } else if has_prefix(n, "refs/"@) {
            Some(n)
        } else {
            Some("refs/heads/"@ + n)
        },
    }
}

/// Resolves the ref name given to the reflog command.
pub fn reflog_target(ref_name: Option<&str>) -> (r: Option<String>)
    ensures
        match r {
            Some(s) => spec_reflog_target(match ref_name { Some(n) => Some(n@), None => None }) == Some(s@),
            None => ref_name is None,
        },
{
    match ref_name {
        None => None,
        Some(name) => {
            if str_eq(name, "HEAD") {
                Some(String::from_str("HEAD"))
            } else if starts_with(name, "refs/") {
                Some(String::from_str(name))
            } else {
                Some(concat("refs/heads/", name))
            }
        },
    }
}

/// The refs whose logs record a move of HEAD: HEAD itself and, when HEAD is
/// on a branch, that branch's ref.
pub fn head_update_refs(head: &HeadState) -> (r: Vec<String>)
    ensures
        match head {
            HeadState::Branch(p) => crate::paths::strs(r@) == seq!["HEAD"@, p@],
            HeadState::Detached(_) => crate::paths::strs(r@) == seq!["HEAD"@],
        },
{
    let mut v: Vec<String> = Vec::new();
    v.push(String::from_str("HEAD"));
    match head {
        HeadState::Branch(p) => {
            v.push(p.clone());
        },
        HeadState::Detached(_) => {},
    }
    assert(crate::paths::strs(v@) =~= match head {
        HeadState::Branch(p) => seq!["HEAD"@, p@],
        HeadState::Detached(_) => seq!["HEAD"@],
    });
    v
}

/// The reflog action of a reset: "reset: moving to <short hash>".
pub fn reset_action(target: &[u8; 32]) -> (r: String)
    ensures
        r@ == "reset: moving to "@ + spec_hex(target@.subrange(0, 4)),
{
    let short = hash_to_short_hex(target);
    concat("reset: moving to ", short.as_str())
}


/// No pattern selects nothing; adding a pattern selects exactly what it
/// selects besides what the others did. So a path is selected when any
/// pattern of the list selects it, whatever their order.
pub proof fn law_any_pattern_selects(path: Seq<char>, patterns: Seq<Seq<char>>, q: Seq<char>)
    ensures
        !spec_matches_any(path, Seq::<Seq<char>>::empty()),
        spec_matches_any(path, patterns.push(q)) == (spec_matches_any(path, patterns) || pattern_matches(path, q)),
        spec_matches_any(path, patterns + seq![q]) == spec_matches_any(path, seq![q] + patterns),
        forall|i: int| 0 <= i < patterns.len() && pattern_matches(path, #[trigger] patterns[i])
            ==> spec_matches_any(path, patterns),
{
    let ps = patterns.push(q);
    if spec_matches_any(path, patterns) {
        let i = choose|i: int| 0 <= i < patterns.len() && pattern_matches(path, #[trigger] patterns[i]);
        assert(ps[i] == patterns[i]);
    }
    if pattern_matches(path, q) {
        assert(ps[patterns.len() as int] == q);
    }
    if spec_matches_any(path, ps) {
        let i = choose|i: int| 0 <= i < ps.len() && pattern_matches(path, #[trigger] ps[i]);
        if i < patterns.len() {
            assert(patterns[i] == ps[i]);
        }
    }
    let a = patterns + seq![q];
    let b = seq![q] + patterns;
    assert(a =~= ps);
    if spec_matches_any(path, b) {
        let i = choose|i: int| 0 <= i < b.len() && pattern_matches(path, #[trigger] b[i]);
        if i == 0 {
            assert(a[patterns.len() as int] == q);
        } else {
            assert(a[i - 1] == b[i]);
        }
    }
    if spec_matches_any(path, a) {
        let i = choose|i: int| 0 <= i < a.len() && pattern_matches(path, #[trigger] a[i]);
        if i == patterns.len() {
            assert(b[0] == q);
        } else {
            assert(b[i + 1] == a[i]);
        }
    }
}

/// A scope holds itself and every path below it, at any depth (for a scope
/// whose characters are one byte each, since the check looks for '/' at the
/// scope's length in bytes).
pub proof fn law_scope_holds_nested_paths(scope: Seq<char>, rest: Seq<char>)
    requires
        encode_utf8(scope).len() == scope.len(),
    ensures
        spec_in_scope(scope, scope),
        spec_in_scope(scope + seq!['/'] + rest, scope),
{
    let p = scope + seq!['/'] + rest;
    assert(p.subrange(0, scope.len() as int) =~= scope);
    assert(p[scope.len() as int] == '/');
}

} // verus!

use vstd::prelude::*;
use crate::error::ReviusError;
use crate::graph::{views, contains_hash};
use crate::hash::{hash_copy, hex_encode, spec_hex};
use crate::models::{FileRecipe, group};
use crate::text::concat;

verus! {

/// How many objects a collection removed (or would remove).
#[derive(Debug)]
pub struct GcStats {
    pub commits_deleted: usize,
    pub trees_deleted: usize,
    pub files_deleted: usize,
    pub blobs_deleted: usize,
}

impl Default for GcStats {
    fn default() -> (s: GcStats)
        ensures
            s.commits_deleted == 0 && s.trees_deleted == 0 && s.files_deleted == 0 && s.blobs_deleted == 0,
    {
        GcStats { commits_deleted: 0, trees_deleted: 0, files_deleted: 0, blobs_deleted: 0 }
    }
}

/// The chunk hashes a stored recipe lists; a recipe whose length is not a
/// whole number of hashes is corrupt.
pub open spec fn spec_recipe_chunks(recipe: Seq<u8>) -> Option<Seq<Seq<u8>>> {
    if recipe.len() % 32 != 0 {
        None
    } else {
        Some(Seq::new(recipe.len() / 32, |k: int| group(recipe, k)))
    }
}

/// Reads the chunk hashes of a stored recipe.
pub fn parse_recipe(recipe: &[u8]) -> (r: Option<Vec<[u8; 32]>>)
    ensures
        match spec_recipe_chunks(recipe@) {
            Some(cs) => r matches Some(v) && views(v@) == cs,
            None => r is None,
        },
{
    if recipe.len() % 32 != 0 {
        return None;
    }
    let parsed = FileRecipe::from_bytes(0, recipe);
    assert(views(parsed.chunks@) =~= Seq::new(recipe@.len() / 32, |k: int| group(recipe@, k)));
    Some(parsed.chunks)
}

/// The blobs that a set of live files use: the union of the chunks of their
/// recipes. A file whose record is missing is passed over.
pub open spec fn used_blobs(files: Seq<([u8; 32], Option<Vec<u8>>)>) -> Set<Seq<u8>> {
    Set::new(|b: Seq<u8>| exists|i: int| 0 <= i < files.len() && file_uses(#[trigger] files[i], b))
}

/// A live file uses a blob when its recipe lists it.
pub open spec fn file_uses(f: ([u8; 32], Option<Vec<u8>>), b: Seq<u8>) -> bool {
    match f.1 {
        Some(rec) => match spec_recipe_chunks(rec@) {
            Some(cs) => cs.contains(b),
            None => false,
        },
        None => false,
    }
}

/// A live file whose recipe is corrupt.
pub open spec fn is_corrupt(f: ([u8; 32], Option<Vec<u8>>)) -> bool {
    match f.1 {
        Some(rec) => spec_recipe_chunks(rec@) is None,
        None => false,
    }
}

pub open spec fn in_prefix(cs: Seq<Seq<u8>>, k: int, b: Seq<u8>) -> bool {
    exists|t: int| 0 <= t < k && cs[t] == b
}

/// The first live file whose recipe is corrupt.
pub open spec fn first_corrupt(files: Seq<([u8; 32], Option<Vec<u8>>)>, i: int) -> bool {
    &&& 0 <= i < files.len()
    &&& is_corrupt(files[i])
    &&& forall|j: int| 0 <= j < i ==> !is_corrupt(#[trigger] files[j])
}

/// The blobs still in use, each once, from the live files and their
/// recipes; a corrupt recipe stops the collection.
pub fn alive_blobs(files: &Vec<([u8; 32], Option<Vec<u8>>)>) -> (r: Result<Vec<[u8; 32]>, ReviusError>)
    ensures
        match r {
            Ok(v) => views(v@).no_duplicates() && views(v@).to_set() == used_blobs(files@)
                && forall|i: int| 0 <= i < files@.len() ==> !is_corrupt(#[trigger] files@[i]),
            Err(e) => exists|i: int| first_corrupt(files@, i) && (e matches ReviusError::Db(m)
                && m@ == "Corrupt recipe in file "@ + spec_hex(#[trigger] files@[i].0@.subrange(0, 8))),
        },
{
    let mut alive: Vec<[u8; 32]> = Vec::new();
    let mut i: usize = 0;
    while i < files.len()
        invariant
            i <= files@.len(),
            views(alive@).no_duplicates(),
            views(alive@).to_set() == used_blobs(files@.subrange(0, i as int)),
            forall|j: int| 0 <= j < i ==> !is_corrupt(#[trigger] files@[j]),
        decreases files@.len() - i,
    {
        let ghost pre = files@.subrange(0, i as int);
        let ghost sub = files@.subrange(0, i + 1);
        match &files[i].1 {
            None => {
                proof {
                    assert forall|b: Seq<u8>| used_blobs(sub).contains(b) <==> used_blobs(pre).contains(b) by {
                        if used_blobs(sub).contains(b) {
                            let a = choose|a: int| 0 <= a < sub.len() && file_uses(#[trigger] sub[a], b);
                            assert(a < i);
                            assert(pre[a] == sub[a]);
                        }
                        if used_blobs(pre).contains(b) {
                            let a = choose|a: int| 0 <= a < pre.len() && file_uses(#[trigger] pre[a], b);
                            assert(pre[a] == sub[a]);
                        }
                    }
                    assert(used_blobs(sub) =~= used_blobs(pre));
                    assert(!is_corrupt(files@[i as int]));
                }
            },
            Some(rec) => {
                let chunks = match parse_recipe(rec.as_slice()) {
                    Some(c) => c,
                    None => {
                        let short = hex_encode(&files[i].0[0..8]);
                        proof {
                            assert(first_corrupt(files@, i as int));
                        }
                        return Err(ReviusError::Db(concat("Corrupt recipe in file ", short.as_str())));
                    },
                };
                let ghost cs = views(chunks@);
                let mut k: usize = 0;
                while k < chunks.len()
                    invariant
                        k <= chunks@.len(),
                        cs == views(chunks@),
                        views(alive@).no_duplicates(),
                        forall|b: Seq<u8>| #[trigger] views(alive@).to_set().contains(b) <==> (used_blobs(pre).contains(b)
                            || in_prefix(cs, k as int, b)),
                    decreases chunks@.len() - k,
                {
                    let ghost a0 = alive@;
                    proof {
                        assert(cs[k as int] == chunks@[k as int]@);
                    }
                    let present = contains_hash(&alive, &chunks[k]);
                    if !present {
                        alive.push(hash_copy(&chunks[k]));
                        proof {
                            assert(views(alive@) =~= views(a0).push(cs[k as int]));
                            assert forall|x: int, y: int| 0 <= x < views(alive@).len() && 0 <= y < views(alive@).len() && x != y
                                implies views(alive@)[x] != views(alive@)[y] by {
                                if x < views(a0).len() && y < views(a0).len() {
                                } else if x < views(a0).len() {
                                    assert(views(a0).contains(views(a0)[x]));
                                } else {
                                    assert(views(a0).contains(views(a0)[y]));
                                }
                            }
                        }
                    }
                    proof {
                        assert forall|b: Seq<u8>| #[trigger] views(alive@).to_set().contains(b) <==> (used_blobs(pre).contains(b)
                            || in_prefix(cs, k + 1, b)) by {
                            let old_in = views(a0).to_set().contains(b);
                            assert(old_in <==> (used_blobs(pre).contains(b) || in_prefix(cs, k as int, b)));
                            assert(in_prefix(cs, k + 1, b) <==> (in_prefix(cs, k as int, b) || cs[k as int] == b)) by {
                                if exists|t: int| 0 <= t < k + 1 && cs[t] == b {
                                    let t = choose|t: int| 0 <= t < k + 1 && cs[t] == b;
                                    if t < k {
                                        assert(exists|t: int| 0 <= t < k && cs[t] == b);
                                    }
                                }
                                if cs[k as int] == b {
                                    assert(0 <= k < k + 1 && cs[k as int] == b);
                                }
                                if exists|t: int| 0 <= t < k && cs[t] == b {
                                    let t = choose|t: int| 0 <= t < k && cs[t] == b;
                                    assert(0 <= t < k + 1 && cs[t] == b);
                                }
                            }
                            if present {
                                assert(views(alive@) == views(a0));
                                assert(views(a0).contains(cs[k as int]));
                            } else {
                                if views(alive@).contains(b) && b != cs[k as int] {
                                    let j = choose|j: int| 0 <= j < views(alive@).len() && views(alive@)[j] == b;
                                    assert(views(a0)[j] == b);
                                }
                                if views(a0).contains(b) {
                                    let j = choose|j: int| 0 <= j < views(a0).len() && views(a0)[j] == b;
                                    assert(views(alive@)[j] == b);
                                }
                                if b == cs[k as int] {
                                    assert(views(alive@)[views(a0).len() as int] == b);
                                }
                            }
                        }
                    }
                    k = k + 1;
                }
                proof {
                    assert(spec_recipe_chunks(rec@) == Some(cs));
                    assert(!is_corrupt(files@[i as int]));
                    assert forall|b: Seq<u8>| views(alive@).to_set().contains(b) <==> used_blobs(sub).contains(b) by {
                        if used_blobs(sub).contains(b) {
                            let a = choose|a: int| 0 <= a < sub.len() && file_uses(#[trigger] sub[a], b);
                            if a < i {
                                assert(pre[a] == sub[a]);
                                assert(used_blobs(pre).contains(b));
                            } else {
                                assert(sub[a] == files@[i as int]);
                                assert(cs.contains(b));
                            }
                        }
                        if used_blobs(pre).contains(b) {
                            let a = choose|a: int| 0 <= a < pre.len() && file_uses(#[trigger] pre[a], b);
                            assert(pre[a] == sub[a]);
                        }
                        if in_prefix(cs, chunks@.len() as int, b) {
                            assert(sub[i as int] == files@[i as int]);
                            assert(file_uses(sub[i as int], b));
                            assert(used_blobs(sub).contains(b));
                        }
                    }
                    assert(views(alive@).to_set() =~= used_blobs(sub));
                }
            },
        }
        i = i + 1;
    }
    assert(files@.subrange(0, i as int) =~= files@);
    Ok(alive)
}

} // verus!

pub mod objects;
pub mod serialization;

use vstd::prelude::*;
use vstd::utf8::encode_utf8;
use crate::hash::{digest, spec_blake3};
use crate::paths::{stable_order, stable_order_by_name, lemma_stable_order_unique, char_views, ints, is_perm, lemma_stable_order_exists, lemma_stable_order_permuted};
use crate::text::{append_slice, append_str, spec_decimal, spec_signed_decimal, push_char, push_decimal, push_signed_decimal, str_chars};

verus! {

/// A file as a list of chunk hashes, with its total size.
#[derive(Debug)]
pub struct FileRecipe {
    pub size: u64,
    pub chunks: Vec<[u8; 32]>,
}

/// The packed form of a list of chunk hashes: the hashes one after another.
pub open spec fn recipe_bytes(chunks: Seq<[u8; 32]>) -> Seq<u8> {
    Seq::new(32 * chunks.len(), |i: int| chunks[i / 32]@[i % 32])
}

/// The `k`-th 32-byte group of a byte sequence.
pub open spec fn group(bytes: Seq<u8>, k: int) -> Seq<u8> {
    bytes.subrange(32 * k, 32 * k + 32)
}

impl FileRecipe {
    /// Serializes the recipe to bytes for storage (packed hashes).
    pub fn to_bytes(&self) -> (r: Vec<u8>)
        ensures
            r@ == recipe_bytes(self.chunks@),
    {
        let mut out: Vec<u8> = Vec::new();
        let mut k: usize = 0;
        while k < self.chunks.len()
            invariant
                k <= self.chunks@.len(),
                out@ == recipe_bytes(self.chunks@.subrange(0, k as int)),
            decreases self.chunks@.len() - k,
        {
            let ghost before = out@;
            append_slice(&mut out, &self.chunks[k]);
            proof {
                let c = self.chunks@.subrange(0, k + 1);
                let b = recipe_bytes(c);
                assert forall|i: int| 0 <= i < b.len() implies out@[i] == b[i] by {
                    lemma_div_mod_32(i);
                    if i < 32 * k {
                        assert(before[i] == recipe_bytes(self.chunks@.subrange(0, k as int))[i]);
                    } else {
                        assert(i / 32 == k) by (nonlinear_arith)
                            requires 32 * k <= i < 32 * k + 32;
                        assert(out@[i] == self.chunks@[k as int]@[i - 32 * k]);
                        assert(i % 32 == i - 32 * k) by (nonlinear_arith)
                            requires 32 * k <= i < 32 * k + 32;
                    }
                }
                assert(out@ =~= b);
            }
            k = k + 1;
        }
        assert(self.chunks@.subrange(0, k as int) =~= self.chunks@);
        out
    }

    /// Reconstructs a recipe from stored bytes; trailing bytes that do not
    /// fill a whole hash are ignored.
    pub fn from_bytes(size: u64, bytes: &[u8]) -> (r: FileRecipe)
        ensures
            r.size == size,
            r.chunks@.len() == bytes@.len() / 32,
            forall|k: int| 0 <= k < r.chunks@.len() ==> (#[trigger] r.chunks@[k])@ == group(bytes@, k),
    {
        let mut chunks: Vec<[u8; 32]> = Vec::new();
        let n = bytes.len() / 32;
        let mut k: usize = 0;
        while k < n
            invariant
                n == bytes@.len() / 32,
                k <= n,
                chunks@.len() == k,
                forall|j: int| 0 <= j < k ==> (#[trigger] chunks@[j])@ == group(bytes@, j),
            decreases n - k,
        {
            assert(32 * k + 32 <= bytes@.len()) by (nonlinear_arith)
                requires k < n, n == bytes@.len() / 32;
            let len = bytes.len();
            let base: usize = 32 * k;
            let mut h: [u8; 32] = [0u8; 32];
            let mut j: usize = 0;
            while j < 32
                invariant
                    j <= 32,
                    base == 32 * k,
                    len == bytes@.len(),
                    base + 32 <= len,
                    h@.len() == 32,
                    forall|t: int| 0 <= t < j ==> h@[t] == bytes@[32 * k + t],
                decreases 32 - j,
            {
                h[j] = bytes[base + j];
                j = j + 1;
            }
            assert(h@ =~= group(bytes@, k as int));
            chunks.push(h);
            k = k + 1;
        }
        FileRecipe { size, chunks }
    }
}

proof fn lemma_div_mod_32(i: int)
    requires
        0 <= i,
    ensures
        i == 32 * (i / 32) + i % 32,
        0 <= i % 32 < 32,
{
}

/// Decoding the packed form gives back the hashes it was made of.
pub proof fn law_recipe_roundtrip(chunks: Seq<[u8; 32]>)
    ensures
        recipe_bytes(chunks).len() / 32 == chunks.len(),
        forall|k: int| 0 <= k < chunks.len() ==> group(recipe_bytes(chunks), k) == (#[trigger] chunks[k])@,
{
    let b = recipe_bytes(chunks);
    assert(b.len() / 32 == chunks.len()) by (nonlinear_arith)
        requires b.len() == 32 * chunks.len();
    assert forall|k: int| 0 <= k < chunks.len() implies group(b, k) == (#[trigger] chunks[k])@ by {
        assert(32 * k + 32 <= b.len()) by (nonlinear_arith)
            requires 0 <= k < chunks.len(), b.len() == 32 * chunks.len();
        assert forall|t: int| 0 <= t < 32 implies group(b, k)[t] == chunks[k]@[t] by {
            assert((32 * k + t) / 32 == k && (32 * k + t) % 32 == t) by (nonlinear_arith)
                requires 0 <= t < 32, 0 <= k;
        }
        assert(group(b, k) =~= chunks[k]@);
    }
}

/// Packing the decoded hashes gives back the stored bytes, without a
/// trailing partial hash.
pub proof fn law_recipe_bytes_roundtrip(bytes: Seq<u8>, chunks: Seq<[u8; 32]>)
    requires
        chunks.len() == bytes.len() / 32,
        forall|k: int| 0 <= k < chunks.len() ==> (#[trigger] chunks[k])@ == group(bytes, k),
    ensures
        recipe_bytes(chunks) == bytes.subrange(0, 32 * (bytes.len() / 32) as int),
{
    let n = bytes.len() / 32;
    let b = recipe_bytes(chunks);
    assert(32 * n <= bytes.len()) by (nonlinear_arith)
        requires n == bytes.len() / 32;
    assert forall|i: int| 0 <= i < b.len() implies b[i] == bytes[i] by {
        let k = i / 32;
        lemma_div_mod_32(i);
        assert(0 <= k < n) by (nonlinear_arith)
            requires 0 <= i < 32 * n, k == i / 32;
        assert(32 * k + 32 <= bytes.len()) by (nonlinear_arith)
            requires 0 <= k < n, 32 * n <= bytes.len();
        assert(chunks[k]@ == group(bytes, k));
        assert(group(bytes, k)[i % 32] == bytes[32 * k + i % 32]);
    }
    assert(b =~= bytes.subrange(0, (32 * n) as int));
}


/// One entry of a tree: a mode, a name within the directory and the hash
/// of the file or subtree it points to.
#[derive(Debug)]
pub struct TreeEntry {
    pub mode: u32,
    pub name: String,
    pub hash: [u8; 32],
}

/// A directory listing.
#[derive(Debug)]
pub struct Tree {
    pub entries: Vec<TreeEntry>,
}

/// The names of a list of tree entries.
pub open spec fn entry_names(entries: Seq<TreeEntry>) -> Seq<Seq<char>> {
    entries.map_values(|e: TreeEntry| e.name@)
}

/// The entries in stable order by name (the order a stable sort by name gives).
pub open spec fn sorted_entries(entries: Seq<TreeEntry>) -> Seq<TreeEntry> {
    let order = choose|o: Seq<int>| stable_order(entry_names(entries), o);
    Seq::new(entries.len(), |k: int| entries[order[k]])
}

/// The canonical bytes of one entry: "<mode> <name>\0" followed by the raw hash.
pub open spec fn entry_bytes(e: TreeEntry) -> Seq<u8> {
    encode_utf8(spec_decimal(e.mode as nat).push(' ')) + encode_utf8(e.name@) + seq![0u8] + e.hash@
}

/// The canonical bytes of a list of entries, in the given order.
pub open spec fn entries_bytes(s: Seq<TreeEntry>) -> Seq<u8>
    decreases s.len(),
{
    if s.len() == 0 {
        Seq::empty()
    } else {
        entries_bytes(s.drop_last()) + entry_bytes(s.last())
    }
}

/// The canonical serialization of a tree: its entries sorted by name.
pub open spec fn tree_bytes(entries: Seq<TreeEntry>) -> Seq<u8> {
    entries_bytes(sorted_entries(entries))
}

fn entry_canonical_bytes(out: &mut Vec<u8>, e: &TreeEntry)
    ensures
        final(out)@ == old(out)@ + entry_bytes(*e),
{
    let mut head = String::new();
    push_decimal(&mut head, e.mode as u64);
    push_char(&mut head, ' ');
    append_str(out, head.as_str());
    append_str(out, e.name.as_str());
    out.push(0u8);
    append_slice(out, &e.hash);
    assert(final(out)@ =~= old(out)@ + entry_bytes(*e));
}

impl Tree {
    /// An empty tree.
    pub fn new() -> (t: Tree)
        ensures
            t.entries@.len() == 0,
    {
        Tree { entries: Vec::new() }
    }

    /// Appends an entry.
    pub fn add_entry(&mut self, mode: u32, name: String, hash: [u8; 32])
        ensures
            final(self).entries@ == old(self).entries@.push(TreeEntry { mode, name, hash }),
    {
        self.entries.push(TreeEntry { mode, name, hash });
    }

    /// Canonical serialization for hashing: the entries sorted by name, each
    /// written as "mode name\0hash".
    pub fn to_canonical_bytes(&self) -> (r: Vec<u8>)
        ensures
            r@ == tree_bytes(self.entries@),
    {
        let mut names: Vec<Vec<char>> = Vec::new();
        let mut i: usize = 0;
        while i < self.entries.len()
            invariant
                i <= self.entries@.len(),
                char_views(names@) == entry_names(self.entries@).subrange(0, i as int),
            decreases self.entries@.len() - i,
        {
            let cs = str_chars(self.entries[i].name.as_str());
            let ghost before = names@;
            names.push(cs);
            proof {
                assert(names@ == before.push(cs));
                assert(char_views(names@) =~= char_views(before).push(cs@));
                assert(entry_names(self.entries@)[i as int] == self.entries@[i as int].name@);
            }
            i = i + 1;
            assert(char_views(names@) =~= entry_names(self.entries@).subrange(0, i as int));
        }
        assert(entry_names(self.entries@).subrange(0, i as int) =~= entry_names(self.entries@));
        let order = stable_order_by_name(&names);
        let ghost es = self.entries@;
        let ghost sorted = Seq::new(es.len(), |k: int| es[ints(order@)[k]]);
        proof {
            let chosen = choose|o: Seq<int>| stable_order(entry_names(es), o);
            assert(stable_order(entry_names(es), ints(order@)));
            lemma_stable_order_unique(entry_names(es), chosen, ints(order@));
            assert(sorted =~= sorted_entries(es));
        }
        let mut buffer: Vec<u8> = Vec::new();
        let mut k: usize = 0;
        while k < order.len()
            invariant
                es == self.entries@,
                stable_order(entry_names(es), ints(order@)),
                sorted == Seq::new(es.len(), |k: int| es[ints(order@)[k]]),
                order@.len() == es.len(),
                k <= order@.len(),
                buffer@ == entries_bytes(sorted.subrange(0, k as int)),
            decreases order@.len() - k,
        {
            let idx = order[k];
            assert(ints(order@)[k as int] == idx as int);
            entry_canonical_bytes(&mut buffer, &self.entries[idx]);
            proof {
                let s1 = sorted.subrange(0, k + 1);
                assert(s1.drop_last() =~= sorted.subrange(0, k as int));
                assert(s1.last() == es[idx as int]);
            }
            k = k + 1;
        }
        assert(sorted.subrange(0, k as int) =~= sorted);
        buffer
    }

    /// The hash of the tree: the digest of its canonical bytes.
    pub fn get_hash(&self) -> (h: [u8; 32])
        ensures
            h@ == spec_blake3(tree_bytes(self.entries@)),
    {
        digest(self.to_canonical_bytes().as_slice())
    }
}

/// A commit as stored: its tree, first parent, author and time, and message.
#[derive(Debug)]
pub struct Commit {
    pub tree_hash: [u8; 32],
    pub parent_hash: Option<[u8; 32]>,
    pub author_id: i64,
    pub timestamp: i64,
    pub message: String,
}

/// The "parent <hash>\n" line of a commit, or nothing.
pub open spec fn parent_line(p: Option<[u8; 32]>) -> Seq<u8> {
    match p {
        Some(h) => encode_utf8(seq!['p', 'a', 'r', 'e', 'n', 't', ' ']) + h@ + seq![10u8],
        None => Seq::empty(),
    }
}

/// The "author <id> <timestamp>\n" line of a commit.
pub open spec fn author_id_line(author_id: i64, timestamp: i64) -> Seq<char> {
    seq!['a', 'u', 't', 'h', 'o', 'r', ' '] + spec_signed_decimal(author_id as int) + seq![' ']
        + spec_signed_decimal(timestamp as int) + seq!['\n']
}

/// The canonical serialization of a commit:
/// "tree <hash>\n", "parent <hash>\n" when there is a parent,
/// "author <id> <timestamp>\n", "message\n" and the message text.
pub open spec fn commit_bytes(c: Commit) -> Seq<u8> {
    encode_utf8(seq!['t', 'r', 'e', 'e', ' ']) + c.tree_hash@ + seq![10u8] + parent_line(c.parent_hash)
        + encode_utf8(author_id_line(c.author_id, c.timestamp))
        + encode_utf8(seq!['m', 'e', 's', 's', 'a', 'g', 'e', '\n']) + encode_utf8(c.message@)
}

impl Commit {
    /// Canonical serialization for hashing.
    pub fn to_canonical_bytes(&self) -> (r: Vec<u8>)
        ensures
            r@ == commit_bytes(*self),
    {
        let mut buffer: Vec<u8> = Vec::new();
        append_str(&mut buffer, "tree ");
        append_slice(&mut buffer, &self.tree_hash);
        buffer.push(10u8);
        let ghost after_tree = buffer@;
        proof {
            reveal_strlit("tree ");
            assert("tree "@ =~= seq!['t', 'r', 'e', 'e', ' ']);
            assert(after_tree =~= encode_utf8(seq!['t', 'r', 'e', 'e', ' ']) + self.tree_hash@ + seq![10u8]);
        }
        match &self.parent_hash {
            Some(parent) => {
                append_str(&mut buffer, "parent ");
                append_slice(&mut buffer, parent);
                buffer.push(10u8);
                proof {
                    reveal_strlit("parent ");
                    assert("parent "@ =~= seq!['p', 'a', 'r', 'e', 'n', 't', ' ']);
                    assert(buffer@ =~= after_tree + parent_line(self.parent_hash));
                }
            },
            None => {
                assert(buffer@ =~= after_tree + parent_line(self.parent_hash));
            },
        }
        let ghost after_parent = buffer@;
        let mut author_line = String::new();
        author_line.append("author ");
        push_signed_decimal(&mut author_line, self.author_id);
        push_char(&mut author_line, ' ');
        push_signed_decimal(&mut author_line, self.timestamp);
        push_char(&mut author_line, '\n');
        proof {
            reveal_strlit("author ");
            assert("author "@ =~= seq!['a', 'u', 't', 'h', 'o', 'r', ' ']);
            assert(author_line@ =~= author_id_line(self.author_id, self.timestamp));
        }
        append_str(&mut buffer, author_line.as_str());
        append_str(&mut buffer, "message\n");
        append_str(&mut buffer, self.message.as_str());
        proof {
            reveal_strlit("message\n");
            assert("message\n"@ =~= seq!['m', 'e', 's', 's', 'a', 'g', 'e', '\n']);
            assert(buffer@ =~= after_parent + encode_utf8(author_id_line(self.author_id, self.timestamp))
                + encode_utf8(seq!['m', 'e', 's', 's', 'a', 'g', 'e', '\n']) + encode_utf8(self.message@));
            assert(buffer@ =~= commit_bytes(*self));
        }
        buffer
    }

    /// The hash of the commit: the digest of its canonical bytes.
    pub fn get_hash(&self) -> (h: [u8; 32])
        ensures
            h@ == spec_blake3(commit_bytes(*self)),
    {
        digest(self.to_canonical_bytes().as_slice())
    }
}

/// The kind of a reference.
#[derive(Debug, PartialEq, Eq, Structural, Clone, Copy)]
pub enum RefType {
    Branch,
    Tag,
    Remote,
}

impl RefType {
    /// The number a reference kind is stored as.
    pub fn code(&self) -> (n: u8)
        ensures
            n == (match *self {
                RefType::Branch => 0u8,
                RefType::Tag => 1u8,
                RefType::Remote => 2u8,
            }),
    {
        match self {
            RefType::Branch => 0,
            RefType::Tag => 1,
            RefType::Remote => 2,
        }
    }
}

/// A named reference to a commit.
#[derive(Debug)]
pub struct Reference {
    pub path: String,
    pub ref_type: RefType,
    pub commit_hash: [u8; 32],
}

/// A row of the staging area.
#[derive(Debug)]
pub struct StagingEntry {
    pub path: String,
    pub file_hash: [u8; 32],
    pub mode: u32,
    pub size: u64,
    pub modified_at: i64,
}

/// An author as stored.
#[derive(Debug)]
pub struct Author {
    pub id: i64,
    pub name: String,
    pub email: String,
}

/// The canonical bytes of a tree, and so its hash, do not depend on the
/// order in which its entries were added, as long as no name occurs twice.
pub proof fn law_tree_bytes_ignore_entry_order(e1: Seq<TreeEntry>, e2: Seq<TreeEntry>, perm: Seq<int>)
    requires
        e1.len() == e2.len(),
        is_perm(perm, e1.len() as int),
        forall|i: int| 0 <= i < e1.len() ==> e2[#[trigger] perm[i]] == e1[i],
        forall|i: int, j: int| 0 <= i < e1.len() && 0 <= j < e1.len() && i != j ==> e1[i].name@ != e1[j].name@,
    ensures
        tree_bytes(e1) == tree_bytes(e2),
        sorted_entries(e1) == sorted_entries(e2),
{
    let n1 = entry_names(e1);
    let n2 = entry_names(e2);
    lemma_stable_order_exists(n1);
    let o1 = choose|o: Seq<int>| stable_order(n1, o);
    assert forall|i: int| 0 <= i < n1.len() implies n2[#[trigger] perm[i]] == n1[i] by {
        assert(0 <= perm[i] < e1.len());
        assert(e2[perm[i]] == e1[i]);
    }
    lemma_stable_order_permuted(n1, n2, perm, o1);
    let o2 = o1.map_values(|k: int| perm[k]);
    let c2 = choose|o: Seq<int>| stable_order(n2, o);
    lemma_stable_order_unique(n2, c2, o2);
    let s1 = sorted_entries(e1);
    let s2 = sorted_entries(e2);
    assert forall|k: int| 0 <= k < s1.len() implies s1[k] == s2[k] by {
        assert(0 <= o1[k] < e1.len());
        assert(s2[k] == e2[o2[k]]);
        assert(o2[k] == perm[o1[k]]);
    }
    assert(s1 =~= s2);
}

} // verus!

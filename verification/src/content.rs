use vstd::prelude::*;
use vstd::slice::slice_to_vec;
use crate::error::ReviusError;
use crate::hash::{digest, spec_blake3, hash_to_short_hex, spec_hex};
use crate::models::{recipe_bytes, FileRecipe};
use crate::text::{has_prefix, starts_with, str_eq, push_decimal, spec_decimal, append_slice};

verus! {

/// Chunk size limits of content-defined chunking.
#[derive(Debug, Clone, Copy)]
pub struct CdcParams {
    pub min_size: usize,
    pub avg_size: usize,
    pub max_size: usize,
}

/// One chunk of a file: where it starts, how long it is, and its bytes.
#[derive(Debug)]
pub struct Chunk {
    pub offset: usize,
    pub length: usize,
    pub data: Vec<u8>,
}

/// Limits that the FastCDC 2020 chunker accepts without panicking.
pub open spec fn cdc_params_ok(p: CdcParams) -> bool {
    &&& 64 <= p.min_size <= 1048576
    &&& 256 <= p.avg_size <= 4194304
    &&& 1024 <= p.max_size <= 16777216
    &&& p.avg_size <= p.max_size
}

/// Whether the chunker accepts these limits.
pub fn cdc_params_valid(p: &CdcParams) -> (r: bool)
    ensures
        r == cdc_params_ok(*p),
{
    64 <= p.min_size && p.min_size <= 1048576 && 256 <= p.avg_size && p.avg_size <= 4194304
        && 1024 <= p.max_size && p.max_size <= 16777216 && p.avg_size <= p.max_size
}

/// The (offset, length) pairs that FastCDC 2020 (normalization level 1, no
/// seed) cuts `data` into.
pub uninterp spec fn fastcdc_cuts(data: Seq<u8>, min_size: usize, avg_size: usize, max_size: usize) -> Seq<(usize, usize)>;

/// The cuts lie end to end over the whole data, each at least one byte long
/// and no longer than the larger of the minimum and maximum sizes.
pub open spec fn cuts_tile(cuts: Seq<(usize, usize)>, len: int, bound: int) -> bool {
    &&& (cuts.len() == 0 <==> len == 0)
    &&& cuts.len() > 0 ==> cuts[0].0 == 0 && cuts.last().0 + cuts.last().1 == len
    &&& forall|i: int| 0 <= i < cuts.len() ==> 1 <= (#[trigger] cuts[i]).1 <= bound
    &&& forall|i: int| 1 <= i < cuts.len() ==> #[trigger] cuts[i].0 == cuts[i - 1].0 + cuts[i - 1].1
}

pub open spec fn max_of(a: usize, b: usize) -> int {
    if a >= b { a as int } else { b as int }
}

/// Every cut but the last is at least `m` bytes long.
pub open spec fn cuts_at_least(cuts: Seq<(usize, usize)>, m: int) -> bool {
    forall|i: int| 0 <= i < cuts.len() - 1 ==> (#[trigger] cuts[i]).1 >= m
}

/// Calls `fastcdc::v2020::FastCDC::new` and collects the offset and length of
/// each chunk. The contract claims that the cuts are a function of the data
/// and limits, and that they cover the data end to end, each between one
/// byte and the larger of the minimum and maximum size long, and, where the
/// minimum is not above the maximum, each but the last at least the minimum
/// size rounded down to an even number, as the iterator's source shows (a cut
/// is searched for from that point on, up to the maximum, and only the rest
/// of the data, when no longer than the minimum, is cut short). With a
/// minimum above the maximum, chunks are cut at the maximum and no lower
/// bound is claimed.
#[verifier::external_body]
fn fastcdc_chunks(data: &[u8], params: CdcParams) -> (r: Vec<(usize, usize)>)
    requires
        cdc_params_ok(params),
    ensures
        r@ == fastcdc_cuts(data@, params.min_size, params.avg_size, params.max_size),
        cuts_tile(r@, data@.len() as int, max_of(params.min_size, params.max_size)),
        params.min_size <= params.max_size ==> cuts_at_least(r@, 2 * (params.min_size / 2)),
{
    fastcdc::v2020::FastCDC::new(data, params.min_size as u32, params.avg_size as u32, params.max_size as u32)
        .map(|c| (c.offset, c.length))
        .collect()
}

pub open spec fn chunk_view(c: Chunk) -> (usize, usize) {
    (c.offset, c.length)
}

/// Splits data into content-defined chunks, each with its bytes.
pub fn chunk_data(data: &[u8], params: CdcParams) -> (r: Vec<Chunk>)
    requires
        cdc_params_ok(params),
    ensures
        r@.map_values(|c: Chunk| chunk_view(c)) == fastcdc_cuts(data@, params.min_size, params.avg_size, params.max_size),
        cuts_tile(r@.map_values(|c: Chunk| chunk_view(c)), data@.len() as int, max_of(params.min_size, params.max_size)),
        forall|i: int| 0 <= i < r@.len() ==> (#[trigger] r@[i]).data@
            == data@.subrange(r@[i].offset as int, r@[i].offset + r@[i].length),
        params.min_size <= params.max_size ==> forall|i: int| 0 <= i < r@.len() - 1
            ==> (#[trigger] r@[i]).length >= 2 * (params.min_size / 2),
{
    let cuts = fastcdc_chunks(data, params);
    let mut out: Vec<Chunk> = Vec::new();
    let mut i: usize = 0;
    while i < cuts.len()
        invariant
            cuts_tile(cuts@, data@.len() as int, max_of(params.min_size, params.max_size)),
            i <= cuts@.len(),
            out@.map_values(|c: Chunk| chunk_view(c)) == cuts@.subrange(0, i as int),
            forall|k: int| 0 <= k < out@.len() ==> (#[trigger] out@[k]).data@
                == data@.subrange(out@[k].offset as int, out@[k].offset + out@[k].length),
        decreases cuts@.len() - i,
    {
        let offset = cuts[i].0;
        let length = cuts[i].1;
        proof {
            lemma_cut_in_range(cuts@, data@.len() as int, max_of(params.min_size, params.max_size), i as int);
            assert(offset + length <= data@.len());
        }
        let n = data.len();
        assert(offset + length <= n);
        let bytes = slice_to_vec(&data[offset..offset + length]);
        let ghost before = out@;
        out.push(Chunk { offset, length, data: bytes });
        proof {
            assert(out@.map_values(|c: Chunk| chunk_view(c)) =~= before.map_values(|c: Chunk| chunk_view(c)).push((offset, length)));
            assert(cuts@.subrange(0, i + 1) =~= cuts@.subrange(0, i as int).push(cuts@[i as int]));
        }
        i = i + 1;
    }
    assert(cuts@.subrange(0, i as int) =~= cuts@);
    assert forall|k: int| params.min_size <= params.max_size && 0 <= k < out@.len() - 1
        implies (#[trigger] out@[k]).length >= 2 * (params.min_size / 2) by {
        assert(out@.map_values(|c: Chunk| chunk_view(c))[k] == cuts@[k]);
    }
    out
}

proof fn lemma_cut_in_range(cuts: Seq<(usize, usize)>, len: int, bound: int, i: int)
    requires
        cuts_tile(cuts, len, bound),
        0 <= i < cuts.len(),
    ensures
        cuts[i].0 + cuts[i].1 <= len,
    decreases cuts.len() - i,
{
    if i < cuts.len() - 1 {
        lemma_cut_in_range(cuts, len, bound, i + 1);
        assert(cuts[i + 1].0 == cuts[i].0 + cuts[i].1);
    }
}

/// The zstd frame that `zstd::stream::encode_all` makes of `data` at `level`.
pub uninterp spec fn zstd_encoded(data: Seq<u8>, level: i32) -> Seq<u8>;

/// Calls `zstd::stream::encode_all`; the contract claims that it succeeds
/// (the data is in memory and zstd clamps the level into its range) and
/// gives the zstd encoding of the data at that level.
#[verifier::external_body]
fn zstd_encode(data: &[u8], level: i32) -> (r: Result<Vec<u8>, String>)
    ensures
        r is Ok,
        r->Ok_0@ == zstd_encoded(data@, level),
{
    zstd::stream::encode_all(std::io::Cursor::new(data), level).map_err(|e| e.to_string())
}

/// What `zstd::stream::decode_all` gives for `data`, or nothing where it
/// fails.
pub uninterp spec fn zstd_decoded(data: Seq<u8>) -> Option<Seq<u8>>;

/// Calls `zstd::stream::decode_all`; the contract claims that its outcome is
/// a function of the data, that it succeeds on what `encode_all` made and
/// gives back the data that was encoded (zstd is lossless). On other input
/// it may fail; the error is handed on as its text.
#[verifier::external_body]
fn zstd_decode(data: &[u8]) -> (r: Result<Vec<u8>, String>)
    ensures
        match r {
            Ok(v) => zstd_decoded(data@) == Some(v@),
            Err(_) => zstd_decoded(data@) is None,
        },
        r is Err ==> !exists|x: Seq<u8>, l: i32| data@ == #[trigger] zstd_encoded(x, l),
        r matches Ok(v) ==> forall|x: Seq<u8>, l: i32| data@ == #[trigger] zstd_encoded(x, l) ==> v@ == x,
{
    zstd::stream::decode_all(std::io::Cursor::new(data)).map_err(|e| e.to_string())
}

/// Compresses data with zstd at the given level.
pub fn compress(data: &[u8], level: i32) -> (r: Result<Vec<u8>, ReviusError>)
    ensures
        r matches Ok(v) && v@ == zstd_encoded(data@, level),
{
    match zstd_encode(data, level) {
        Ok(v) => Ok(v),
        Err(e) => Err(ReviusError::Compression(e)),
    }
}

/// Decompresses zstd data.
pub fn decompress(data: &[u8]) -> (r: Result<Vec<u8>, ReviusError>)
    ensures
        match zstd_decoded(data@) {
            Some(v) => r matches Ok(x) && x@ == v,
            None => r matches Err(ReviusError::Compression(_)),
        },
        (exists|x: Seq<u8>, l: i32| data@ == #[trigger] zstd_encoded(x, l)) ==> r is Ok,
        r matches Ok(v) ==> forall|x: Seq<u8>, l: i32| data@ == #[trigger] zstd_encoded(x, l) ==> v@ == x,
        r is Err ==> r->Err_0 is Compression,
{
    match zstd_decode(data) {
        Ok(v) => Ok(v),
        Err(e) => Err(ReviusError::Compression(e)),
    }
}

/// The name a blob's compression is stored under: "zstd<level>" or "none".
pub open spec fn compression_label(enabled: bool, level: u8) -> Seq<char> {
    if enabled {
        "zstd"@ + spec_decimal(level as nat)
    } else {
        "none"@
    }
}

/// The stored form of a chunk: compressed with zstd at `level` when
/// compression is on, else the bytes as they are; with its label.
pub fn encode_blob(chunk: &[u8], compression_enabled: bool, compression_level: u8) -> (r: Result<(Vec<u8>, String), ReviusError>)
    ensures
        match r {
            Ok((data, label)) => label@ == compression_label(compression_enabled, compression_level)
                && data@ == (if compression_enabled { zstd_encoded(chunk@, compression_level as i32) } else { chunk@ }),
            Err(_) => false,
        },
{
    if compression_enabled {
        let compressed = compress(chunk, compression_level as i32)?;
        let mut label = String::from_str("zstd");
        push_decimal(&mut label, compression_level as u64);
        Ok((compressed, label))
    } else {
        Ok((slice_to_vec(chunk), String::from_str("none")))
    }
}

/// Why a stored blob cannot be read, for an unknown compression name.
pub open spec fn unsupported_message(algo: Seq<char>, blob_hash: Seq<u8>) -> Seq<char> {
    "Unsupported compression algorithm '"@ + algo + "' for blob "@ + spec_hex(blob_hash.subrange(0, 4))
}

/// `data` with label `label` is how `chunk` is stored: as it is under
/// "none", or as a zstd frame of it under a "zstd..." label.
pub open spec fn stored_as(data: Seq<u8>, label: Seq<char>, chunk: Seq<u8>) -> bool {
    if label == "none"@ {
        data == chunk
    } else {
        has_prefix(label, "zstd"@) && exists|l: i32| data == #[trigger] zstd_encoded(chunk, l)
    }
}

/// The content of a stored blob: as stored for "none", decompressed for a
/// "zstd..." label; any other label is an error. A blob stored from a chunk
/// reads back as that chunk.
pub fn decode_blob(data: &[u8], compression_algo: &str, blob_hash: &[u8; 32]) -> (r: Result<Vec<u8>, ReviusError>)
    ensures
        compression_algo@ == "none"@ ==> (r matches Ok(v) && v@ == data@),
        compression_algo@ != "none"@ && has_prefix(compression_algo@, "zstd"@) ==> match zstd_decoded(data@) {
            Some(v) => r matches Ok(x) && x@ == v,
            None => r matches Err(ReviusError::Compression(_)),
        },
        compression_algo@ != "none"@ && has_prefix(compression_algo@, "zstd"@) ==> match r {
            Ok(v) => forall|x: Seq<u8>, l: i32| data@ == #[trigger] zstd_encoded(x, l) ==> v@ == x,
            Err(e) => e is Compression,
        },
        compression_algo@ != "none"@ && !has_prefix(compression_algo@, "zstd"@) ==> (r matches Err(ReviusError::Db(m))
            && m@ == unsupported_message(compression_algo@, blob_hash@)),
        forall|c: Seq<u8>| #[trigger] stored_as(data@, compression_algo@, c) ==> (r matches Ok(v) && v@ == c),
{
    proof {
        assert forall|c: Seq<u8>| #[trigger] stored_as(data@, compression_algo@, c) && compression_algo@ != "none"@
            implies exists|x: Seq<u8>, l: i32| data@ == #[trigger] zstd_encoded(x, l) by {
            let l = choose|l: i32| data@ == #[trigger] zstd_encoded(c, l);
            assert(data@ == zstd_encoded(c, l));
        }
    }
    if str_eq(compression_algo, "none") {
        Ok(slice_to_vec(data))
    } else if starts_with(compression_algo, "zstd") {
        decompress(data)
    } else {
        let mut m = String::from_str("Unsupported compression algorithm '");
        m.append(compression_algo);
        m.append("' for blob ");
        let short = hash_to_short_hex(blob_hash);
        m.append(short.as_str());
        Err(ReviusError::Db(m))
    }
}

/// A blob as stored: its bytes, compression label and hash.
#[derive(Debug)]
pub struct StoredBlob {
    pub data: Vec<u8>,
    pub compression: String,
    pub hash: [u8; 32],
}

/// The blob's content as `decode_blob` yields it when it yields it.
pub open spec fn blob_content_ok(b: StoredBlob, content: Seq<u8>) -> bool {
    decoded_ok(b.data@, b.compression@, content)
}

/// `content` is what stored bytes with a compression label decode to.
pub open spec fn decoded_ok(data: Seq<u8>, label: Seq<char>, content: Seq<u8>) -> bool {
    if label == "none"@ {
        content == data
    } else {
        forall|x: Seq<u8>, l: i32| data == #[trigger] zstd_encoded(x, l) ==> content == x
    }
}

/// What `encode_blob` stores for a chunk.
pub open spec fn stored_bytes(chunk: Seq<u8>, enabled: bool, level: u8) -> Seq<u8> {
    if enabled { zstd_encoded(chunk, level as i32) } else { chunk }
}

/// Reading a blob back gives the chunk that was stored, compressed or not.
pub proof fn law_blob_roundtrip(chunk: Seq<u8>, enabled: bool, level: u8)
    ensures
        stored_as(stored_bytes(chunk, enabled, level), compression_label(enabled, level), chunk),
        forall|v: Seq<u8>| decoded_ok(stored_bytes(chunk, enabled, level), compression_label(enabled, level), v) ==> v == chunk,
        enabled ==> has_prefix(compression_label(enabled, level), "zstd"@),
        !enabled ==> compression_label(enabled, level) == "none"@,
{
    reveal_strlit("none");
    reveal_strlit("zstd");
    if enabled {
        let label = compression_label(enabled, level);
        assert(label[0] == 'z');
        assert("none"@[0] == 'n');
        assert(label.subrange(0, 4) =~= "zstd"@);
        assert forall|v: Seq<u8>| decoded_ok(stored_bytes(chunk, enabled, level), label, v) implies v == chunk by {
            assert(stored_bytes(chunk, enabled, level) == zstd_encoded(chunk, level as i32));
        }
        assert(stored_bytes(chunk, enabled, level) == zstd_encoded(chunk, level as i32));
    }
}

/// The chunks cut from a file, put back together in order, give the file.
pub proof fn law_chunks_rebuild_file(data: Seq<u8>, cuts: Seq<(usize, usize)>, bound: int)
    requires
        cuts_tile(cuts, data.len() as int, bound),
    ensures
        seq_concat(cuts.map_values(|c: (usize, usize)| data.subrange(c.0 as int, c.0 + c.1))) == data,
{
    if cuts.len() > 0 {
        lemma_concat_prefix(data, cuts, bound, cuts.len() as int);
        assert(data.subrange(0, data.len() as int) =~= data);
    }
}

#[verifier::spinoff_prover]
#[verifier::rlimit(30)]
proof fn lemma_concat_prefix(data: Seq<u8>, cuts: Seq<(usize, usize)>, bound: int, k: int)
    requires
        cuts_tile(cuts, data.len() as int, bound),
        1 <= k <= cuts.len(),
    ensures
        seq_concat(cuts.subrange(0, k).map_values(|c: (usize, usize)| data.subrange(c.0 as int, c.0 + c.1)))
            == data.subrange(0, cuts[k - 1].0 + cuts[k - 1].1),
        k == cuts.len() ==> cuts.subrange(0, k) == cuts,
    decreases k,
{
    let f = |c: (usize, usize)| data.subrange(c.0 as int, c.0 + c.1);
    let m = cuts.subrange(0, k).map_values(f);
    lemma_cut_in_range(cuts, data.len() as int, bound, k - 1);
    assert(m.drop_last() =~= cuts.subrange(0, k - 1).map_values(f));
    if k == 1 {
        assert(m.drop_last() =~= Seq::<Seq<u8>>::empty());
        assert(cuts[0].0 == 0);
        assert(m[0] == data.subrange(cuts[0].0 as int, cuts[0].0 + cuts[0].1));
        assert(seq_concat(m.drop_last()) =~= Seq::<u8>::empty());
        assert(m.last() == m[0]);
        assert(seq_concat(m) == seq_concat(m.drop_last()) + m.last());
        assert(seq_concat(m) =~= data.subrange(0, cuts[0].0 + cuts[0].1));
    } else {
        lemma_concat_prefix(data, cuts, bound, k - 1);
        assert(cuts[k - 1].0 == cuts[k - 2].0 + cuts[k - 2].1);
        assert(seq_concat(m) == seq_concat(m.drop_last()) + m.last());
        assert(m.last() == data.subrange(cuts[k - 1].0 as int, cuts[k - 1].0 + cuts[k - 1].1));
        assert(seq_concat(m) =~= data.subrange(0, cuts[k - 1].0 + cuts[k - 1].1));
    }
    if k == cuts.len() {
        assert(cuts.subrange(0, k) =~= cuts);
    }
}

pub open spec fn mismatch_message(size: u64, n: nat) -> Seq<char> {
    "File size mismatch: expected "@ + spec_decimal(size as nat) + ", got "@ + spec_decimal(n)
}

pub open spec fn seq_concat(parts: Seq<Seq<u8>>) -> Seq<u8>
    decreases parts.len(),
{
    if parts.len() == 0 {
        Seq::empty()
    } else {
        seq_concat(parts.drop_last()) + parts.last()
    }
}

/// Each blob is stored from the chunk at its position.
pub open spec fn stored_all(blobs: Seq<StoredBlob>, chunks: Seq<Seq<u8>>) -> bool {
    &&& chunks.len() == blobs.len()
    &&& forall|i: int| 0 <= i < blobs.len() ==> stored_as((#[trigger] blobs[i]).data@, blobs[i].compression@, chunks[i])
}

/// The content of a file from its blobs, in recipe order: each decoded and
/// appended; the total must be the recorded size. Blobs stored from chunks
/// whose lengths add up to the size give back the chunks joined.
pub fn reconstruct_content(blobs: &Vec<StoredBlob>, size: u64) -> (r: Result<Vec<u8>, ReviusError>)
    ensures
        r matches Ok(v) ==> v@.len() == size && exists|parts: Seq<Seq<u8>>| parts.len() == blobs@.len()
            && v@ == seq_concat(parts)
            && forall|i: int| 0 <= i < blobs@.len() ==> blob_content_ok(#[trigger] blobs@[i], parts[i]),
        match r {
            Ok(_) => true,
            Err(ReviusError::Db(m)) => (exists|i: int| 0 <= i < blobs@.len() && (#[trigger] blobs@[i]).compression@ != "none"@
                && !has_prefix(blobs@[i].compression@, "zstd"@) && m@ == unsupported_message(blobs@[i].compression@, blobs@[i].hash@))
                || (exists|n: nat| n != size && #[trigger] mismatch_message(size, n) == m@),
            Err(e) => e is Compression,
        },
        (forall|i: int| 0 <= i < blobs@.len() ==> (#[trigger] blobs@[i]).compression@ == "none"@) ==> (r is Ok
            <==> seq_concat(blobs@.map_values(|b: StoredBlob| b.data@)).len() == size),
        forall|chunks: Seq<Seq<u8>>| #[trigger] stored_all(blobs@, chunks) && seq_concat(chunks).len() == size
            ==> (r matches Ok(v) && v@ == seq_concat(chunks)),
{
    let mut content: Vec<u8> = Vec::new();
    let ghost mut parts: Seq<Seq<u8>> = Seq::empty();
    let mut i: usize = 0;
    while i < blobs.len()
        invariant
            i <= blobs@.len(),
            parts.len() == i,
            content@ == seq_concat(parts),
            forall|k: int| 0 <= k < i ==> blob_content_ok(#[trigger] blobs@[k], parts[k]),
            (forall|k: int| 0 <= k < blobs@.len() ==> (#[trigger] blobs@[k]).compression@ == "none"@)
                ==> parts == blobs@.subrange(0, i as int).map_values(|b: StoredBlob| b.data@),
            forall|chunks: Seq<Seq<u8>>| #[trigger] stored_all(blobs@, chunks)
                ==> parts == chunks.subrange(0, i as int),
        decreases blobs@.len() - i,
    {
        let b = &blobs[i];
        let chunk = match decode_blob(b.data.as_slice(), b.compression.as_str(), &b.hash) {
            Ok(c) => c,
            Err(e) => {
                proof {
                    assert forall|chunks: Seq<Seq<u8>>| #[trigger] stored_all(blobs@, chunks) implies false by {
                        assert(stored_as(blobs@[i as int].data@, blobs@[i as int].compression@, chunks[i as int]));
                    }
                }
                return Err(e);
            },
        };
        let ghost before = parts;
        append_slice(&mut content, chunk.as_slice());
        proof {
            parts = parts.push(chunk@);
            assert(parts.drop_last() =~= before);
            assert(blob_content_ok(blobs@[i as int], chunk@));
            assert forall|chunks: Seq<Seq<u8>>| #[trigger] stored_all(blobs@, chunks)
                implies parts == chunks.subrange(0, i + 1) by {
                assert(stored_as(blobs@[i as int].data@, blobs@[i as int].compression@, chunks[i as int]));
                assert(chunk@ == chunks[i as int]);
                assert(parts =~= chunks.subrange(0, i + 1));
            }
            if forall|k: int| 0 <= k < blobs@.len() ==> (#[trigger] blobs@[k]).compression@ == "none"@ {
                assert(blobs@[i as int].compression@ == "none"@);
                assert(blobs@.subrange(0, i + 1).map_values(|b: StoredBlob| b.data@) =~= blobs@.subrange(0, i as int).map_values(|b: StoredBlob| b.data@).push(chunk@));
            }
        }
        i = i + 1;
    }
    proof {
        assert(blobs@.subrange(0, i as int) =~= blobs@);
        assert forall|chunks: Seq<Seq<u8>>| #[trigger] stored_all(blobs@, chunks) implies parts == chunks by {
            assert(chunks.subrange(0, i as int) =~= chunks);
        }
    }
    if content.len() as u64 != size {
        let mut m = String::from_str("File size mismatch: expected ");
        push_decimal(&mut m, size);
        m.append(", got ");
        push_decimal(&mut m, content.len() as u64);
        assert(m@ == mismatch_message(size, content@.len()));
        return Err(ReviusError::Db(m));
    }
    Ok(content)
}

/// How a file is stored: its chunks (the whole file when chunking is off),
/// each chunk's hash, and the recipe of packed chunk hashes.
pub fn plan_file_content(data: &[u8], chunking: bool, params: CdcParams) -> (r: (Vec<Vec<u8>>, Vec<[u8; 32]>, Vec<u8>))
    requires
        chunking ==> cdc_params_ok(params),
    ensures
        r.0@.len() == r.1@.len(),
        !chunking ==> r.0@.len() == 1 && r.0@[0]@ == data@,
        chunking ==> r.0@.len() == fastcdc_cuts(data@, params.min_size, params.avg_size, params.max_size).len()
            && forall|i: int| 0 <= i < r.0@.len() ==> (#[trigger] r.0@[i])@ == data@.subrange(
                fastcdc_cuts(data@, params.min_size, params.avg_size, params.max_size)[i].0 as int,
                fastcdc_cuts(data@, params.min_size, params.avg_size, params.max_size)[i].0
                    + fastcdc_cuts(data@, params.min_size, params.avg_size, params.max_size)[i].1),
        forall|i: int| 0 <= i < r.1@.len() ==> (#[trigger] r.1@[i])@ == spec_blake3(r.0@[i]@),
        r.2@ == recipe_bytes(r.1@),
{
    let mut chunks: Vec<Vec<u8>> = Vec::new();
    if chunking {
        let cs = chunk_data(data, params);
        let mut i: usize = 0;
        while i < cs.len()
            invariant
                i <= cs@.len(),
                chunks@.len() == i,
                cs@.map_values(|c: Chunk| chunk_view(c)) == fastcdc_cuts(data@, params.min_size, params.avg_size, params.max_size),
                forall|k: int| 0 <= k < cs@.len() ==> (#[trigger] cs@[k]).data@
                    == data@.subrange(cs@[k].offset as int, cs@[k].offset + cs@[k].length),
                forall|k: int| 0 <= k < i ==> (#[trigger] chunks@[k])@ == cs@[k].data@,
            decreases cs@.len() - i,
        {
            chunks.push(slice_to_vec(cs[i].data.as_slice()));
            i = i + 1;
        }
        proof {
            let cuts = fastcdc_cuts(data@, params.min_size, params.avg_size, params.max_size);
            assert forall|k: int| 0 <= k < chunks@.len() implies (#[trigger] chunks@[k])@ == data@.subrange(
                cuts[k].0 as int, cuts[k].0 + cuts[k].1) by {
                assert(cuts[k] == chunk_view(cs@[k]));
            }
        }
    } else {
        chunks.push(slice_to_vec(data));
    }
    let mut hashes: Vec<[u8; 32]> = Vec::new();
    let mut j: usize = 0;
    while j < chunks.len()
        invariant
            j <= chunks@.len(),
            hashes@.len() == j,
            forall|k: int| 0 <= k < j ==> (#[trigger] hashes@[k])@ == spec_blake3(chunks@[k]@),
        decreases chunks@.len() - j,
    {
        hashes.push(digest(chunks[j].as_slice()));
        j = j + 1;
    }
    let recipe = FileRecipe { size: data.len() as u64, chunks: hashes };
    let bytes = recipe.to_bytes();
    (chunks, recipe.chunks, bytes)
}

} // verus!

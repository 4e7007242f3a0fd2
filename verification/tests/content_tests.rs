use revius::content::{
    cdc_params_valid, chunk_data, compress, decode_blob, decompress, encode_blob, plan_file_content, reconstruct_content, CdcParams,
    StoredBlob,
};
use revius::gc::{alive_blobs, parse_recipe, GcStats};
use revius::hash::digest;
use revius::ReviusError;

fn sample(n: usize) -> Vec<u8> {
    let mut x: u32 = 12345;
    (0..n)
        .map(|_| {
            x = x.wrapping_mul(1103515245).wrapping_add(12345);
            (x >> 16) as u8
        })
        .collect()
}

fn params() -> CdcParams {
    CdcParams { min_size: 256, avg_size: 1024, max_size: 4096 }
}

#[test]
fn chunks_cover_the_data_end_to_end() {
    let data = sample(100_000);
    let chunks = chunk_data(&data, params());
    assert!(chunks.len() > 1);
    let mut offset = 0;
    let mut rebuilt = Vec::new();
    for c in &chunks {
        assert_eq!(c.offset, offset);
        assert!(c.length >= 1 && c.length <= 4096);
        assert_eq!(c.data, data[c.offset..c.offset + c.length].to_vec());
        offset += c.length;
        rebuilt.extend_from_slice(&c.data);
    }
    assert_eq!(offset, data.len());
    assert_eq!(rebuilt, data);
    let again = chunk_data(&data, params());
    assert_eq!(again.len(), chunks.len());
}

#[test]
fn no_chunks_for_no_data() {
    assert!(chunk_data(&[], params()).is_empty());
}

#[test]
fn zstd_roundtrip() {
    let data = b"hello hello hello hello hello hello hello".to_vec();
    let packed = compress(&data, 3).unwrap();
    assert_ne!(packed, data);
    assert_eq!(decompress(&packed).unwrap(), data);
    assert!(matches!(decompress(b"not zstd"), Err(ReviusError::Compression(_))));
}

#[test]
fn blob_labels() {
    let (stored, label) = encode_blob(b"abc", false, 3).unwrap();
    assert_eq!(stored, b"abc".to_vec());
    assert_eq!(label, "none");
    let (stored, label) = encode_blob(b"abcabcabcabc", true, 19).unwrap();
    assert_eq!(label, "zstd19");
    assert_eq!(decode_blob(&stored, &label, &[0; 32]).unwrap(), b"abcabcabcabc".to_vec());
}

#[test]
fn unknown_compression_is_refused() {
    match decode_blob(b"x", "lz4", &[1; 32]) {
        Err(ReviusError::Db(m)) => assert_eq!(m, "Unsupported compression algorithm 'lz4' for blob 01010101"),
        _ => panic!("expected an error"),
    }
}

#[test]
fn file_content_from_blobs() {
    let packed = compress(b"cd", 3).unwrap();
    let blobs = vec![
        StoredBlob { data: b"ab".to_vec(), compression: "none".to_string(), hash: [1; 32] },
        StoredBlob { data: packed, compression: "zstd3".to_string(), hash: [2; 32] },
    ];
    assert_eq!(reconstruct_content(&blobs, 4).unwrap(), b"abcd".to_vec());
    match reconstruct_content(&blobs, 5) {
        Err(ReviusError::Db(m)) => assert_eq!(m, "File size mismatch: expected 5, got 4"),
        _ => panic!("expected a size mismatch"),
    }
}

#[test]
fn whole_file_is_one_chunk_without_chunking() {
    let data = sample(5000);
    let (chunks, hashes, recipe) = plan_file_content(&data, false, params());
    assert_eq!(chunks, vec![data.clone()]);
    assert_eq!(hashes, vec![digest(&data)]);
    assert_eq!(recipe, digest(&data).to_vec());
}

#[test]
fn chunked_file_plan() {
    let data = sample(50_000);
    let (chunks, hashes, recipe) = plan_file_content(&data, true, params());
    assert!(chunks.len() > 1);
    assert_eq!(chunks.concat(), data);
    assert_eq!(hashes.len(), chunks.len());
    for (c, h) in chunks.iter().zip(hashes.iter()) {
        assert_eq!(digest(c), *h);
    }
    assert_eq!(recipe.len(), 32 * hashes.len());
    assert_eq!(parse_recipe(&recipe).unwrap(), hashes);
}

#[test]
fn recipes_must_be_whole_hashes() {
    assert!(parse_recipe(&[0u8; 33]).is_none());
    assert_eq!(parse_recipe(&[]).unwrap(), Vec::<[u8; 32]>::new());
}

#[test]
fn live_blobs_are_collected_once() {
    let mut r1 = vec![1u8; 32];
    r1.extend_from_slice(&[2u8; 32]);
    let r2 = vec![2u8; 32];
    let files = vec![([9u8; 32], Some(r1)), ([8u8; 32], None), ([7u8; 32], Some(r2))];
    let mut alive = alive_blobs(&files).unwrap();
    alive.sort();
    assert_eq!(alive, vec![[1u8; 32], [2u8; 32]]);
    let bad = vec![([0xab; 32], Some(vec![1u8; 5]))];
    match alive_blobs(&bad) {
        Err(ReviusError::Db(m)) => assert_eq!(m, "Corrupt recipe in file abababababababab"),
        _ => panic!("expected a corrupt recipe"),
    }
    let s = GcStats::default();
    assert_eq!(s.commits_deleted + s.trees_deleted + s.files_deleted + s.blobs_deleted, 0);
}

#[test]
fn chunker_limits() {
    assert!(cdc_params_valid(&params()));
    assert!(cdc_params_valid(&CdcParams { min_size: 8192, avg_size: 16384, max_size: 32768 }));
    assert!(!cdc_params_valid(&CdcParams { min_size: 32, avg_size: 1024, max_size: 4096 }));
    assert!(!cdc_params_valid(&CdcParams { min_size: 256, avg_size: 100, max_size: 4096 }));
    assert!(!cdc_params_valid(&CdcParams { min_size: 256, avg_size: 1024, max_size: 512 }));
    assert!(!cdc_params_valid(&CdcParams { min_size: 256, avg_size: 8192, max_size: 4096 }));
}

#[test]
fn chunks_before_the_last_are_at_least_the_minimum() {
    let data = sample(200_000);
    let chunks = chunk_data(&data, params());
    for c in &chunks[..chunks.len() - 1] {
        assert!(c.length >= 256 && c.length <= 4096);
    }
}

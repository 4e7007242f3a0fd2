use revius::hash::{digest, to_hex, hash_to_short_hex, hex_decode};
use revius::models::serialization::{serialize_author, serialize_commit, serialize_tree_entry};
use revius::models::{Commit, FileRecipe, Tree};

fn h(n: u8) -> [u8; 32] {
    [n; 32]
}

#[test]
fn digest_is_blake3() {
    assert_eq!(to_hex(&digest(b"abc")), "6437b3ac38465133ffb63b75273a8db548c558465d79db03fd359c6cd5bd9d85");
    assert_eq!(to_hex(&digest(b"")), "af1349b9f5f9a1a6a0404dea36dcc9499bcb25c9adc112b7cc9a93cae41f3262");
}

#[test]
fn short_hex_is_first_four_bytes() {
    let mut x = [0u8; 32];
    x[0] = 0xde;
    x[1] = 0xad;
    x[2] = 0xbe;
    x[3] = 0xef;
    x[4] = 0x11;
    assert_eq!(hash_to_short_hex(&x), "deadbeef");
}

#[test]
fn hex_decode_accepts_both_cases_and_rejects_odd_length() {
    assert_eq!(hex_decode("0aFf"), Some(vec![0x0a, 0xff]));
    assert_eq!(hex_decode("abc"), None);
    assert_eq!(hex_decode("zz"), None);
}

#[test]
fn recipe_packs_hashes_and_reads_them_back() {
    let r = FileRecipe { size: 5, chunks: vec![h(1), h(2)] };
    let bytes = r.to_bytes();
    assert_eq!(bytes.len(), 64);
    assert_eq!(&bytes[0..32], &h(1)[..]);
    assert_eq!(&bytes[32..64], &h(2)[..]);
    let back = FileRecipe::from_bytes(5, &bytes);
    assert_eq!(back.size, 5);
    assert_eq!(back.chunks, vec![h(1), h(2)]);
}

#[test]
fn recipe_ignores_trailing_partial_hash() {
    let mut bytes = vec![7u8; 70];
    bytes[69] = 9;
    let back = FileRecipe::from_bytes(1, &bytes);
    assert_eq!(back.chunks.len(), 2);
    assert_eq!(back.chunks[1], [7u8; 32]);
}

#[test]
fn tree_bytes_sort_entries_by_name() {
    let mut t = Tree::new();
    t.add_entry(33188, "b".to_string(), h(2));
    t.add_entry(16384, "a".to_string(), h(1));
    let bytes = t.to_canonical_bytes();
    let mut expected = Vec::new();
    expected.extend_from_slice(b"16384 a\0");
    expected.extend_from_slice(&h(1));
    expected.extend_from_slice(b"33188 b\0");
    expected.extend_from_slice(&h(2));
    assert_eq!(bytes, expected);
}

#[test]
fn tree_hash_does_not_depend_on_insertion_order() {
    let mut t1 = Tree::new();
    t1.add_entry(33188, "x".to_string(), h(3));
    t1.add_entry(33188, "y".to_string(), h(4));
    let mut t2 = Tree::new();
    t2.add_entry(33188, "y".to_string(), h(4));
    t2.add_entry(33188, "x".to_string(), h(3));
    assert_eq!(t1.get_hash(), t2.get_hash());
    assert_eq!(t1.get_hash(), digest(&t1.to_canonical_bytes()));
}

#[test]
fn empty_tree_has_empty_bytes() {
    let t = Tree::new();
    assert!(t.to_canonical_bytes().is_empty());
    assert_eq!(t.get_hash(), digest(b""));
}

#[test]
fn commit_canonical_bytes_layout() {
    let c = Commit { tree_hash: h(1), parent_hash: Some(h(2)), author_id: 7, timestamp: -5, message: "hi".to_string() };
    let mut expected = Vec::new();
    expected.extend_from_slice(b"tree ");
    expected.extend_from_slice(&h(1));
    expected.extend_from_slice(b"\nparent ");
    expected.extend_from_slice(&h(2));
    expected.extend_from_slice(b"\nauthor 7 -5\nmessage\nhi");
    assert_eq!(c.to_canonical_bytes(), expected);
    assert_eq!(c.get_hash(), digest(&expected));
    let root = Commit { tree_hash: h(1), parent_hash: None, author_id: 0, timestamp: 1700000000, message: String::new() };
    let mut e2 = Vec::new();
    e2.extend_from_slice(b"tree ");
    e2.extend_from_slice(&h(1));
    e2.extend_from_slice(b"\nauthor 0 1700000000\nmessage\n");
    assert_eq!(root.to_canonical_bytes(), e2);
}

#[test]
fn tree_entry_binary_form() {
    let b = serialize_tree_entry(33188, "a", &h(9));
    let mut expected = vec![0u8, 0, 0x81, 0xa4, b'a', 0];
    expected.extend_from_slice(&h(9));
    assert_eq!(b, expected);
}

#[test]
fn author_line_and_errors() {
    assert_eq!(serialize_author("Ann", "ann@x.org", 12).unwrap(), "author Ann ann@x.org 12\n");
    assert_eq!(serialize_author("A\nB", "", 1).unwrap_err(), "Author name cannot contain newlines");
    assert_eq!(serialize_author("A", "a\n", 1).unwrap_err(), "Author email cannot contain newlines");
    assert_eq!(serialize_author("", "a@b", 1).unwrap_err(), "Author name cannot be empty");
    assert_eq!(serialize_author("A", "", 1).unwrap_err(), "Author email cannot be empty");
}

#[test]
fn commit_text_with_both_parents() {
    let bytes = serialize_commit(&h(1), Some(&h(2)), Some(&h(3)), "A", "a@b", -1, "msg").unwrap();
    let text = String::from_utf8(bytes).unwrap();
    let expected = format!(
        "tree {}\nparent {}\nmerge_parent {}\nauthor A a@b -1\nmessage\nmsg",
        "01".repeat(32),
        "02".repeat(32),
        "03".repeat(32)
    );
    assert_eq!(text, expected);
    let root = serialize_commit(&h(1), None, None, "A", "a@b", 0, "").unwrap();
    assert_eq!(String::from_utf8(root).unwrap(), format!("tree {}\nauthor A a@b 0\nmessage\n", "01".repeat(32)));
    assert_eq!(serialize_commit(&h(1), None, None, "", "a@b", 0, "m").unwrap_err(), "Author name cannot be empty");
}

use vstd::prelude::*;
use vstd::utf8::encode_utf8;
use crate::hash::{spec_hex, hex_encode};
use crate::text::{append_slice, append_str, contains_char, push_char, push_signed_decimal, spec_signed_decimal};

verus! {

/// The four big-endian bytes of a 32-bit number.
pub open spec fn be_bytes(n: u32) -> Seq<u8> {
    seq![
        (n as int / 16777216) as u8,
        ((n as int / 65536) % 256) as u8,
        ((n as int / 256) % 256) as u8,
        (n as int % 256) as u8,
    ]
}

/// The binary form of a tree entry: the mode in four big-endian bytes,
/// the name, a zero byte and the raw hash.
pub open spec fn spec_tree_entry(mode: u32, name: Seq<char>, hash: Seq<u8>) -> Seq<u8> {
    be_bytes(mode) + encode_utf8(name) + seq![0u8] + hash
}

/// Serializes one tree entry in binary form.
pub fn serialize_tree_entry(mode: u32, name: &str, hash: &[u8; 32]) -> (r: Vec<u8>)
    ensures
        r@ == spec_tree_entry(mode, name@, hash@),
{
    let mut result: Vec<u8> = Vec::new();
    result.push((mode / 16777216) as u8);
    result.push(((mode / 65536) % 256) as u8);
    result.push(((mode / 256) % 256) as u8);
    result.push((mode % 256) as u8);
    append_str(&mut result, name);
    result.push(0u8);
    append_slice(&mut result, hash);
    assert(result@ =~= spec_tree_entry(mode, name@, hash@));
    result
}

/// The author line "author <name> <email> <timestamp>\n".
pub open spec fn author_line(name: Seq<char>, email: Seq<char>, timestamp: i64) -> Seq<char> {
    seq!['a', 'u', 't', 'h', 'o', 'r', ' '] + name + seq![' '] + email + seq![' ']
        + spec_signed_decimal(timestamp as int) + seq!['\n']
}

/// Why an author cannot be written, if it cannot: a newline in the name or
/// the email, or an empty name or email, checked in that order.
pub open spec fn author_error(name: Seq<char>, email: Seq<char>) -> Option<Seq<char>> {
    if name.contains('\n') {
        Some("Author name cannot contain newlines"@)
    } else if email.contains('\n') {
        Some("Author email cannot contain newlines"@)
    } else if name.len() == 0 {
        Some("Author name cannot be empty"@)
    } else if email.len() == 0 {
        Some("Author email cannot be empty"@)
    } else {
        None
    }
}

/// Writes the author line of a commit.
pub fn serialize_author(name: &str, email: &str, timestamp: i64) -> (r: Result<String, String>)
    ensures
        match author_error(name@, email@) {
            Some(msg) => r matches Err(m) && m@ == msg,
            None => r matches Ok(line) && line@ == author_line(name@, email@, timestamp),
        },
{
    if contains_char(name, '\n') {
        return Err(String::from_str("Author name cannot contain newlines"));
    }
    if contains_char(email, '\n') {
        return Err(String::from_str("Author email cannot contain newlines"));
    }
    if name.unicode_len() == 0 {
        return Err(String::from_str("Author name cannot be empty"));
    }
    if email.unicode_len() == 0 {
        return Err(String::from_str("Author email cannot be empty"));
    }
    let mut line = String::from_str("author ");
    line.append(name);
    push_char(&mut line, ' ');
    line.append(email);
    push_char(&mut line, ' ');
    push_signed_decimal(&mut line, timestamp);
    push_char(&mut line, '\n');
    proof {
        reveal_strlit("author ");
        assert("author "@ =~= seq!['a', 'u', 't', 'h', 'o', 'r', ' ']);
        assert(line@ =~= author_line(name@, email@, timestamp));
    }
    Ok(line)
}

/// The "<label> <hex>\n" line of a commit for an optional hash, or nothing.
pub open spec fn hash_line(label: Seq<char>, h: Option<[u8; 32]>) -> Seq<char> {
    match h {
        Some(x) => label + seq![' '] + spec_hex(x@) + seq!['\n'],
        None => Seq::empty(),
    }
}

/// The text of a commit: "tree <hex>\n", "parent <hex>\n" and
/// "merge_parent <hex>\n" where present, the author line, "message\n" and
/// the message.
pub open spec fn commit_text(
    tree_hash: Seq<u8>,
    parent_hash: Option<[u8; 32]>,
    merge_parent_hash: Option<[u8; 32]>,
    author: Seq<char>,
    message: Seq<char>,
) -> Seq<char> {
    seq!['t', 'r', 'e', 'e', ' '] + spec_hex(tree_hash) + seq!['\n']
        + hash_line(seq!['p', 'a', 'r', 'e', 'n', 't'], parent_hash)
        + hash_line(seq!['m', 'e', 'r', 'g', 'e', '_', 'p', 'a', 'r', 'e', 'n', 't'], merge_parent_hash)
        + author + seq!['m', 'e', 's', 's', 'a', 'g', 'e', '\n'] + message
}

fn push_hash_line(out: &mut String, label: &str, h: &[u8; 32])
    ensures
        final(out)@ == old(out)@ + label@ + seq![' '] + spec_hex(h@) + seq!['\n'],
{
    out.append(label);
    push_char(out, ' ');
    let hx = hex_encode(h);
    out.append(hx.as_str());
    push_char(out, '\n');
    assert(final(out)@ =~= old(out)@ + label@ + seq![' '] + spec_hex(h@) + seq!['\n']);
}

/// Serializes a commit as text, in UTF-8; fails as `serialize_author` does.
pub fn serialize_commit(
    tree_hash: &[u8; 32],
    parent_hash: Option<&[u8; 32]>,
    merge_parent_hash: Option<&[u8; 32]>,
    author_name: &str,
    author_email: &str,
    timestamp: i64,
    message: &str,
) -> (r: Result<Vec<u8>, String>)
    ensures
        match author_error(author_name@, author_email@) {
            Some(msg) => r matches Err(m) && m@ == msg,
            None => r matches Ok(bytes) && bytes@ == encode_utf8(commit_text(
                tree_hash@,
                match parent_hash { Some(p) => Some(*p), None => None },
                match merge_parent_hash { Some(p) => Some(*p), None => None },
                author_line(author_name@, author_email@, timestamp),
                message@,
            )),
        },
{
    let mut result = String::new();
    push_hash_line(&mut result, "tree", tree_hash);
    let ghost s1 = result@;
    match parent_hash {
        Some(p) => push_hash_line(&mut result, "parent", p),
        None => {},
    }
    let ghost s2 = result@;
    match merge_parent_hash {
        Some(p) => push_hash_line(&mut result, "merge_parent", p),
        None => {},
    }
    let ghost s3 = result@;
    let line = match serialize_author(author_name, author_email, timestamp) {
        Ok(l) => l,
        Err(e) => {
            return Err(e);
        },
    };
    result.append(line.as_str());
    result.append("message\n");
    result.append(message);
    let ghost pv = match parent_hash { Some(p) => Some(*p), None => None };
    let ghost mv = match merge_parent_hash { Some(p) => Some(*p), None => None };
    proof {
        reveal_strlit("tree");
        reveal_strlit("parent");
        reveal_strlit("merge_parent");
        reveal_strlit("message\n");
        assert("tree"@ =~= seq!['t', 'r', 'e', 'e']);
        assert("parent"@ =~= seq!['p', 'a', 'r', 'e', 'n', 't']);
        assert("merge_parent"@ =~= seq!['m', 'e', 'r', 'g', 'e', '_', 'p', 'a', 'r', 'e', 'n', 't']);
        assert("message\n"@ =~= seq!['m', 'e', 's', 's', 'a', 'g', 'e', '\n']);
        assert(s1 =~= seq!['t', 'r', 'e', 'e', ' '] + spec_hex(tree_hash@) + seq!['\n']);
        assert(s2 =~= s1 + hash_line(seq!['p', 'a', 'r', 'e', 'n', 't'], pv));
        assert(s3 =~= s2 + hash_line(seq!['m', 'e', 'r', 'g', 'e', '_', 'p', 'a', 'r', 'e', 'n', 't'], mv));
        assert(result@ =~= commit_text(tree_hash@, pv, mv, author_line(author_name@, author_email@, timestamp), message@));
    }
    let mut bytes: Vec<u8> = Vec::new();
    append_str(&mut bytes, result.as_str());
    Ok(bytes)
}

} // verus!

use vstd::prelude::*;
use crate::text::push_char;

verus! {

/// The BLAKE3 digest of a byte sequence (32 bytes).
pub uninterp spec fn spec_blake3(data: Seq<u8>) -> Seq<u8>;

/// Calls `blake3::Hasher::new`, `update` and `finalize`; the contract claims
/// only that the result is the BLAKE3 digest of `data`, a function of `data` alone.
#[verifier::external_body]
pub fn digest(data: &[u8]) -> (h: [u8; 32])
    ensures
        h@ == spec_blake3(data@),
{
    let mut hasher = blake3::Hasher::new();
    hasher.update(data);
    hasher.finalize().into()
}

/// Two hashes are equal byte for byte.
pub fn hash_eq(a: &[u8; 32], b: &[u8; 32]) -> (r: bool)
    ensures
        r == (a@ == b@),
{
    let mut i: usize = 0;
    while i < 32
        invariant
            i <= 32,
            a@.len() == 32,
            b@.len() == 32,
            forall|j: int| 0 <= j < i ==> a@[j] == b@[j],
        decreases 32 - i,
    {
        if a[i] != b[i] {
            assert(a@[i as int] != b@[i as int]);
            return false;
        }
        i = i + 1;
    }
    assert(a@ =~= b@);
    true
}

/// Copies a hash.
pub fn hash_copy(a: &[u8; 32]) -> (r: [u8; 32])
    ensures
        r@ == a@,
{
    *a
}

/// A hash made of the first 32 bytes of `bytes`.
pub fn hash_from_slice(bytes: &[u8]) -> (h: [u8; 32])
    requires
        bytes@.len() >= 32,
    ensures
        h@ == bytes@.subrange(0, 32),
{
    let mut h: [u8; 32] = [0u8; 32];
    let mut i: usize = 0;
    while i < 32
        invariant
            i <= 32,
            bytes@.len() >= 32,
            h@.len() == 32,
            forall|j: int| 0 <= j < i ==> h@[j] == bytes@[j],
        decreases 32 - i,
    {
        h[i] = bytes[i];
        i = i + 1;
    }
    assert(h@ =~= bytes@.subrange(0, 32));
    h
}

/// Converts a byte vector of length 32 into a hash.
pub fn vec_to_hash(bytes: &[u8]) -> (r: Result<[u8; 32], String>)
    ensures
        r is Ok <==> bytes@.len() == 32,
        r matches Ok(h) ==> h@ == bytes@,
{
    if bytes.len() != 32 {
        return Err(String::from_str("hash must be exactly 32 bytes"));
    }
    let h = hash_from_slice(bytes);
    assert(bytes@.subrange(0, 32) =~= bytes@);
    Ok(h)
}

/// The lower-case hexadecimal digit of a value below 16.
pub open spec fn hex_digit(n: int) -> char {
    if n < 10 {
        (48 + n) as char
    } else {
        (87 + n) as char
    }
}

/// Lower-case hexadecimal text of a byte sequence, two digits per byte.
pub open spec fn spec_hex(bytes: Seq<u8>) -> Seq<char> {
    Seq::new(
        2 * bytes.len(),
        |i: int|
            if i % 2 == 0 {
                hex_digit(bytes[i / 2] as int / 16)
            } else {
                hex_digit(bytes[i / 2] as int % 16)
            },
    )
}

fn hex_digit_char(n: u8) -> (c: char)
    requires
        n < 16,
    ensures
        c == hex_digit(n as int),
{
    match n {
        0 => '0',
        1 => '1',
        2 => '2',
        3 => '3',
        4 => '4',
        5 => '5',
        6 => '6',
        7 => '7',
        8 => '8',
        9 => '9',
        10 => 'a',
        11 => 'b',
        12 => 'c',
        13 => 'd',
        14 => 'e',
        _ => 'f',
    }
}

/// Lower-case hexadecimal encoding of bytes.
pub fn hex_encode(bytes: &[u8]) -> (s: String)
    ensures
        s@ == spec_hex(bytes@),
{
    let mut s = String::new();
    let mut i: usize = 0;
    while i < bytes.len()
        invariant
            i <= bytes@.len(),
            s@ == spec_hex(bytes@.subrange(0, i as int)),
        decreases bytes@.len() - i,
    {
        let b = bytes[i];
        push_char(&mut s, hex_digit_char(b / 16));
        push_char(&mut s, hex_digit_char(b % 16));
        i = i + 1;
        assert(s@ =~= spec_hex(bytes@.subrange(0, i as int)));
    }
    assert(bytes@.subrange(0, bytes@.len() as int) =~= bytes@);
    s
}

/// Full lower-case hexadecimal text of a hash (64 characters).
pub fn to_hex(hash: &[u8; 32]) -> (s: String)
    ensures
        s@ == spec_hex(hash@),
{
    hex_encode(hash)
}

/// Short display form of a hash: the hex text of its first four bytes.
pub fn hash_to_short_hex(hash: &[u8; 32]) -> (s: String)
    ensures
        s@ == spec_hex(hash@.subrange(0, 4)),
{
    hex_encode(&hash[0..4])
}

/// The value of a hexadecimal digit, either case.
pub open spec fn spec_hex_value(c: char) -> Option<u8> {
    if '0' <= c && c <= '9' {
        Some((c as int - 48) as u8)
    } else if 'a' <= c && c <= 'f' {
        Some((c as int - 87) as u8)
    } else if 'A' <= c && c <= 'F' {
        Some((c as int - 55) as u8)
    } else {
        None
    }
}

pub open spec fn is_hex_char(c: char) -> bool {
    spec_hex_value(c) is Some
}

/// Decoding of hexadecimal text: even length and hex digits only.
pub open spec fn spec_hex_decode(s: Seq<char>) -> Option<Seq<u8>> {
    if s.len() % 2 != 0 || !(forall|i: int| 0 <= i < s.len() ==> is_hex_char(#[trigger] s[i])) {
        None
    } else {
        Some(
            Seq::new(
                s.len() / 2,
                |i: int|
                    (16 * spec_hex_value(s[2 * i])->0 + spec_hex_value(s[2 * i + 1])->0) as u8,
            ),
        )
    }
}

pub fn hex_value(c: char) -> (r: Option<u8>)
    ensures
        r == spec_hex_value(c),
        r matches Some(v) ==> v < 16,
{
    if '0' <= c && c <= '9' {
        Some(((c as u32) - 48) as u8)
    } else if 'a' <= c && c <= 'f' {
        Some(((c as u32) - 87) as u8)
    } else if 'A' <= c && c <= 'F' {
        Some(((c as u32) - 55) as u8)
    } else {
        None
    }
}

/// Decodes hexadecimal text given as characters.
pub fn hex_decode_chars(s: &[char]) -> (r: Option<Vec<u8>>)
    ensures
        r matches Some(v) ==> spec_hex_decode(s@) == Some(v@),
        r is None ==> spec_hex_decode(s@) is None,
{
    if s.len() % 2 != 0 {
        return None;
    }
    let mut out: Vec<u8> = Vec::new();
    let mut i: usize = 0;
    while i < s.len() / 2
        invariant
            s@.len() % 2 == 0,
            i <= s@.len() / 2,
            out@.len() == i,
            forall|j: int| 0 <= j < 2 * i ==> is_hex_char(#[trigger] s@[j]),
            forall|j: int|
                0 <= j < i ==> #[trigger] out@[j] == (16 * spec_hex_value(s@[2 * j])->0
                    + spec_hex_value(s@[2 * j + 1])->0) as u8,
        decreases s@.len() / 2 - i,
    {
        let hi = hex_value(s[2 * i]);
        let lo = hex_value(s[2 * i + 1]);
        match (hi, lo) {
            (Some(h), Some(l)) => {
                out.push(16 * h + l);
            },
            _ => {
                proof {
                    if hi is None {
                        assert(!is_hex_char(s@[2 * i]));
                    } else {
                        assert(!is_hex_char(s@[2 * i + 1]));
                    }
                }
                return None;
            },
        }
        i = i + 1;
    }
    assert(spec_hex_decode(s@) == Some(out@));
    Some(out)
}

/// Decodes hexadecimal text (`hex::decode` semantics).
pub fn hex_decode(s: &str) -> (r: Option<Vec<u8>>)
    ensures
        r matches Some(v) ==> spec_hex_decode(s@) == Some(v@),
        r is None ==> spec_hex_decode(s@) is None,
{
    let cs = crate::text::str_chars(s);
    hex_decode_chars(cs.as_slice())
}

proof fn lemma_hex_digit_value(n: int)
    requires
        0 <= n < 16,
    ensures
        spec_hex_value(hex_digit(n)) == Some(n as u8),
        is_hex_char(hex_digit(n)),
        ('0' <= hex_digit(n) <= '9') || ('a' <= hex_digit(n) <= 'f'),
{
    let c = hex_digit(n);
    if n < 10 {
        assert(c as int == 48 + n);
    } else {
        assert(c as int == 87 + n);
    }
}

/// The characters of hex text are lower-case hex digits.
pub proof fn lemma_hex_chars(bytes: Seq<u8>, i: int)
    requires
        0 <= i < spec_hex(bytes).len(),
    ensures
        ('0' <= spec_hex(bytes)[i] <= '9') || ('a' <= spec_hex(bytes)[i] <= 'f'),
{
    let b = bytes[i / 2] as int;
    if i % 2 == 0 {
        lemma_hex_digit_value(b / 16);
    } else {
        lemma_hex_digit_value(b % 16);
    }
}

/// Decoding hex text gives back the bytes it was made from.
pub proof fn law_hex_roundtrip(bytes: Seq<u8>)
    ensures
        spec_hex_decode(spec_hex(bytes)) == Some(bytes),
{
    let s = spec_hex(bytes);
    assert(s.len() % 2 == 0);
    assert forall|i: int| 0 <= i < s.len() implies is_hex_char(#[trigger] s[i]) by {
        let b = bytes[i / 2] as int;
        if i % 2 == 0 {
            lemma_hex_digit_value(b / 16);
        } else {
            lemma_hex_digit_value(b % 16);
        }
    }
    let d = spec_hex_decode(s)->0;
    assert forall|k: int| 0 <= k < bytes.len() implies d[k] == bytes[k] by {
        let b = bytes[k] as int;
        assert((2 * k) / 2 == k && (2 * k) % 2 == 0);
        assert((2 * k + 1) / 2 == k && (2 * k + 1) % 2 == 1);
        lemma_hex_digit_value(b / 16);
        lemma_hex_digit_value(b % 16);
        assert(16 * (b / 16) + b % 16 == b);
    }
    assert(d =~= bytes);
}

} // verus!

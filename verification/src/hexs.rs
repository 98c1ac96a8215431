//! Lower-case hexadecimal encoding of byte strings, and its inverse.

use vstd::prelude::*;
use vstd::string::StrSliceExecFns;

verus! {

/// ASCII code of the lower-case hex digit for a nibble value.
pub open spec fn hex_digit(n: u8) -> u8
    recommends
        n < 16,
{
    if n < 10 {
        (48 + n) as u8
    } else {
        (87 + n) as u8
    }
}

/// The ASCII bytes of the lower-case hex encoding of a byte string:
/// two digits per byte, high nibble first.
pub open spec fn hex_seq_of(b: Seq<u8>) -> Seq<u8> {
    Seq::new(2 * b.len(), |i: int| if i % 2 == 0 {
        hex_digit(b[i / 2] / 16)
    } else {
        hex_digit(b[i / 2] % 16)
    })
}

/// The lower-case hex encoding as characters.
pub open spec fn hex_str_of(b: Seq<u8>) -> Seq<char> {
    hex_seq_of(b).map(|_i: int, x: u8| x as char)
}

fn hex_digit_exec(n: u8) -> (r: u8)
    requires
        n < 16,
    ensures
        r == hex_digit(n),
{
    if n < 10 {
        48 + n
    } else {
        87 + n
    }
}

/// Hex-encodes a byte string as ASCII bytes.
pub fn hex_bytes(b: &Vec<u8>) -> (r: Vec<u8>)
    requires
        b@.len() * 2 <= usize::MAX,
    ensures
        r@ == hex_seq_of(b@),
{
    let mut out: Vec<u8> = Vec::new();
    let mut i: usize = 0;
    while i < b.len()
        invariant
            i <= b@.len(),
            b@.len() * 2 <= usize::MAX,
            out@.len() == 2 * i,
            forall|j: int| 0 <= j < out@.len() ==> out@[j] == #[trigger] hex_seq_of(b@)[j],
        decreases b@.len() - i,
    {
        let byte = b[i];
        out.push(hex_digit_exec(byte / 16));
        out.push(hex_digit_exec(byte % 16));
        i = i + 1;
    }
    assert(out@ =~= hex_seq_of(b@));
    out
}

/// Relies on `String::from_utf8`: bytes below 128 decode to the characters
/// with the same code points.
#[verifier::external_body]
pub(crate) fn ascii_to_string(bytes: Vec<u8>) -> (r: String)
    requires
        forall|i: int| 0 <= i < bytes@.len() ==> bytes@[i] < 128,
    ensures
        r@ == bytes@.map(|_i: int, b: u8| b as char),
{
    String::from_utf8(bytes).unwrap_or_default()
}

/// Hex-encodes a byte string as a `String`.
pub fn hex_string(b: &Vec<u8>) -> (r: String)
    requires
        b@.len() * 2 <= usize::MAX,
    ensures
        r@ == hex_str_of(b@),
{
    let raw = hex_bytes(b);
    assert(forall|i: int| 0 <= i < raw@.len() ==> raw@[i] < 128);
    ascii_to_string(raw)
}

/// Whether a character is a (lower- or upper-case) hex digit.
pub open spec fn is_hex_char(c: char) -> bool {
    ('0' <= c && c <= '9') || ('a' <= c && c <= 'f') || ('A' <= c && c <= 'F')
}

/// The nibble value of a hex digit character.
pub open spec fn hex_char_val(c: char) -> u8
    recommends
        is_hex_char(c),
{
    if '0' <= c && c <= '9' {
        ((c as u32) - 48) as u8
    } else if 'a' <= c && c <= 'f' {
        ((c as u32) - 87) as u8
    } else {
        ((c as u32) - 55) as u8
    }
}

/// The bytes denoted by a sequence of hex characters, two per byte.
pub open spec fn hex_decoded(s: Seq<char>) -> Seq<u8> {
    Seq::new(s.len() / 2, |i: int| (16 * hex_char_val(s[2 * i]) + hex_char_val(
        s[2 * i + 1],
    )) as u8)
}

/// Whether a character sequence is a well-formed hex string.
pub open spec fn valid_hex(s: Seq<char>) -> bool {
    s.len() % 2 == 0 && forall|i: int| 0 <= i < s.len() ==> is_hex_char(#[trigger] s[i])
}

fn hex_char_val_exec(c: char) -> (r: u8)
    requires
        is_hex_char(c),
    ensures
        r == hex_char_val(c),
{
    let code = c as u32;
    if code >= 48 && code <= 57 {
        (code - 48) as u8
    } else if code >= 97 && code <= 102 {
        (code - 87) as u8
    } else {
        (code - 55) as u8
    }
}

fn is_hex_char_exec(c: char) -> (r: bool)
    ensures
        r == is_hex_char(c),
{
    let code = c as u32;
    (code >= 48 && code <= 57) || (code >= 97 && code <= 102) || (code >= 65 && code <= 70)
}

/// Decodes a hex string into bytes; fails exactly on ill-formed input.
pub fn hex_decode(s: &str) -> (r: Option<Vec<u8>>)
    ensures
        match r {
            Some(v) => valid_hex(s@) && v@ == hex_decoded(s@),
            None => !valid_hex(s@),
        },
{
    let n = s.unicode_len();
    if n % 2 != 0 {
        return None;
    }
    let mut out: Vec<u8> = Vec::new();
    let mut i: usize = 0;
    while i < n
        invariant
            n == s@.len(),
            n % 2 == 0,
            i % 2 == 0,
            i <= n,
            forall|j: int| 0 <= j < i ==> is_hex_char(#[trigger] s@[j]),
            out@.len() == i / 2,
            forall|j: int| 0 <= j < out@.len() ==> out@[j] == #[trigger] hex_decoded(s@)[j],
        decreases n - i,
    {
        let hi = s.get_char(i);
        let lo = s.get_char(i + 1);
        if !is_hex_char_exec(hi) || !is_hex_char_exec(lo) {
            return None;
        }
        let b = 16 * hex_char_val_exec(hi) + hex_char_val_exec(lo);
        out.push(b);
        i = i + 2;
    }
    assert(out@ =~= hex_decoded(s@));
    Some(out)
}

} // verus!

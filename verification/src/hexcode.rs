//! Hex encoding and decoding, modelled over character sequences and proved
//! against the `hex` crate's behaviour.

use vstd::prelude::*;

verus! {

/// A character that the hex decoder accepts: `0-9`, `a-f` or `A-F`.
pub open spec fn is_hex_digit(c: char) -> bool {
    ('0' <= c && c <= '9') || ('a' <= c && c <= 'f') || ('A' <= c && c <= 'F')
}

/// Numeric value of one hex digit.
pub open spec fn hex_digit_val(c: char) -> int
    recommends
        is_hex_digit(c),
{
    if '0' <= c && c <= '9' {
        c as int - '0' as int
    } else if 'a' <= c && c <= 'f' {
        c as int - 'a' as int + 10
    } else if 'A' <= c && c <= 'F' {
        c as int - 'A' as int + 10
    } else {
        0
    }
}

/// Every character of the sequence is a hex digit.
pub open spec fn all_hex_digits(s: Seq<char>) -> bool {
    forall|i: int| 0 <= i < s.len() ==> is_hex_digit(#[trigger] s[i])
}

/// The bytes that a well-formed hex string denotes: each pair of digits,
/// high digit first, gives one byte.
pub open spec fn spec_hex_decode(s: Seq<char>) -> Seq<u8>
    recommends
        s.len() % 2 == 0,
        all_hex_digits(s),
{
    Seq::new((s.len() / 2) as nat, |i: int| (16 * hex_digit_val(s[2 * i]) + hex_digit_val(s[2 * i + 1])) as u8)
}

/// The lowercase hex digit for a value below 16.
pub open spec fn hex_char(v: int) -> char
    recommends
        0 <= v < 16,
{
    if v < 10 {
        (0x30 + v) as char
    } else {
        (0x57 + v) as char
    }
}

/// Lowercase hex encoding of a byte sequence: two digits per byte, high
/// digit first.
pub open spec fn spec_hex_encode(b: Seq<u8>) -> Seq<char> {
    Seq::new(2 * b.len(), |i: int| if i % 2 == 0 {
        hex_char(b[i / 2] as int / 16)
    } else {
        hex_char(b[i / 2] as int % 16)
    })
}

/// A lowercase hex digit, as `spec_hex_encode` produces them.
pub open spec fn is_lower_hex_digit(c: char) -> bool {
    ('0' <= c && c <= '9') || ('a' <= c && c <= 'f')
}

/// Relies on `hex::decode`: an even-length string of hex digits decodes,
/// two digits to a byte; an odd length or any other character is an error,
/// mapped here to `None`.
#[verifier::external_body]
pub(crate) fn hex_decode(s: &str) -> (r: Option<Vec<u8>>)
    ensures
        r is Some <==> (s@.len() % 2 == 0 && all_hex_digits(s@)),
        r matches Some(v) ==> v@ == spec_hex_decode(s@),
{
    hex::decode(s).ok()
}

/// Relies on `hex::encode`: lowercase hex, two digits per byte, high digit
/// first.
#[verifier::external_body]
pub(crate) fn hex_encode(b: &[u8]) -> (r: String)
    ensures
        r@ == spec_hex_encode(b@),
{
    hex::encode(b)
}

/// The hex encoding of a byte sequence is twice as long and consists of
/// lowercase hex digits only.
pub proof fn lemma_hex_encode_shape(b: Seq<u8>)
    ensures
        spec_hex_encode(b).len() == 2 * b.len(),
        forall|i: int| 0 <= i < 2 * b.len() ==> is_lower_hex_digit(#[trigger] spec_hex_encode(b)[i]),
{
    assert forall|i: int| 0 <= i < 2 * b.len() implies is_lower_hex_digit(#[trigger] spec_hex_encode(b)[i]) by {
        let v = if i % 2 == 0 { b[i / 2] as int / 16 } else { b[i / 2] as int % 16 };
        assert(0 <= v < 16);
    }
}

/// Hex encoding is injective: distinct byte sequences encode to distinct
/// strings.
pub proof fn lemma_hex_encode_injective(a: Seq<u8>, b: Seq<u8>)
    requires
        spec_hex_encode(a) == spec_hex_encode(b),
    ensures
        a == b,
{
    assert(spec_hex_encode(a).len() == 2 * a.len());
    assert(spec_hex_encode(b).len() == 2 * b.len());
    assert(a.len() == b.len());
    assert forall|i: int| 0 <= i < a.len() implies a[i] == b[i] by {
        assert(spec_hex_encode(a)[2 * i] == hex_char(a[i] as int / 16));
        assert(spec_hex_encode(b)[2 * i] == hex_char(b[i] as int / 16));
        assert(spec_hex_encode(a)[2 * i + 1] == hex_char(a[i] as int % 16));
        assert(spec_hex_encode(b)[2 * i + 1] == hex_char(b[i] as int % 16));
        assert(spec_hex_encode(a)[2 * i] == spec_hex_encode(b)[2 * i]);
        assert(spec_hex_encode(a)[2 * i + 1] == spec_hex_encode(b)[2 * i + 1]);
        lemma_hex_char_injective(a[i] as int / 16, b[i] as int / 16);
        lemma_hex_char_injective(a[i] as int % 16, b[i] as int % 16);
    }
    assert(a =~= b);
}

/// Distinct values below 16 have distinct hex digits.
pub proof fn lemma_hex_char_injective(v: int, w: int)
    requires
        0 <= v < 16,
        0 <= w < 16,
        hex_char(v) == hex_char(w),
    ensures
        v == w,
{
    assert(hex_char(v) as int == if v < 10 { 0x30 + v } else { 0x57 + v });
    assert(hex_char(w) as int == if w < 10 { 0x30 + w } else { 0x57 + w });
}

} // verus!

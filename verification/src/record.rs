//! The proof-record wire format: a JSON object with exactly the fields
//! `contract_address`, `proof_hash` and `timestamp`, emitted and parsed
//! here over raw bytes.

use vstd::prelude::*;
use vstd::utf8::{valid_utf8, valid_first_scalar, length_of_first_scalar, pop_first_scalar, is_continuation_byte, is_leading_byte_width_1, valid_leading_and_continuation_bytes_first_codepoint, decode_first_codepoint, length_of_first_codepoint};
use crate::text::{ascii_of, extend_ascii};

verus! {

/// The lowercase hex digit byte for a value below 16.
pub open spec fn hex_digit_byte(v: int) -> u8
    recommends
        0 <= v < 16,
{
    if v < 10 {
        (0x30 + v) as u8
    } else {
        (0x57 + v) as u8
    }
}

/// A byte that stands for itself inside a JSON string: neither a control
/// byte nor a quote nor a backslash.
pub open spec fn is_plain(b: u8) -> bool {
    b >= 0x20 && b != 0x22 && b != 0x5c
}

/// How one byte of a string value is written inside a JSON string:
/// quote and backslash get a backslash escape, control bytes a `\u00XX`
/// escape, every other byte stands for itself.
pub open spec fn spec_escape_byte(b: u8) -> Seq<u8> {
    if b == 0x22 {
        seq![0x5cu8, 0x22u8]
    } else if b == 0x5c {
        seq![0x5cu8, 0x5cu8]
    } else if b < 0x20 {
        seq![0x5cu8, 0x75u8, 0x30u8, 0x30u8, hex_digit_byte(b as int / 16), hex_digit_byte(b as int % 16)]
    } else {
        seq![b]
    }
}

/// A byte sequence written as the body of a JSON string.
pub open spec fn spec_escape(s: Seq<u8>) -> Seq<u8>
    decreases s.len(),
{
    if s.len() == 0 {
        Seq::<u8>::empty()
    } else {
        spec_escape_byte(s[0]) + spec_escape(s.drop_first())
    }
}

/// Escaping a concatenation escapes the parts in place.
pub proof fn lemma_escape_concat(a: Seq<u8>, b: Seq<u8>)
    ensures
        spec_escape(a + b) == spec_escape(a) + spec_escape(b),
    decreases a.len(),
{
    if a.len() == 0 {
        assert(a + b =~= b);
        assert(spec_escape(a) + spec_escape(b) =~= spec_escape(b));
    } else {
        assert((a + b).drop_first() =~= a.drop_first() + b);
        lemma_escape_concat(a.drop_first(), b);
        assert(spec_escape(a + b) =~= spec_escape(a) + spec_escape(b));
    }
}

/// Escaping one more byte appends that byte's escape.
pub proof fn lemma_escape_step(s: Seq<u8>, i: int)
    requires
        0 <= i < s.len(),
    ensures
        spec_escape(s.take(i + 1)) == spec_escape(s.take(i)) + spec_escape_byte(s[i]),
{
    assert(s.take(i + 1) =~= s.take(i) + seq![s[i]]);
    lemma_escape_concat(s.take(i), seq![s[i]]);
    assert(seq![s[i]].drop_first() =~= Seq::<u8>::empty());
    assert(seq![s[i]].len() == 1 && seq![s[i]][0] == s[i]);
    assert(spec_escape(seq![s[i]].drop_first()) == Seq::<u8>::empty());
    assert(spec_escape(seq![s[i]]) == spec_escape_byte(seq![s[i]][0]) + spec_escape(seq![s[i]].drop_first()));
    assert(spec_escape(seq![s[i]]) =~= spec_escape_byte(s[i]));
}

/// The decimal digits of a number, most significant first.
pub open spec fn spec_digits(n: u64) -> Seq<u8>
    decreases n,
{
    if n < 10 {
        seq![(0x30 + n) as u8]
    } else {
        spec_digits((n / 10) as u64) + seq![(0x30 + n % 10) as u8]
    }
}

/// The serialized record: the three fields in their fixed order, the
/// address escaped, the hash bytes and the decimal timestamp as given.
pub open spec fn spec_record_bytes(addr: Seq<u8>, hash: Seq<u8>, ts: u64) -> Seq<u8> {
    ascii_of("{\"contract_address\":\""@) + spec_escape(addr) + ascii_of("\",\"proof_hash\":\""@)
        + hash + ascii_of("\",\"timestamp\":"@) + spec_digits(ts) + seq![0x7du8]
}

/// Appends the escaped form of `addr` to `out`.
fn extend_escaped(out: &mut Vec<u8>, addr: &[u8])
    ensures
        final(out)@ == old(out)@ + spec_escape(addr@),
{
    let n = addr.len();
    let mut i: usize = 0;
    while i < n
        invariant
            n == addr@.len(),
            0 <= i <= n,
            out@ == old(out)@ + spec_escape(addr@.take(i as int)),
        decreases n - i,
    {
        let b = addr[i];
        if b == 0x22 {
            out.push(0x5c);
            out.push(0x22);
        } else if b == 0x5c {
            out.push(0x5c);
            out.push(0x5c);
        } else if b < 0x20 {
            out.push(0x5c);
            out.push(0x75);
            out.push(0x30);
            out.push(0x30);
            out.push(if b / 16 < 10 { 0x30 + b / 16 } else { 0x57 + b / 16 });
            out.push(if b % 16 < 10 { 0x30 + b % 16 } else { 0x57 + b % 16 });
        } else {
            out.push(b);
        }
        proof {
            lemma_escape_step(addr@, i as int);
            assert(out@ =~= old(out)@ + spec_escape(addr@.take(i as int + 1)));
        }
        i += 1;
    }
    proof {
        assert(addr@.take(n as int) =~= addr@);
    }
}

/// Appends the decimal digits of `n` to `out`.
fn push_digits(out: &mut Vec<u8>, n: u64)
    ensures
        final(out)@ == old(out)@ + spec_digits(n),
    decreases n,
{
    if n < 10 {
        out.push(0x30 + n as u8);
        assert(out@ =~= old(out)@ + spec_digits(n));
    } else {
        push_digits(out, n / 10);
        out.push(0x30 + (n % 10) as u8);
        assert(out@ =~= old(out)@ + spec_digits(n));
    }
}

/// JSON whitespace.
pub open spec fn is_ws(b: u8) -> bool {
    b == 0x20 || b == 0x09 || b == 0x0a || b == 0x0d
}

/// The first position at or after `i` that does not hold whitespace.
pub open spec fn spec_skip_ws(s: Seq<u8>, i: int) -> int
    decreases s.len() - i,
{
    if 0 <= i < s.len() && is_ws(s[i]) {
        spec_skip_ws(s, i + 1)
    } else {
        i
    }
}

/// The byte a simple backslash escape stands for, if the escape exists.
pub open spec fn spec_simple_escape(e: u8) -> Option<u8> {
    if e == 0x22 {
        Some(0x22u8)
    } else if e == 0x5c {
        Some(0x5cu8)
    } else if e == 0x2f {
        Some(0x2fu8)
    } else if e == 0x62 {
        Some(0x08u8)
    } else if e == 0x66 {
        Some(0x0cu8)
    } else if e == 0x6e {
        Some(0x0au8)
    } else if e == 0x72 {
        Some(0x0du8)
    } else if e == 0x74 {
        Some(0x09u8)
    } else {
        None
    }
}

/// An ASCII hex digit byte, either case.
pub open spec fn is_hex_digit_byte(b: u8) -> bool {
    (0x30 <= b && b <= 0x39) || (0x61 <= b && b <= 0x66) || (0x41 <= b && b <= 0x46)
}

/// Value of an ASCII hex digit byte.
pub open spec fn hex_byte_val(b: u8) -> int
    recommends
        is_hex_digit_byte(b),
{
    if 0x30 <= b && b <= 0x39 {
        b as int - 0x30
    } else if 0x61 <= b && b <= 0x66 {
        b as int - 0x61 + 10
    } else if 0x41 <= b && b <= 0x46 {
        b as int - 0x41 + 10
    } else {
        0
    }
}

/// Whether four hex digits stand at position `i`.
pub open spec fn is_hex4(s: Seq<u8>, i: int) -> bool
    recommends
        0 <= i && i + 4 <= s.len(),
{
    is_hex_digit_byte(s[i]) && is_hex_digit_byte(s[i + 1]) && is_hex_digit_byte(s[i + 2]) && is_hex_digit_byte(s[i + 3])
}

/// The code unit written by four hex digits at position `i`.
pub open spec fn hex4_val(s: Seq<u8>, i: int) -> int
    recommends
        0 <= i && i + 4 <= s.len(),
{
    4096 * hex_byte_val(s[i]) + 256 * hex_byte_val(s[i + 1]) + 16 * hex_byte_val(s[i + 2]) + hex_byte_val(s[i + 3])
}

/// The UTF-8 encoding of a code point below 0x10000.
pub open spec fn spec_utf8_enc(c: int) -> Seq<u8>
    recommends
        0 <= c < 0x10000,
{
    if c < 0x80 {
        seq![c as u8]
    } else if c < 0x800 {
        seq![(0xc0 + c / 64) as u8, (0x80 + c % 64) as u8]
    } else {
        seq![(0xe0 + c / 4096) as u8, (0x80 + (c / 64) % 64) as u8, (0x80 + c % 64) as u8]
    }
}

/// Prepends a prefix to the value of a partial string parse.
pub open spec fn prepended(prefix: Seq<u8>, r: Option<(Seq<u8>, int)>) -> Option<(Seq<u8>, int)> {
    match r {
        Some((v, j)) => Some((prefix + v, j)),
        None => None,
    }
}

/// Parses the body of a JSON string from position `i` (just after the
/// opening quote) to its closing quote: the decoded bytes and the position
/// after the quote. Control bytes must be escaped; `\uXXXX` escapes outside
/// the surrogate range are decoded to UTF-8; surrogates are not accepted.
pub open spec fn spec_parse_string_body(s: Seq<u8>, i: int) -> Option<(Seq<u8>, int)>
    decreases s.len() - i,
{
    if i < 0 || i >= s.len() {
        None
    } else if s[i] == 0x22 {
        Some((Seq::<u8>::empty(), i + 1))
    } else if s[i] == 0x5c {
        if i + 1 >= s.len() {
            None
        } else if s[i + 1] == 0x75 {
            if i + 6 <= s.len() && is_hex4(s, i + 2) {
                let c = hex4_val(s, i + 2);
                if 0xd800 <= c && c <= 0xdfff {
                    None
                } else {
                    prepended(spec_utf8_enc(c), spec_parse_string_body(s, i + 6))
                }
            } else {
                None
            }
        } else {
            match spec_simple_escape(s[i + 1]) {
                Some(v) => prepended(seq![v], spec_parse_string_body(s, i + 2)),
                None => None,
            }
        }
    } else if s[i] < 0x20 {
        None
    } else {
        prepended(seq![s[i]], spec_parse_string_body(s, i + 1))
    }
}

pub proof fn lemma_string_body_bounds(s: Seq<u8>, i: int)
    requires
        0 <= i,
    ensures
        spec_parse_string_body(s, i) matches Some((v, j)) ==> i < j <= s.len(),
    decreases s.len() - i,
{
    if i < s.len() {
        if s[i] == 0x5c && i + 1 < s.len() && s[i + 1] == 0x75 {
            if i + 6 <= s.len() && is_hex4(s, i + 2) {
                lemma_string_body_bounds(s, i + 6);
            }
        } else if s[i] == 0x5c && i + 1 < s.len() {
            lemma_string_body_bounds(s, i + 2);
        } else if s[i] != 0x22 && s[i] >= 0x20 {
            lemma_string_body_bounds(s, i + 1);
        }
    }
}

/// A decimal digit byte.
pub open spec fn is_digit(b: u8) -> bool {
    0x30 <= b && b <= 0x39
}

/// The first position at or after `i` that does not hold a digit.
pub open spec fn spec_digits_end(s: Seq<u8>, i: int) -> int
    decreases s.len() - i,
{
    if 0 <= i < s.len() && is_digit(s[i]) {
        spec_digits_end(s, i + 1)
    } else {
        i
    }
}

pub proof fn lemma_digits_end_bounds(s: Seq<u8>, i: int)
    requires
        0 <= i <= s.len(),
    ensures
        i <= spec_digits_end(s, i) <= s.len(),
        forall|k: int| i <= k < spec_digits_end(s, i) ==> is_digit(#[trigger] s[k]),
    decreases s.len() - i,
{
    if i < s.len() && is_digit(s[i]) {
        lemma_digits_end_bounds(s, i + 1);
    }
}

/// The number that a sequence of digit bytes denotes.
pub open spec fn spec_digits_val(d: Seq<u8>) -> int
    decreases d.len(),
{
    if d.len() == 0 {
        0
    } else {
        10 * spec_digits_val(d.drop_last()) + (d.last() as int - 0x30)
    }
}

pub proof fn lemma_digits_val_nonneg(d: Seq<u8>)
    requires
        forall|k: int| 0 <= k < d.len() ==> is_digit(#[trigger] d[k]),
    ensures
        spec_digits_val(d) >= 0,
    decreases d.len(),
{
    if d.len() > 0 {
        lemma_digits_val_nonneg(d.drop_last());
    }
}

/// A longer digit string never denotes a smaller number.
pub proof fn lemma_digits_val_prefix_le(d: Seq<u8>, k: int)
    requires
        forall|m: int| 0 <= m < d.len() ==> is_digit(#[trigger] d[m]),
        0 <= k <= d.len(),
    ensures
        spec_digits_val(d.take(k)) <= spec_digits_val(d),
    decreases d.len() - k,
{
    if k < d.len() {
        let e = d.take(k + 1);
        assert(e.drop_last() =~= d.take(k));
        lemma_digits_val_nonneg(d.take(k));
        assert(forall|m: int| 0 <= m < e.len() ==> is_digit(#[trigger] e[m]));
        assert(spec_digits_val(e) == 10 * spec_digits_val(d.take(k)) + (d[k] as int - 0x30));
        assert(spec_digits_val(d.take(k)) <= spec_digits_val(e));
        lemma_digits_val_prefix_le(d, k + 1);
    } else {
        assert(d.take(k) =~= d);
    }
}

/// Parses a JSON non-negative integer at position `i`: at least one digit,
/// no leading zero, and a value that fits an unsigned 64-bit number.
pub open spec fn spec_parse_number(s: Seq<u8>, i: int) -> Option<(u64, int)> {
    let e = spec_digits_end(s, i);
    if e == i {
        None
    } else if s[i] == 0x30 && e > i + 1 {
        None
    } else if spec_digits_val(s.subrange(i, e)) > u64::MAX {
        None
    } else {
        Some((spec_digits_val(s.subrange(i, e)) as u64, e))
    }
}

/// Parses object members from position `i` (just after `{` or a comma),
/// tracking which of the three fields were already seen; each field must
/// appear exactly once, any other key is refused, and `}` ends the object.
/// The fuel only bounds the recursion: a fourth member always repeats or
/// misses a field, so parsing never needs more than the fuel given here.
pub open spec fn spec_parse_members(s: Seq<u8>, i: int, addr: Option<Seq<u8>>, hash: Option<Seq<u8>>, ts: Option<u64>, fuel: nat) -> Option<(Seq<u8>, Seq<u8>, u64, int)>
    decreases fuel,
{
    if fuel == 0 {
        None
    } else {
        let i1 = spec_skip_ws(s, i);
        if !(0 <= i1 < s.len() && s[i1] == 0x22) {
            None
        } else {
            match spec_parse_string_body(s, i1 + 1) {
                None => None,
                Some((key, i2)) => {
                    let i3 = spec_skip_ws(s, i2);
                    if !(0 <= i3 < s.len() && s[i3] == 0x3a) {
                        None
                    } else {
                        let i4 = spec_skip_ws(s, i3 + 1);
                        let stepped: Option<(Option<Seq<u8>>, Option<Seq<u8>>, Option<u64>, int)> = if key == ascii_of("contract_address"@) {
                            if addr is Some {
                                None
                            } else if 0 <= i4 < s.len() && s[i4] == 0x22 {
                                match spec_parse_string_body(s, i4 + 1) {
                                    Some((v, i5)) => Some((Some(v), hash, ts, i5)),
                                    None => None,
                                }
                            } else {
                                None
                            }
                        } else if key == ascii_of("proof_hash"@) {
                            if hash is Some {
                                None
                            } else if 0 <= i4 < s.len() && s[i4] == 0x22 {
                                match spec_parse_string_body(s, i4 + 1) {
                                    Some((v, i5)) => Some((addr, Some(v), ts, i5)),
                                    None => None,
                                }
                            } else {
                                None
                            }
                        } else if key == ascii_of("timestamp"@) {
                            if ts is Some {
                                None
                            } else {
                                match spec_parse_number(s, i4) {
                                    Some((v, i5)) => Some((addr, hash, Some(v), i5)),
                                    None => None,
                                }
                            }
                        } else {
                            None
                        };
                        match stepped {
                            None => None,
                            Some((a2, h2, t2, i5)) => {
                                let i6 = spec_skip_ws(s, i5);
                                if !(0 <= i6 < s.len()) {
                                    None
                                } else if s[i6] == 0x2c {
                                    spec_parse_members(s, i6 + 1, a2, h2, t2, (fuel - 1) as nat)
                                } else if s[i6] == 0x7d {
                                    match (a2, h2, t2) {
                                        (Some(a), Some(h), Some(t)) => Some((a, h, t, i6 + 1)),
                                        _ => None,
                                    }
                                } else {
                                    None
                                }
                            },
                        }
                    }
                },
            }
        }
    }
}

/// Parses a whole proof record: one object with exactly the three fields,
/// nothing but whitespace around it.
pub open spec fn spec_parse_record(s: Seq<u8>) -> Option<(Seq<u8>, Seq<u8>, u64)> {
    let i0 = spec_skip_ws(s, 0);
    if !(0 <= i0 < s.len() && s[i0] == 0x7b) {
        None
    } else {
        match spec_parse_members(s, i0 + 1, None, None, None, 4) {
            None => None,
            Some((a, h, t, j)) => {
                if spec_skip_ws(s, j) == s.len() {
                    Some((a, h, t))
                } else {
                    None
                }
            },
        }
    }
}

fn skip_ws(s: &[u8], start: usize) -> (r: usize)
    requires
        start <= s@.len(),
    ensures
        r as int == spec_skip_ws(s@, start as int),
        start <= r <= s@.len(),
{
    let n = s.len();
    let mut j = start;
    while j < n && (s[j] == 0x20 || s[j] == 0x09 || s[j] == 0x0a || s[j] == 0x0d)
        invariant
            n == s@.len(),
            start <= j <= n,
            spec_skip_ws(s@, start as int) == spec_skip_ws(s@, j as int),
        decreases n - j,
    {
        j += 1;
    }
    j
}

fn simple_escape(e: u8) -> (r: Option<u8>)
    ensures
        r == spec_simple_escape(e),
{
    if e == 0x22 {
        Some(0x22)
    } else if e == 0x5c {
        Some(0x5c)
    } else if e == 0x2f {
        Some(0x2f)
    } else if e == 0x62 {
        Some(0x08)
    } else if e == 0x66 {
        Some(0x0c)
    } else if e == 0x6e {
        Some(0x0a)
    } else if e == 0x72 {
        Some(0x0d)
    } else if e == 0x74 {
        Some(0x09)
    } else {
        None
    }
}

fn hex_nibble(b: u8) -> (r: Option<u8>)
    ensures
        r matches Some(v) ==> is_hex_digit_byte(b) && v as int == hex_byte_val(b),
        r is None ==> !is_hex_digit_byte(b),
{
    if 0x30 <= b && b <= 0x39 {
        Some(b - 0x30)
    } else if 0x61 <= b && b <= 0x66 {
        Some(b - 0x61 + 10)
    } else if 0x41 <= b && b <= 0x46 {
        Some(b - 0x41 + 10)
    } else {
        None
    }
}

#[verifier::rlimit(60)]
fn parse_string_body(s: &[u8], start: usize) -> (r: Option<(Vec<u8>, usize)>)
    requires
        start <= s@.len(),
    ensures
        spec_parse_string_body(s@, start as int) matches Some((sv, sj)) ==> (r matches Some(p) && p.0@ == sv && p.1 as int == sj && p.1 <= s@.len()),
        spec_parse_string_body(s@, start as int) is None ==> r is None,
    decreases s@.len() - start,
{
    proof {
        lemma_string_body_bounds(s@, start as int);
    }
    let n = s.len();
    if start >= n {
        return None;
    }
    let b = s[start];
    if b == 0x22 {
        return Some((Vec::new(), start + 1));
    }
    if b == 0x5c {
        if start + 1 >= n {
            return None;
        }
        let e = s[start + 1];
        if e == 0x75 {
            if n - start < 6 {
                return None;
            }
            let h1 = hex_nibble(s[start + 2]);
            let h2 = hex_nibble(s[start + 3]);
            let h3 = hex_nibble(s[start + 4]);
            let h4 = hex_nibble(s[start + 5]);
            match (h1, h2, h3, h4) {
                (Some(v1), Some(v2), Some(v3), Some(v4)) => {
                    let c: u32 = 4096 * (v1 as u32) + 256 * (v2 as u32) + 16 * (v3 as u32) + (v4 as u32);
                    assert(c as int == hex4_val(s@, start as int + 2));
                    if 0xd800 <= c && c <= 0xdfff {
                        return None;
                    }
                    match parse_string_body(s, start + 6) {
                        Some(p) => {
                            let mut piece: Vec<u8> = Vec::new();
                            if c < 0x80 {
                                piece.push(c as u8);
                            } else if c < 0x800 {
                                piece.push(0xc0 + (c / 64) as u8);
                                piece.push(0x80 + (c % 64) as u8);
                            } else {
                                piece.push(0xe0 + (c / 4096) as u8);
                                piece.push(0x80 + ((c / 64) % 64) as u8);
                                piece.push(0x80 + (c % 64) as u8);
                            }
                            assert(piece@ =~= spec_utf8_enc(c as int));
                            let mut rest = p.0;
                            piece.append(&mut rest);
                            assert(piece@ =~= spec_utf8_enc(c as int) + spec_parse_string_body(s@, start as int + 6).unwrap().0);
                            Some((piece, p.1))
                        },
                        None => None,
                    }
                },
                _ => {
                    assert(!is_hex4(s@, start as int + 2));
                    None
                },
            }
        } else {
            match simple_escape(e) {
                Some(v) => {
                    match parse_string_body(s, start + 2) {
                        Some(p) => {
                            let mut piece: Vec<u8> = Vec::new();
                            piece.push(v);
                            let mut rest = p.0;
                            piece.append(&mut rest);
                            assert(piece@ =~= seq![v] + spec_parse_string_body(s@, start as int + 2).unwrap().0);
                            Some((piece, p.1))
                        },
                        None => None,
                    }
                },
                None => None,
            }
        }
    } else if b < 0x20 {
        None
    } else {
        match parse_string_body(s, start + 1) {
            Some(p) => {
                let mut piece: Vec<u8> = Vec::new();
                piece.push(b);
                let mut rest = p.0;
                piece.append(&mut rest);
                assert(piece@ =~= seq![b] + spec_parse_string_body(s@, start as int + 1).unwrap().0);
                Some((piece, p.1))
            },
            None => None,
        }
    }
}

fn digits_end(s: &[u8], start: usize) -> (e: usize)
    requires
        start <= s@.len(),
    ensures
        e as int == spec_digits_end(s@, start as int),
        start <= e <= s@.len(),
{
    let n = s.len();
    let mut j = start;
    while j < n && 0x30 <= s[j] && s[j] <= 0x39
        invariant
            n == s@.len(),
            start <= j <= n,
            spec_digits_end(s@, start as int) == spec_digits_end(s@, j as int),
        decreases n - j,
    {
        j += 1;
    }
    j
}

fn parse_number(s: &[u8], start: usize) -> (r: Option<(u64, usize)>)
    requires
        start <= s@.len(),
    ensures
        spec_parse_number(s@, start as int) matches Some((sv, sj)) ==> (r matches Some(p) && p.0 == sv && p.1 as int == sj && p.1 <= s@.len()),
        spec_parse_number(s@, start as int) is None ==> r is None,
{
    let e = digits_end(s, start);
    proof {
        lemma_digits_end_bounds(s@, start as int);
    }
    if e == start {
        return None;
    }
    if s[start] == 0x30 && e > start + 1 {
        return None;
    }
    let ghost d = s@.subrange(start as int, e as int);
    proof {
        assert(forall|m: int| 0 <= m < d.len() ==> is_digit(#[trigger] d[m]));
    }
    let mut val: u64 = 0;
    let mut k = start;
    while k < e
        invariant
            start <= k <= e <= s@.len(),
            e as int == spec_digits_end(s@, start as int),
            d == s@.subrange(start as int, e as int),
            forall|m: int| 0 <= m < d.len() ==> is_digit(#[trigger] d[m]),
            val as int == spec_digits_val(d.take(k - start)),
        decreases e - k,
    {
        proof {
            assert(d[k - start] == s@[k as int]);
            assert(is_digit(s@[k as int]));
        }
        let dig = s[k] - 0x30;
        proof {
            let p = d.take(k - start + 1);
            assert(p.drop_last() =~= d.take(k - start));
            assert(p.last() == d[k - start] && d[k - start] == s@[k as int]);
            assert(spec_digits_val(p) == 10 * spec_digits_val(d.take(k - start)) + (s@[k as int] as int - 0x30));
        }
        if val > (u64::MAX - dig as u64) / 10 {
            proof {
                assert(10 * (val as int) + dig as int > u64::MAX as int) by (nonlinear_arith)
                    requires
                        val as int > (u64::MAX as int - dig as int) / 10,
                        0 <= dig as int <= 9,
                ;
                assert(spec_digits_val(d.take(k - start + 1)) > u64::MAX);
                lemma_digits_val_prefix_le(d, k - start + 1);
                assert(spec_digits_val(d) > u64::MAX);
            }
            return None;
        }
        proof {
            assert(10 * (val as int) + dig as int <= u64::MAX as int) by (nonlinear_arith)
                requires
                    val as int <= (u64::MAX as int - dig as int) / 10,
                    0 <= dig as int <= 9,
            ;
        }
        val = val * 10 + dig as u64;
        k += 1;
    }
    proof {
        assert(d.take(e - start) =~= d);
    }
    Some((val, e))
}

/// The byte view of an optional byte buffer.
pub open spec fn opt_view(o: Option<Vec<u8>>) -> Option<Seq<u8>> {
    match o {
        Some(v) => Some(v@),
        None => None,
    }
}

fn parse_members(s: &[u8], start: usize, addr: Option<Vec<u8>>, hash: Option<Vec<u8>>, ts: Option<u64>, fuel: u8) -> (r: Option<(Vec<u8>, Vec<u8>, u64, usize)>)
    requires
        start <= s@.len(),
    ensures
        spec_parse_members(s@, start as int, opt_view(addr), opt_view(hash), ts, fuel as nat) matches Some((a, h, t, j)) ==> (r matches Some(p) && p.0@ == a && p.1@ == h && p.2 == t && p.3 as int == j && p.3 <= s@.len()),
        spec_parse_members(s@, start as int, opt_view(addr), opt_view(hash), ts, fuel as nat) is None ==> r is None,
    decreases fuel,
{
    proof {
        reveal_strlit("contract_address");
        reveal_strlit("proof_hash");
        reveal_strlit("timestamp");
    }
    if fuel == 0 {
        return None;
    }
    let i1 = skip_ws(s, start);
    if i1 >= s.len() || s[i1] != 0x22 {
        return None;
    }
    let kp = parse_string_body(s, i1 + 1);
    match kp {
        None => None,
        Some((key, i2)) => {
            let i3 = skip_ws(s, i2);
            if i3 >= s.len() || s[i3] != 0x3a {
                return None;
            }
            let i4 = skip_ws(s, i3 + 1);
            let mut k_addr: Vec<u8> = Vec::new();
            extend_ascii(&mut k_addr, "contract_address");
            let mut k_hash: Vec<u8> = Vec::new();
            extend_ascii(&mut k_hash, "proof_hash");
            let mut k_ts: Vec<u8> = Vec::new();
            extend_ascii(&mut k_ts, "timestamp");
            let stepped: Option<(Option<Vec<u8>>, Option<Vec<u8>>, Option<u64>, usize)> = if crate::text::bytes_eq(key.as_slice(), k_addr.as_slice()) {
                if addr.is_some() {
                    None
                } else if i4 < s.len() && s[i4] == 0x22 {
                    match parse_string_body(s, i4 + 1) {
                        Some((v, i5)) => Some((Some(v), hash, ts, i5)),
                        None => None,
                    }
                } else {
                    None
                }
            } else if crate::text::bytes_eq(key.as_slice(), k_hash.as_slice()) {
                if hash.is_some() {
                    None
                } else if i4 < s.len() && s[i4] == 0x22 {
                    match parse_string_body(s, i4 + 1) {
                        Some((v, i5)) => Some((addr, Some(v), ts, i5)),
                        None => None,
                    }
                } else {
                    None
                }
            } else if crate::text::bytes_eq(key.as_slice(), k_ts.as_slice()) {
                if ts.is_some() {
                    None
                } else {
                    match parse_number(s, i4) {
                        Some((v, i5)) => Some((addr, hash, Some(v), i5)),
                        None => None,
                    }
                }
            } else {
                None
            };
            match stepped {
                None => None,
                Some((a2, h2, t2, i5)) => {
                    let i6 = skip_ws(s, i5);
                    if i6 >= s.len() {
                        return None;
                    }
                    if s[i6] == 0x2c {
                        return parse_members(s, i6 + 1, a2, h2, t2, fuel - 1);
                    }
                    if s[i6] == 0x7d {
                        match (a2, h2, t2) {
                            (Some(a), Some(h), Some(t)) => Some((a, h, t, i6 + 1)),
                            _ => None,
                        }
                    } else {
                        None
                    }
                },
            }
        },
    }
}

/// Parses a serialized record back to its three fields; `None` for
/// anything malformed.
pub(crate) fn parse_record(s: &[u8]) -> (r: Option<(Vec<u8>, Vec<u8>, u64)>)
    ensures
        spec_parse_record(s@) matches Some((a, h, t)) ==> (r matches Some(p) && p.0@ == a && p.1@ == h && p.2 == t),
        spec_parse_record(s@) is None ==> r is None,
{
    let i0 = skip_ws(s, 0);
    if i0 >= s.len() || s[i0] != 0x7b {
        return None;
    }
    match parse_members(s, i0 + 1, None, None, None, 4) {
        None => None,
        Some((a, h, t, j)) => {
            let j1 = skip_ws(s, j);
            if j1 == s.len() {
                Some((a, h, t))
            } else {
                None
            }
        },
    }
}

/// Serializes a record to its wire bytes.
pub(crate) fn emit_record(addr: &[u8], hash: &[u8], ts: u64) -> (r: Vec<u8>)
    ensures
        r@ == spec_record_bytes(addr@, hash@, ts),
{
    proof {
        reveal_strlit("{\"contract_address\":\"");
        reveal_strlit("\",\"proof_hash\":\"");
        reveal_strlit("\",\"timestamp\":");
    }
    let mut out: Vec<u8> = Vec::new();
    extend_ascii(&mut out, "{\"contract_address\":\"");
    extend_escaped(&mut out, addr);
    extend_ascii(&mut out, "\",\"proof_hash\":\"");
    out.extend_from_slice(hash);
    extend_ascii(&mut out, "\",\"timestamp\":");
    push_digits(&mut out, ts);
    out.push(0x7d);
    proof {
        assert(out@ =~= spec_record_bytes(addr@, hash@, ts));
    }
    out
}


/// Reading a run of plain bytes up to a closing quote yields exactly those
/// bytes.
proof fn lemma_parse_plain_segment(s: Seq<u8>, i: int, k: int)
    requires
        0 <= i,
        i + k < s.len(),
        0 <= k,
        forall|m: int| i <= m < i + k ==> is_plain(#[trigger] s[m]),
        s[i + k] == 0x22,
    ensures
        spec_parse_string_body(s, i) == Some((s.subrange(i, i + k), i + k + 1)),
    decreases k,
{
    if k == 0 {
        assert(s.subrange(i, i) =~= Seq::<u8>::empty());
    } else {
        assert(is_plain(s[i]));
        lemma_parse_plain_segment(s, i + 1, k - 1);
        assert(seq![s[i]] + s.subrange(i + 1, i + k) =~= s.subrange(i, i + k));
    }
}

/// Reading the escaped form of `a` up to a closing quote yields `a`.
proof fn lemma_parse_escaped_segment(s: Seq<u8>, i: int, a: Seq<u8>)
    requires
        0 <= i,
        i + spec_escape(a).len() < s.len(),
        s.subrange(i, i + spec_escape(a).len()) == spec_escape(a),
        s[i + spec_escape(a).len()] == 0x22,
    ensures
        spec_parse_string_body(s, i) == Some((a, i + spec_escape(a).len() + 1)),
    decreases a.len(),
{
    if a.len() == 0 {
        assert(spec_escape(a).len() == 0);
    } else {
        let b = a[0];
        let eb = spec_escape_byte(b);
        let rest = a.drop_first();
        let el = spec_escape(a).len();
        assert(spec_escape(a) == eb + spec_escape(rest));
        assert(el == eb.len() + spec_escape(rest).len());
        let j = i + eb.len();
        assert forall|m: int| 0 <= m < eb.len() implies s[i + m] == eb[m] by {
            assert(s.subrange(i, i + el)[m] == s[i + m]);
            assert((eb + spec_escape(rest))[m] == eb[m]);
        }
        assert(s.subrange(j, j + spec_escape(rest).len()) =~= spec_escape(rest)) by {
            assert forall|m: int| 0 <= m < spec_escape(rest).len() implies s.subrange(j, j + spec_escape(rest).len())[m] == spec_escape(rest)[m] by {
                assert(s.subrange(i, i + el)[eb.len() + m] == s[j + m]);
                assert((eb + spec_escape(rest))[eb.len() + m] == spec_escape(rest)[m]);
            }
        }
        lemma_parse_escaped_segment(s, j, rest);
        if b == 0x22 {
            assert(s[i] == 0x5c && s[i + 1] == 0x22);
            assert(spec_simple_escape(s[i + 1]) == Some(0x22u8));
            assert(seq![b] + rest =~= a);
        } else if b == 0x5c {
            assert(s[i] == 0x5c && s[i + 1] == 0x5c);
            assert(spec_simple_escape(s[i + 1]) == Some(0x5cu8));
            assert(seq![b] + rest =~= a);
        } else if b < 0x20 {
            assert(s[i] == 0x5c && s[i + 1] == 0x75);
            assert(s[i + 2] == 0x30 && s[i + 3] == 0x30);
            assert(s[i + 4] == hex_digit_byte(b as int / 16));
            assert(s[i + 5] == hex_digit_byte(b as int % 16));
            assert(is_hex_digit_byte(hex_digit_byte(b as int / 16)));
            assert(is_hex_digit_byte(hex_digit_byte(b as int % 16)));
            assert(hex_byte_val(hex_digit_byte(b as int / 16)) == b as int / 16);
            assert(hex_byte_val(hex_digit_byte(b as int % 16)) == b as int % 16);
            assert(is_hex4(s, i + 2));
            assert(hex4_val(s, i + 2) == b as int);
            assert(spec_utf8_enc(b as int) =~= seq![b]);
            assert(i + 6 <= s.len());
            assert(seq![b] + rest =~= a);
        } else {
            assert(eb =~= seq![b]);
            assert(s.subrange(i, i + el)[0] == s[i]);
            assert((eb + spec_escape(rest))[0] == eb[0]);
            assert(s[i] == b);
            assert(is_plain(b));
            assert(seq![b] + rest =~= a);
        }
    }
}

proof fn lemma_digits_shape(n: u64)
    ensures
        spec_digits(n).len() >= 1,
        forall|k: int| 0 <= k < spec_digits(n).len() ==> is_digit(#[trigger] spec_digits(n)[k]),
        n >= 10 ==> spec_digits(n)[0] != 0x30,
        n >= 1 ==> spec_digits(n)[0] != 0x30,
        spec_digits_val(spec_digits(n)) == n,
    decreases n,
{
    if n < 10 {
        assert(spec_digits(n) =~= seq![(0x30 + n) as u8]);
        assert(spec_digits(n).drop_last() =~= Seq::<u8>::empty());
        assert(spec_digits_val(Seq::<u8>::empty()) == 0);
        assert(spec_digits(n).last() == (0x30 + n) as u8);
        assert(spec_digits_val(spec_digits(n)) == ((0x30 + n) as u8) as int - 0x30);
    } else {
        lemma_digits_shape(n / 10);
        let d = spec_digits(n);
        let hd = spec_digits(n / 10);
        assert(d == hd + seq![(0x30 + n % 10) as u8]);
        assert(d[0] == hd[0]);
        assert(n / 10 >= 1);
        assert(d.drop_last() =~= hd);
        assert(d.last() == (0x30 + n % 10) as u8);
        assert(spec_digits_val(d) == 10 * spec_digits_val(hd) + (n % 10));
        assert(spec_digits_val(d) == 10 * ((n / 10) as int) + (n % 10) as int);
        vstd::arithmetic::div_mod::lemma_fundamental_div_mod(n as int, 10);
    }
}

/// A run of digits ends exactly where the digits end.
proof fn lemma_digits_end_at(s: Seq<u8>, i: int, e: int)
    requires
        0 <= i <= e < s.len(),
        forall|m: int| i <= m < e ==> is_digit(#[trigger] s[m]),
        !is_digit(s[e]),
    ensures
        spec_digits_end(s, i) == e,
    decreases e - i,
{
    if i < e {
        assert(is_digit(s[i]));
        lemma_digits_end_at(s, i + 1, e);
    }
}

/// Reading the decimal digits of `n` followed by a non-digit yields `n`.
proof fn lemma_parse_number_at(s: Seq<u8>, i: int, n: u64)
    requires
        0 <= i,
        i + spec_digits(n).len() < s.len(),
        s.subrange(i, i + spec_digits(n).len()) == spec_digits(n),
        !is_digit(s[i + spec_digits(n).len()]),
    ensures
        spec_parse_number(s, i) == Some((n, i + spec_digits(n).len())),
{
    let d = spec_digits(n);
    let e = i + d.len();
    lemma_digits_shape(n);
    assert forall|m: int| i <= m < e implies is_digit(#[trigger] s[m]) by {
        assert(s.subrange(i, e)[m - i] == s[m]);
        assert(d[m - i] == s[m]);
    }
    lemma_digits_end_at(s, i, e);
    assert(s[i] == d[0]) by {
        assert(s.subrange(i, e)[0] == s[i]);
    }
    if n >= 10 {
        assert(s[i] != 0x30);
    } else {
        assert(d.len() == 1);
        assert(e == i + 1);
    }
    assert(spec_digits_val(s.subrange(i, e)) == n);
}

/// Where each piece of a record's wire bytes stands.
proof fn lemma_rt_layout(addr: Seq<u8>, hash: Seq<u8>, ts: u64)
    ensures
        ({
            let s = spec_record_bytes(addr, hash, ts);
            let el = spec_escape(addr).len() as int;
            let hl = hash.len() as int;
            let dl = spec_digits(ts).len() as int;
            &&& s.len() == 52 + el + hl + dl
            &&& (forall|m: int| 0 <= m < 21 ==> s[m] == ascii_of("{\"contract_address\":\""@)[m])
            &&& (forall|m: int| 0 <= m < el ==> s[21 + m] == spec_escape(addr)[m])
            &&& (forall|m: int| 0 <= m < 16 ==> s[21 + el + m] == ascii_of("\",\"proof_hash\":\""@)[m])
            &&& (forall|m: int| 0 <= m < hl ==> s[37 + el + m] == hash[m])
            &&& (forall|m: int| 0 <= m < 14 ==> s[37 + el + hl + m] == ascii_of("\",\"timestamp\":"@)[m])
            &&& (forall|m: int| 0 <= m < dl ==> s[51 + el + hl + m] == spec_digits(ts)[m])
            &&& s[51 + el + hl + dl] == 0x7d
        }),
{
    reveal_strlit("{\"contract_address\":\"");
    reveal_strlit("\",\"proof_hash\":\"");
    reveal_strlit("\",\"timestamp\":");
}

/// The third member, `timestamp`, then the closing brace.
#[verifier::rlimit(100)]
proof fn lemma_rt_member3(addr: Seq<u8>, hash: Seq<u8>, ts: u64)
    ensures
        ({
            let s = spec_record_bytes(addr, hash, ts);
            let q = 38 + spec_escape(addr).len() as int + hash.len() as int;
            let dl = spec_digits(ts).len() as int;
            spec_parse_members(s, q + 1, Some(addr), Some(hash), None, 2) == Some::<(Seq<u8>, Seq<u8>, u64, int)>((addr, hash, ts, q + 14 + dl))
        }),
{
    reveal_strlit("{\"contract_address\":\"");
    reveal_strlit("\",\"proof_hash\":\"");
    reveal_strlit("\",\"timestamp\":");
    reveal_strlit("contract_address");
    reveal_strlit("proof_hash");
    reveal_strlit("timestamp");
    lemma_rt_layout(addr, hash, ts);
    let s = spec_record_bytes(addr, hash, ts);
    let el = spec_escape(addr).len() as int;
    let hl = hash.len() as int;
    let dg = spec_digits(ts);
    let dl = dg.len() as int;
    let q = 38 + el + hl;
    lemma_digits_shape(ts);
    assert(s[q + 1] == 0x22);
    assert(spec_skip_ws(s, q + 1) == q + 1);
    assert forall|m: int| q + 2 <= m < q + 11 implies is_plain(#[trigger] s[m]) by {}
    assert(s[q + 11] == 0x22);
    lemma_parse_plain_segment(s, q + 2, 9);
    let key3 = s.subrange(q + 2, q + 11);
    assert(key3 =~= ascii_of("timestamp"@));
    assert(key3 != ascii_of("contract_address"@)) by {
        assert(key3.len() == 9 && ascii_of("contract_address"@).len() == 16);
    }
    assert(key3 != ascii_of("proof_hash"@)) by {
        assert(key3.len() == 9 && ascii_of("proof_hash"@).len() == 10);
    }
    assert(spec_skip_ws(s, q + 12) == q + 12);
    assert(s[q + 12] == 0x3a);
    assert(s[q + 13] == dg[0]);
    assert(is_digit(s[q + 13]));
    assert(spec_skip_ws(s, q + 13) == q + 13);
    assert(s.subrange(q + 13, q + 13 + dl) =~= dg);
    assert(s[q + 13 + dl] == 0x7d);
    assert(!is_digit(s[q + 13 + dl]));
    lemma_parse_number_at(s, q + 13, ts);
    assert(spec_parse_number(s, q + 13) == Some((ts, q + 13 + dl)));
    assert(spec_skip_ws(s, q + 13 + dl) == q + 13 + dl);
}

/// The text of the second member, `proof_hash`, piece by piece.
#[verifier::rlimit(100)]
proof fn lemma_rt_member2_segments(addr: Seq<u8>, hash: Seq<u8>, ts: u64)
    requires
        forall|m: int| 0 <= m < hash.len() ==> is_plain(#[trigger] hash[m]),
    ensures
        ({
            let s = spec_record_bytes(addr, hash, ts);
            let p = 22 + spec_escape(addr).len() as int;
            let q = 38 + spec_escape(addr).len() as int + hash.len() as int;
            &&& spec_skip_ws(s, p + 1) == p + 1
            &&& p + 1 < s.len() && s[p + 1] == 0x22
            &&& spec_parse_string_body(s, p + 2) == Some((ascii_of("proof_hash"@), p + 13))
            &&& spec_skip_ws(s, p + 13) == p + 13
            &&& p + 13 < s.len() && s[p + 13] == 0x3a
            &&& spec_skip_ws(s, p + 14) == p + 14
            &&& p + 14 < s.len() && s[p + 14] == 0x22
            &&& spec_parse_string_body(s, p + 15) == Some((hash, q))
            &&& spec_skip_ws(s, q) == q
            &&& q < s.len() && s[q] == 0x2c
            &&& ascii_of("proof_hash"@) != ascii_of("contract_address"@)
            &&& ascii_of("proof_hash"@).len() == 10
        }),
{
    reveal_strlit("{\"contract_address\":\"");
    reveal_strlit("\",\"proof_hash\":\"");
    reveal_strlit("\",\"timestamp\":");
    reveal_strlit("contract_address");
    reveal_strlit("proof_hash");
    lemma_rt_layout(addr, hash, ts);
    let s = spec_record_bytes(addr, hash, ts);
    let el = spec_escape(addr).len() as int;
    let hl = hash.len() as int;
    let p = 22 + el;
    let q = 38 + el + hl;
    assert(s[p + 1] == 0x22);
    assert(spec_skip_ws(s, p + 1) == p + 1);
    assert forall|m: int| p + 2 <= m < p + 12 implies is_plain(#[trigger] s[m]) by {}
    assert(s[p + 12] == 0x22);
    lemma_parse_plain_segment(s, p + 2, 10);
    assert(s.subrange(p + 2, p + 12) =~= ascii_of("proof_hash"@));
    assert(ascii_of("proof_hash"@) != ascii_of("contract_address"@)) by {
        assert(ascii_of("proof_hash"@).len() == 10 && ascii_of("contract_address"@).len() == 16);
    }
    assert(spec_skip_ws(s, p + 13) == p + 13);
    assert(s[p + 13] == 0x3a);
    assert(spec_skip_ws(s, p + 14) == p + 14);
    assert(s[p + 14] == 0x22);
    assert(s.subrange(p + 15, p + 15 + hl) =~= hash);
    assert(s[p + 15 + hl] == 0x22);
    assert forall|m: int| p + 15 <= m < p + 15 + hl implies is_plain(#[trigger] s[m]) by {
        assert(s[m] == hash[m - (p + 15)]);
    }
    lemma_parse_plain_segment(s, p + 15, hl);
    assert(spec_parse_string_body(s, p + 15) == Some((hash, q)));
    assert(s[q] == 0x2c);
    assert(spec_skip_ws(s, q) == q);
}

/// The second member, `proof_hash`, then the rest.
#[verifier::rlimit(100)]
proof fn lemma_rt_member2(addr: Seq<u8>, hash: Seq<u8>, ts: u64)
    requires
        forall|m: int| 0 <= m < hash.len() ==> is_plain(#[trigger] hash[m]),
    ensures
        ({
            let s = spec_record_bytes(addr, hash, ts);
            let p = 22 + spec_escape(addr).len() as int;
            let q = 38 + spec_escape(addr).len() as int + hash.len() as int;
            let dl = spec_digits(ts).len() as int;
            spec_parse_members(s, p + 1, Some(addr), None, None, 3) == Some::<(Seq<u8>, Seq<u8>, u64, int)>((addr, hash, ts, q + 14 + dl))
        }),
{
    lemma_rt_member2_segments(addr, hash, ts);
    lemma_rt_member3(addr, hash, ts);
}

/// The first member, `contract_address`, then the rest.
#[verifier::rlimit(100)]
proof fn lemma_rt_member1(addr: Seq<u8>, hash: Seq<u8>, ts: u64)
    requires
        forall|m: int| 0 <= m < hash.len() ==> is_plain(#[trigger] hash[m]),
    ensures
        ({
            let s = spec_record_bytes(addr, hash, ts);
            let q = 38 + spec_escape(addr).len() as int + hash.len() as int;
            let dl = spec_digits(ts).len() as int;
            spec_parse_members(s, 1, None, None, None, 4) == Some::<(Seq<u8>, Seq<u8>, u64, int)>((addr, hash, ts, q + 14 + dl))
        }),
{
    reveal_strlit("{\"contract_address\":\"");
    reveal_strlit("\",\"proof_hash\":\"");
    reveal_strlit("\",\"timestamp\":");
    reveal_strlit("contract_address");
    lemma_rt_layout(addr, hash, ts);
    lemma_rt_member2(addr, hash, ts);
    let s = spec_record_bytes(addr, hash, ts);
    let el = spec_escape(addr).len() as int;
    let p = 22 + el;
    assert(s[1] == 0x22);
    assert(spec_skip_ws(s, 1) == 1);
    assert forall|m: int| 2 <= m < 18 implies is_plain(#[trigger] s[m]) by {}
    assert(s[18] == 0x22);
    lemma_parse_plain_segment(s, 2, 16);
    let key1 = s.subrange(2, 18);
    assert(key1 =~= ascii_of("contract_address"@));
    assert(spec_skip_ws(s, 19) == 19);
    assert(s[19] == 0x3a);
    assert(spec_skip_ws(s, 20) == 20);
    assert(s[20] == 0x22);
    assert(s.subrange(21, 21 + el) =~= spec_escape(addr));
    assert(s[21 + el] == 0x22);
    lemma_parse_escaped_segment(s, 21, addr);
    assert(spec_parse_string_body(s, 21) == Some((addr, p)));
    assert(s[p] == 0x2c);
    assert(spec_skip_ws(s, p) == p);
}

/// Parsing inverts serialization: a record's wire bytes parse back to the
/// record, for every address, every timestamp, and every hash whose bytes
/// are plain string bytes (as hex digests are).
pub proof fn lemma_parse_record_roundtrip(addr: Seq<u8>, hash: Seq<u8>, ts: u64)
    requires
        forall|m: int| 0 <= m < hash.len() ==> is_plain(#[trigger] hash[m]),
    ensures
        spec_parse_record(spec_record_bytes(addr, hash, ts)) == Some((addr, hash, ts)),
{
    reveal_strlit("{\"contract_address\":\"");
    lemma_rt_layout(addr, hash, ts);
    lemma_rt_member1(addr, hash, ts);
    let s = spec_record_bytes(addr, hash, ts);
    let q = 38 + spec_escape(addr).len() as int + hash.len() as int;
    let dl = spec_digits(ts).len() as int;
    assert(s[0] == 0x7b);
    assert(spec_skip_ws(s, 0) == 0);
    assert(q + 14 + dl == s.len());
    assert(spec_skip_ws(s, s.len() as int) == s.len());
}


/// Escaping keeps a sequence of plain bytes unchanged.
proof fn lemma_escape_plain(b: Seq<u8>)
    requires
        forall|m: int| 0 <= m < b.len() ==> is_plain(#[trigger] b[m]),
    ensures
        spec_escape(b) == b,
    decreases b.len(),
{
    if b.len() > 0 {
        assert(is_plain(b[0]));
        assert(spec_escape_byte(b[0]) =~= seq![b[0]]);
        lemma_escape_plain(b.drop_first());
        assert(spec_escape(b) =~= b);
    }
}

/// Escaping a valid UTF-8 sequence yields a valid UTF-8 sequence: ASCII
/// bytes turn into ASCII escapes, multi-byte scalars pass through whole.
pub proof fn lemma_escape_valid_utf8(b: Seq<u8>)
    requires
        vstd::utf8::valid_utf8(b),
    ensures
        vstd::utf8::valid_utf8(spec_escape(b)),
    decreases b.len(),
{
    if b.len() > 0 {
        assert(valid_first_scalar(b));
        let k = length_of_first_scalar(b);
        assert(1 <= k <= 4);
        assert(k <= b.len());
        let first = b.subrange(0, k);
        let rest = b.subrange(k, b.len() as int);
        assert(rest =~= pop_first_scalar(b));
        assert(valid_utf8(rest));
        assert(b =~= first + rest);
        lemma_escape_concat(first, rest);
        lemma_escape_valid_utf8(rest);
        if k == 1 {
            assert(first =~= seq![b[0]]);
            assert(first[0] == b[0]);
            assert(first.drop_first() =~= Seq::<u8>::empty());
            assert(spec_escape(Seq::<u8>::empty()) == Seq::<u8>::empty());
            assert(spec_escape(first) == spec_escape_byte(first[0]) + spec_escape(first.drop_first()));
            assert(spec_escape(first) =~= spec_escape_byte(b[0]));
            assert(b[0] < 0x80);
            let eb = spec_escape_byte(b[0]);
            assert(crate::text::all_ascii_bytes(eb)) by {
                if b[0] == 0x22 || b[0] == 0x5c {
                } else if b[0] < 0x20 {
                    assert(eb[4] == hex_digit_byte(b[0] as int / 16) && eb[4] < 0x80);
                    assert(eb[5] == hex_digit_byte(b[0] as int % 16) && eb[5] < 0x80);
                }
            }
            crate::text::lemma_ascii_valid_utf8(eb);
        } else {
            assert(is_continuation_byte(b[1]));
            assert(forall|m: int| 0 <= m < k ==> #[trigger] first[m] >= 0x80) by {
                assert(first[0] == b[0] && !is_leading_byte_width_1(b[0]));
                if k >= 2 {
                    assert(first[1] == b[1]);
                }
                if k >= 3 {
                    assert(first[2] == b[2] && is_continuation_byte(b[2]));
                }
                if k >= 4 {
                    assert(first[3] == b[3] && is_continuation_byte(b[3]));
                }
            }
            assert(forall|m: int| 0 <= m < first.len() ==> is_plain(#[trigger] first[m]));
            lemma_escape_plain(first);
            assert(valid_utf8(first)) by {
                assert(first.len() == k);
                assert(first[0] == b[0]);
                if k >= 2 {
                    assert(first[1] == b[1]);
                }
                if k >= 3 {
                    assert(first[2] == b[2]);
                }
                if k >= 4 {
                    assert(first[3] == b[3]);
                }
                assert(valid_leading_and_continuation_bytes_first_codepoint(first));
                assert(decode_first_codepoint(first) == decode_first_codepoint(b));
                assert(length_of_first_codepoint(first) == length_of_first_codepoint(b));
                assert(valid_first_scalar(first));
                assert(length_of_first_scalar(first) == k);
                assert(pop_first_scalar(first) =~= Seq::<u8>::empty());
                assert(valid_utf8(Seq::<u8>::empty()));
            }
        }
        broadcast use vstd::utf8::valid_utf8_concat;

        assert(valid_utf8(spec_escape(first) + spec_escape(rest)));
    }
}

/// A record's wire bytes are valid UTF-8 whenever the address bytes are
/// valid UTF-8 and the hash bytes are ASCII.
pub proof fn lemma_record_bytes_valid_utf8(addr: Seq<u8>, hash: Seq<u8>, ts: u64)
    requires
        vstd::utf8::valid_utf8(addr),
        crate::text::all_ascii_bytes(hash),
    ensures
        vstd::utf8::valid_utf8(spec_record_bytes(addr, hash, ts)),
{
    reveal_strlit("{\"contract_address\":\"");
    reveal_strlit("\",\"proof_hash\":\"");
    reveal_strlit("\",\"timestamp\":");
    let l1 = ascii_of("{\"contract_address\":\""@);
    let l2 = ascii_of("\",\"proof_hash\":\""@);
    let l3 = ascii_of("\",\"timestamp\":"@);
    let dg = spec_digits(ts);
    assert(crate::text::all_ascii_bytes(l1));
    assert(crate::text::all_ascii_bytes(l2));
    assert(crate::text::all_ascii_bytes(l3));
    lemma_digits_shape(ts);
    assert(crate::text::all_ascii_bytes(dg));
    crate::text::lemma_ascii_valid_utf8(l1);
    crate::text::lemma_ascii_valid_utf8(l2);
    crate::text::lemma_ascii_valid_utf8(l3);
    crate::text::lemma_ascii_valid_utf8(dg);
    crate::text::lemma_ascii_valid_utf8(hash);
    assert(crate::text::all_ascii_bytes(seq![0x7du8]));
    crate::text::lemma_ascii_valid_utf8(seq![0x7du8]);
    lemma_escape_valid_utf8(addr);
    broadcast use vstd::utf8::valid_utf8_concat;

    assert(valid_utf8(l1 + spec_escape(addr)));
    assert(valid_utf8(l1 + spec_escape(addr) + l2));
    assert(valid_utf8(l1 + spec_escape(addr) + l2 + hash));
    assert(valid_utf8(l1 + spec_escape(addr) + l2 + hash + l3));
    assert(valid_utf8(l1 + spec_escape(addr) + l2 + hash + l3 + dg));
    assert(valid_utf8(l1 + spec_escape(addr) + l2 + hash + l3 + dg + seq![0x7du8]));
}


} // verus!

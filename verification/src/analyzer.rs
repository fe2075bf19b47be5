//! Byte-level inspection of contract bytecode: content hash, length,
//! raw-byte pattern tags and a byte-value histogram.

use vstd::prelude::*;
use vstd::utf8::encode_utf8;
use crate::hexcode::{all_hex_digits, spec_hex_decode, spec_hex_encode, is_lower_hex_digit, hex_decode, hex_encode, lemma_hex_encode_shape};
use crate::hashing::{sha256_of, sha256};
use crate::text::{ascii_of, all_ascii_bytes, extend_ascii, string_of_bytes, lemma_ascii_valid_utf8};

verus! {

/// The buffer that a hex input denotes: its decoded bytes when it is
/// well-formed hex, the empty buffer otherwise (the fail-soft policy).
pub open spec fn spec_decoded_or_empty(s: Seq<char>) -> Seq<u8> {
    if s.len() % 2 == 0 && all_hex_digits(s) {
        spec_hex_decode(s)
    } else {
        Seq::<u8>::empty()
    }
}

/// Decoding is fail-soft: well-formed hex of length 2n yields exactly n
/// bytes, and any malformed input yields the empty buffer, so every query
/// after construction is well defined.
pub proof fn lemma_decoded_or_empty(s: Seq<char>)
    ensures
        (s.len() % 2 == 0 && all_hex_digits(s)) ==> spec_decoded_or_empty(s).len() == s.len() / 2,
        !(s.len() % 2 == 0 && all_hex_digits(s)) ==> spec_decoded_or_empty(s) == Seq::<u8>::empty(),
{
}

/// Number of occurrences of the byte `v` in `s`.
pub open spec fn count_byte(s: Seq<u8>, v: u8) -> nat
    decreases s.len(),
{
    if s.len() == 0 {
        0
    } else {
        count_byte(s.drop_last(), v) + (if s.last() == v { 1nat } else { 0nat })
    }
}

/// A byte never occurs more often than the buffer is long.
pub proof fn lemma_count_byte_le_len(s: Seq<u8>, v: u8)
    ensures
        count_byte(s, v) <= s.len(),
    decreases s.len(),
{
    if s.len() > 0 {
        lemma_count_byte_le_len(s.drop_last(), v);
    }
}

/// The tags that pattern detection reports, in their fixed priority order.
pub open spec fn spec_tag_list(b: Seq<u8>) -> Seq<Seq<char>> {
    (if b.contains(0xff) {
        seq!["selfdestruct_present"@]
    } else {
        Seq::<Seq<char>>::empty()
    }) + (if b.contains(0xf4) {
        seq!["delegatecall_present"@]
    } else {
        Seq::<Seq<char>>::empty()
    }) + (if b.len() > 0 {
        seq!["has_runtime_code"@]
    } else {
        Seq::<Seq<char>>::empty()
    })
}

/// An ASCII tag between double quotes.
pub open spec fn quoted(tag: Seq<char>) -> Seq<u8> {
    seq![0x22u8] + ascii_of(tag) + seq![0x22u8]
}

/// The remaining elements of a JSON array of strings: a comma before each.
pub open spec fn rest_joined(tags: Seq<Seq<char>>) -> Seq<u8>
    decreases tags.len(),
{
    if tags.len() == 0 {
        Seq::<u8>::empty()
    } else {
        seq![0x2cu8] + quoted(tags[0]) + rest_joined(tags.drop_first())
    }
}

/// The elements of a JSON array of strings, comma-separated.
pub open spec fn joined(tags: Seq<Seq<char>>) -> Seq<u8> {
    if tags.len() == 0 {
        Seq::<u8>::empty()
    } else {
        quoted(tags[0]) + rest_joined(tags.drop_first())
    }
}

/// The JSON-array-shaped report of the tags found in a buffer.
pub open spec fn spec_patterns_bytes(b: Seq<u8>) -> Seq<u8> {
    seq![0x5bu8] + joined(spec_tag_list(b)) + seq![0x5du8]
}

/// Inspects a decoded bytecode buffer, immutable after construction.
pub struct BytecodeAnalyzer {
    bytecode: Vec<u8>,
}

impl BytecodeAnalyzer {
    /// The bytes under analysis.
    pub closed spec fn bytes(&self) -> Seq<u8> {
        self.bytecode@
    }

    /// Builds an analyzer from a hex string; malformed hex yields the empty
    /// buffer rather than an error.
    pub fn new(bytecode_hex: &str) -> (r: BytecodeAnalyzer)
        ensures
            r.bytes() == spec_decoded_or_empty(bytecode_hex@),
    {
        match hex_decode(bytecode_hex) {
            Some(v) => BytecodeAnalyzer { bytecode: v },
            None => BytecodeAnalyzer { bytecode: Vec::new() },
        }
    }

    /// The SHA-256 digest of the buffer, in lowercase hex: 64 hex digits,
    /// the same for every analyzer holding the same bytes.
    pub fn hash(&self) -> (r: String)
        ensures
            r@ == spec_hex_encode(sha256_of(self.bytes())),
            r@.len() == 64,
            forall|i: int| 0 <= i < r@.len() ==> is_lower_hex_digit(#[trigger] r@[i]),
    {
        let digest = sha256(self.bytecode.as_slice());
        let r = hex_encode(digest.as_slice());
        proof {
            lemma_hex_encode_shape(digest@);
        }
        r
    }

    /// Number of bytes in the buffer.
    pub fn length(&self) -> (r: usize)
        ensures
            r == self.bytes().len(),
    {
        self.bytecode.len()
    }

    /// The raw buffer, unchanged: no opcode decoding is performed.
    pub fn extract_opcodes(&self) -> (r: Vec<u8>)
        ensures
            r@ == self.bytes(),
    {
        let r = self.bytecode.clone();
        assert(r@ =~= self.bytecode@);
        r
    }

    /// Scans the raw bytes and reports the matched tags as a JSON array:
    /// `selfdestruct_present` when some byte is 0xFF, `delegatecall_present`
    /// when some byte is 0xF4, `has_runtime_code` when the buffer is
    /// non-empty; `[]` only for the empty buffer.
    pub fn detect_patterns(&self) -> (r: String)
        ensures
            encode_utf8(r@) == spec_patterns_bytes(self.bytes()),
    {
        proof {
            reveal_strlit("selfdestruct_present");
            reveal_strlit("delegatecall_present");
            reveal_strlit("has_runtime_code");
        }
        let has_sd = contains_byte(self.bytecode.as_slice(), 0xff);
        let has_dc = contains_byte(self.bytecode.as_slice(), 0xf4);
        let has_rt = self.bytecode.len() > 0;
        let mut out: Vec<u8> = Vec::new();
        out.push(0x5b);
        let mut first = true;
        if has_sd {
            out.push(0x22);
            extend_ascii(&mut out, "selfdestruct_present");
            out.push(0x22);
            first = false;
        }
        if has_dc {
            if !first {
                out.push(0x2c);
            }
            out.push(0x22);
            extend_ascii(&mut out, "delegatecall_present");
            out.push(0x22);
            first = false;
        }
        if has_rt {
            if !first {
                out.push(0x2c);
            }
            out.push(0x22);
            extend_ascii(&mut out, "has_runtime_code");
            out.push(0x22);
        }
        out.push(0x5d);
        proof {
            lemma_patterns_assembly(self.bytecode@, has_sd, has_dc, has_rt, out@);
            lemma_ascii_valid_utf8(out@);
            broadcast use vstd::utf8::encode_utf8_decode_utf8;
            broadcast use vstd::utf8::decode_utf8_encode_utf8;

        }
        let r = string_of_bytes(out.as_slice());
        r
    }

    /// The 256-bin histogram of byte values: entry `v` is how often the
    /// byte `v` occurs in the buffer.
    pub fn byte_counts(&self) -> (r: Vec<usize>)
        ensures
            r@.len() == 256,
            forall|v: int| 0 <= v < 256 ==> r@[v] == count_byte(self.bytes(), v as u8),
    {
        let n = self.bytecode.len();
        let mut counts: Vec<usize> = vec![0usize; 256];
        let mut i: usize = 0;
        while i < n
            invariant
                n == self.bytes().len(),
                0 <= i <= n,
                counts@.len() == 256,
                forall|v: int| 0 <= v < 256 ==> counts@[v] == count_byte(self.bytes().take(i as int), v as u8),
            decreases n - i,
        {
            let ghost pre = self.bytes().take(i as int);
            let b = self.bytecode[i];
            proof {
                lemma_count_byte_le_len(pre, b);
                assert(count_byte(pre, b) <= pre.len());
            }
            let c = counts[b as usize];
            counts[b as usize] = c + 1;
            proof {
                let post = self.bytes().take(i as int + 1);
                assert(post.drop_last() =~= pre);
                assert(post.last() == b);
                assert forall|v: int| 0 <= v < 256 implies counts@[v] == count_byte(post, v as u8) by {
                    if v == b as int {
                        assert(count_byte(post, v as u8) == count_byte(pre, v as u8) + 1);
                    } else {
                        assert(count_byte(post, v as u8) == count_byte(pre, v as u8));
                    }
                }
            }
            i += 1;
        }
        proof {
            assert(self.bytes().take(n as int) =~= self.bytes());
        }
        counts
    }
}

/// Whether the slice holds the byte `x`.
fn contains_byte(v: &[u8], x: u8) -> (r: bool)
    ensures
        r <==> v@.contains(x),
{
    let n = v.len();
    let mut i: usize = 0;
    while i < n
        invariant
            n == v@.len(),
            0 <= i <= n,
            forall|j: int| 0 <= j < i ==> v@[j] != x,
        decreases n - i,
    {
        if v[i] == x {
            assert(v@.contains(x));
            return true;
        }
        i += 1;
    }
    assert(!v@.contains(x));
    false
}

proof fn lemma_joined1(a: Seq<char>)
    ensures
        joined(seq![a]) == quoted(a),
{
    assert(seq![a].drop_first() =~= Seq::<Seq<char>>::empty());
    assert(rest_joined(Seq::<Seq<char>>::empty()) == Seq::<u8>::empty());
    assert(joined(seq![a]) =~= quoted(a));
}

proof fn lemma_joined2(a: Seq<char>, b: Seq<char>)
    ensures
        joined(seq![a, b]) == quoted(a) + seq![0x2cu8] + quoted(b),
{
    assert(seq![a, b].drop_first() =~= seq![b]);
    assert(seq![b].drop_first() =~= Seq::<Seq<char>>::empty());
    assert(rest_joined(Seq::<Seq<char>>::empty()) == Seq::<u8>::empty());
    assert(rest_joined(seq![b]) =~= seq![0x2cu8] + quoted(b));
    assert(joined(seq![a, b]) =~= quoted(a) + seq![0x2cu8] + quoted(b));
}

proof fn lemma_joined3(a: Seq<char>, b: Seq<char>, c: Seq<char>)
    ensures
        joined(seq![a, b, c]) == quoted(a) + seq![0x2cu8] + quoted(b) + seq![0x2cu8] + quoted(c),
{
    assert(seq![a, b, c].drop_first() =~= seq![b, c]);
    assert(seq![b, c].drop_first() =~= seq![c]);
    assert(seq![c].drop_first() =~= Seq::<Seq<char>>::empty());
    assert(rest_joined(Seq::<Seq<char>>::empty()) == Seq::<u8>::empty());
    assert(rest_joined(seq![c]) =~= seq![0x2cu8] + quoted(c));
    assert(rest_joined(seq![b, c]) =~= seq![0x2cu8] + quoted(b) + seq![0x2cu8] + quoted(c));
    assert(joined(seq![a, b, c]) =~= quoted(a) + seq![0x2cu8] + quoted(b) + seq![0x2cu8] + quoted(c));
}

/// What the pattern report looks like for each combination of findings.
proof fn lemma_patterns_assembly(b: Seq<u8>, sd: bool, dc: bool, rt: bool, out: Seq<u8>)
    requires
        sd == b.contains(0xff),
        dc == b.contains(0xf4),
        rt == (b.len() > 0),
        out =~= seq![0x5bu8] + (if sd {
            quoted("selfdestruct_present"@)
        } else {
            Seq::<u8>::empty()
        }) + (if dc {
            (if sd {
                seq![0x2cu8]
            } else {
                Seq::<u8>::empty()
            }) + quoted("delegatecall_present"@)
        } else {
            Seq::<u8>::empty()
        }) + (if rt {
            (if sd || dc {
                seq![0x2cu8]
            } else {
                Seq::<u8>::empty()
            }) + quoted("has_runtime_code"@)
        } else {
            Seq::<u8>::empty()
        }) + seq![0x5du8],
    ensures
        out == spec_patterns_bytes(b),
        all_ascii_bytes(ascii_of("selfdestruct_present"@)) && all_ascii_bytes(ascii_of("delegatecall_present"@)) && all_ascii_bytes(ascii_of("has_runtime_code"@)) ==> all_ascii_bytes(out),
{
    let t1 = "selfdestruct_present"@;
    let t2 = "delegatecall_present"@;
    let t3 = "has_runtime_code"@;
    let tags = spec_tag_list(b);
    if sd {
        if dc {
            if rt {
                assert(tags =~= seq![t1, t2, t3]);
                lemma_joined3(t1, t2, t3);
            } else {
                assert(tags =~= seq![t1, t2]);
                lemma_joined2(t1, t2);
            }
        } else {
            if rt {
                assert(tags =~= seq![t1, t3]);
                lemma_joined2(t1, t3);
            } else {
                assert(tags =~= seq![t1]);
                lemma_joined1(t1);
            }
        }
    } else {
        if dc {
            if rt {
                assert(tags =~= seq![t2, t3]);
                lemma_joined2(t2, t3);
            } else {
                assert(tags =~= seq![t2]);
                lemma_joined1(t2);
            }
        } else {
            if rt {
                assert(tags =~= seq![t3]);
                lemma_joined1(t3);
            } else {
                assert(tags =~= Seq::<Seq<char>>::empty());
                assert(joined(tags) == Seq::<u8>::empty());
            }
        }
    }
    assert(out =~= spec_patterns_bytes(b));
}

/// The reported tag set follows the buffer exactly: `selfdestruct_present`
/// is listed iff some byte is 0xFF, `delegatecall_present` iff some byte is
/// 0xF4, `has_runtime_code` iff the buffer is non-empty, and no tag at all
/// only for the empty buffer.
pub proof fn lemma_tag_list_exact(b: Seq<u8>)
    ensures
        spec_tag_list(b).contains("selfdestruct_present"@) <==> b.contains(0xff),
        spec_tag_list(b).contains("delegatecall_present"@) <==> b.contains(0xf4),
        spec_tag_list(b).contains("has_runtime_code"@) <==> b.len() > 0,
        spec_tag_list(b).len() == 0 <==> b.len() == 0,
{
    reveal_strlit("selfdestruct_present");
    reveal_strlit("delegatecall_present");
    reveal_strlit("has_runtime_code");
    let t1 = "selfdestruct_present"@;
    let t2 = "delegatecall_present"@;
    let t3 = "has_runtime_code"@;
    assert(t1 != t2 && t1 != t3 && t2 != t3) by {
        assert(t1.len() == 20 && t2.len() == 20 && t3.len() == 16);
        assert(t1[0] == 's' && t2[0] == 'd');
    }
    let tags = spec_tag_list(b);
    if b.len() > 0 {
        assert(tags[tags.len() - 1] == t3);
        assert(tags.contains(t3));
    }
    if b.contains(0xff) {
        assert(tags[0] == t1);
        assert(tags.contains(t1));
        assert(b.len() > 0);
    }
    if b.contains(0xf4) {
        assert(b.len() > 0);
        if b.contains(0xff) {
            assert(tags[1] == t2);
        } else {
            assert(tags[0] == t2);
        }
        assert(tags.contains(t2));
    }
    assert forall|i: int| 0 <= i < tags.len() implies (tags[i] == t1 || tags[i] == t2 || tags[i] == t3) by {}
    if tags.contains(t1) {
        assert(b.contains(0xff)) by {
            if !b.contains(0xff) {
                let i = choose|i: int| 0 <= i < tags.len() && tags[i] == t1;
                assert(tags[i] == t2 || tags[i] == t3);
            }
        }
    }
    if tags.contains(t2) {
        assert(b.contains(0xf4)) by {
            if !b.contains(0xf4) {
                let i = choose|i: int| 0 <= i < tags.len() && tags[i] == t2;
                assert(tags[i] == t1 || tags[i] == t3);
            }
        }
    }
}

} // verus!

//! The challenge–response proof scheme: a SHA-256 binding of a challenge
//! to a contract address, carried in a serialized proof record.

use vstd::prelude::*;
use vstd::utf8::encode_utf8;
use crate::analyzer::spec_decoded_or_empty;
use crate::hexcode::{spec_hex_encode, is_lower_hex_digit, hex_decode, hex_encode, lemma_hex_encode_shape, hex_char};
use crate::hashing::{sha256_of, sha256};
use crate::record::{spec_record_bytes, spec_parse_record, is_plain, emit_record, parse_record, lemma_parse_record_roundtrip, lemma_record_bytes_valid_utf8};
use crate::text::{ascii_of, all_ascii_bytes, string_of_bytes, bytes_eq};

verus! {

/// A proof record: the contract address, the hex digest binding it to a
/// challenge, and an informational timestamp that the binding does not
/// cover.
pub struct ProofData {
    pub contract_address: String,
    pub proof_hash: String,
    pub timestamp: u64,
}

/// Relies on `std::time::SystemTime::now` for the wall clock: whole
/// seconds since the Unix epoch, or 0 should the clock read earlier than
/// the epoch. Nothing further can be promised of a clock reading.
#[verifier::external_body]
fn now_seconds() -> u64 {
    match std::time::SystemTime::now().duration_since(std::time::UNIX_EPOCH) {
        Ok(d) => d.as_secs(),
        Err(_) => 0,
    }
}

/// Holds a decoded challenge buffer; produces and checks hash bindings of
/// addresses to that challenge.
pub struct ProofGenerator {
    challenge: Vec<u8>,
}

impl ProofGenerator {
    /// The challenge bytes this generator was built over.
    pub closed spec fn challenge_bytes(&self) -> Seq<u8> {
        self.challenge@
    }

    /// The hex digest bytes that bind an address (as UTF-8 bytes) to this
    /// generator's challenge.
    pub open spec fn spec_binding(&self, addr: Seq<u8>) -> Seq<u8> {
        ascii_of(spec_hex_encode(sha256_of(self.challenge_bytes() + addr)))
    }

    /// What a verification of the given wire bytes returns: true exactly
    /// when they parse as a record whose hash is the binding of the
    /// record's own address; the timestamp is never checked.
    pub open spec fn spec_verify(&self, input: Seq<u8>) -> bool {
        match spec_parse_record(input) {
            Some((a, h, t)) => h == self.spec_binding(a),
            None => false,
        }
    }

    /// Builds a generator from a hex string; malformed hex yields the
    /// empty challenge rather than an error.
    pub fn new(challenge_hex: &str) -> (r: ProofGenerator)
        ensures
            r.challenge_bytes() == spec_decoded_or_empty(challenge_hex@),
    {
        match hex_decode(challenge_hex) {
            Some(v) => ProofGenerator { challenge: v },
            None => ProofGenerator { challenge: Vec::new() },
        }
    }

    /// The hex digest of the challenge followed by the address bytes.
    fn binding(&self, addr: &[u8]) -> (r: String)
        ensures
            r@ == spec_hex_encode(sha256_of(self.challenge_bytes() + addr@)),
            r@.len() == 64,
            forall|i: int| 0 <= i < r@.len() ==> is_lower_hex_digit(#[trigger] r@[i]),
    {
        let mut input: Vec<u8> = Vec::new();
        input.extend_from_slice(self.challenge.as_slice());
        input.extend_from_slice(addr);
        assert(input@ =~= self.challenge@ + addr@);
        let digest = sha256(input.as_slice());
        let r = hex_encode(digest.as_slice());
        proof {
            lemma_hex_encode_shape(digest@);
        }
        r
    }

    /// Serializes a record binding `contract_addr` to this generator's
    /// challenge, timestamped with the current wall clock: the returned
    /// string's UTF-8 bytes are the wire form of a record holding the
    /// address, its binding digest, and some timestamp.
    pub fn generate_proof(&self, contract_addr: &str) -> (r: String)
        ensures
            exists|ts: u64| encode_utf8(r@) == spec_record_bytes(encode_utf8(contract_addr@), self.spec_binding(encode_utf8(contract_addr@)), ts),
            self.spec_verify(encode_utf8(r@)),
    {
        let addr_bytes = contract_addr.as_bytes();
        let proof_hash = self.binding(addr_bytes);
        let timestamp = now_seconds();
        let record = ProofData {
            contract_address: contract_addr.to_owned(),
            proof_hash,
            timestamp,
        };
        let wire = emit_record(addr_bytes, record.proof_hash.as_str().as_bytes(), record.timestamp);
        proof {
            let a = encode_utf8(contract_addr@);
            let hc = spec_hex_encode(sha256_of(self.challenge_bytes() + a));
            broadcast use vstd::utf8::is_ascii_chars_encode_utf8;
            broadcast use vstd::utf8::encode_utf8_valid_utf8;

            assert(vstd::utf8::is_ascii_chars(hc)) by {
                assert(forall|i: int| 0 <= i < hc.len() ==> is_lower_hex_digit(#[trigger] hc[i]));
            }
            assert(record.proof_hash@ == hc);
            assert(encode_utf8(hc) =~= ascii_of(hc));
            assert(wire@ == spec_record_bytes(a, self.spec_binding(a), timestamp));
            assert(all_ascii_bytes(self.spec_binding(a)));
            lemma_record_bytes_valid_utf8(a, self.spec_binding(a), timestamp);
            lemma_binding_plain(hc);
            lemma_parse_record_roundtrip(a, self.spec_binding(a), timestamp);
        }
        let r = string_of_bytes(wire.as_slice());
        proof {
            let a = encode_utf8(contract_addr@);
            assert(encode_utf8(r@) == spec_record_bytes(a, self.spec_binding(a), timestamp));
        }
        r
    }

    /// Parses the given record and checks its hash against the binding of
    /// the address it names: true exactly when they agree; a malformed
    /// record is false, and the timestamp is never checked.
    pub fn verify_proof(&self, proof_json: &str) -> (r: bool)
        ensures
            r == self.spec_verify(encode_utf8(proof_json@)),
    {
        let bytes = proof_json.as_bytes();
        match parse_record(bytes) {
            None => false,
            Some((addr, hash, _timestamp)) => {
                let expected = self.binding(addr.as_slice());
                let ok = bytes_eq(hash.as_slice(), expected.as_str().as_bytes());
                proof {
                    let hc = spec_hex_encode(sha256_of(self.challenge_bytes() + addr@));
                    broadcast use vstd::utf8::is_ascii_chars_encode_utf8;

                    assert(vstd::utf8::is_ascii_chars(hc)) by {
                        assert(forall|i: int| 0 <= i < hc.len() ==> is_lower_hex_digit(#[trigger] hc[i]));
                    }
                    assert(expected@ == hc);
                    assert(encode_utf8(hc) =~= ascii_of(hc));
                }
                ok
            },
        }
    }
}

/// The digest bytes of a binding are plain string bytes: lowercase hex
/// digits need no escaping.
proof fn lemma_binding_plain(hc: Seq<char>)
    requires
        forall|i: int| 0 <= i < hc.len() ==> is_lower_hex_digit(#[trigger] hc[i]),
    ensures
        forall|i: int| 0 <= i < ascii_of(hc).len() ==> is_plain(#[trigger] ascii_of(hc)[i]),
{
    assert forall|i: int| 0 <= i < ascii_of(hc).len() implies is_plain(#[trigger] ascii_of(hc)[i]) by {
        assert(is_lower_hex_digit(hc[i]));
        assert(ascii_of(hc)[i] == hc[i] as u8);
    }
}

/// Round trip: whatever the challenge, the address and the timestamp, the
/// wire record that binds the address to the challenge verifies against
/// the same challenge.
pub proof fn lemma_proof_roundtrip(g: ProofGenerator, addr: Seq<u8>, ts: u64)
    ensures
        g.spec_verify(spec_record_bytes(addr, g.spec_binding(addr), ts)),
{
    let hc = spec_hex_encode(sha256_of(g.challenge_bytes() + addr));
    lemma_hex_encode_shape(sha256_of(g.challenge_bytes() + addr));
    lemma_binding_plain(hc);
    lemma_parse_record_roundtrip(addr, g.spec_binding(addr), ts);
}

/// Two characters in the ASCII range with distinct code points have
/// distinct byte values.
proof fn lemma_ascii_char_distinct(c1: char, c2: char)
    requires
        c1 != c2,
        (c1 as int) < 0x80,
        (c2 as int) < 0x80,
    ensures
        c1 as u8 != c2 as u8,
{
    broadcast use vstd::utf8::char_u32_cast;

    assert(c1 as u32 != c2 as u32);
}

/// Distinct digests have distinct hex digest bytes.
proof fn lemma_binding_injective(d1: Seq<u8>, d2: Seq<u8>)
    requires
        d1 != d2,
    ensures
        ascii_of(spec_hex_encode(d1)) != ascii_of(spec_hex_encode(d2)),
{
    let h1 = spec_hex_encode(d1);
    let h2 = spec_hex_encode(d2);
    let a1 = ascii_of(h1);
    let a2 = ascii_of(h2);
    if a1 == a2 {
        assert(h1.len() == 2 * d1.len() && h2.len() == 2 * d2.len());
        assert(a1.len() == h1.len() && a2.len() == h2.len());
        assert(d1.len() == d2.len());
        assert forall|i: int| 0 <= i < h1.len() implies h1[i] == h2[i] by {
            assert(a1[i] == h1[i] as u8 && a2[i] == h2[i] as u8);
            let v1 = if i % 2 == 0 { d1[i / 2] as int / 16 } else { d1[i / 2] as int % 16 };
            let v2 = if i % 2 == 0 { d2[i / 2] as int / 16 } else { d2[i / 2] as int % 16 };
            assert(h1[i] == hex_char(v1) && h2[i] == hex_char(v2));
            assert(hex_char(v1) as int == if v1 < 10 { 0x30 + v1 } else { 0x57 + v1 });
            assert(hex_char(v2) as int == if v2 < 10 { 0x30 + v2 } else { 0x57 + v2 });
            if h1[i] != h2[i] {
                lemma_ascii_char_distinct(h1[i], h2[i]);
            }
        }
        assert(h1 =~= h2);
        crate::hexcode::lemma_hex_encode_injective(d1, d2);
        assert(false);
    }
}

/// Tamper detection: substituting another address into a record while the
/// hash stays that of the original address makes verification fail,
/// provided the two addresses do not collide under SHA-256 (a case the
/// digest's contract cannot exclude).
pub proof fn lemma_tamper_detected(g: ProofGenerator, addr: Seq<u8>, addr2: Seq<u8>, ts: u64)
    requires
        sha256_of(g.challenge_bytes() + addr2) != sha256_of(g.challenge_bytes() + addr),
    ensures
        !g.spec_verify(spec_record_bytes(addr2, g.spec_binding(addr), ts)),
{
    let hc = spec_hex_encode(sha256_of(g.challenge_bytes() + addr));
    lemma_hex_encode_shape(sha256_of(g.challenge_bytes() + addr));
    lemma_binding_plain(hc);
    lemma_parse_record_roundtrip(addr2, g.spec_binding(addr), ts);
    lemma_binding_injective(sha256_of(g.challenge_bytes() + addr), sha256_of(g.challenge_bytes() + addr2));
}

} // verus!

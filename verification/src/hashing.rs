//! SHA-256 digests, taken from the `sha2` crate behind a named result.

use vstd::prelude::*;
use sha2::Digest;

verus! {

/// The SHA-256 digest of a byte sequence. The algorithm itself is not
/// restated here: the digest is a fixed function of the input bytes, named
/// so that contracts can speak of it exactly.
pub uninterp spec fn sha256_of(b: Seq<u8>) -> Seq<u8>;

/// Relies on `sha2::Sha256`: the digest is 32 bytes and depends on the
/// input bytes alone.
#[verifier::external_body]
pub(crate) fn sha256(b: &[u8]) -> (r: Vec<u8>)
    ensures
        r@ == sha256_of(b@),
        r@.len() == 32,
{
    sha2::Sha256::digest(b).to_vec()
}

} // verus!

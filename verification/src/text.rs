//! Small helpers for moving between strings and byte sequences.

use vstd::prelude::*;
use vstd::utf8::{encode_utf8, valid_utf8, valid_first_scalar, is_leading_byte_width_1, pop_first_scalar, length_of_first_scalar};

verus! {

/// The byte values of a sequence of ASCII characters.
pub open spec fn ascii_of(s: Seq<char>) -> Seq<u8> {
    Seq::new(s.len(), |i: int| s[i] as u8)
}

/// Every byte of the sequence is in the ASCII range.
pub open spec fn all_ascii_bytes(b: Seq<u8>) -> bool {
    forall|i: int| 0 <= i < b.len() ==> #[trigger] b[i] < 0x80
}

/// A sequence of ASCII bytes is valid UTF-8.
pub proof fn lemma_ascii_valid_utf8(b: Seq<u8>)
    requires
        all_ascii_bytes(b),
    ensures
        valid_utf8(b),
    decreases b.len(),
{
    if b.len() > 0 {
        assert(b[0] < 0x80);
        assert(is_leading_byte_width_1(b[0]));
        assert(valid_first_scalar(b));
        assert(length_of_first_scalar(b) == 1);
        let rest = pop_first_scalar(b);
        assert(rest =~= b.subrange(1, b.len() as int));
        assert(all_ascii_bytes(rest));
        lemma_ascii_valid_utf8(rest);
    }
}

/// Appends the bytes of an ASCII string literal to a byte buffer.
pub(crate) fn extend_ascii(out: &mut Vec<u8>, s: &str)
    requires
        vstd::string::is_ascii(s),
    ensures
        final(out)@ == old(out)@ + ascii_of(s@),
{
    proof {
        broadcast use vstd::string::is_ascii_spec_bytes;

    }
    let b = s.as_bytes();
    assert(b@ =~= ascii_of(s@));
    out.extend_from_slice(b);
    assert(out@ =~= old(out)@ + ascii_of(s@));
}

/// Relies on `String::from_utf8_lossy`: a byte sequence that is valid UTF-8
/// comes back as the string with exactly those bytes.
#[verifier::external_body]
pub(crate) fn string_of_bytes(v: &[u8]) -> (r: String)
    ensures
        valid_utf8(v@) ==> encode_utf8(r@) == v@,
{
    String::from_utf8_lossy(v).into_owned()
}

/// Whether two byte slices hold the same bytes.
pub(crate) fn bytes_eq(a: &[u8], b: &[u8]) -> (r: bool)
    ensures
        r <==> a@ == b@,
{
    if a.len() != b.len() {
        assert(a@.len() != b@.len());
        return false;
    }
    let n = a.len();
    let mut i: usize = 0;
    while i < n
        invariant
            n == a@.len() == b@.len(),
            0 <= i <= n,
            forall|j: int| 0 <= j < i ==> a@[j] == b@[j],
        decreases n - i,
    {
        if a[i] != b[i] {
            return false;
        }
        i += 1;
    }
    assert(a@ =~= b@);
    true
}

} // verus!

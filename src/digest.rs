//! Content digests.
use vstd::prelude::*;

verus! {

/// The lowercase hexadecimal BLAKE3 digest of a byte sequence.
pub uninterp spec fn blake3_hex(data: Seq<u8>) -> Seq<char>;

/// Relies on `blake3::Hasher` (one `update` with all of `data`, then `finalize`) and
/// `blake3::Hash::to_hex`: the digest of the bytes as 64 lowercase hexadecimal digits,
/// which depends on the bytes alone.
#[verifier::external_body]
pub(crate) fn digest_hex(data: &[u8]) -> (r: String)
    ensures
        r@ == blake3_hex(data@),
        r@.len() == 64,
        forall|i: int| 0 <= i < r@.len() ==> ('0' <= #[trigger] r@[i] <= '9') || ('a' <= r@[i] <= 'f'),
{
    let mut hasher = blake3::Hasher::new();
    hasher.update(data);
    hasher.finalize().to_hex().to_string()
}

} // verus!

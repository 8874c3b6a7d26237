//! Content digests: a 128-bit fingerprint of a byte sequence, never zero.
use vstd::prelude::*;

verus! {

/// The first 16 bytes of the BLAKE3 extendable output for `data`, read as a
/// little-endian integer.
pub uninterp spec fn blake3_128(data: Seq<u8>) -> u128;

/// Relies on `blake3::Hasher` (`update`, then `finalize_xof` and `fill`):
/// the result depends on the bytes alone.
#[verifier::external_body]
fn blake3_digest(data: &[u8]) -> (r: u128)
    ensures
        r == blake3_128(data@),
{
    let mut buffer = [0u8; 16];
    blake3::Hasher::new().update(data).finalize_xof().fill(&mut buffer);
    u128::from_le_bytes(buffer)
}

/// The digest that a hash value gives: zero is reserved and gives none.
pub open spec fn digest_of_hash(hash: u128) -> Option<u128> {
    if hash == 0 {
        None
    } else {
        Some(hash)
    }
}

/// The digest of a byte sequence.
pub open spec fn content_digest(data: Seq<u8>) -> Option<u128> {
    digest_of_hash(blake3_128(data))
}

/// Turns a hash value into a digest, refusing the reserved value zero.
pub fn digest_from_hash(hash: u128) -> (r: Option<u128>)
    ensures
        r == digest_of_hash(hash),
{
    if hash == 0 {
        None
    } else {
        Some(hash)
    }
}

/// Computes the digest of `input`; `None` only where the hash is the
/// reserved value zero.
pub fn compute_content_digest(input: &[u8]) -> (r: Option<u128>)
    ensures
        r == content_digest(input@),
{
    let hash = blake3_digest(input);
    digest_from_hash(hash)
}

/// The digest of a content depends on the bytes alone: the same bytes,
/// whether held in memory or read again from disk, give the same digest.
pub proof fn law_digest_stable(a: Seq<u8>, b: Seq<u8>)
    requires
        a == b,
    ensures
        content_digest(a) == content_digest(b),
{
}

} // verus!

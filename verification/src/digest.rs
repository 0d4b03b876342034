//! The SHA-256 digest that both MinHash and SimHash derive their feature hashes from.
use sha2::Digest;
use vstd::bytes::{spec_u64_from_le_bytes, u64_from_le_bytes};
use vstd::prelude::*;

verus! {

/// The SHA-256 digest of `data`, as the `sha2` crate computes it.
pub uninterp spec fn spec_sha256(data: Seq<u8>) -> Seq<u8>;

/// Calls `sha2::Sha256::digest` on `data`. Trusted to return the digest that
/// `spec_sha256` names for these bytes, which is 32 bytes long, as the
/// crate's `Sha256` output size is.
#[verifier::external_body]
fn sha256(data: &[u8]) -> (digest: Vec<u8>)
    ensures
        digest@ == spec_sha256(data@),
        digest@.len() == 32,
{
    sha2::Sha256::digest(data).to_vec()
}

/// The first eight bytes of the SHA-256 digest of `data`, read as a
/// little-endian `u64`.
pub open spec fn spec_digest_prefix_u64(data: Seq<u8>) -> u64 {
    spec_u64_from_le_bytes(spec_sha256(data).subrange(0, 8))
}

/// The first eight bytes of the SHA-256 digest of `data`, read as a
/// little-endian `u64`.
pub fn digest_prefix_u64(data: &[u8]) -> (h: u64)
    ensures
        h == spec_digest_prefix_u64(data@),
{
    let digest = sha256(data);
    let prefix = vstd::slice::slice_subrange(digest.as_slice(), 0, 8);
    u64_from_le_bytes(prefix)
}

} // verus!

//! The checksum that closes a packed file.

use sha2::Digest;
use sha2::Sha256;
use vstd::prelude::*;

verus! {

/// The longest input, in bytes, whose bit count fits in 64 bits.
pub const MAX_HASHED: u64 = 0x1FFF_FFFF_FFFF_FFFF;

/// The SHA-256 digest of `data`.
pub uninterp spec fn sha256(data: Seq<u8>) -> [u8; 32];

/// Calls `Sha256::new`, `update` and `finalize` of the `sha2` crate, and takes
/// it that the digest is a function of the bytes alone. Which function it is
/// goes unsaid. The hasher counts bits in 64 bits, hence the bound.
#[verifier::external_body]
pub(crate) fn sha256_digest(data: &[u8]) -> (digest: [u8; 32])
    requires
        data@.len() <= MAX_HASHED,
    ensures
        digest@ == sha256(data@)@,
{
    let mut hasher = Sha256::new();
    hasher.update(data);
    hasher.finalize().into()
}

} // verus!

//! Keccak-256.
use vstd::prelude::*;

verus! {

/// The Keccak-256 digest of a byte string.
pub uninterp spec fn keccak256_digest(bytes: Seq<u8>) -> Seq<u8>;

/// `alloy_primitives::keccak256`: the Keccak-256 digest of `bytes`.
///
/// Nothing is proved of the digest; the contract gives it its name, which
/// says that it depends on the bytes alone.
#[verifier::external_body]
pub(crate) fn keccak256(bytes: &[u8]) -> (r: [u8; 32])
    ensures
        r@ == keccak256_digest(bytes@),
{
    alloy_primitives::keccak256(bytes).0
}

} // verus!

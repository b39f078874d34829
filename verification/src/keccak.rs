//! The 32-byte digest primitive and its two-child composition.

use crate::utils::concat_fixed;
use vstd::prelude::*;

verus! {

/// Digest of `input` under the Keccak-256 compression function. The digest is
/// a pure function of the input bytes, named here rather than written out:
/// the library relies on the outside implementation for its value.
pub uninterp spec fn keccak_of(input: Seq<u8>) -> Seq<u8>;

/// Relies on alloy_primitives::keccak256: returns the 32-byte Keccak-256
/// digest of `input`, a deterministic function of `input` alone.
#[verifier::external_body]
pub(crate) fn keccak256(input: &[u8]) -> (r: [u8; 32])
    ensures
        r@ == keccak_of(input@),
        r@.len() == 32,
{
    alloy_primitives::keccak256(input).0
}

/// Parent digest of two child digests: the hash of their concatenation,
/// left child first.
pub fn keccak_concat_hashes(a: [u8; 32], b: [u8; 32]) -> (r: [u8; 32])
    ensures
        r@ == keccak_of(a@ + b@),
        keccak_of(a@ + b@).len() == 32,
{
    let joined = concat_fixed(a, b);
    keccak256(joined.as_slice())
}

} // verus!

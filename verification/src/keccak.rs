//! Keccak-256, computed by the `sha3` crate.

use sha3::{Digest, Keccak256};
use vstd::prelude::*;

verus! {

/// The Keccak-256 digest of a byte string.
pub uninterp spec fn keccak256(data: Seq<u8>) -> Seq<u8>;

/// Feeds `left` and then `right` to one `sha3::Keccak256` hasher
/// (`Digest::new`, `Digest::update` twice, `Digest::finalize`) and returns
/// the digest. Trusted: the result is the Keccak-256 digest of `left`
/// followed by `right`, and it is 32 bytes long.
#[verifier::external_body]
pub(crate) fn keccak256_pair(left: &[u8], right: &[u8]) -> (digest: Vec<u8>)
    ensures
        digest@ == keccak256(left@ + right@),
        digest@.len() == 32,
{
    let mut hasher = Keccak256::new();
    hasher.update(left);
    hasher.update(right);
    hasher.finalize().to_vec()
}

} // verus!

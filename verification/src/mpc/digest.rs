//! The digest by which parties compare their plans.

use sha3::{Digest, Sha3_512};
use vstd::prelude::*;

verus! {

/// The SHA3-512 digest of a message.
pub uninterp spec fn sha3_512(message: Seq<u8>) -> Seq<u8>;

/// Calls `sha3::Sha3_512`: feeds it the message and takes the digest, which has 64 bytes and
/// depends on the message alone.
#[verifier::external_body]
pub(crate) fn sha3_512_digest(message: &[u8]) -> (digest: Vec<u8>)
    ensures
        digest@ == sha3_512(message@),
        digest@.len() == 64,
{
    let mut hasher = Sha3_512::new();
    hasher.update(message);
    hasher.finalize().to_vec()
}

} // verus!

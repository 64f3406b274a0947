//! SHA-1 digests.
use vstd::prelude::*;
use sha1::{Digest, Sha1};

verus! {

/// The SHA-1 digest of a byte sequence.
pub uninterp spec fn sha1_digest(data: Seq<u8>) -> Seq<u8>;

/// The SHA-1 digest of `data`, from `sha1::Sha1::digest`. Trusted: the result
/// is the digest of exactly `data` and, as the digest type of that hasher
/// fixes, 20 bytes long.
#[verifier::external_body]
pub fn sha1_hash(data: &[u8]) -> (r: Vec<u8>)
    ensures
        r@ == sha1_digest(data@),
        r@.len() == 20,
{
    Sha1::digest(data).to_vec()
}

} // verus!

//! The SHA-1 digest, used for the info-hash and for piece verification.

use vstd::prelude::*;

use sha1::Digest;

verus! {

/// What SHA-1 returns for the given bytes: a pure function of them.
pub uninterp spec fn sha1_of(data: Seq<u8>) -> Seq<u8>;

/// Relies on sha1::Sha1::digest: the SHA-1 digest of the input, a
/// function of the input bytes alone, always 20 bytes long.
#[verifier::external_body]
pub fn sha1_digest(data: &[u8]) -> (r: Vec<u8>)
    ensures
        r@ == sha1_of(data@),
        r@.len() == 20,
{
    sha1::Sha1::digest(data).to_vec()
}

} // verus!

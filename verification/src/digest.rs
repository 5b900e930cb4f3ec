//! The 160-bit hashing primitive and fixed-size digests.
use vstd::prelude::*;
use sha1::{Digest, Sha1};

verus! {

/// The SHA-1 digest of a byte string, as the `sha1` crate computes it.
pub uninterp spec fn sha1_digest(data: Seq<u8>) -> Seq<u8>;

/// Calls `Sha1::digest` of the `sha1` crate on the whole of `data`.
///
/// Trusted: the 20 bytes returned are the SHA-1 digest of exactly the bytes of
/// `data`, a function of those bytes alone.
#[verifier::external_body]
pub(crate) fn sha1_of(data: &[u8]) -> (digest: [u8; 20])
    ensures
        digest@ == sha1_digest(data@),
{
    let mut out = [0u8; 20];
    out.copy_from_slice(Sha1::digest(data).as_slice());
    out
}

/// The first 20 bytes of a piece hash, as a fixed-size digest.
pub fn unwrap_piece(piece: &[u8]) -> (array: [u8; 20])
    requires
        piece@.len() >= 20,
    ensures
        array@ == piece@.subrange(0, 20),
{
    let mut array: [u8; 20] = [0u8; 20];
    let mut i: usize = 0;
    while i < 20
        invariant
            i <= 20,
            piece@.len() >= 20,
            forall|j: int| 0 <= j < i ==> array@[j] == piece@[j],
        decreases 20 - i,
    {
        array[i] = piece[i];
        i += 1;
    }
    assert(array@ =~= piece@.subrange(0, 20));
    array
}

/// Whether two digests hold the same 20 bytes.
pub fn same_digest(a: &[u8; 20], b: &[u8; 20]) -> (same: bool)
    ensures
        same == (a@ == b@),
{
    let mut i: usize = 0;
    while i < 20
        invariant
            i <= 20,
            forall|j: int| 0 <= j < i ==> a@[j] == b@[j],
        decreases 20 - i,
    {
        if a[i] != b[i] {
            return false;
        }
        i += 1;
    }
    assert(a@ =~= b@);
    true
}

} // verus!

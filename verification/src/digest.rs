//! Chunk identity: the 32-byte BLAKE3 digest of the chunk's bytes.

use vstd::prelude::*;

verus! {

/// The BLAKE3 digest of a byte string. The digest is a pure function of the
/// bytes alone, which is what makes backups deterministic and lets a digest
/// stand for a chunk's content across snapshots.
pub uninterp spec fn blake3_of(data: Seq<u8>) -> Seq<u8>;

/// Relies on blake3::hash: the digest of a byte slice, always 32 bytes long
/// and depending on the input bytes alone.
#[verifier::external_body]
pub fn blake3_hash(data: &Vec<u8>) -> (r: Vec<u8>)
    ensures
        r@ == blake3_of(data@),
        r@.len() == 32,
{
    blake3::hash(data.as_slice()).as_bytes().to_vec()
}

} // verus!

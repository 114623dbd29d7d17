//! Content hashing for indexed files.

use vstd::prelude::*;
use blake2::Digest;

verus! {

/// The Blake2b-512 digest of a byte sequence. The digest is a pure
/// function of the bytes; its value is not modelled here.
pub uninterp spec fn blake2b512_of(s: Seq<u8>) -> Seq<u8>;

/// Relies on blake2::Blake2b512 through Digest::digest: a 64-byte digest
/// that depends on the input bytes alone.
#[verifier::external_body]
pub fn hash_file(content: &Vec<u8>) -> (r: Vec<u8>)
    ensures
        r@ == blake2b512_of(content@),
        r@.len() == 64,
{
    blake2::Blake2b512::digest(content.as_slice()).to_vec()
}

} // verus!

//! The content hash: a 20-byte digest over raw bytes.

use vstd::prelude::*;
use crypto::digest::Digest;

verus! {

/// The digest that the hash function assigns to a byte sequence.
pub uninterp spec fn sha1_of(input: Seq<u8>) -> Seq<u8>;

/// Relies on `crypto::sha1::Sha1` (`input` then `result`): the digest is a
/// function of the input bytes alone and is always exactly 20 bytes long.
#[verifier::external_body]
pub fn calculate_sha1_bytes(input: &[u8]) -> (r: Vec<u8>)
    ensures
        r@ == sha1_of(input@),
        r@.len() == 20,
{
    let mut hasher = crypto::sha1::Sha1::new();
    hasher.input(input);
    let mut result = vec![0; hasher.output_bytes()];
    hasher.result(&mut result);
    result
}

} // verus!

//! Cryptographic primitives: hashing a single block and hashing the
//! concatenation of two digests, both through SHA-256.

use sha2::{Digest, Sha256};
use vstd::prelude::*;

verus! {

/// The digest that SHA-256 assigns to a byte sequence. The function is left
/// uninterpreted: proofs rely only on it being a fixed function of the input
/// bytes, never on the value of any particular digest.
pub uninterp spec fn sha256(bytes: Seq<u8>) -> Seq<u8>;

/// Digest of a single data block.
pub open spec fn leaf_hash(block: Seq<u8>) -> Seq<u8> {
    sha256(block)
}

/// Digest of an internal node: the hash of the two child digests
/// concatenated, left first. Swapping the children changes the hashed bytes,
/// so in general it changes the digest.
pub open spec fn node_hash(left: Seq<u8>, right: Seq<u8>) -> Seq<u8> {
    sha256(left + right)
}

/// Returns the hash digest of a single data slice.
///
/// Relies on sha2::Sha256 through the digest crate's `Digest` trait:
/// `update` followed by `finalize` returns the SHA-256 digest of the bytes
/// fed in, a pure function of those bytes, always 32 bytes long.
#[verifier::external_body]
pub fn hash_value(data: &[u8]) -> (r: Vec<u8>)
    ensures
        r@ == sha256(data@),
        r@.len() == 32,
{
    let mut hasher = Sha256::new();
    hasher.update(data);
    hasher.finalize().to_vec()
}

/// Concatenates two hashes and returns the hash of the result.
///
/// Relies on sha2::Sha256: `update` hashes a running byte stream, so feeding
/// `a` and then `b` digests the concatenation of the two, 32 bytes long.
#[verifier::external_body]
pub fn hash_combined(a: &Vec<u8>, b: &Vec<u8>) -> (r: Vec<u8>)
    ensures
        r@ == sha256(a@ + b@),
        r@.len() == 32,
{
    let mut hasher = Sha256::new();
    hasher.update(a);
    hasher.update(b);
    hasher.finalize().to_vec()
}

} // verus!

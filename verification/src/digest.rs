//! SHA-256, the one digest every hash in the tree is made with.

use sha2::{Digest, Sha256};
use vstd::prelude::*;

verus! {

/// Length in bytes of a SHA-256 digest.
pub const DIGEST_LEN: usize = 32;

/// The SHA-256 digest of `data`.
pub uninterp spec fn sha256(data: Seq<u8>) -> Seq<u8>;

/// The bytes hashed for a parent node: the left child's hash followed by the
/// right child's, with nothing in between.
pub open spec fn pair_bytes(left: Seq<u8>, right: Seq<u8>) -> Seq<u8> {
    left + right
}

/// The hash of a parent node whose children hash to `left` and `right`.
pub open spec fn pair_digest(left: Seq<u8>, right: Seq<u8>) -> Seq<u8> {
    sha256(pair_bytes(left, right))
}

/// Two different inputs with the same digest.
pub open spec fn collide(a: Seq<u8>, b: Seq<u8>) -> bool {
    a != b && sha256(a) == sha256(b)
}

/// Calls `sha2::Sha256::digest` (the `Digest` trait's one-shot function) and
/// copies the output into a `Vec`. Trusted: the output is the SHA-256 digest
/// of exactly the bytes given, and is 32 bytes long.
#[verifier::external_body]
pub(crate) fn sha256_digest(data: &[u8]) -> (out: Vec<u8>)
    ensures
        out@ == sha256(data@),
        out@.len() == DIGEST_LEN,
{
    Sha256::digest(data).to_vec()
}

/// Hashes one blob.
pub fn hash_leaf(data: &Vec<u8>) -> (out: Vec<u8>)
    ensures
        out@ == sha256(data@),
        out@.len() == DIGEST_LEN,
{
    sha256_digest(data.as_slice())
}

/// Hashes two child hashes into their parent's: `left` first, then `right`.
pub fn hash_pair(left: &Vec<u8>, right: &Vec<u8>) -> (out: Vec<u8>)
    ensures
        out@ == pair_digest(left@, right@),
        out@.len() == DIGEST_LEN,
{
    let mut joined = left.clone();
    joined.extend_from_slice(right.as_slice());
    assert(joined@ =~= left@ + right@);
    sha256_digest(joined.as_slice())
}

} // verus!

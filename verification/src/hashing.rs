//! The digest behind every internal node of the tree.
//!
//! The engine never states what the digest of a byte string is, only that it
//! is a function of those bytes alone and is 32 bytes long; `hash_of` names
//! that function and every contract above speaks through it.

use sha2::Digest;
use vstd::prelude::*;

verus! {

/// The number of bytes in a chunk, and in a digest.
pub const HASHSIZE: usize = 32;

/// The digest of a byte sequence, as the outside hash function computes it.
pub uninterp spec fn hash_of(bytes: Seq<u8>) -> Seq<u8>;

/// Relies on sha2::Sha256 through the Digest trait: Sha256::digest computes
/// the SHA-256 digest of the input bytes alone, and a SHA-256 digest is
/// exactly 32 bytes.
#[verifier::external_body]
pub fn hash32(input: &[u8]) -> (r: Vec<u8>)
    ensures
        r@ == hash_of(input@),
        r@.len() == 32,
{
    sha2::Sha256::digest(input).to_vec()
}

/// Concatenate two byte vectors into a fresh one.
pub fn concat_bytes(a: &Vec<u8>, b: &Vec<u8>) -> (r: Vec<u8>)
    ensures
        r@ == a@ + b@,
{
    let mut joined: Vec<u8> = Vec::new();
    let mut i: usize = 0;
    while i < a.len()
        invariant
            i <= a@.len(),
            joined@ == a@.subrange(0, i as int),
        decreases a@.len() - i,
    {
        joined.push(a[i]);
        assert(a@.subrange(0, i + 1) =~= a@.subrange(0, i as int).push(a@[i as int]));
        i = i + 1;
    }
    assert(joined@ =~= a@);
    let mut j: usize = 0;
    while j < b.len()
        invariant
            j <= b@.len(),
            joined@ == a@ + b@.subrange(0, j as int),
        decreases b@.len() - j,
    {
        joined.push(b[j]);
        assert(a@ + b@.subrange(0, j + 1) =~= (a@ + b@.subrange(0, j as int)).push(b@[j as int]));
        j = j + 1;
    }
    assert(joined@ =~= a@ + b@);
    joined
}

/// Hash the concatenation of two 32-byte chunks, as happens for every parent
/// node of the tree.
pub fn hash_pair(left: &Vec<u8>, right: &Vec<u8>) -> (r: Vec<u8>)
    requires
        left@.len() == 32,
        right@.len() == 32,
    ensures
        r@ == hash_of(left@ + right@),
        r@.len() == 32,
{
    let joined = concat_bytes(left, right);
    hash32(joined.as_slice())
}

} // verus!

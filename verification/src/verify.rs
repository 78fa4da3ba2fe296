//! Digests of pieces.

use sha2::{Digest, Sha256};

use vstd::prelude::*;

verus! {

/// The SHA-256 digest of `data`, as [`sha2::Sha256`] computes it.
pub uninterp spec fn sha256_of(data: Seq<u8>) -> Seq<u8>;

/// `expected` is the digest of `data`.
pub open spec fn matches_digest(data: Seq<u8>, expected: Seq<u8>) -> bool {
    expected == sha256_of(data)
}

/// The length of `data` in bits fits in the 64 bits that SHA-256 has for it.
pub open spec fn hashable(data: Seq<u8>) -> bool {
    data.len() * 8 <= u64::MAX
}

/// Calls `sha2::Sha256::digest`. Taken on trust: the digest depends on nothing but the bytes of
/// `data`, and is the one that [`sha256_of`] names. That it is 32 bytes long is its type.
#[verifier::external_body]
pub(crate) fn sha256(data: &[u8]) -> (digest: [u8; 32])
    requires
        hashable(data@),
    ensures
        digest@ == sha256_of(data@),
{
    Sha256::digest(data).into()
}

/// Whether two digests are the same, byte by byte.
pub fn same_digest(a: &[u8; 32], b: &[u8; 32]) -> (r: bool)
    ensures
        r == (*a == *b),
        r == (a@ == b@),
{
    let mut i: usize = 0;
    while i < 32
        invariant
            i <= 32,
            forall|j: int| 0 <= j < i ==> #[trigger] a@[j] == b@[j],
        decreases 32 - i,
    {
        if a[i] != b[i] {
            assert(a@[i as int] != b@[i as int]);
            return false;
        }
        i = i + 1;
    }
    assert(a@ =~= b@);
    assert(*a =~= *b);
    true
}

/// Whether `data` is the piece with digest `expected_hash`.
pub fn verify_piece(data: &[u8], expected_hash: &[u8; 32]) -> (r: bool)
    requires
        hashable(data@),
    ensures
        r == matches_digest(data@, expected_hash@),
{
    let hash: [u8; 32] = sha256(data);
    same_digest(&hash, expected_hash)
}

/// The SHA-256 digest of a piece.
pub fn hash_piece(data: &[u8]) -> (hash: [u8; 32])
    requires
        hashable(data@),
    ensures
        hash@ == sha256_of(data@),
{
    sha256(data)
}

/// A piece is verified by the digest that is computed from it, and by no other.
pub proof fn law_verified_by_own_digest(data: Seq<u8>, hash: Seq<u8>, expected: Seq<u8>)
    requires
        hash == sha256_of(data),
    ensures
        matches_digest(data, expected) <==> expected == hash,
{
}

} // verus!

//! Digests.

use std::collections::hash_map::DefaultHasher;
use std::hash::Hasher;
use vstd::prelude::*;
use vstd::std_specs::hash::DefaultHasherAdditionalSpecFns;
use crate::codec::{le_bytes, put_le};

verus! {

/// The SHA-256 digest of `bytes`, as `solana_sha256_hasher` computes it.
pub uninterp spec fn sha256_of(bytes: Seq<u8>) -> Seq<u8>;

/// `solana_sha256_hasher::hashv`, which digests the concatenation of its
/// parts, here of one part: the 32 bytes are a function of `bytes`.
#[verifier::external_body]
pub(crate) fn sha256(bytes: &[u8]) -> (digest: [u8; 32])
    ensures
        digest@ == sha256_of(bytes@),
{
    solana_sha256_hasher::hashv(&[bytes]).to_bytes()
}

/// The standard hasher's value for a byte string: its length as eight bytes,
/// then the bytes.
pub open spec fn hash_of(bytes: Seq<u8>) -> u64 {
    DefaultHasher::spec_finish(
        Seq::empty().push(le_bytes(bytes.len(), 8)).push(bytes),
    )
}

/// A 64-bit digest of `bytes`.
pub fn hash_bytes(bytes: &[u8]) -> (hash: u64)
    ensures
        hash == hash_of(bytes@),
{
    let mut hasher = DefaultHasher::new();
    let mut len: Vec<u8> = Vec::new();
    put_le(&mut len, bytes.len() as u128, 8);
    assert(len@ =~= le_bytes(bytes@.len(), 8));
    hasher.write(&len);
    hasher.write(bytes);
    hasher.finish()
}

} // verus!

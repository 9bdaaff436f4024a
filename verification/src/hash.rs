//! Stable 64-bit hashes of byte strings.

use crate::bytes::{le_bytes, push_le};
use std::collections::hash_map::DefaultHasher;
use std::hash::Hasher;
use vstd::prelude::*;
use vstd::std_specs::hash::DefaultHasherAdditionalSpecFns;

verus! {

/// The hash of a byte string: its length as eight little-endian bytes, then its
/// bytes, through the standard hasher in its fixed initial state.
pub open spec fn hash_of(data: Seq<u8>) -> u64 {
    DefaultHasher::spec_finish(seq![le_bytes(data.len(), 8), data])
}

/// The hash of a byte string under a seed, which is hashed before it.
pub open spec fn seeded_hash_of(data: Seq<u8>, seed: u64) -> u64 {
    DefaultHasher::spec_finish(seq![le_bytes(seed as nat, 8), le_bytes(data.len(), 8), data])
}

/// Hashes a byte string.
pub fn hash_bytes(data: &[u8]) -> (h: u64)
    ensures
        h == hash_of(data@),
{
    let mut prefix: Vec<u8> = Vec::new();
    push_le(&mut prefix, data.len() as u64, 8);
    assert(prefix@ =~= le_bytes(data@.len(), 8));
    let mut hasher = DefaultHasher::new();
    hasher.write(prefix.as_slice());
    hasher.write(data);
    assert(hasher@ =~= seq![le_bytes(data@.len(), 8), data@]);
    hasher.finish()
}

/// Hashes a byte string under a seed.
pub fn seeded_hash(data: &[u8], seed: u64) -> (h: u64)
    ensures
        h == seeded_hash_of(data@, seed),
{
    let mut first: Vec<u8> = Vec::new();
    push_le(&mut first, seed, 8);
    assert(first@ =~= le_bytes(seed as nat, 8));
    let mut prefix: Vec<u8> = Vec::new();
    push_le(&mut prefix, data.len() as u64, 8);
    assert(prefix@ =~= le_bytes(data@.len(), 8));
    let mut hasher = DefaultHasher::new();
    hasher.write(first.as_slice());
    hasher.write(prefix.as_slice());
    hasher.write(data);
    assert(hasher@ =~= seq![le_bytes(seed as nat, 8), le_bytes(data@.len(), 8), data@]);
    hasher.finish()
}

} // verus!

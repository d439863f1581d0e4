//! The injected hashing capability: given a byte sequence, produce a 64-bit
//! digest, deterministically for a fixed builder instance.
//!
//! The digest is a seeded FNV-1a over the key bytes. No cryptographic
//! strength is claimed; the filter only needs near-uniform bit selection.

use vstd::prelude::*;

verus! {

/// The 64-bit FNV prime.
pub const FNV_PRIME: u64 = 0x100000001b3;

/// The 64-bit FNV offset basis, the default seed of the first builder.
pub const DEFAULT_SEED_1: u64 = 0xcbf29ce484222325;

/// A second, independent default seed for the second builder.
pub const DEFAULT_SEED_2: u64 = 0x9e3779b97f4a7c15;

/// The digest of `key` under a builder seeded with `seed`: seeded FNV-1a,
/// folding each byte in with xor followed by a wrapping multiply.
pub open spec fn fnv1a_digest(seed: u64, key: Seq<u8>) -> u64
    decreases key.len(),
{
    if key.len() == 0 {
        seed
    } else {
        (fnv1a_digest(seed, key.drop_last()) ^ (key.last() as u64)).wrapping_mul(FNV_PRIME)
    }
}

/// A hash-builder capability: produces a 64-bit digest for a given key,
/// deterministically for a fixed instance. Two instances with distinct seeds
/// act as the two independently-seeded hash functions a filter needs.
pub struct HashBuilder {
    seed: u64,
}

impl View for HashBuilder {
    type V = u64;

    closed spec fn view(&self) -> u64 {
        self.seed
    }
}

impl HashBuilder {
    /// Creates a builder with an explicit seed, for determinism and testing.
    pub fn new(seed: u64) -> (r: HashBuilder)
        ensures
            r@ == seed,
    {
        HashBuilder { seed }
    }

    /// Computes the digest of `key` under this builder.
    pub fn digest(&self, key: &[u8]) -> (r: u64)
        ensures
            r == fnv1a_digest(self@, key@),
    {
        let mut h = self.seed;
        let mut idx: usize = 0;
        while idx < key.len()
            invariant
                idx <= key@.len(),
                h == fnv1a_digest(self.seed, key@.take(idx as int)),
            decreases key@.len() - idx,
        {
            h = (h ^ (key[idx] as u64)).wrapping_mul(FNV_PRIME);
            idx = idx + 1;
            proof {
                let pre = key@.take(idx - 1);
                let cur = key@.take(idx as int);
                assert(cur.drop_last() =~= pre);
                assert(cur.last() == key@[idx - 1]);
            }
        }
        proof {
            assert(key@.take(key@.len() as int) =~= key@);
        }
        h
    }
}

} // verus!

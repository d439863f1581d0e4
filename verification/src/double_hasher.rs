//! The digest pair generator: derives an effectively infinite, deterministic,
//! restartable sequence of 64-bit values for a key from exactly two
//! underlying hash computations (double hashing).

use vstd::prelude::*;

use crate::hashing::{fnv1a_digest, HashBuilder};

verus! {

/// The value at position `i` of the double-hashing sequence with base
/// digests `h1` and `h2`: index 0 is `h1`, index 1 is `h2`, and index
/// `i >= 2` is `h1 + i * h2` under wrapping 64-bit arithmetic.
pub open spec fn dh_value(h1: u64, h2: u64, i: u64) -> u64 {
    if i == 0 {
        h1
    } else if i == 1 {
        h2
    } else {
        h1.wrapping_add(i.wrapping_mul(h2))
    }
}

/// A double hasher: holds the two base digests of one key and a position
/// counter, and hands the sequence out one value per call.
pub struct DoubleHasher {
    h1: u64,
    h2: u64,
    i: u64,
}

/// The double hasher's abstract state: base digests and position counter.
pub ghost struct DoubleHasherV {
    pub h1: u64,
    pub h2: u64,
    pub i: u64,
}

impl View for DoubleHasher {
    type V = DoubleHasherV;

    closed spec fn view(&self) -> DoubleHasherV {
        DoubleHasherV { h1: self.h1, h2: self.h2, i: self.i }
    }
}

impl DoubleHasher {
    /// Creates a generator for `key`: computes `h1` as the digest of `key`
    /// under `builder_1` and `h2` under `builder_2`, and starts at position 0.
    pub fn new(key: &[u8], builder_1: &HashBuilder, builder_2: &HashBuilder) -> (r: DoubleHasher)
        ensures
            r@.h1 == fnv1a_digest(builder_1@, key@),
            r@.h2 == fnv1a_digest(builder_2@, key@),
            r@.i == 0,
    {
        let h1 = builder_1.digest(key);
        let h2 = builder_2.digest(key);
        DoubleHasher { h1, h2, i: 0 }
    }

    /// Returns the value at the current position and advances the counter.
    pub fn next(&mut self) -> (r: u64)
        requires
            old(self)@.i < u64::MAX,
        ensures
            r == dh_value(old(self)@.h1, old(self)@.h2, old(self)@.i),
            final(self)@.h1 == old(self)@.h1,
            final(self)@.h2 == old(self)@.h2,
            final(self)@.i == old(self)@.i + 1,
    {
        let hash = if self.i == 0 {
            self.h1
        } else if self.i == 1 {
            self.h2
        } else {
            self.h1.wrapping_add(self.i.wrapping_mul(self.h2))
        };
        self.i = self.i + 1;
        hash
    }
}

/// The double-hashing recurrence: every element at index 2 or beyond equals
/// the element at index 0 plus the index times the element at index 1, under
/// wrapping 64-bit arithmetic.
pub proof fn lemma_dh_recurrence(h1: u64, h2: u64, i: u64)
    requires
        i >= 2,
    ensures
        dh_value(h1, h2, i) == dh_value(h1, h2, 0).wrapping_add(
            i.wrapping_mul(dh_value(h1, h2, 1)),
        ),
{
}

} // verus!

//! The fixed-capacity Bloom filter: a bit array of length `m`, a
//! hash-function count `k`, and two hash-builder capabilities. A key maps to
//! `k` bit positions through the double-hashing sequence; `insert` sets
//! them, `contains` tests them.

use vstd::prelude::*;

use crate::bits::{
    bits_of, bv_from_elem, bv_get, bv_set, count_true, lemma_count_true_le_len,
    lemma_count_true_update,
};
use crate::double_hasher::{dh_value, DoubleHasher};
use crate::errors::FilterError;
use crate::hashing::{fnv1a_digest, HashBuilder, DEFAULT_SEED_1, DEFAULT_SEED_2};
use crate::sizing::{
    hash_count_spec, optimal_number_of_hash_functions, optimal_required_bits,
    required_bits_exact, Fpp,
};

verus! {

/// The abstract state of a fixed filter: its bits, its dimensions, and the
/// seeds of its two hash builders.
pub ghost struct BloomFilterV {
    pub bits: Seq<bool>,
    pub m: usize,
    pub n: usize,
    pub k: usize,
    pub s1: u64,
    pub s2: u64,
}

/// A well-formed filter: the bit array has length `m`, at least one bit and
/// one hash function exist, and the inserted count never exceeds the number
/// of set bits (each counted insertion set at least one fresh bit).
pub open spec fn bf_wf(v: BloomFilterV) -> bool {
    &&& v.bits.len() == v.m
    &&& v.m >= 1
    &&& v.k >= 1
    &&& v.n <= count_true(v.bits)
}

impl BloomFilterV {
    /// The bit index that hash position `j` selects for `key`: the `j`-th
    /// double-hashing value, reduced modulo `m`.
    pub open spec fn pos(self, key: Seq<u8>, j: u64) -> int {
        ((dh_value(fnv1a_digest(self.s1, key), fnv1a_digest(self.s2, key), j) as usize) % (
        self.m)) as int
    }

    /// Whether all `k` bit positions of `key` are set: the filter then
    /// reports the key as possibly present.
    pub open spec fn key_present(self, key: Seq<u8>) -> bool {
        forall|j: u64| (j as int) < (self.k as int) ==> self.bits[#[trigger] self.pos(key, j)]
    }

    /// The bits after the first `j` hash positions of `key` have been set.
    pub open spec fn partial_bits(self, key: Seq<u8>, j: int) -> Seq<bool> {
        Seq::new(
            self.bits.len(),
            |i: int|
                self.bits[i] || exists|jj: u64|
                    (jj as int) < j && #[trigger] self.pos(key, jj) == i,
        )
    }

    /// The bits after an insert of `key`: every one of its `k` positions
    /// set, everything else unchanged.
    pub open spec fn bits_after_insert(self, key: Seq<u8>) -> Seq<bool> {
        self.partial_bits(key, self.k as int)
    }

    /// The whole filter after an insert of `key`: the bits grow as above,
    /// and the count of inserted elements rises exactly when some position
    /// was not yet set.
    pub open spec fn after_insert(self, key: Seq<u8>) -> BloomFilterV {
        BloomFilterV {
            bits: self.bits_after_insert(key),
            n: if self.key_present(key) {
                self.n
            } else {
                (self.n + 1) as usize
            },
            ..self
        }
    }
}

/// A Bloom filter is a probabilistic data structure to test whether an
/// element may be in a set or definitely not in a set.
pub struct BloomFilter {
    bits: bit_vec::BitVec,
    m: usize,
    n: usize,
    k: usize,
    builder_1: HashBuilder,
    builder_2: HashBuilder,
}

impl View for BloomFilter {
    type V = BloomFilterV;

    closed spec fn view(&self) -> BloomFilterV {
        BloomFilterV {
            bits: bits_of(&self.bits),
            m: self.m,
            n: self.n,
            k: self.k,
            s1: self.builder_1@,
            s2: self.builder_2@,
        }
    }
}

impl BloomFilter {
    /// A valid filter value; every constructor establishes this and every
    /// operation preserves it.
    pub open spec fn wf(&self) -> bool {
        bf_wf(self@)
    }

    /// Creates a new bloom filter with a predetermined bit array size `m`
    /// and number of hash functions `k`, using `builder_1` and `builder_2`
    /// to hash the data. Rejects `m == 0` or `k == 0` as configuration
    /// misuse.
    pub fn with_hashers(m: usize, k: usize, builder_1: HashBuilder, builder_2: HashBuilder) -> (r:
        Result<BloomFilter, FilterError>)
        ensures
            (m >= 1 && k >= 1) <==> r is Ok,
            r matches Ok(f) ==> {
                &&& f.wf()
                &&& f@.m == m
                &&& f@.k == k
                &&& f@.n == 0
                &&& f@.s1 == builder_1@
                &&& f@.s2 == builder_2@
                &&& f@.bits.len() == m
                &&& forall|i: int| 0 <= i < m ==> !f@.bits[i]
            },
            !(m >= 1 && k >= 1) ==> r == Err::<BloomFilter, FilterError>(
                FilterError::InvalidConfiguration,
            ),
    {
        if m == 0 || k == 0 {
            return Err(FilterError::InvalidConfiguration);
        }
        let bits = bv_from_elem(m, false);
        Ok(BloomFilter { bits, m, n: 0, k, builder_1, builder_2 })
    }

    /// Creates a new bloom filter with a predetermined bit array size `m`
    /// and number of hash functions `k`, with the default pair of
    /// independently seeded hash builders.
    pub fn new(m: usize, k: usize) -> (r: Result<BloomFilter, FilterError>)
        ensures
            (m >= 1 && k >= 1) <==> r is Ok,
            r matches Ok(f) ==> {
                &&& f.wf()
                &&& f@.m == m
                &&& f@.k == k
                &&& f@.n == 0
                &&& f@.s1 == DEFAULT_SEED_1
                &&& f@.s2 == DEFAULT_SEED_2
                &&& f@.bits.len() == m
                &&& forall|i: int| 0 <= i < m ==> !f@.bits[i]
            },
            !(m >= 1 && k >= 1) ==> r == Err::<BloomFilter, FilterError>(
                FilterError::InvalidConfiguration,
            ),
    {
        Self::with_hashers(m, k, HashBuilder::new(DEFAULT_SEED_1), HashBuilder::new(DEFAULT_SEED_2))
    }

    /// Creates a new bloom filter that targets a false positive probability
    /// `p` with an expected number of inserted elements `n`, using
    /// `builder_1` and `builder_2` to hash the data. The optimal size of
    /// the bit array `m` and number of hash functions `k` are derived from
    /// `p` and `n`.
    pub fn from_fpp_with_hashers(p: &Fpp, n: usize, builder_1: HashBuilder, builder_2: HashBuilder)
        -> (r: Result<BloomFilter, FilterError>)
        requires
            p.wf(),
        ensures
            ({
                let ex = required_bits_exact(p@.num, p@.den, n as int);
                &&& (r is Ok <==> (n >= 1 && 0 < ex < usize::MAX))
                &&& (r matches Ok(f) ==> {
                    &&& f.wf()
                    &&& f@.m == ex
                    &&& f@.k == hash_count_spec(ex, n as int)
                    &&& f@.n == 0
                    &&& f@.s1 == builder_1@
                    &&& f@.s2 == builder_2@
                    &&& f@.bits.len() == ex
                    &&& forall|i: int| 0 <= i < ex ==> !f@.bits[i]
                })
                &&& ((n == 0 || ex == 0) ==> r == Err::<BloomFilter, FilterError>(
                    FilterError::InvalidConfiguration,
                ))
                &&& ((n >= 1 && ex >= usize::MAX) ==> r == Err::<BloomFilter, FilterError>(
                    FilterError::CapacityOverflow,
                ))
            }),
    {
        if n == 0 {
            return Err(FilterError::InvalidConfiguration);
        }
        let m = optimal_required_bits(p, n);
        if m == 0 {
            return Err(FilterError::InvalidConfiguration);
        }
        if m == usize::MAX {
            return Err(FilterError::CapacityOverflow);
        }
        let k = optimal_number_of_hash_functions(m, n);
        Self::with_hashers(m, k, builder_1, builder_2)
    }

    /// Creates a new bloom filter that targets a false positive probability
    /// `p` with an expected number of inserted elements `n`, with the
    /// default pair of independently seeded hash builders.
    pub fn from_fpp(p: &Fpp, n: usize) -> (r: Result<BloomFilter, FilterError>)
        requires
            p.wf(),
        ensures
            ({
                let ex = required_bits_exact(p@.num, p@.den, n as int);
                &&& (r is Ok <==> (n >= 1 && 0 < ex < usize::MAX))
                &&& (r matches Ok(f) ==> {
                    &&& f.wf()
                    &&& f@.m == ex
                    &&& f@.k == hash_count_spec(ex, n as int)
                    &&& f@.n == 0
                    &&& f@.s1 == DEFAULT_SEED_1
                    &&& f@.s2 == DEFAULT_SEED_2
                    &&& f@.bits.len() == ex
                    &&& forall|i: int| 0 <= i < ex ==> !f@.bits[i]
                })
                &&& ((n == 0 || ex == 0) ==> r == Err::<BloomFilter, FilterError>(
                    FilterError::InvalidConfiguration,
                ))
                &&& ((n >= 1 && ex >= usize::MAX) ==> r == Err::<BloomFilter, FilterError>(
                    FilterError::CapacityOverflow,
                ))
            }),
    {
        Self::from_fpp_with_hashers(
            p,
            n,
            HashBuilder::new(DEFAULT_SEED_1),
            HashBuilder::new(DEFAULT_SEED_2),
        )
    }

    /// Returns the size of the bit array `m`.
    pub fn capacity(&self) -> (r: usize)
        ensures
            r == self@.m,
    {
        self.m
    }

    /// Returns the number of elements `n` in the filter.
    pub fn len(&self) -> (r: usize)
        ensures
            r == self@.n,
    {
        self.n
    }

    /// Returns `true` if the bloom filter contains no elements.
    pub fn is_empty(&self) -> (r: bool)
        ensures
            r == (self@.n == 0),
    {
        self.n == 0
    }

    /// Tests whether an element may be in the filter or definitely not in
    /// the filter: true exactly when all `k` bit positions of `key` are
    /// set. False positives can occur; a `false` answer is definite.
    pub fn contains(&self, key: &[u8]) -> (r: bool)
        requires
            self.wf(),
        ensures
            r == self@.key_present(key@),
    {
        let mut dh = DoubleHasher::new(key, &self.builder_1, &self.builder_2);
        let mut j: usize = 0;
        while j < self.k
            invariant
                self.wf(),
                j <= self.k,
                dh@.h1 == fnv1a_digest(self@.s1, key@),
                dh@.h2 == fnv1a_digest(self@.s2, key@),
                dh@.i == j as u64,
                forall|jj: u64| (jj as int) < j ==> self@.bits[#[trigger] self@.pos(key@, jj)],
            decreases self.k - j,
        {
            let h = dh.next();
            let idx: usize = (h as usize) % self.m;
            proof {
                assert(idx as int == self@.pos(key@, j as u64));
            }
            if !bv_get(&self.bits, idx) {
                proof {
                    assert(!self@.bits[self@.pos(key@, j as u64)]);
                }
                return false;
            }
            j = j + 1;
        }
        true
    }

    /// Adds a value to the bloom filter: sets every one of the `k` bit
    /// positions of `key`. Returns `true` exactly when at least one of them
    /// was newly set, that is, when the key was not already indicated as
    /// present; the element count rises only in that case. Duplicate values
    /// do not affect the load factor.
    pub fn insert(&mut self, key: &[u8]) -> (r: bool)
        requires
            old(self).wf(),
        ensures
            final(self).wf(),
            final(self)@ == old(self)@.after_insert(key@),
            r == !old(self)@.key_present(key@),
            final(self)@.key_present(key@),
    {
        let ghost v0 = old(self)@;
        let mut present = true;
        let mut dh = DoubleHasher::new(key, &self.builder_1, &self.builder_2);
        let mut j: usize = 0;
        while j < self.k
            invariant
                bf_wf(v0),
                self.m == v0.m,
                self.k == v0.k,
                self.n == v0.n,
                self.builder_1@ == v0.s1,
                self.builder_2@ == v0.s2,
                j <= self.k,
                dh@.h1 == fnv1a_digest(v0.s1, key@),
                dh@.h2 == fnv1a_digest(v0.s2, key@),
                dh@.i == j as u64,
                self@.bits == v0.partial_bits(key@, j as int),
                present <==> (forall|jj: u64|
                    (jj as int) < j ==> v0.bits[#[trigger] v0.pos(key@, jj)]),
                v0.n <= count_true(self@.bits),
                !present ==> v0.n < count_true(self@.bits),
            decreases self.k - j,
        {
            proof {
                assert(self@.bits.len() == v0.m);
            }
            let h = dh.next();
            let idx: usize = (h as usize) % self.m;
            proof {
                assert(idx as int == v0.pos(key@, j as u64));
            }
            let ghost pre_bits = self@.bits;
            if !bv_get(&self.bits, idx) {
                present = false;
                bv_set(&mut self.bits, idx, true);
                proof {
                    lemma_count_true_update(pre_bits, idx as int, true);
                }
            }
            j = j + 1;
            proof {
                assert(self@.bits =~= v0.partial_bits(key@, j as int));
                if present {
                    assert forall|jj: u64| (jj as int) < j implies v0.bits[#[trigger] v0.pos(
                        key@,
                        jj,
                    )] by {
                        if jj as int == j - 1 {
                            assert(pre_bits[idx as int]);
                        }
                    }
                }
            }
        }
        if !present {
            proof {
                lemma_count_true_le_len(self@.bits);
            }
            self.n = self.n + 1;
        }
        proof {
            assert(self@.bits =~= v0.bits_after_insert(key@));
            assert(self@ == v0.after_insert(key@));
            assert forall|j2: u64| (j2 as int) < (v0.k as int) implies self@.bits[
                #[trigger] self@.pos(key@, j2)
            ] by {
                assert(self@.pos(key@, j2) == v0.pos(key@, j2));
                assert(v0.bits_after_insert(key@)[v0.pos(key@, j2)]);
            }
        }
        !present
    }
}

/// No false negatives, the inductive step: a key whose positions are all
/// set stays possibly-present through any later insert, because bits are
/// only ever set, never cleared.
pub proof fn lemma_present_preserved(v: BloomFilterV, x: Seq<u8>, y: Seq<u8>)
    requires
        bf_wf(v),
        v.key_present(x),
    ensures
        v.after_insert(y).key_present(x),
{
    let w = v.after_insert(y);
    assert forall|j: u64| (j as int) < (w.k as int) implies w.bits[#[trigger] w.pos(x, j)] by {
        assert(v.bits[v.pos(x, j)]);
        assert(w.pos(x, j) == v.pos(x, j));
    }
}

/// No false negatives, the base step: right after an insert of a key, all
/// of its positions are set, so the key is indicated as present.
pub proof fn lemma_after_insert_present(v: BloomFilterV, key: Seq<u8>)
    requires
        bf_wf(v),
    ensures
        v.after_insert(key).key_present(key),
{
    let w = v.after_insert(key);
    assert forall|j: u64| (j as int) < (w.k as int) implies w.bits[#[trigger] w.pos(key, j)] by {
        assert(w.pos(key, j) == v.pos(key, j));
        assert(v.bits_after_insert(key)[v.pos(key, j)]);
    }
}

/// Inserting a key that is already indicated as present changes nothing:
/// all its positions are set, so no bit flips and the count stays.
pub proof fn lemma_insert_present_no_change(v: BloomFilterV, key: Seq<u8>)
    requires
        bf_wf(v),
        v.key_present(key),
    ensures
        v.after_insert(key) == v,
{
    assert forall|i: int| 0 <= i < v.bits.len() implies v.bits_after_insert(key)[i] == v.bits[i] by {
        if !v.bits[i] {
            assert forall|jj: u64| (jj as int) < (v.k as int) implies #[trigger] v.pos(key, jj)
                != i by {
                assert(v.bits[v.pos(key, jj)]);
            }
        }
    }
    assert(v.bits_after_insert(key) =~= v.bits);
}

/// A filter with no bit set indicates no key as present.
pub proof fn lemma_fresh_not_present(v: BloomFilterV, key: Seq<u8>)
    requires
        bf_wf(v),
        forall|i: int| 0 <= i < v.bits.len() ==> !v.bits[i],
    ensures
        !v.key_present(key),
{
    assert(0 <= v.pos(key, 0) < v.m);
    assert(!v.bits[v.pos(key, 0)]);
}

} // verus!

//! The scalable Bloom filter: an ordered, append-only sequence of fixed
//! filters of geometrically increasing capacity and tightening
//! false-positive targets. Inserts go to the newest layer; growth is
//! triggered when the cumulative target capacity is reached; membership is
//! the logical OR over all layers.

use vstd::prelude::*;

use crate::bloom_filter::{
    bf_wf, lemma_after_insert_present, lemma_fresh_not_present, lemma_insert_present_no_change,
    lemma_present_preserved, BloomFilter, BloomFilterV,
};
use crate::errors::FilterError;
use crate::hashing::{DEFAULT_SEED_1, DEFAULT_SEED_2};
use crate::sizing::{
    fpp_wf, hash_count_spec, lemma_hash_count_bounds, required_bits_exact, tightened_spec, Fpp,
    FppV,
};
use vstd::arithmetic::div_mod::lemma_fundamental_div_mod;

verus! {

/// The abstract state of a scalable filter: the total inserted count, the
/// cumulative target capacity, the layers in creation order, and the
/// false-positive target of the newest layer.
pub ghost struct ScalableBloomFilterV {
    pub n: usize,
    pub cap: usize,
    pub filters: Seq<BloomFilterV>,
    pub fpp: FppV,
}

/// A well-formed scalable filter: at least one layer, each layer
/// well-formed, a valid probability, and an inserted count that never
/// exceeds the cumulative target capacity (growth fires at the boundary).
pub open spec fn sbf_wf(v: ScalableBloomFilterV) -> bool {
    &&& v.filters.len() >= 1
    &&& forall|i: int| 0 <= i < v.filters.len() ==> bf_wf(#[trigger] v.filters[i])
    &&& fpp_wf(v.fpp)
    &&& v.cap >= 1
    &&& v.n <= v.cap
}

/// Whether any layer indicates `key` as possibly present.
pub open spec fn sbf_contains(v: ScalableBloomFilterV, key: Seq<u8>) -> bool {
    exists|i: int| 0 <= i < v.filters.len() && (#[trigger] v.filters[i]).key_present(key)
}

/// A fixed filter as construction from a false-positive target leaves it:
/// the derived dimensions, no bit set, and the default seeds.
pub open spec fn fresh_filter_v(p: FppV, n: int) -> BloomFilterV {
    BloomFilterV {
        bits: Seq::new(required_bits_exact(p.num, p.den, n) as nat, |i: int| false),
        m: required_bits_exact(p.num, p.den, n) as usize,
        n: 0,
        k: hash_count_spec(required_bits_exact(p.num, p.den, n), n) as usize,
        s1: DEFAULT_SEED_1,
        s2: DEFAULT_SEED_2,
    }
}

/// Growth is due when the next insertion would pass the cumulative target
/// capacity.
pub open spec fn sbf_needs_grow(v: ScalableBloomFilterV) -> bool {
    v.n >= v.cap
}

/// Growth stays within the machine: the new cumulative capacity fits a
/// word, and the new layer's derived bit count is positive and fits too.
pub open spec fn sbf_can_grow(v: ScalableBloomFilterV) -> bool {
    &&& v.cap * 3 <= usize::MAX
    &&& ({
        let p2 = tightened_spec(v.fpp);
        let ex = required_bits_exact(p2.num, p2.den, v.cap * 2);
        0 < ex < usize::MAX
    })
}

/// The state after growth: one appended layer targeting twice the prior
/// cumulative capacity at a false-positive target tightened by `0.85`, with
/// the cumulative capacity and last target updated together.
pub open spec fn sbf_after_grow(v: ScalableBloomFilterV) -> ScalableBloomFilterV {
    ScalableBloomFilterV {
        n: v.n,
        cap: (v.cap + v.cap * 2) as usize,
        filters: v.filters.push(fresh_filter_v(tightened_spec(v.fpp), v.cap * 2)),
        fpp: tightened_spec(v.fpp),
    }
}

/// The state an insert works on: grown first when growth is due.
pub open spec fn sbf_mid(v: ScalableBloomFilterV) -> ScalableBloomFilterV {
    if sbf_needs_grow(v) {
        sbf_after_grow(v)
    } else {
        v
    }
}

/// An insert succeeds unless growth is due but cannot be sized.
pub open spec fn sbf_insert_ok(v: ScalableBloomFilterV) -> bool {
    !sbf_needs_grow(v) || sbf_can_grow(v)
}

/// Whether an insert of `key` newly marks it in the current layer.
pub open spec fn sbf_insert_newly(v: ScalableBloomFilterV, key: Seq<u8>) -> bool {
    !sbf_mid(v).filters.last().key_present(key)
}

/// The state after a successful insert of `key`: growth applied if due,
/// then the last layer updated, with the aggregate count raised exactly
/// when the key was newly marked there.
pub open spec fn sbf_after_insert(v: ScalableBloomFilterV, key: Seq<u8>) -> ScalableBloomFilterV {
    let v1 = sbf_mid(v);
    let last = v1.filters.last();
    ScalableBloomFilterV {
        n: if last.key_present(key) {
            v1.n
        } else {
            (v1.n + 1) as usize
        },
        cap: v1.cap,
        filters: v1.filters.update(v1.filters.len() - 1, last.after_insert(key)),
        fpp: v1.fpp,
    }
}

/// A scalable Bloom filter: adapts to the number of inserted elements while
/// targeting a given false positive probability, by layering fixed filters
/// of growing capacity.
pub struct ScalableBloomFilter {
    n: usize,
    total_capacity: usize,
    filters: Vec<BloomFilter>,
    last_fpp: Fpp,
}

impl View for ScalableBloomFilter {
    type V = ScalableBloomFilterV;

    closed spec fn view(&self) -> ScalableBloomFilterV {
        ScalableBloomFilterV {
            n: self.n,
            cap: self.total_capacity,
            filters: Seq::new(self.filters@.len(), |i: int| self.filters@[i]@),
            fpp: self.last_fpp@,
        }
    }
}

impl ScalableBloomFilter {
    /// A valid scalable filter; constructors establish it, operations
    /// preserve it.
    pub open spec fn wf(&self) -> bool {
        sbf_wf(self@)
    }

    /// Creates a new scalable Bloom filter that targets a false positive
    /// probability `p` with an initial expected number of inserted elements
    /// `n`: one fixed filter sized for that target, a cumulative capacity
    /// of `n`, and no elements.
    pub fn new(p: &Fpp, n: usize) -> (r: Result<ScalableBloomFilter, FilterError>)
        requires
            p.wf(),
        ensures
            ({
                let ex = required_bits_exact(p@.num, p@.den, n as int);
                &&& (r is Ok <==> (n >= 1 && 0 < ex < usize::MAX))
                &&& (r matches Ok(s) ==> {
                    &&& s.wf()
                    &&& s@.n == 0
                    &&& s@.cap == n
                    &&& s@.fpp == p@
                    &&& s@.filters =~= seq![fresh_filter_v(p@, n as int)]
                })
                &&& ((n == 0 || ex == 0) ==> r == Err::<ScalableBloomFilter, FilterError>(
                    FilterError::InvalidConfiguration,
                ))
                &&& ((n >= 1 && ex >= usize::MAX) ==> r == Err::<ScalableBloomFilter, FilterError>(
                    FilterError::CapacityOverflow,
                ))
            }),
    {
        let f = match BloomFilter::from_fpp(p, n) {
            Ok(f) => f,
            Err(e) => {
                return Err(e);
            },
        };
        let mut filters: Vec<BloomFilter> = Vec::new();
        filters.push(f);
        let r = ScalableBloomFilter { n: 0, total_capacity: n, filters, last_fpp: *p };
        proof {
            assert(r@.filters =~= seq![fresh_filter_v(p@, n as int)]) by {
                assert(r@.filters[0].bits =~= fresh_filter_v(p@, n as int).bits);
            }
        }
        Ok(r)
    }

    /// Returns the number of layers created so far.
    pub fn filter_count(&self) -> (r: usize)
        ensures
            r == self@.filters.len(),
    {
        self.filters.len()
    }

    /// Returns the cumulative target capacity of all layers.
    pub fn total_capacity(&self) -> (r: usize)
        ensures
            r == self@.cap,
    {
        self.total_capacity
    }

    /// Returns the false-positive target assigned to the newest layer.
    pub fn last_fpp(&self) -> (r: Fpp)
        ensures
            r@ == self@.fpp,
    {
        self.last_fpp
    }

    /// Returns the total number of elements inserted across all layers.
    pub fn len(&self) -> (r: usize)
        ensures
            r == self@.n,
    {
        self.n
    }

    /// Tests all layers for whether an element may be in the filter or
    /// definitely not in the filter: the logical OR across all layers.
    pub fn contains(&self, key: &[u8]) -> (r: bool)
        requires
            self.wf(),
        ensures
            r == sbf_contains(self@, key@),
    {
        let mut i: usize = 0;
        while i < self.filters.len()
            invariant
                self.wf(),
                i <= self.filters@.len(),
                forall|ii: int|
                    0 <= ii < i ==> !(#[trigger] self@.filters[ii]).key_present(key@),
            decreases self.filters@.len() - i,
        {
            let f = &self.filters[i];
            proof {
                assert(f@ == self@.filters[i as int]);
            }
            if f.contains(key) {
                proof {
                    assert(self@.filters[i as int].key_present(key@));
                }
                return true;
            }
            i = i + 1;
        }
        false
    }

    /// Appends one layer sized via the tightened target and doubled
    /// cumulative capacity, updating the cumulative capacity and the last
    /// target together. Fails, leaving the state unchanged, when the grown
    /// sizes no longer fit the machine.
    fn grow(&mut self) -> (r: Result<(), FilterError>)
        requires
            old(self).wf(),
        ensures
            final(self).wf(),
            sbf_can_grow(old(self)@) ==> r is Ok && final(self)@ == sbf_after_grow(old(self)@),
            !sbf_can_grow(old(self)@) ==> r == Err::<(), FilterError>(FilterError::CapacityOverflow)
                && final(self)@ == old(self)@,
    {
        let ghost v0 = self@;
        proof {
            lemma_fundamental_div_mod(usize::MAX as int, 3);
        }
        if self.total_capacity > usize::MAX / 3 {
            return Err(FilterError::CapacityOverflow);
        }
        let new_target: usize = self.total_capacity * 2;
        let p2 = self.last_fpp.tightened();
        let f = match BloomFilter::from_fpp(&p2, new_target) {
            Ok(f) => f,
            Err(_) => {
                return Err(FilterError::CapacityOverflow);
            },
        };
        self.filters.push(f);
        self.total_capacity = self.total_capacity + new_target;
        self.last_fpp = p2;
        proof {
            assert(self@.filters =~= sbf_after_grow(v0).filters) by {
                assert(self@.filters[v0.filters.len() as int].bits =~= fresh_filter_v(
                    tightened_spec(v0.fpp),
                    v0.cap * 2,
                ).bits);
                assert(forall|i: int|
                    0 <= i < v0.filters.len() ==> self@.filters[i] == v0.filters[i]);
            }
            assert(self@ == sbf_after_grow(v0));
        }
        Ok(())
    }

    /// Adds a value: grows first when the cumulative capacity is reached,
    /// then delegates to the newest layer. Returns whether the value was
    /// newly marked in that layer; the aggregate count rises exactly then.
    /// A key may be indicated as present in an older layer and still be
    /// newly marked in the current one.
    pub fn insert(&mut self, key: &[u8]) -> (r: Result<bool, FilterError>)
        requires
            old(self).wf(),
        ensures
            final(self).wf(),
            sbf_insert_ok(old(self)@) ==> (r matches Ok(b) && b == sbf_insert_newly(
                old(self)@,
                key@,
            )) && final(self)@ == sbf_after_insert(old(self)@, key@),
            !sbf_insert_ok(old(self)@) ==> r == Err::<bool, FilterError>(
                FilterError::CapacityOverflow,
            ) && final(self)@ == old(self)@,
    {
        let ghost v0 = self@;
        if self.n >= self.total_capacity {
            match self.grow() {
                Ok(u) => u,
                Err(e) => {
                    return Err(e);
                },
            };
        }
        let ghost v1 = sbf_mid(v0);
        proof {
            assert(self@ == v1);
        }
        let mut last = self.filters.pop().unwrap();
        let ghost lastv = last@;
        proof {
            assert(lastv == v1.filters.last());
            assert(bf_wf(lastv));
        }
        let inserted = last.insert(key);
        self.filters.push(last);
        if inserted {
            proof {
                if sbf_needs_grow(v0) {
                    assert(v1.cap == v0.cap + v0.cap * 2);
                    assert(v0.n + 1 <= v0.cap + v0.cap * 2);
                }
            }
            self.n = self.n + 1;
        }
        proof {
            assert(self@.filters =~= sbf_after_insert(v0, key@).filters);
            assert(self@ == sbf_after_insert(v0, key@));
        }
        Ok(inserted)
    }

    /// Adds a value if it is not already present, checking only the layers
    /// that an insert would not touch (all but the newest; the single layer
    /// itself when only one exists). Returns whether the value is (maybe)
    /// already in the filter: `true` means possibly present without a new
    /// insert, `false` means it was newly inserted.
    pub fn contains_or_insert(&mut self, key: &[u8]) -> (r: Result<bool, FilterError>)
        requires
            old(self).wf(),
        ensures
            final(self).wf(),
            ({
                let pre = old(self)@;
                let nchecked: int = if pre.filters.len() == 1 {
                    1
                } else {
                    pre.filters.len() - 1
                };
                let found = exists|i: int|
                    0 <= i < nchecked && (#[trigger] pre.filters[i]).key_present(key@);
                &&& (found ==> r == Ok::<bool, FilterError>(true) && final(self)@ == pre)
                &&& (!found && sbf_insert_ok(pre) ==> (r matches Ok(b) && b == !sbf_insert_newly(
                    pre,
                    key@,
                )) && final(self)@ == sbf_after_insert(pre, key@))
                &&& (!found && !sbf_insert_ok(pre) ==> r == Err::<bool, FilterError>(
                    FilterError::CapacityOverflow,
                ) && final(self)@ == pre)
            }),
    {
        let len = self.filters.len();
        let nchecked: usize = if len == 1 {
            1
        } else {
            len - 1
        };
        let mut i: usize = 0;
        while i < nchecked
            invariant
                self.wf(),
                self@ == old(self)@,
                nchecked <= self.filters@.len(),
                nchecked as int == (if old(self)@.filters.len() == 1 {
                    1int
                } else {
                    old(self)@.filters.len() - 1
                }),
                i <= nchecked,
                forall|ii: int|
                    0 <= ii < i ==> !(#[trigger] self@.filters[ii]).key_present(key@),
            decreases nchecked - i,
        {
            let f = &self.filters[i];
            proof {
                assert(f@ == self@.filters[i as int]);
            }
            if f.contains(key) {
                proof {
                    let pre = old(self)@;
                    let nchecked_i: int = if pre.filters.len() == 1 {
                        1
                    } else {
                        pre.filters.len() - 1
                    };
                    assert(0 <= (i as int) && (i as int) < nchecked_i);
                    assert((#[trigger] pre.filters[i as int]).key_present(key@));
                }
                return Ok(true);
            }
            i = i + 1;
        }
        match self.insert(key) {
            Ok(b) => Ok(!b),
            Err(e) => Err(e),
        }
    }
}

/// A freshly sized layer is a well-formed fixed filter.
pub proof fn lemma_fresh_filter_wf(p: FppV, n: int)
    requires
        1 <= n <= 0xFFFFFFFFFFFFFFFF,
        0 < required_bits_exact(p.num, p.den, n) < usize::MAX,
    ensures
        bf_wf(fresh_filter_v(p, n)),
        forall|i: int|
            0 <= i < fresh_filter_v(p, n).bits.len() ==> !fresh_filter_v(p, n).bits[i],
{
    lemma_hash_count_bounds(required_bits_exact(p.num, p.den, n), n);
}

/// No false negatives, the base step for the scalable filter: right after
/// a successful insert of a key, some layer (the current one) indicates it
/// as present.
pub proof fn lemma_sbf_insert_contains(v: ScalableBloomFilterV, key: Seq<u8>)
    requires
        sbf_wf(v),
        sbf_insert_ok(v),
    ensures
        sbf_contains(sbf_after_insert(v, key), key),
{
    let v1 = sbf_mid(v);
    let last = v1.filters.last();
    let w = sbf_after_insert(v, key);
    if sbf_needs_grow(v) {
        lemma_fresh_filter_wf(tightened_spec(v.fpp), v.cap * 2);
    }
    assert(bf_wf(last));
    lemma_after_insert_present(last, key);
    assert(w.filters[v1.filters.len() - 1].key_present(key));
}

/// No false negatives, the inductive step for the scalable filter: a key
/// some layer indicates as present stays indicated through any later
/// insert, because layers are only appended and bits only set.
pub proof fn lemma_sbf_present_preserved(v: ScalableBloomFilterV, x: Seq<u8>, y: Seq<u8>)
    requires
        sbf_wf(v),
        sbf_contains(v, x),
    ensures
        sbf_contains(sbf_after_insert(v, y), x),
{
    let i = choose|i: int| 0 <= i < v.filters.len() && (#[trigger] v.filters[i]).key_present(x);
    let v1 = sbf_mid(v);
    let w = sbf_after_insert(v, y);
    if sbf_needs_grow(v) {
        assert(v1.filters[i] == v.filters[i]);
        assert(w.filters[i] == v.filters[i]);
        assert(w.filters[i].key_present(x));
    } else {
        if i < v.filters.len() - 1 {
            assert(w.filters[i] == v.filters[i]);
            assert(w.filters[i].key_present(x));
        } else {
            lemma_present_preserved(v.filters[i], x, y);
            assert(w.filters[i] == v.filters[i].after_insert(y));
            assert(w.filters[i].key_present(x));
        }
    }
}

/// What `contains_or_insert` returns and leaves behind, per its contract.
pub open spec fn cor_outcome(v: ScalableBloomFilterV, key: Seq<u8>) -> (
    Result<bool, FilterError>,
    ScalableBloomFilterV,
) {
    let nchecked: int = if v.filters.len() == 1 {
        1
    } else {
        v.filters.len() - 1
    };
    let found = exists|i: int| 0 <= i < nchecked && (#[trigger] v.filters[i]).key_present(key);
    if found {
        (Ok(true), v)
    } else if sbf_insert_ok(v) {
        (Ok(!sbf_insert_newly(v, key)), sbf_after_insert(v, key))
    } else {
        (Err(FilterError::CapacityOverflow), v)
    }
}

/// What "`contains`, then `insert` only if absent" returns and leaves
/// behind: the membership answer, with the insert applied exactly when the
/// key was absent.
pub open spec fn check_then_insert_outcome(v: ScalableBloomFilterV, key: Seq<u8>) -> (
    Result<bool, FilterError>,
    ScalableBloomFilterV,
) {
    if sbf_contains(v, key) {
        (Ok(true), v)
    } else if sbf_insert_ok(v) {
        (Ok(false), sbf_after_insert(v, key))
    } else {
        (Err(FilterError::CapacityOverflow), v)
    }
}

/// `contains_or_insert` equivalence: on any well-formed filter it returns
/// the same boolean as `contains` evaluated immediately before, followed by
/// `insert` exactly when that was false, and it leaves the filter in the
/// identical final state. The one excluded input: growth already due on a
/// multi-layer filter whose current layer alone indicates the key — there
/// `contains_or_insert` grows and re-inserts while the two-call sequence
/// would not have touched the structure.
pub proof fn lemma_contains_or_insert_equiv(v: ScalableBloomFilterV, key: Seq<u8>)
    requires
        sbf_wf(v),
        !(sbf_needs_grow(v) && v.filters.len() >= 2 && v.filters.last().key_present(key) && !(
        exists|i: int|
            0 <= i < v.filters.len() - 1 && (#[trigger] v.filters[i]).key_present(key))),
    ensures
        cor_outcome(v, key) == check_then_insert_outcome(v, key),
{
    let len = v.filters.len();
    let nchecked: int = if len == 1 {
        1
    } else {
        len - 1
    };
    let found = exists|i: int| 0 <= i < nchecked && (#[trigger] v.filters[i]).key_present(key);
    let c = sbf_contains(v, key);
    if found {
        let i = choose|i: int|
            0 <= i < nchecked && (#[trigger] v.filters[i]).key_present(key);
        assert(c);
    } else if len == 1 {
        assert(!c) by {
            if c {
                let i = choose|i: int|
                    0 <= i < len && (#[trigger] v.filters[i]).key_present(key);
                assert(0 <= i < nchecked);
            }
        }
        if sbf_insert_ok(v) {
            lemma_mid_last_absent(v, key);
        }
    } else {
        if !v.filters.last().key_present(key) {
            assert(!c) by {
                if c {
                    let i = choose|i: int|
                        0 <= i < len && (#[trigger] v.filters[i]).key_present(key);
                    assert(0 <= i < nchecked || i == len - 1);
                }
            }
            if sbf_insert_ok(v) {
                lemma_mid_last_absent(v, key);
            }
        } else {
            // the key sits in the current layer; the excluded corner
            // guarantees growth is not due, so the insert is a no-op
            assert(c);
            assert(!sbf_needs_grow(v));
            assert(sbf_insert_ok(v));
            let last = v.filters.last();
            lemma_insert_present_no_change(last, key);
            let w = sbf_after_insert(v, key);
            assert(w.filters =~= v.filters) by {
                assert(w.filters[len - 1] == last.after_insert(key));
            }
            assert(w == v);
            assert(!sbf_insert_newly(v, key));
        }
    }
}

/// When the key is absent from the pre-insert current layer (because no
/// layer held it), the insert newly marks it.
proof fn lemma_mid_last_absent(v: ScalableBloomFilterV, key: Seq<u8>)
    requires
        sbf_wf(v),
        sbf_insert_ok(v),
        !v.filters.last().key_present(key),
    ensures
        sbf_insert_newly(v, key),
{
    let v1 = sbf_mid(v);
    if sbf_needs_grow(v) {
        lemma_fresh_filter_wf(tightened_spec(v.fpp), v.cap * 2);
        lemma_fresh_not_present(v1.filters.last(), key);
    }
}

} // verus!

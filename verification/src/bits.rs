//! The bit array backing a fixed filter, held in `bit_vec::BitVec` behind
//! trusted declarations, together with facts about counting set bits.

use vstd::prelude::*;

verus! {

#[verifier::external_type_specification]
#[verifier::external_body]
#[verifier::reject_recursive_types(B)]
pub struct ExBitVec<B>(bit_vec::BitVec<B>);

/// What a bit vector holds: the ordered sequence of its bits.
pub uninterp spec fn bits_of(v: &bit_vec::BitVec) -> Seq<bool>;

/// Relies on `bit_vec::BitVec::from_elem`: creates a vector that holds `len`
/// bits, each set to `bit`.
#[verifier::external_body]
pub(crate) fn bv_from_elem(len: usize, bit: bool) -> (r: bit_vec::BitVec)
    ensures
        bits_of(&r).len() == len,
        forall|i: int| 0 <= i < len ==> bits_of(&r)[i] == bit,
{
    bit_vec::BitVec::from_elem(len, bit)
}

/// Relies on `bit_vec::BitVec::get`: returns the bit at index `i`, which is
/// `Some` exactly when `i` is in bounds.
#[verifier::external_body]
pub(crate) fn bv_get(v: &bit_vec::BitVec, i: usize) -> (r: bool)
    requires
        i < bits_of(v).len(),
    ensures
        r == bits_of(v)[i as int],
{
    match v.get(i) {
        Some(b) => b,
        None => false,
    }
}

/// Relies on `bit_vec::BitVec::set`: writes the bit at index `i`; it panics
/// only when `i` is out of bounds, which the precondition excludes.
#[verifier::external_body]
pub(crate) fn bv_set(v: &mut bit_vec::BitVec, i: usize, bit: bool)
    requires
        i < bits_of(old(v)).len(),
    ensures
        bits_of(final(v)) == bits_of(old(v)).update(i as int, bit),
{
    v.set(i, bit)
}

/// How many bits of `s` are set.
pub open spec fn count_true(s: Seq<bool>) -> nat
    decreases s.len(),
{
    if s.len() == 0 {
        0
    } else {
        count_true(s.drop_last()) + (if s.last() {
            1nat
        } else {
            0nat
        })
    }
}

/// No more bits are set than there are bits.
pub proof fn lemma_count_true_le_len(s: Seq<bool>)
    ensures
        count_true(s) <= s.len(),
    decreases s.len(),
{
    if s.len() > 0 {
        lemma_count_true_le_len(s.drop_last());
    }
}

/// Writing one bit changes the count of set bits by exactly the difference
/// at that index.
pub proof fn lemma_count_true_update(s: Seq<bool>, i: int, b: bool)
    requires
        0 <= i < s.len(),
    ensures
        count_true(s.update(i, b)) == count_true(s) - (if s[i] {
            1int
        } else {
            0int
        }) + (if b {
            1int
        } else {
            0int
        }),
    decreases s.len(),
{
    let t = s.update(i, b);
    if i == s.len() - 1 {
        assert(t.drop_last() =~= s.drop_last());
    } else {
        assert(t.drop_last() =~= s.drop_last().update(i, b));
        lemma_count_true_update(s.drop_last(), i, b);
    }
}

} // verus!

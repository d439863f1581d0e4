//! Sizing of a fixed filter: from a target false-positive probability `p`
//! and an expected insert count `n`, derive the optimal bit-array length
//! `m = ceil(-n * ln(p) / (ln 2)^2)` and hash-function count
//! `k = ceil(m / n * ln 2)`.
//!
//! The probability is carried as an exact rational, and the logarithm is
//! computed in binary fixed point with 64 fractional bits: the formulas
//! become `m = ceil(n * log2(1/p) / ln 2)` and `k = ceil(m * ln 2 / n)`,
//! evaluated over `Q64` integers. The fixed-point binary logarithm is the
//! digit-by-digit method: squaring the normalized mantissa yields one
//! fractional bit of `log2` per step.

use vstd::arithmetic::div_mod::{
    lemma_div_is_ordered, lemma_div_multiples_vanish, lemma_fundamental_div_mod, lemma_small_mod,
};
use vstd::prelude::*;

use crate::errors::FilterError;

verus! {

/// `floor(ln 2 * 2^64)`: the natural logarithm of two in Q64 fixed point.
pub const LN2_Q64: u128 = 0xB17217F7D1CF79AB;

/// `2^63`, the lower bound of a normalized Q63 mantissa.
pub const MANT_LO: u128 = 0x8000000000000000;

/// `2^64`, the scale of the Q64 fixed-point values.
pub const Q64_ONE: u128 = 0x10000000000000000;

/// `2^j`, the running bound of the fractional-bit accumulator.
pub open spec fn two_pow(j: nat) -> int
    decreases j,
{
    if j == 0 {
        1
    } else {
        2 * two_pow((j - 1) as nat)
    }
}

/// Powers of two are positive and grow with the exponent.
pub proof fn lemma_two_pow_mono(a: nat, b: nat)
    requires
        a <= b,
    ensures
        two_pow(a) <= two_pow(b),
        1 <= two_pow(a),
    decreases b,
{
    if b > 0 {
        if a <= b - 1 {
            lemma_two_pow_mono(a, (b - 1) as nat);
        } else {
            lemma_two_pow_mono((a - 1) as nat, (b - 1) as nat);
        }
    }
}

/// The two powers of two that bound a normalized mantissa and a full
/// 64-bit fraction.
pub proof fn lemma_two_pow_values()
    ensures
        two_pow(63) == 0x8000000000000000,
        two_pow(64) == 0x10000000000000000,
{
    reveal_with_fuel(two_pow, 65);
}

/// How many doublings bring `x` into the top half of the 64-bit range.
pub open spec fn norm_shift(x: u64) -> nat
    decreases 0x10000000000000000 - x when x >= 1
{
    if x >= 0x8000000000000000 {
        0
    } else {
        1 + norm_shift((x * 2) as u64)
    }
}

/// The normalized mantissa of `x`: `x` doubled until it lies in
/// `[2^63, 2^64)`, so that it represents `x / 2^floor(log2 x)` in Q63.
pub open spec fn norm_mant(x: u64) -> u64
    decreases 0x10000000000000000 - x when x >= 1
{
    if x >= 0x8000000000000000 {
        x
    } else {
        norm_mant((x * 2) as u64)
    }
}

/// `j` steps of the digit-by-digit binary logarithm: squares the Q63
/// mantissa and shifts one bit of `log2` out per step. Returns the
/// mantissa after `j` steps and the `j` fractional bits accumulated so far.
pub open spec fn frac_iter(m0: int, j: nat) -> (int, int)
    decreases j,
{
    if j == 0 {
        (m0, 0)
    } else {
        let prev = frac_iter(m0, (j - 1) as nat);
        let sq = (prev.0 * prev.0) / 0x8000000000000000;
        if sq >= 0x10000000000000000 {
            (sq / 2, prev.1 * 2 + 1)
        } else {
            (sq, prev.1 * 2)
        }
    }
}

/// Each squaring step keeps the mantissa normalized, and `j` steps
/// accumulate fewer than `2^j` fraction bits.
pub proof fn lemma_frac_iter_bounds(m0: int, j: nat)
    requires
        MANT_LO <= m0 < Q64_ONE,
    ensures
        MANT_LO <= frac_iter(m0, j).0 < Q64_ONE,
        0 <= frac_iter(m0, j).1 < two_pow(j),
    decreases j,
{
    if j == 0 {
    } else {
        lemma_frac_iter_bounds(m0, (j - 1) as nat);
        let prev = frac_iter(m0, (j - 1) as nat);
        let sq = (prev.0 * prev.0) / 0x8000000000000000;
        assert(prev.0 * prev.0 >= 0x8000000000000000 * 0x8000000000000000) by (nonlinear_arith)
            requires
                prev.0 >= 0x8000000000000000,
        ;
        assert(prev.0 * prev.0 <= 0xFFFFFFFFFFFFFFFF * 0xFFFFFFFFFFFFFFFF) by (nonlinear_arith)
            requires
                0 <= prev.0 <= 0xFFFFFFFFFFFFFFFF,
        ;
        lemma_div_is_ordered(
            0x8000000000000000int * 0x8000000000000000,
            prev.0 * prev.0,
            0x8000000000000000,
        );
        lemma_div_is_ordered(
            prev.0 * prev.0,
            0xFFFFFFFFFFFFFFFFint * 0xFFFFFFFFFFFFFFFF,
            0x8000000000000000,
        );
        assert(sq >= 0x8000000000000000);
        assert(sq < 0x20000000000000000);
    }
}

/// `log2(x)` in Q64 fixed point: the integer part is the exponent of the
/// normalization, the fractional part comes from 64 squaring steps.
pub open spec fn log2_q64(x: u64) -> int {
    (63 - norm_shift(x)) * 0x10000000000000000 + frac_iter(norm_mant(x) as int, 64).1
}

/// Computes `log2(x)` in Q64 fixed point.
pub(crate) fn log2_q64_exec(x: u64) -> (r: u128)
    requires
        x >= 1,
    ensures
        r as int == log2_q64(x),
        r < 0x400000000000000000,
{
    let mut f: u64 = x;
    let mut sh: u64 = 0;
    proof {
        lemma_two_pow_mono(0, 0);
    }
    while f < 0x8000000000000000u64
        invariant
            1 <= f,
            norm_mant(f) == norm_mant(x),
            norm_shift(x) == sh + norm_shift(f),
            f as int >= two_pow(sh as nat),
            sh <= 63,
            x >= 1,
        decreases 0x10000000000000000 - f,
    {
        proof {
            if sh >= 63 {
                lemma_two_pow_mono(63, sh as nat);
                lemma_two_pow_values();
                assert(false);
            }
            assert(two_pow((sh + 1) as nat) == 2 * two_pow(sh as nat));
        }
        f = f * 2;
        sh = sh + 1;
    }
    proof {
        assert(norm_shift(f) == 0);
        assert(norm_mant(f) == f);
    }
    let ghost f0: int = f as int;
    let mut mant: u128 = f as u128;
    let mut bits: u64 = 0;
    let mut j: u64 = 0;
    while j < 64
        invariant
            j <= 64,
            MANT_LO <= f0 < Q64_ONE,
            mant as int == frac_iter(f0, j as nat).0,
            bits as int == frac_iter(f0, j as nat).1,
        decreases 64 - j,
    {
        proof {
            lemma_frac_iter_bounds(f0, j as nat);
            lemma_frac_iter_bounds(f0, (j + 1) as nat);
            lemma_two_pow_mono(j as nat, 63);
            lemma_two_pow_values();
            assert((mant as int) * (mant as int) <= 0xFFFFFFFFFFFFFFFF * 0xFFFFFFFFFFFFFFFF)
                by (nonlinear_arith)
                requires
                    0 <= mant as int <= 0xFFFFFFFFFFFFFFFF,
            ;
        }
        let sq: u128 = (mant * mant) / 0x8000000000000000u128;
        if sq >= 0x10000000000000000u128 {
            mant = sq / 2;
            bits = bits * 2 + 1;
        } else {
            mant = sq;
            bits = bits * 2;
        }
        j = j + 1;
    }
    proof {
        lemma_frac_iter_bounds(f0, 64);
        lemma_two_pow_values();
    }
    let e: u128 = (63 - sh) as u128;
    e * 0x10000000000000000u128 + (bits as u128)
}

/// The derived bit-array length in exact integer form:
/// `ceil(n * log2(den/num) / ln 2)`, all in Q64 fixed point. Zero when the
/// probability is one (or indistinguishable from it) or `n` is zero.
pub open spec fn required_bits_exact(num: u64, den: u64, n: int) -> int {
    let l = log2_q64(den) - log2_q64(num);
    if n <= 0 || l <= 0 {
        0
    } else {
        let a = n * l;
        a / (LN2_Q64 as int) + (if a % (LN2_Q64 as int) == 0 {
            0int
        } else {
            1int
        })
    }
}

/// The bit-array length as held on this machine: the exact value, saturated
/// at the machine word.
pub open spec fn required_bits_spec(num: u64, den: u64, n: int) -> usize {
    if required_bits_exact(num, den, n) > usize::MAX {
        usize::MAX
    } else {
        required_bits_exact(num, den, n) as usize
    }
}

/// The derived hash-function count: `ceil(m * ln 2 / n)` in Q64 fixed point.
pub open spec fn hash_count_spec(m: int, n: int) -> int {
    let a = m * (LN2_Q64 as int);
    let b = n * 0x10000000000000000;
    if n <= 0 {
        0
    } else {
        a / b + (if a % b == 0 {
            0int
        } else {
            1int
        })
    }
}

/// A false-positive probability in `(0, 1]`, held as the exact rational
/// `num / den`.
#[derive(Clone, Copy)]
pub struct Fpp {
    num: u64,
    den: u64,
}

/// The abstract value of a probability: its numerator and denominator.
pub ghost struct FppV {
    pub num: u64,
    pub den: u64,
}

impl View for Fpp {
    type V = FppV;

    closed spec fn view(&self) -> FppV {
        FppV { num: self.num, den: self.den }
    }
}

/// A valid probability: a positive numerator no greater than the
/// denominator, so the ratio lies in `(0, 1]`.
pub open spec fn fpp_wf(p: FppV) -> bool {
    1 <= p.num <= p.den
}

/// The tightened probability: the value multiplied by the ratio `17/20`
/// (`0.85`), exactly whenever the scaled numerator and denominator still fit
/// in 64 bits, and rounded by a common power-of-two factor otherwise.
pub open spec fn tightened_spec(p: FppV) -> FppV {
    if p.den <= 0xFFFFFFFFFFFFFFFFu64 / 20 {
        FppV { num: (p.num * 17) as u64, den: (p.den * 20) as u64 }
    } else {
        let nn = (p.num * 17) / 32;
        let nd = (p.den * 20) / 32;
        FppV {
            num: if nn == 0 {
                1u64
            } else {
                nn as u64
            },
            den: nd as u64,
        }
    }
}

impl Fpp {
    /// A valid probability lies in `(0, 1]`.
    pub open spec fn wf(&self) -> bool {
        fpp_wf(self@)
    }

    /// Creates the probability `num / den`. Rejects a zero numerator or a
    /// ratio above one as configuration misuse.
    pub fn new(num: u64, den: u64) -> (r: Result<Fpp, FilterError>)
        ensures
            (1 <= num <= den) <==> r is Ok,
            r matches Ok(p) ==> p.wf() && p@.num == num && p@.den == den,
            !(1 <= num <= den) ==> r == Err::<Fpp, FilterError>(FilterError::InvalidConfiguration),
    {
        if 1 <= num && num <= den {
            Ok(Fpp { num, den })
        } else {
            Err(FilterError::InvalidConfiguration)
        }
    }

    /// Returns the numerator.
    pub fn num(&self) -> (r: u64)
        ensures
            r == self@.num,
    {
        self.num
    }

    /// Returns the denominator.
    pub fn den(&self) -> (r: u64)
        ensures
            r == self@.den,
    {
        self.den
    }

    /// Multiplies the probability by the tightening ratio `0.85`, exactly
    /// when the scaled rational still fits in 64 bits.
    pub fn tightened(&self) -> (r: Fpp)
        requires
            self.wf(),
        ensures
            r.wf(),
            r@ == tightened_spec(self@),
    {
        if self.den <= 0xFFFFFFFFFFFFFFFFu64 / 20 {
            Fpp { num: self.num * 17, den: self.den * 20 }
        } else {
            let nn: u64 = ((self.num as u128 * 17) / 32) as u64;
            let nd: u64 = ((self.den as u128 * 20) / 32) as u64;
            proof {
                lemma_div_is_ordered(self.num as int * 17, self.den as int * 20, 32);
            }
            Fpp { num: if nn == 0 { 1 } else { nn }, den: nd }
        }
    }
}

/// Calculates the optimal size of the bit array given a target false
/// positive probability `p` and the expected number of inserted elements
/// `n`, saturating at the machine word.
pub fn optimal_required_bits(p: &Fpp, n: usize) -> (r: usize)
    requires
        p.wf(),
    ensures
        r == required_bits_spec(p@.num, p@.den, n as int),
{
    if n == 0 {
        return 0;
    }
    let ld: u128 = log2_q64_exec(p.den());
    let ln_v: u128 = log2_q64_exec(p.num());
    if ld <= ln_v {
        return 0;
    }
    let l: u128 = ld - ln_v;
    let nn: u128 = n as u128;
    if nn > u128::MAX / l {
        proof {
            lemma_mul_exceeds(nn as int, l as int, u128::MAX as int);
            assert((0xFFFFFFFFFFFFFFFF + 1) * (LN2_Q64 as int) < u128::MAX as int)
                by (nonlinear_arith);
            assert((usize::MAX as int + 1) * (LN2_Q64 as int) <= (0xFFFFFFFFFFFFFFFF + 1) * (
            LN2_Q64 as int)) by (nonlinear_arith)
                requires
                    usize::MAX as int <= 0xFFFFFFFFFFFFFFFF,
            ;
            lemma_ceil_div_exceeds(
                nn as int * l as int,
                LN2_Q64 as int,
                usize::MAX as int,
            );
        }
        return usize::MAX;
    }
    proof {
        lemma_mul_within(nn as int, l as int, u128::MAX as int);
    }
    let a: u128 = nn * l;
    let q0: u128 = a / LN2_Q64;
    let q: u128 = if a % LN2_Q64 != 0u128 {
        q0 + 1
    } else {
        q0
    };
    proof {
        lemma_div_is_ordered(a as int, u128::MAX as int, LN2_Q64 as int);
    }
    if q > usize::MAX as u128 {
        usize::MAX
    } else {
        q as usize
    }
}

/// `a > floor(c / b)` forces the product `a * b` past `c`.
proof fn lemma_mul_exceeds(a: int, b: int, c: int)
    requires
        1 <= b,
        0 <= c,
        a > c / b,
    ensures
        a * b > c,
{
    lemma_fundamental_div_mod(c, b);
    assert(a * b >= (c / b + 1) * b) by (nonlinear_arith)
        requires
            1 <= b && a >= c / b + 1,
    ;
    assert((c / b + 1) * b == (c / b) * b + b) by (nonlinear_arith);
    assert(b * (c / b) + c % b == c);
    assert(c % b < b);
    assert((c / b) * b == b * (c / b)) by (nonlinear_arith);
}

/// `a <= floor(c / b)` keeps the product `a * b` within `c`.
proof fn lemma_mul_within(a: int, b: int, c: int)
    requires
        1 <= b,
        0 <= a,
        0 <= c,
        a <= c / b,
    ensures
        a * b <= c,
{
    lemma_fundamental_div_mod(c, b);
    assert(a * b <= (c / b) * b) by (nonlinear_arith)
        requires
            1 <= b && 0 <= a <= c / b,
    ;
    assert((c / b) * b == b * (c / b)) by (nonlinear_arith);
    assert(c % b >= 0);
}

/// A dividend past `(bound + 1) * b` pushes the ceiling of the division
/// past `bound`.
proof fn lemma_ceil_div_exceeds(a: int, b: int, bound: int)
    requires
        1 <= b,
        0 <= bound,
        a > (bound + 1) * b,
    ensures
        a / b + (if a % b == 0 {
            0int
        } else {
            1int
        }) > bound,
{
    assert(((bound + 1) * b) / b == bound + 1) by {
        lemma_div_multiples_vanish(bound + 1, b);
        assert((bound + 1) * b == b * (bound + 1)) by (nonlinear_arith);
    }
    lemma_div_is_ordered((bound + 1) * b, a, b);
}

/// Calculates the optimal number of hash functions given the size of the
/// bit array `m` and the expected number of inserted elements `n`.
/// The derived hash-function count never exceeds the bit count, and a
/// filter with at least one bit gets at least one hash function.
pub proof fn lemma_hash_count_bounds(m: int, n: int)
    requires
        0 <= m,
        1 <= n,
        m <= 0xFFFFFFFFFFFFFFFF,
        n <= 0xFFFFFFFFFFFFFFFF,
    ensures
        0 <= hash_count_spec(m, n) <= m,
        m >= 1 ==> hash_count_spec(m, n) >= 1,
{
    let ai = m * (LN2_Q64 as int);
    let bi = n * 0x10000000000000000;
    let q0 = ai / bi;
    assert(ai >= 0) by (nonlinear_arith)
        requires
            0 <= m && ai == m * (LN2_Q64 as int),
    ;
    lemma_div_is_ordered(0, ai, bi);
    assert(ai <= m * bi) by (nonlinear_arith)
        requires
            0 <= m && ai == m * (LN2_Q64 as int) && bi == n * 0x10000000000000000 && n >= 1
                && LN2_Q64 as int <= 0x10000000000000000,
    ;
    lemma_div_is_ordered(ai, m * bi, bi);
    assert((m * bi) / bi == m) by {
        lemma_div_multiples_vanish(m, bi);
        assert(m * bi == bi * m) by (nonlinear_arith);
    }
    if q0 == m && m >= 1 {
        lemma_fundamental_div_mod(ai, bi);
        assert(bi * (ai / bi) == m * bi) by (nonlinear_arith)
            requires
                ai / bi == m,
        ;
        assert(ai % bi == ai - m * bi);
    }
    if m >= 1 {
        assert(ai >= LN2_Q64 as int) by (nonlinear_arith)
            requires
                m >= 1 && ai == m * (LN2_Q64 as int),
        ;
        if ai < bi {
            lemma_small_mod(ai as nat, bi as nat);
        } else {
            lemma_div_is_ordered(bi, ai, bi);
            lemma_div_multiples_vanish(1, bi);
            assert(1 * bi == bi * 1) by (nonlinear_arith);
        }
    }
}

pub fn optimal_number_of_hash_functions(m: usize, n: usize) -> (r: usize)
    requires
        n >= 1,
    ensures
        r == hash_count_spec(m as int, n as int),
        m >= 1 ==> r >= 1,
        r <= m,
{
    proof {
        assert((m as int) * (LN2_Q64 as int) <= 0xFFFFFFFFFFFFFFFF * (LN2_Q64 as int))
            by (nonlinear_arith)
            requires
                0 <= m as int <= 0xFFFFFFFFFFFFFFFF,
        ;
        assert(0xFFFFFFFFFFFFFFFF * (LN2_Q64 as int) < u128::MAX as int) by (nonlinear_arith);
        assert((n as int) * 0x10000000000000000 <= 0xFFFFFFFFFFFFFFFF * 0x10000000000000000)
            by (nonlinear_arith)
            requires
                0 <= n as int <= 0xFFFFFFFFFFFFFFFF,
        ;
        lemma_hash_count_bounds(m as int, n as int);
    }
    let a: u128 = (m as u128) * LN2_Q64;
    let b: u128 = (n as u128) * 0x10000000000000000u128;
    let q0: u128 = a / b;
    let q: u128 = if a % b != 0u128 {
        q0 + 1
    } else {
        q0
    };
    q as usize
}

} // verus!

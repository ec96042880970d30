//! Fixed-point decaying exponential.
//!
//! `exp_neg(t)` computes `ONE * e^(-t/ONE)` in integer arithmetic, the
//! building block of the Gaussian and sigmoid membership functions. The
//! result is pinned exactly by a specification-level rendering of the
//! same computation: the integer part of the exponent is handled by
//! repeated multiplication with `EXP_NEG1` (the fixed-point value of
//! `1/e`), the fractional part by the reciprocal of a truncated Taylor
//! series for `e^(r/ONE)`. Every division rounds toward negative
//! infinity, so the result is a well-defined integer, not an
//! approximation left to the hardware.

use vstd::arithmetic::div_mod::lemma_div_is_ordered;
use vstd::arithmetic::div_mod::lemma_div_is_ordered_by_denominator;
use vstd::arithmetic::div_mod::lemma_div_multiples_vanish;
use vstd::arithmetic::div_mod::lemma_div_pos_is_pos;
use vstd::arithmetic::mul::lemma_mul_inequality;
use vstd::arithmetic::mul::lemma_mul_is_commutative;
use vstd::prelude::*;

use crate::ONE;
use crate::is_degree;

verus! {

/// Fixed-point value of `1/e`.
pub const EXP_NEG1: i64 = 367_879;

/// Exponents of at least `EXP_CUTOFF` (the real number `14.0`) map to
/// a degree of `0`: the true value is below one fixed-point unit.
pub const EXP_CUTOFF: i64 = 14_000_000;

/// Number of Taylor terms used for the fractional part.
pub const TAYLOR_TERMS: u64 = 12;

/// `(1/e)^n` in fixed point, by repeated multiplication.
pub open spec fn spec_pow_neg1(n: nat) -> int
    decreases n,
{
    if n == 0 {
        ONE as int
    } else {
        spec_pow_neg1((n - 1) as nat) * EXP_NEG1 / (ONE as int)
    }
}

/// The `k`-th Taylor term of `e^(r/ONE)` in fixed point: `r^k / k!`,
/// computed term from term with rounding at every step.
pub open spec fn spec_taylor_term(r: int, k: nat) -> int
    decreases k,
{
    if k == 0 {
        ONE as int
    } else {
        spec_taylor_term(r, (k - 1) as nat) * r / (k * (ONE as int))
    }
}

/// The Taylor series of `e^(r/ONE)` in fixed point, truncated after
/// term `k`.
pub open spec fn spec_taylor_sum(r: int, k: nat) -> int
    decreases k,
{
    if k == 0 {
        ONE as int
    } else {
        spec_taylor_sum(r, (k - 1) as nat) + spec_taylor_term(r, k)
    }
}

/// `ONE * e^(-t/ONE)` in fixed point, for `t >= 0`.
pub open spec fn spec_exp_neg(t: int) -> int {
    if t >= EXP_CUTOFF {
        0
    } else {
        let n = t / (ONE as int);
        let r = t % (ONE as int);
        let en = spec_pow_neg1(n as nat);
        let er = (ONE as int) * (ONE as int) / spec_taylor_sum(r, TAYLOR_TERMS as nat);
        en * er / (ONE as int)
    }
}

/// The integer-exponent powers stay between `0` and `ONE`.
pub proof fn lemma_pow_neg1_bounds(n: nat)
    ensures
        0 <= spec_pow_neg1(n) <= ONE,
    decreases n,
{
    if n > 0 {
        lemma_pow_neg1_bounds((n - 1) as nat);
        let p = spec_pow_neg1((n - 1) as nat);
        lemma_mul_inequality(p, ONE as int, EXP_NEG1 as int);
        lemma_div_is_ordered(p * EXP_NEG1, (ONE as int) * EXP_NEG1, ONE as int);
        lemma_div_multiples_vanish(EXP_NEG1 as int, ONE as int);
        vstd::arithmetic::mul::lemma_mul_nonnegative(p, EXP_NEG1 as int);
        lemma_div_pos_is_pos(p * EXP_NEG1, ONE as int);
    }
}

/// For a fractional argument, every Taylor term stays between `0` and
/// `ONE`.
pub proof fn lemma_taylor_term_bounds(r: int, k: nat)
    requires
        0 <= r < ONE,
    ensures
        0 <= spec_taylor_term(r, k) <= ONE,
    decreases k,
{
    if k > 0 {
        lemma_taylor_term_bounds(r, (k - 1) as nat);
        let p = spec_taylor_term(r, (k - 1) as nat);
        lemma_mul_inequality(p, ONE as int, r);
        lemma_mul_inequality(r, ONE as int, ONE as int);
        lemma_div_is_ordered(p * r, (ONE as int) * (ONE as int), k * (ONE as int));
        lemma_div_is_ordered_by_denominator(
            (ONE as int) * (ONE as int),
            ONE as int,
            k * (ONE as int),
        );
        lemma_div_multiples_vanish(ONE as int, ONE as int);
        vstd::arithmetic::mul::lemma_mul_nonnegative(p, r);
        lemma_div_pos_is_pos(p * r, k * (ONE as int));
    }
}

/// The truncated Taylor series of `e^(r/ONE)` is at least `ONE` and at
/// most `(k + 1) * ONE`.
pub proof fn lemma_taylor_sum_bounds(r: int, k: nat)
    requires
        0 <= r < ONE,
    ensures
        ONE <= spec_taylor_sum(r, k) <= (k + 1) * (ONE as int),
    decreases k,
{
    if k > 0 {
        lemma_taylor_sum_bounds(r, (k - 1) as nat);
        lemma_taylor_term_bounds(r, k);
        assert(k * (ONE as int) + ONE == (k + 1) * (ONE as int)) by (nonlinear_arith);
    }
}

/// The fixed-point exponential of a nonnegative exponent is a degree.
pub proof fn lemma_exp_neg_is_degree(t: int)
    requires
        t >= 0,
    ensures
        is_degree(spec_exp_neg(t)),
{
    if t < EXP_CUTOFF {
        let n = t / (ONE as int);
        let r = t % (ONE as int);
        lemma_div_pos_is_pos(t, ONE as int);
        let en = spec_pow_neg1(n as nat);
        let ts = spec_taylor_sum(r, TAYLOR_TERMS as nat);
        let er = (ONE as int) * (ONE as int) / ts;
        lemma_pow_neg1_bounds(n as nat);
        lemma_taylor_sum_bounds(r, TAYLOR_TERMS as nat);
        lemma_div_is_ordered_by_denominator((ONE as int) * (ONE as int), ONE as int, ts);
        lemma_div_multiples_vanish(ONE as int, ONE as int);
        lemma_div_pos_is_pos((ONE as int) * (ONE as int), ts);
        lemma_mul_inequality(en, ONE as int, er);
        lemma_mul_inequality(er, ONE as int, ONE as int);
        lemma_div_is_ordered(en * er, (ONE as int) * (ONE as int), ONE as int);
        vstd::arithmetic::mul::lemma_mul_nonnegative(en, er);
        lemma_div_pos_is_pos(en * er, ONE as int);
    }
}

/// With a zero fractional argument every Taylor term after the first
/// vanishes, so the series is exactly `ONE`.
proof fn lemma_taylor_sum_at_zero(k: nat)
    ensures
        spec_taylor_term(0, k) == if k == 0 {
            ONE as int
        } else {
            0
        },
        spec_taylor_sum(0, k) == ONE,
    decreases k,
{
    if k > 0 {
        lemma_taylor_sum_at_zero((k - 1) as nat);
    }
}

/// A zero exponent yields exactly the degree `1`.
pub proof fn lemma_exp_neg_at_zero()
    ensures
        spec_exp_neg(0) == ONE,
{
    lemma_taylor_sum_at_zero(TAYLOR_TERMS as nat);
    vstd::arithmetic::div_mod::lemma_div_of0(ONE as int);
    assert(spec_pow_neg1((0int / (ONE as int)) as nat) == ONE);
    assert((ONE as int) * (ONE as int) == 1_000_000_000_000) by (nonlinear_arith);
    assert(1_000_000_000_000int / (ONE as int) == ONE);
    assert((ONE as int) * (ONE as int) / (ONE as int) == ONE) by {
        lemma_div_multiples_vanish(ONE as int, ONE as int);
    }
}

/// Each extra integer step of the exponent lowers the power.
proof fn lemma_pow_neg1_step(n: nat)
    ensures
        spec_pow_neg1(n + 1) <= spec_pow_neg1(n),
{
    lemma_pow_neg1_bounds(n);
    let p = spec_pow_neg1(n);
    lemma_mul_inequality(EXP_NEG1 as int, ONE as int, p);
    lemma_mul_is_commutative(EXP_NEG1 as int, p);
    lemma_mul_is_commutative(ONE as int, p);
    lemma_div_is_ordered(p * EXP_NEG1, p * (ONE as int), ONE as int);
    lemma_div_multiples_vanish(p, ONE as int);
}

/// The powers of `1/e` only fall as the exponent grows.
proof fn lemma_pow_neg1_monotone(n1: nat, n2: nat)
    requires
        n1 <= n2,
    ensures
        spec_pow_neg1(n2) <= spec_pow_neg1(n1),
    decreases n2 - n1,
{
    if n1 < n2 {
        lemma_pow_neg1_monotone(n1, (n2 - 1) as nat);
        lemma_pow_neg1_step((n2 - 1) as nat);
    }
}

/// Each Taylor term grows with the fractional argument.
proof fn lemma_taylor_term_monotone(r1: int, r2: int, k: nat)
    requires
        0 <= r1 <= r2 < ONE,
    ensures
        spec_taylor_term(r1, k) <= spec_taylor_term(r2, k),
    decreases k,
{
    if k > 0 {
        lemma_taylor_term_monotone(r1, r2, (k - 1) as nat);
        lemma_taylor_term_bounds(r1, (k - 1) as nat);
        lemma_taylor_term_bounds(r2, (k - 1) as nat);
        let t1 = spec_taylor_term(r1, (k - 1) as nat);
        let t2 = spec_taylor_term(r2, (k - 1) as nat);
        vstd::arithmetic::mul::lemma_mul_upper_bound(t1, t2, r1, r2);
        lemma_div_is_ordered(t1 * r1, t2 * r2, k * (ONE as int));
    }
}

/// The truncated Taylor series grows with the fractional argument.
proof fn lemma_taylor_sum_monotone(r1: int, r2: int, k: nat)
    requires
        0 <= r1 <= r2 < ONE,
    ensures
        spec_taylor_sum(r1, k) <= spec_taylor_sum(r2, k),
    decreases k,
{
    if k > 0 {
        lemma_taylor_sum_monotone(r1, r2, (k - 1) as nat);
        lemma_taylor_term_monotone(r1, r2, k);
    }
}

/// For a fractional argument the truncated series stays under the
/// fixed-point value of `e`: term by term it is dominated by the
/// rounded-down chain `B(k) = B(k-1) * (ONE - 1) / (k * ONE)`.
proof fn lemma_taylor_sum_tight(r: int)
    requires
        0 <= r < ONE,
    ensures
        spec_taylor_sum(r, TAYLOR_TERMS as nat) <= 2_718_275,
{
    let t1 = spec_taylor_term(r, 1);
    let t2 = spec_taylor_term(r, 2);
    let t3 = spec_taylor_term(r, 3);
    let t4 = spec_taylor_term(r, 4);
    let t5 = spec_taylor_term(r, 5);
    let t6 = spec_taylor_term(r, 6);
    let t7 = spec_taylor_term(r, 7);
    let t8 = spec_taylor_term(r, 8);
    let t9 = spec_taylor_term(r, 9);
    let t10 = spec_taylor_term(r, 10);
    let t11 = spec_taylor_term(r, 11);
    let t12 = spec_taylor_term(r, 12);
    assert(spec_taylor_term(r, 0) == ONE);
    lemma_taylor_term_bounds(r, 0);
    lemma_taylor_term_bounds(r, 1);
    lemma_taylor_term_bounds(r, 2);
    lemma_taylor_term_bounds(r, 3);
    lemma_taylor_term_bounds(r, 4);
    lemma_taylor_term_bounds(r, 5);
    lemma_taylor_term_bounds(r, 6);
    lemma_taylor_term_bounds(r, 7);
    lemma_taylor_term_bounds(r, 8);
    lemma_taylor_term_bounds(r, 9);
    lemma_taylor_term_bounds(r, 10);
    lemma_taylor_term_bounds(r, 11);
    assert(t1 == r) by {
        lemma_div_multiples_vanish(r, ONE as int);
    }
    assert(t2 <= 499_999) by {
        vstd::arithmetic::mul::lemma_mul_upper_bound(t1, 999_999, r, 999_999);
        lemma_div_is_ordered(t1 * r, 999_999int * 999_999, 2 * (ONE as int));
        assert(999_999int * 999_999 / 2_000_000 == 499_999);
    }
    assert(t3 <= 166_666) by {
        vstd::arithmetic::mul::lemma_mul_upper_bound(t2, 499_999, r, 999_999);
        lemma_div_is_ordered(t2 * r, 499_999int * 999_999, 3 * (ONE as int));
        assert(499_999int * 999_999 / 3_000_000 == 166_666);
    }
    assert(t4 <= 41_666) by {
        vstd::arithmetic::mul::lemma_mul_upper_bound(t3, 166_666, r, 999_999);
        lemma_div_is_ordered(t3 * r, 166_666int * 999_999, 4 * (ONE as int));
        assert(166_666int * 999_999 / 4_000_000 == 41_666);
    }
    assert(t5 <= 8_333) by {
        vstd::arithmetic::mul::lemma_mul_upper_bound(t4, 41_666, r, 999_999);
        lemma_div_is_ordered(t4 * r, 41_666int * 999_999, 5 * (ONE as int));
        assert(41_666int * 999_999 / 5_000_000 == 8_333);
    }
    assert(t6 <= 1_388) by {
        vstd::arithmetic::mul::lemma_mul_upper_bound(t5, 8_333, r, 999_999);
        lemma_div_is_ordered(t5 * r, 8_333int * 999_999, 6 * (ONE as int));
        assert(8_333int * 999_999 / 6_000_000 == 1_388);
    }
    assert(t7 <= 198) by {
        vstd::arithmetic::mul::lemma_mul_upper_bound(t6, 1_388, r, 999_999);
        lemma_div_is_ordered(t6 * r, 1_388int * 999_999, 7 * (ONE as int));
        assert(1_388int * 999_999 / 7_000_000 == 198);
    }
    assert(t8 <= 24) by {
        vstd::arithmetic::mul::lemma_mul_upper_bound(t7, 198, r, 999_999);
        lemma_div_is_ordered(t7 * r, 198int * 999_999, 8 * (ONE as int));
        assert(198int * 999_999 / 8_000_000 == 24);
    }
    assert(t9 <= 2) by {
        vstd::arithmetic::mul::lemma_mul_upper_bound(t8, 24, r, 999_999);
        lemma_div_is_ordered(t8 * r, 24int * 999_999, 9 * (ONE as int));
        assert(24int * 999_999 / 9_000_000 == 2);
    }
    assert(t10 <= 0) by {
        vstd::arithmetic::mul::lemma_mul_upper_bound(t9, 2, r, 999_999);
        lemma_div_is_ordered(t9 * r, 2int * 999_999, 10 * (ONE as int));
        assert(2int * 999_999 / 10_000_000 == 0);
    }
    assert(t11 <= 0) by {
        vstd::arithmetic::mul::lemma_mul_upper_bound(t10, 0, r, 999_999);
        lemma_div_is_ordered(t10 * r, 0int * 999_999, 11 * (ONE as int));
        assert(0int * 999_999 / 11_000_000 == 0);
    }
    assert(t12 <= 0) by {
        vstd::arithmetic::mul::lemma_mul_upper_bound(t11, 0, r, 999_999);
        lemma_div_is_ordered(t11 * r, 0int * 999_999, 12 * (ONE as int));
        assert(0int * 999_999 / 12_000_000 == 0);
    }
    assert(spec_taylor_sum(r, 1) == spec_taylor_sum(r, 0) + t1);
    assert(spec_taylor_sum(r, 2) == spec_taylor_sum(r, 1) + t2);
    assert(spec_taylor_sum(r, 3) == spec_taylor_sum(r, 2) + t3);
    assert(spec_taylor_sum(r, 4) == spec_taylor_sum(r, 3) + t4);
    assert(spec_taylor_sum(r, 5) == spec_taylor_sum(r, 4) + t5);
    assert(spec_taylor_sum(r, 6) == spec_taylor_sum(r, 5) + t6);
    assert(spec_taylor_sum(r, 7) == spec_taylor_sum(r, 6) + t7);
    assert(spec_taylor_sum(r, 8) == spec_taylor_sum(r, 7) + t8);
    assert(spec_taylor_sum(r, 9) == spec_taylor_sum(r, 8) + t9);
    assert(spec_taylor_sum(r, 10) == spec_taylor_sum(r, 9) + t10);
    assert(spec_taylor_sum(r, 11) == spec_taylor_sum(r, 10) + t11);
    assert(spec_taylor_sum(r, 12) == spec_taylor_sum(r, 11) + t12);
}

/// The reciprocal of the series never falls under the fixed-point
/// value of `1/e`: one fractional step decays no faster than one
/// integer step.
proof fn lemma_reciprocal_at_least_exp_neg1(r: int)
    requires
        0 <= r < ONE,
    ensures
        (ONE as int) * (ONE as int) / spec_taylor_sum(r, TAYLOR_TERMS as nat) >= EXP_NEG1,
{
    lemma_taylor_sum_tight(r);
    lemma_taylor_sum_bounds(r, TAYLOR_TERMS as nat);
    let ts = spec_taylor_sum(r, TAYLOR_TERMS as nat);
    lemma_div_is_ordered_by_denominator((ONE as int) * (ONE as int), ts, 2_718_275);
    assert((ONE as int) * (ONE as int) == 1_000_000_000_000) by (nonlinear_arith);
    assert(1_000_000_000_000int / 2_718_275 == 367_880);
}

/// The fixed-point exponential is antitone: a larger exponent never
/// yields a larger degree.
pub proof fn lemma_exp_neg_antitone(t1: int, t2: int)
    requires
        0 <= t1 <= t2,
    ensures
        spec_exp_neg(t2) <= spec_exp_neg(t1),
{
    lemma_exp_neg_is_degree(t1);
    lemma_exp_neg_is_degree(t2);
    if t2 < EXP_CUTOFF {
        let n1 = t1 / (ONE as int);
        let r1 = t1 % (ONE as int);
        let n2 = t2 / (ONE as int);
        let r2 = t2 % (ONE as int);
        vstd::arithmetic::div_mod::lemma_fundamental_div_mod(t1, ONE as int);
        vstd::arithmetic::div_mod::lemma_fundamental_div_mod(t2, ONE as int);
        vstd::arithmetic::div_mod::lemma_mod_division_less_than_divisor(t1, ONE as int);
        vstd::arithmetic::div_mod::lemma_mod_division_less_than_divisor(t2, ONE as int);
        lemma_div_pos_is_pos(t1, ONE as int);
        lemma_div_pos_is_pos(t2, ONE as int);
        lemma_div_is_ordered(t1, t2, ONE as int);
        lemma_div_is_ordered(t2, EXP_CUTOFF - 1, ONE as int);
        let en1 = spec_pow_neg1(n1 as nat);
        let en2 = spec_pow_neg1(n2 as nat);
        let ts1 = spec_taylor_sum(r1, TAYLOR_TERMS as nat);
        let ts2 = spec_taylor_sum(r2, TAYLOR_TERMS as nat);
        let er1 = (ONE as int) * (ONE as int) / ts1;
        let er2 = (ONE as int) * (ONE as int) / ts2;
        lemma_pow_neg1_bounds(n1 as nat);
        lemma_pow_neg1_bounds(n2 as nat);
        lemma_taylor_sum_bounds(r1, TAYLOR_TERMS as nat);
        lemma_taylor_sum_bounds(r2, TAYLOR_TERMS as nat);
        lemma_div_pos_is_pos((ONE as int) * (ONE as int), ts1);
        lemma_div_pos_is_pos((ONE as int) * (ONE as int), ts2);
        lemma_div_is_ordered_by_denominator((ONE as int) * (ONE as int), ONE as int, ts1);
        lemma_div_is_ordered_by_denominator((ONE as int) * (ONE as int), ONE as int, ts2);
        lemma_div_multiples_vanish(ONE as int, ONE as int);
        if n1 == n2 {
            lemma_taylor_sum_monotone(r1, r2, TAYLOR_TERMS as nat);
            lemma_div_is_ordered_by_denominator((ONE as int) * (ONE as int), ts1, ts2);
            lemma_mul_inequality(er2, er1, en1);
            lemma_mul_is_commutative(er2, en1);
            lemma_mul_is_commutative(er1, en1);
            lemma_div_is_ordered(en1 * er2, en1 * er1, ONE as int);
        } else {
            // One full integer step separates the buckets: the first
            // result is at least the next power, the second at most
            // its own power.
            lemma_reciprocal_at_least_exp_neg1(r1);
            lemma_mul_inequality(EXP_NEG1 as int, er1, en1);
            lemma_mul_is_commutative(EXP_NEG1 as int, en1);
            lemma_mul_is_commutative(er1, en1);
            lemma_div_is_ordered(en1 * EXP_NEG1, en1 * er1, ONE as int);
            assert(spec_pow_neg1((n1 + 1) as nat) == en1 * EXP_NEG1 / (ONE as int));
            lemma_pow_neg1_monotone((n1 + 1) as nat, n2 as nat);
            lemma_mul_inequality(er2, ONE as int, en2);
            lemma_mul_is_commutative(er2, en2);
            lemma_mul_is_commutative(ONE as int, en2);
            lemma_div_is_ordered(en2 * er2, en2 * (ONE as int), ONE as int);
            lemma_div_multiples_vanish(en2, ONE as int);
            lemma_mul_is_commutative(en2, ONE as int);
        }
    }
}

/// Compute `ONE * e^(-t/ONE)` in fixed point.
pub fn exp_neg(t: i64) -> (r: i64)
    requires
        t >= 0,
    ensures
        r == spec_exp_neg(t as int),
        is_degree(r as int),
{
    proof {
        lemma_exp_neg_is_degree(t as int);
    }
    if t >= EXP_CUTOFF {
        return 0;
    }
    let n = t / ONE;
    let rem = t % ONE;
    proof {
        lemma_div_pos_is_pos(t as int, ONE as int);
        lemma_div_is_ordered(t as int, EXP_CUTOFF - 1, ONE as int);
    }
    let mut en: i64 = ONE;
    let mut i: i64 = 0;
    while i < n
        invariant
            0 <= i <= n <= 13,
            en == spec_pow_neg1(i as nat),
            0 <= en <= ONE,
        decreases n - i,
    {
        en = ((en as i128) * (EXP_NEG1 as i128) / (ONE as i128)) as i64;
        i = i + 1;
        proof {
            lemma_pow_neg1_bounds(i as nat);
        }
    }
    let mut term: i64 = ONE;
    let mut sum: i64 = ONE;
    let mut k: i64 = 1;
    while k <= TAYLOR_TERMS as i64
        invariant
            1 <= k <= TAYLOR_TERMS + 1,
            0 <= rem < ONE,
            term == spec_taylor_term(rem as int, (k - 1) as nat),
            0 <= term <= ONE,
            sum == spec_taylor_sum(rem as int, (k - 1) as nat),
            ONE <= sum <= 13_000_000,
        decreases TAYLOR_TERMS + 1 - k,
    {
        proof {
            lemma_taylor_sum_bounds(rem as int, (k - 1) as nat);
            lemma_mul_inequality(k as int, 12, ONE as int);
            vstd::arithmetic::mul::lemma_mul_upper_bound(
                term as int,
                ONE as int,
                rem as int,
                ONE as int,
            );
            vstd::arithmetic::mul::lemma_mul_nonnegative(term as int, rem as int);
            lemma_taylor_term_bounds(rem as int, k as nat);
        }
        term = ((term as i128) * (rem as i128) / ((k as i128) * (ONE as i128))) as i64;
        sum = sum + term;
        k = k + 1;
    }
    let er = ((ONE as i128) * (ONE as i128) / (sum as i128)) as i64;
    proof {
        lemma_div_is_ordered_by_denominator((ONE as int) * (ONE as int), ONE as int, sum as int);
        lemma_div_multiples_vanish(ONE as int, ONE as int);
        lemma_div_pos_is_pos((ONE as int) * (ONE as int), sum as int);
    }
    let r = ((en as i128) * (er as i128) / (ONE as i128)) as i64;
    proof {
        lemma_mul_inequality(en as int, ONE as int, er as int);
        lemma_mul_inequality(er as int, ONE as int, ONE as int);
        lemma_div_is_ordered((en as int) * (er as int), (ONE as int) * (ONE as int), ONE as int);
        vstd::arithmetic::mul::lemma_mul_nonnegative(en as int, er as int);
        lemma_div_pos_is_pos((en as int) * (er as int), ONE as int);
    }
    r
}

} // verus!

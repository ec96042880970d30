//! Membership functions.
//!
//! A membership function maps a fixed-point domain value to a degree
//! between `0` and `ONE`. The triangular and trapezoidal shapes are
//! exact piecewise-linear ramps; the Gaussian and sigmoid shapes are
//! built on the fixed-point exponential of [`crate::exp`]. Every shape
//! is total: any parameters and any argument produce a degree.

use vstd::arithmetic::div_mod::lemma_div_is_ordered;
use vstd::arithmetic::div_mod::lemma_div_multiples_vanish;
use vstd::arithmetic::div_mod::lemma_div_pos_is_pos;
use vstd::math::abs;
use vstd::prelude::*;
use vstd::string::StringExecFns;

use crate::ONE;
use crate::exp::spec_exp_neg;
use crate::is_degree;

verus! {

/// Arguments whose scaled distance from the Gaussian mean reaches
/// `GAUSS_CUTOFF` (six standard deviations) map to the degree `0`.
pub const GAUSS_CUTOFF: i64 = 6_000_000;

/// The shapes of membership functions.
///
/// Parameters are fixed-point domain values (scaled by `ONE`), so a
/// triangle over the real interval `[0, 10]` peaks at `b = 5 * ONE`.
#[derive(Clone, Copy, Debug, PartialEq, Eq, Structural)]
pub enum MembershipFunction {
    /// Triangular shape: zero at the feet `a` and `c`, one at the
    /// peak `b`, linear in between. When `a == b` or `b == c` the
    /// collapsed ramp keeps the limiting value `1` at the peak.
    Triangular { a: i64, b: i64, c: i64 },
    /// Trapezoidal shape: zero outside `(a, d)`, one on the plateau
    /// `[b, c]`, linear on the ramps. When `a == b` or `c == d` the
    /// collapsed ramp keeps the limiting value `1` on the plateau.
    Trapezoidal { a: i64, b: i64, c: i64, d: i64 },
    /// Gaussian bell curve `e^(-((x - mean) / sigma)^2 / 2)`, with the
    /// guarded special case `sigma == 0`: degree `1` at the mean and
    /// `0` elsewhere.
    Gaussian { mean: i64, sigma: i64 },
    /// Sigmoid curve `1 / (1 + e^(-a (x - c)))`: the degree `1/2` at
    /// the center `c`, rising toward `1` for `a > 0`.
    Sigmoid { a: i64, c: i64 },
}

/// The triangular degree at `x`.
pub open spec fn spec_triangular(x: int, a: int, b: int, c: int) -> int {
    if x == b {
        ONE as int
    } else if x <= a || x >= c {
        0
    } else if x < b {
        (x - a) * ONE / (b - a)
    } else {
        (c - x) * ONE / (c - b)
    }
}

/// The trapezoidal degree at `x`.
pub open spec fn spec_trapezoidal(x: int, a: int, b: int, c: int, d: int) -> int {
    if b <= x <= c {
        ONE as int
    } else if x <= a || x >= d {
        0
    } else if x < b {
        (x - a) * ONE / (b - a)
    } else {
        (d - x) * ONE / (d - c)
    }
}

/// The scaled distance of `x` from the mean, in units of `sigma`:
/// `|x - mean| * ONE / |sigma|`.
pub open spec fn spec_gauss_distance(x: int, mean: int, sigma: int) -> int {
    abs(x - mean) * ONE / (abs(sigma) as int)
}

/// The Gaussian degree at `x`: `ONE * e^(-q^2 / 2)` where `q` is the
/// scaled distance from the mean.
pub open spec fn spec_gaussian(x: int, mean: int, sigma: int) -> int {
    if sigma == 0 {
        if x == mean {
            ONE as int
        } else {
            0
        }
    } else {
        let q = spec_gauss_distance(x, mean, sigma);
        if q >= GAUSS_CUTOFF {
            0
        } else {
            spec_exp_neg(q * q / (2 * (ONE as int)))
        }
    }
}

/// The logistic curve at the scaled exponent `p`: for a nonnegative
/// exponent `1 / (1 + e^-t)`, otherwise the mirrored `e^-t / (1 + e^-t)`,
/// where `t` is the magnitude of `p` brought back to the fixed-point
/// scale.
pub open spec fn spec_logistic(p: int) -> int {
    if p >= 0 {
        let s = spec_exp_neg(p / (ONE as int));
        (ONE as int) * (ONE as int) / (ONE + s)
    } else {
        let s = spec_exp_neg((-p) / (ONE as int));
        s * (ONE as int) / (ONE + s)
    }
}

/// The sigmoid degree at `x`: the logistic curve of the exponent
/// `a * (x - c)`.
pub open spec fn spec_sigmoid(x: int, a: int, c: int) -> int {
    spec_logistic(a * (x - c))
}

/// The degree of a membership function at `x`.
pub open spec fn spec_membership(mf: MembershipFunction, x: int) -> int {
    match mf {
        MembershipFunction::Triangular { a, b, c } => spec_triangular(x, a as int, b as int, c as int),
        MembershipFunction::Trapezoidal { a, b, c, d } => spec_trapezoidal(
            x,
            a as int,
            b as int,
            c as int,
            d as int,
        ),
        MembershipFunction::Gaussian { mean, sigma } => spec_gaussian(
            x,
            mean as int,
            sigma as int,
        ),
        MembershipFunction::Sigmoid { a, c } => spec_sigmoid(x, a as int, c as int),
    }
}

/// A linear ramp stays between `0` and `ONE`: for `lo < x < hi` the
/// quotient `(x - lo) * ONE / (hi - lo)` is a degree.
proof fn lemma_ramp_is_degree(x: int, lo: int, hi: int)
    requires
        lo < x < hi,
    ensures
        is_degree((x - lo) * ONE / (hi - lo)),
{
    let w = hi - lo;
    assert((x - lo) * ONE <= w * ONE) by (nonlinear_arith)
        requires
            x - lo <= w,
            0 <= ONE,
    ;
    lemma_div_is_ordered((x - lo) * ONE, w * ONE, w);
    assert(w * ONE == w * (ONE as int));
    lemma_div_multiples_vanish(ONE as int, w);
    vstd::arithmetic::mul::lemma_mul_nonnegative(x - lo, ONE as int);
    lemma_div_pos_is_pos((x - lo) * ONE, w);
}

/// Every triangular degree is a degree.
pub proof fn lemma_triangular_is_degree(x: int, a: int, b: int, c: int)
    ensures
        is_degree(spec_triangular(x, a, b, c)),
{
    if x != b && !(x <= a || x >= c) {
        if x < b {
            lemma_ramp_is_degree(x, a, b);
        } else {
            lemma_ramp_is_degree(-x, -c, -b);
            assert((-x - -c) * ONE == (c - x) * ONE);
        }
    }
}

/// Every trapezoidal degree is a degree.
pub proof fn lemma_trapezoidal_is_degree(x: int, a: int, b: int, c: int, d: int)
    ensures
        is_degree(spec_trapezoidal(x, a, b, c, d)),
{
    if !(b <= x <= c) && !(x <= a || x >= d) {
        if x < b {
            lemma_ramp_is_degree(x, a, b);
        } else {
            lemma_ramp_is_degree(-x, -d, -c);
            assert((-x - -d) * ONE == (d - x) * ONE);
        }
    }
}

/// Every Gaussian degree is a degree.
pub proof fn lemma_gaussian_is_degree(x: int, mean: int, sigma: int)
    ensures
        is_degree(spec_gaussian(x, mean, sigma)),
{
    if sigma != 0 {
        let q = spec_gauss_distance(x, mean, sigma);
        if q < GAUSS_CUTOFF {
            vstd::arithmetic::mul::lemma_mul_nonnegative(abs(x - mean) as int, ONE as int);
            lemma_div_pos_is_pos(abs(x - mean) * ONE, abs(sigma) as int);
            vstd::arithmetic::mul::lemma_mul_nonnegative(q, q);
            lemma_div_pos_is_pos(q * q, 2 * (ONE as int));
            crate::exp::lemma_exp_neg_is_degree(q * q / (2 * (ONE as int)));
        }
    }
}

/// Every sigmoid degree is a degree.
pub proof fn lemma_sigmoid_is_degree(x: int, a: int, c: int)
    ensures
        is_degree(spec_sigmoid(x, a, c)),
{
    let p = a * (x - c);
    if p >= 0 {
        let t = p / (ONE as int);
        lemma_div_pos_is_pos(p, ONE as int);
        let s = spec_exp_neg(t);
        crate::exp::lemma_exp_neg_is_degree(t);
        vstd::arithmetic::div_mod::lemma_div_is_ordered_by_denominator(
            (ONE as int) * (ONE as int),
            ONE as int,
            ONE + s,
        );
        lemma_div_multiples_vanish(ONE as int, ONE as int);
        lemma_div_pos_is_pos((ONE as int) * (ONE as int), ONE + s);
    } else {
        let m = (-p) / (ONE as int);
        lemma_div_pos_is_pos(-p, ONE as int);
        let s = spec_exp_neg(m);
        crate::exp::lemma_exp_neg_is_degree(m);
        vstd::arithmetic::div_mod::lemma_div_is_ordered_by_denominator(
            s * (ONE as int),
            ONE as int,
            ONE + s,
        );
        vstd::arithmetic::mul::lemma_mul_nonnegative(s, ONE as int);
        lemma_div_multiples_vanish(s, ONE as int);
        assert(s * (ONE as int) == (ONE as int) * s);
        lemma_div_pos_is_pos(s * (ONE as int), ONE + s);
    }
}

/// Every membership degree is a degree: the range invariant of the
/// whole variant set, for all shape parameters and all arguments.
pub proof fn lemma_membership_is_degree(mf: MembershipFunction, x: int)
    ensures
        is_degree(spec_membership(mf, x)),
{
    match mf {
        MembershipFunction::Triangular { a, b, c } => lemma_triangular_is_degree(
            x,
            a as int,
            b as int,
            c as int,
        ),
        MembershipFunction::Trapezoidal { a, b, c, d } => lemma_trapezoidal_is_degree(
            x,
            a as int,
            b as int,
            c as int,
            d as int,
        ),
        MembershipFunction::Gaussian { mean, sigma } => lemma_gaussian_is_degree(
            x,
            mean as int,
            sigma as int,
        ),
        MembershipFunction::Sigmoid { a, c } => lemma_sigmoid_is_degree(x, a as int, c as int),
    }
}

/// A triangular shape with a proper peak is `1` exactly at the peak
/// and `0` at both feet.
pub proof fn lemma_triangular_key_points(a: int, b: int, c: int)
    requires
        a < b < c,
    ensures
        spec_triangular(b, a, b, c) == ONE,
        spec_triangular(a, a, b, c) == 0,
        spec_triangular(c, a, b, c) == 0,
{
}

/// A trapezoidal shape is `1` on its whole plateau and `0` at and
/// beyond its feet.
pub proof fn lemma_trapezoidal_key_points(x: int, a: int, b: int, c: int, d: int)
    requires
        a < b <= c < d,
    ensures
        b <= x <= c ==> spec_trapezoidal(x, a, b, c, d) == ONE,
        x <= a ==> spec_trapezoidal(x, a, b, c, d) == 0,
        x >= d ==> spec_trapezoidal(x, a, b, c, d) == 0,
{
}

/// The Gaussian peaks with degree `1` exactly at its mean.
pub proof fn lemma_gaussian_peak(mean: int, sigma: int)
    ensures
        spec_gaussian(mean, mean, sigma) == ONE,
{
    if sigma != 0 {
        assert(abs(mean - mean) * ONE == 0) by (nonlinear_arith)
            requires
                abs(mean - mean) == 0,
        ;
        vstd::arithmetic::div_mod::lemma_div_of0(abs(sigma) as int);
        assert(spec_gauss_distance(mean, mean, sigma) == 0);
        vstd::arithmetic::div_mod::lemma_div_of0(2 * (ONE as int));
        crate::exp::lemma_exp_neg_at_zero();
    }
}

/// Division respects the order of fractions: when `a / b <= c / d` as
/// exact fractions (cross-multiplied), the rounded quotients are
/// ordered the same way.
proof fn lemma_div_frac_ordered(a: int, b: int, c: int, d: int)
    requires
        0 <= a,
        0 < b,
        0 < d,
        a * d <= c * b,
    ensures
        a / b <= c / d,
{
    let q = c / d;
    let rc = c % d;
    vstd::arithmetic::div_mod::lemma_fundamental_div_mod(c, d);
    vstd::arithmetic::div_mod::lemma_mod_division_less_than_divisor(c, d);
    if a / b > q {
        let qa = a / b;
        let ra = a % b;
        vstd::arithmetic::div_mod::lemma_fundamental_div_mod(a, b);
        vstd::arithmetic::div_mod::lemma_mod_division_less_than_divisor(a, b);
        assert((q + 1) * b <= qa * b) by (nonlinear_arith)
            requires
                q + 1 <= qa,
                0 < b,
        ;
        assert(a * d >= (q + 1) * b * d) by (nonlinear_arith)
            requires
                a >= (q + 1) * b,
                0 < d,
        ;
        assert(c * b < (q + 1) * b * d) by (nonlinear_arith)
            requires
                c == q * d + rc,
                rc < d,
                0 < b,
        ;
    }
}

/// The logistic curve never falls as its exponent grows.
proof fn lemma_logistic_monotone(p1: int, p2: int)
    requires
        p1 <= p2,
    ensures
        spec_logistic(p1) <= spec_logistic(p2),
{
    if p1 >= 0 {
        let t1 = p1 / (ONE as int);
        let t2 = p2 / (ONE as int);
        lemma_div_pos_is_pos(p1, ONE as int);
        vstd::arithmetic::div_mod::lemma_div_is_ordered(p1, p2, ONE as int);
        let s1 = spec_exp_neg(t1);
        let s2 = spec_exp_neg(t2);
        crate::exp::lemma_exp_neg_is_degree(t1);
        crate::exp::lemma_exp_neg_is_degree(t2);
        crate::exp::lemma_exp_neg_antitone(t1, t2);
        vstd::arithmetic::div_mod::lemma_div_is_ordered_by_denominator(
            (ONE as int) * (ONE as int),
            ONE + s2,
            ONE + s1,
        );
    } else if p2 < 0 {
        let m1 = (-p1) / (ONE as int);
        let m2 = (-p2) / (ONE as int);
        lemma_div_pos_is_pos(-p2, ONE as int);
        vstd::arithmetic::div_mod::lemma_div_is_ordered(-p2, -p1, ONE as int);
        let s1 = spec_exp_neg(m1);
        let s2 = spec_exp_neg(m2);
        crate::exp::lemma_exp_neg_is_degree(m1);
        crate::exp::lemma_exp_neg_is_degree(m2);
        crate::exp::lemma_exp_neg_antitone(m2, m1);
        vstd::arithmetic::mul::lemma_mul_nonnegative(s1, ONE as int);
        assert(s1 * (ONE as int) * (ONE + s2) <= s2 * (ONE as int) * (ONE + s1))
            by (nonlinear_arith)
            requires
                0 <= s1 <= s2,
                0 < ONE,
        ;
        lemma_div_frac_ordered(s1 * (ONE as int), ONE + s1, s2 * (ONE as int), ONE + s2);
    } else {
        // The exponents straddle the center: the left value stays at
        // or under one half, the right value at or over it.
        let m1 = (-p1) / (ONE as int);
        lemma_div_pos_is_pos(-p1, ONE as int);
        let s1 = spec_exp_neg(m1);
        crate::exp::lemma_exp_neg_is_degree(m1);
        lemma_div_is_ordered(
            s1 * (ONE as int),
            (ONE + s1) * (crate::HALF as int),
            ONE + s1,
        );
        lemma_div_multiples_vanish(crate::HALF as int, ONE + s1);
        let t2 = p2 / (ONE as int);
        lemma_div_pos_is_pos(p2, ONE as int);
        let s2 = spec_exp_neg(t2);
        crate::exp::lemma_exp_neg_is_degree(t2);
        vstd::arithmetic::div_mod::lemma_div_is_ordered_by_denominator(
            (ONE as int) * (ONE as int),
            ONE + s2,
            2 * (ONE as int),
        );
        assert((ONE as int) * (ONE as int) == 1_000_000_000_000) by (nonlinear_arith);
        assert(1_000_000_000_000int / (2 * (ONE as int)) == crate::HALF);
    }
}

/// The sigmoid is monotone: rising with `x` for a positive steepness,
/// falling for a negative one.
pub proof fn lemma_sigmoid_monotone(a: int, c: int, x1: int, x2: int)
    requires
        x1 <= x2,
    ensures
        a > 0 ==> spec_sigmoid(x1, a, c) <= spec_sigmoid(x2, a, c),
        a < 0 ==> spec_sigmoid(x2, a, c) <= spec_sigmoid(x1, a, c),
{
    if a > 0 {
        vstd::arithmetic::mul::lemma_mul_left_inequality(a, x1 - c, x2 - c);
        lemma_logistic_monotone(a * (x1 - c), a * (x2 - c));
    }
    if a < 0 {
        vstd::arithmetic::mul::lemma_mul_left_inequality(-a, x1 - c, x2 - c);
        assert((-a) * (x1 - c) == -(a * (x1 - c))) by (nonlinear_arith);
        assert((-a) * (x2 - c) == -(a * (x2 - c))) by (nonlinear_arith);
        lemma_logistic_monotone(a * (x2 - c), a * (x1 - c));
    }
}

/// The Gaussian only falls with the distance from its mean: of two
/// points on the same side, the farther one gets the smaller degree.
pub proof fn lemma_gaussian_antitone(mean: int, sigma: int, d1: int, d2: int)
    requires
        0 <= d1 <= d2,
    ensures
        spec_gaussian(mean + d2, mean, sigma) <= spec_gaussian(mean + d1, mean, sigma),
{
    lemma_gaussian_is_degree(mean + d1, mean, sigma);
    lemma_gaussian_is_degree(mean + d2, mean, sigma);
    if sigma != 0 {
        let w = abs(sigma) as int;
        let q1 = spec_gauss_distance(mean + d1, mean, sigma);
        let q2 = spec_gauss_distance(mean + d2, mean, sigma);
        assert(abs(mean + d1 - mean) == d1);
        assert(abs(mean + d2 - mean) == d2);
        vstd::arithmetic::mul::lemma_mul_nonnegative(d1, ONE as int);
        lemma_div_pos_is_pos(d1 * ONE, w);
        vstd::arithmetic::mul::lemma_mul_inequality(d1, d2, ONE as int);
        lemma_div_is_ordered(d1 * ONE, d2 * ONE, w);
        if q2 < GAUSS_CUTOFF {
            let u1 = q1 * q1 / (2 * (ONE as int));
            let u2 = q2 * q2 / (2 * (ONE as int));
            vstd::arithmetic::mul::lemma_mul_nonnegative(q1, q1);
            lemma_div_pos_is_pos(q1 * q1, 2 * (ONE as int));
            vstd::arithmetic::mul::lemma_mul_upper_bound(q1, q2, q1, q2);
            lemma_div_is_ordered(q1 * q1, q2 * q2, 2 * (ONE as int));
            crate::exp::lemma_exp_neg_antitone(u1, u2);
        }
    }
}

/// The Gaussian is symmetric about its mean: points at equal distance
/// on either side get the same degree.
pub proof fn lemma_gaussian_symmetric(mean: int, sigma: int, d: int)
    ensures
        spec_gaussian(mean + d, mean, sigma) == spec_gaussian(mean - d, mean, sigma),
{
    assert(abs(mean + d - mean) == abs(mean - d - mean));
}

/// The sigmoid takes the degree `1/2` exactly at its center.
pub proof fn lemma_sigmoid_center(a: int, c: int)
    ensures
        spec_sigmoid(c, a, c) == crate::HALF,
{
    assert(a * (c - c) == 0) by (nonlinear_arith);
    vstd::arithmetic::div_mod::lemma_div_of0(ONE as int);
    crate::exp::lemma_exp_neg_at_zero();
    assert((ONE as int) * (ONE as int) == 1_000_000_000_000) by (nonlinear_arith);
}

impl MembershipFunction {
    /// Evaluate the membership function at a given point, returning
    /// the exact fixed-point degree of the shape's defining formula.
    pub fn evaluate(&self, x: i64) -> (r: i64)
        ensures
            r == spec_membership(*self, x as int),
            is_degree(r as int),
    {
        proof {
            lemma_membership_is_degree(*self, x as int);
        }
        match self {
            MembershipFunction::Triangular { a, b, c } => Self::triangular(x, *a, *b, *c),
            MembershipFunction::Trapezoidal { a, b, c, d } => Self::trapezoidal(x, *a, *b, *c, *d),
            MembershipFunction::Gaussian { mean, sigma } => Self::gaussian(x, *mean, *sigma),
            MembershipFunction::Sigmoid { a, c } => Self::sigmoid(x, *a, *c),
        }
    }

    /// Triangular membership function.
    fn triangular(x: i64, a: i64, b: i64, c: i64) -> (r: i64)
        ensures
            r == spec_triangular(x as int, a as int, b as int, c as int),
            is_degree(r as int),
    {
        proof {
            lemma_triangular_is_degree(x as int, a as int, b as int, c as int);
        }
        if x == b {
            ONE
        } else if x <= a || x >= c {
            0
        } else if x < b {
            ((((x as i128) - (a as i128)) * (ONE as i128)) / ((b as i128) - (a as i128))) as i64
        } else {
            ((((c as i128) - (x as i128)) * (ONE as i128)) / ((c as i128) - (b as i128))) as i64
        }
    }

    /// Trapezoidal membership function.
    fn trapezoidal(x: i64, a: i64, b: i64, c: i64, d: i64) -> (r: i64)
        ensures
            r == spec_trapezoidal(x as int, a as int, b as int, c as int, d as int),
            is_degree(r as int),
    {
        proof {
            lemma_trapezoidal_is_degree(x as int, a as int, b as int, c as int, d as int);
        }
        if b <= x && x <= c {
            ONE
        } else if x <= a || x >= d {
            0
        } else if x < b {
            ((((x as i128) - (a as i128)) * (ONE as i128)) / ((b as i128) - (a as i128))) as i64
        } else {
            ((((d as i128) - (x as i128)) * (ONE as i128)) / ((d as i128) - (c as i128))) as i64
        }
    }

    /// Gaussian membership function, with the guarded special case of
    /// a zero standard deviation.
    fn gaussian(x: i64, mean: i64, sigma: i64) -> (r: i64)
        ensures
            r == spec_gaussian(x as int, mean as int, sigma as int),
            is_degree(r as int),
    {
        proof {
            lemma_gaussian_is_degree(x as int, mean as int, sigma as int);
        }
        if sigma == 0 {
            if x == mean {
                ONE
            } else {
                0
            }
        } else {
            let diff: i128 = (x as i128) - (mean as i128);
            let dist: i128 = if diff < 0 {
                -diff
            } else {
                diff
            };
            let width: i128 = if sigma < 0 {
                -(sigma as i128)
            } else {
                sigma as i128
            };
            proof {
                vstd::arithmetic::mul::lemma_mul_nonnegative(dist as int, ONE as int);
                lemma_div_pos_is_pos(dist * (ONE as int), width as int);
            }
            let q: i128 = dist * (ONE as i128) / width;
            if q >= GAUSS_CUTOFF as i128 {
                0
            } else {
                let qn = q as i64;
                proof {
                    vstd::arithmetic::mul::lemma_mul_upper_bound(
                        qn as int,
                        GAUSS_CUTOFF as int,
                        qn as int,
                        GAUSS_CUTOFF as int,
                    );
                    vstd::arithmetic::mul::lemma_mul_nonnegative(qn as int, qn as int);
                }
                let u = qn * qn / (2 * ONE);
                crate::exp::exp_neg(u)
            }
        }
    }

    /// Sigmoid membership function.
    fn sigmoid(x: i64, a: i64, c: i64) -> (r: i64)
        ensures
            r == spec_sigmoid(x as int, a as int, c as int),
            is_degree(r as int),
    {
        proof {
            lemma_sigmoid_is_degree(x as int, a as int, c as int);
        }
        let diff: i128 = (x as i128) - (c as i128);
        proof {
            assert(-170141183460469231722463931679029329920int <= (a as i128) * diff
                <= 170141183460469231722463931679029329920int) by (nonlinear_arith)
                requires
                    -9223372036854775808int <= a as i128 <= 9223372036854775807int,
                    -18446744073709551615int <= diff <= 18446744073709551615int,
            ;
        }
        let p: i128 = (a as i128) * diff;
        if p >= 0 {
            let t: i128 = p / (ONE as i128);
            let s: i64 = if t >= crate::exp::EXP_CUTOFF as i128 {
                0
            } else {
                crate::exp::exp_neg(t as i64)
            };
            proof {
                assert(s == spec_exp_neg((p as int) / (ONE as int)));
                vstd::arithmetic::div_mod::lemma_div_is_ordered_by_denominator(
                    (ONE as int) * (ONE as int),
                    ONE as int,
                    ONE + s as int,
                );
                lemma_div_multiples_vanish(ONE as int, ONE as int);
                lemma_div_pos_is_pos((ONE as int) * (ONE as int), ONE + s as int);
            }
            (((ONE as i128) * (ONE as i128)) / ((ONE as i128) + (s as i128))) as i64
        } else {
            let m: i128 = (-p) / (ONE as i128);
            let s: i64 = if m >= crate::exp::EXP_CUTOFF as i128 {
                0
            } else {
                crate::exp::exp_neg(m as i64)
            };
            proof {
                assert(s == spec_exp_neg((-(p as int)) / (ONE as int)));
                vstd::arithmetic::div_mod::lemma_div_is_ordered_by_denominator(
                    (s as int) * (ONE as int),
                    ONE as int,
                    ONE + s as int,
                );
                vstd::arithmetic::mul::lemma_mul_nonnegative(s as int, ONE as int);
                lemma_div_multiples_vanish(s as int, ONE as int);
                assert((s as int) * (ONE as int) == (ONE as int) * (s as int));
                lemma_div_pos_is_pos((s as int) * (ONE as int), ONE + s as int);
            }
            (((s as i128) * (ONE as i128)) / ((ONE as i128) + (s as i128))) as i64
        }
    }
}

/// The decimal digit character for `d`.
pub open spec fn spec_digit_char(d: int) -> char {
    if d == 0 {
        '0'
    } else if d == 1 {
        '1'
    } else if d == 2 {
        '2'
    } else if d == 3 {
        '3'
    } else if d == 4 {
        '4'
    } else if d == 5 {
        '5'
    } else if d == 6 {
        '6'
    } else if d == 7 {
        '7'
    } else if d == 8 {
        '8'
    } else {
        '9'
    }
}

/// The decimal rendering of a nonnegative number, most significant
/// digit first.
pub open spec fn spec_decimal(n: int) -> Seq<char>
    decreases n,
{
    if n < 10 {
        seq![spec_digit_char(n)]
    } else {
        spec_decimal(n / 10) + seq![spec_digit_char(n % 10)]
    }
}

/// The decimal rendering of a number, with a leading minus sign when
/// it is negative.
pub open spec fn spec_signed_decimal(n: int) -> Seq<char> {
    if n < 0 {
        seq!['-'] + spec_decimal(-n)
    } else {
        spec_decimal(n)
    }
}

/// The diagnostic rendering of a membership function: its shape name
/// and its raw fixed-point parameters.
pub open spec fn spec_description(mf: MembershipFunction) -> Seq<char> {
    match mf {
        MembershipFunction::Triangular { a, b, c } => "Triangular(a="@ + spec_signed_decimal(
            a as int,
        ) + ", b="@ + spec_signed_decimal(b as int) + ", c="@ + spec_signed_decimal(c as int)
            + ")"@,
        MembershipFunction::Trapezoidal { a, b, c, d } => "Trapezoidal(a="@ + spec_signed_decimal(
            a as int,
        ) + ", b="@ + spec_signed_decimal(b as int) + ", c="@ + spec_signed_decimal(c as int)
            + ", d="@ + spec_signed_decimal(d as int) + ")"@,
        MembershipFunction::Gaussian { mean, sigma } => "Gaussian(mean="@ + spec_signed_decimal(
            mean as int,
        ) + ", sigma="@ + spec_signed_decimal(sigma as int) + ")"@,
        MembershipFunction::Sigmoid { a, c } => "Sigmoid(a="@ + spec_signed_decimal(a as int)
            + ", c="@ + spec_signed_decimal(c as int) + ")"@,
    }
}

/// The string slice holding the decimal digit `d`.
fn digit_str(d: u64) -> (r: &'static str)
    requires
        d < 10,
    ensures
        r@ == seq![spec_digit_char(d as int)],
{
    proof {
        reveal_strlit("0");
        reveal_strlit("1");
        reveal_strlit("2");
        reveal_strlit("3");
        reveal_strlit("4");
        reveal_strlit("5");
        reveal_strlit("6");
        reveal_strlit("7");
        reveal_strlit("8");
        reveal_strlit("9");
        assert("0"@ =~= seq!['0']);
        assert("1"@ =~= seq!['1']);
        assert("2"@ =~= seq!['2']);
        assert("3"@ =~= seq!['3']);
        assert("4"@ =~= seq!['4']);
        assert("5"@ =~= seq!['5']);
        assert("6"@ =~= seq!['6']);
        assert("7"@ =~= seq!['7']);
        assert("8"@ =~= seq!['8']);
        assert("9"@ =~= seq!['9']);
    }
    if d == 0 {
        "0"
    } else if d == 1 {
        "1"
    } else if d == 2 {
        "2"
    } else if d == 3 {
        "3"
    } else if d == 4 {
        "4"
    } else if d == 5 {
        "5"
    } else if d == 6 {
        "6"
    } else if d == 7 {
        "7"
    } else if d == 8 {
        "8"
    } else {
        "9"
    }
}

/// Append the decimal rendering of `n` to `s`.
fn push_decimal(s: &mut String, n: u64)
    ensures
        final(s)@ == old(s)@ + spec_decimal(n as int),
    decreases n,
{
    if n < 10 {
        let d = digit_str(n);
        s.append(d);
    } else {
        push_decimal(s, n / 10);
        let d = digit_str(n % 10);
        s.append(d);
        proof {
            assert(s@ =~= old(s)@ + spec_decimal(n as int));
        }
    }
}

/// Append the decimal rendering of `n` to `s`, with a minus sign when
/// it is negative.
fn push_signed_decimal(s: &mut String, n: i64)
    ensures
        final(s)@ == old(s)@ + spec_signed_decimal(n as int),
{
    if n < 0 {
        proof {
            reveal_strlit("-");
            assert("-"@ =~= seq!['-']);
        }
        s.append("-");
        let m = (-(n as i128)) as u64;
        push_decimal(s, m);
        proof {
            assert(s@ =~= old(s)@ + spec_signed_decimal(n as int));
        }
    } else {
        push_decimal(s, n as u64);
    }
}

impl MembershipFunction {
    /// Get a textual description of the membership function for
    /// diagnostics: the shape name and the raw fixed-point parameters.
    pub fn description(&self) -> (r: String)
        ensures
            r@ == spec_description(*self),
    {
        let mut s = String::new();
        match self {
            MembershipFunction::Triangular { a, b, c } => {
                s.append("Triangular(a=");
                push_signed_decimal(&mut s, *a);
                s.append(", b=");
                push_signed_decimal(&mut s, *b);
                s.append(", c=");
                push_signed_decimal(&mut s, *c);
                s.append(")");
            },
            MembershipFunction::Trapezoidal { a, b, c, d } => {
                s.append("Trapezoidal(a=");
                push_signed_decimal(&mut s, *a);
                s.append(", b=");
                push_signed_decimal(&mut s, *b);
                s.append(", c=");
                push_signed_decimal(&mut s, *c);
                s.append(", d=");
                push_signed_decimal(&mut s, *d);
                s.append(")");
            },
            MembershipFunction::Gaussian { mean, sigma } => {
                s.append("Gaussian(mean=");
                push_signed_decimal(&mut s, *mean);
                s.append(", sigma=");
                push_signed_decimal(&mut s, *sigma);
                s.append(")");
            },
            MembershipFunction::Sigmoid { a, c } => {
                s.append("Sigmoid(a=");
                push_signed_decimal(&mut s, *a);
                s.append(", c=");
                push_signed_decimal(&mut s, *c);
                s.append(")");
            },
        }
        proof {
            assert(s@ =~= spec_description(*self));
        }
        s
    }
}

/// A fuzzy set: a display name together with a membership function.
#[derive(Clone, Debug)]
pub struct FuzzySet {
    pub name: String,
    pub membership_function: MembershipFunction,
}

impl FuzzySet {
    /// Create a new fuzzy set.
    pub fn new(name: &str, membership_function: MembershipFunction) -> (r: FuzzySet)
        ensures
            r.name@ == name@,
            r.membership_function == membership_function,
    {
        FuzzySet { name: name.to_owned(), membership_function }
    }

    /// Evaluate the membership degree of a value in this set.
    pub fn membership(&self, x: i64) -> (r: i64)
        ensures
            r == spec_membership(self.membership_function, x as int),
            is_degree(r as int),
    {
        self.membership_function.evaluate(x)
    }
}

} // verus!

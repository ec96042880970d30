//! Defuzzification methods: turning a discretized membership curve
//! back into one crisp fixed-point value.
//!
//! Each method takes parallel vectors of domain values and degrees.
//! Differing lengths are rejected as invalid input. A curve with no
//! activation falls back to a method-specific default: the domain
//! midpoint for centroid, bisector and mean of maximum, the first
//! domain value for smallest of maximum, the last for largest of
//! maximum.

use vstd::arithmetic::div_mod::lemma_div_is_ordered;
use vstd::arithmetic::div_mod::lemma_div_multiples_vanish;
use vstd::arithmetic::div_mod::lemma_fundamental_div_mod;
use vstd::arithmetic::div_mod::lemma_fundamental_div_mod_converse;
use vstd::math::max;
use vstd::math::min;
use vstd::prelude::*;

use crate::DOMAIN_LIMIT;
use crate::FuzzyError;
use crate::ONE;
use crate::as_ints;
use crate::is_degree;
use crate::is_domain_value;

verus! {

broadcast use crate::lemma_as_ints_len, crate::lemma_as_ints_index;

/// The sum of a sequence of degrees.
pub open spec fn spec_sum(s: Seq<int>) -> int
    decreases s.len(),
{
    if s.len() == 0 {
        0
    } else {
        spec_sum(s.drop_last()) + s.last()
    }
}

/// The sum of the products of corresponding elements.
pub open spec fn spec_weighted_sum(xs: Seq<int>, ms: Seq<int>) -> int
    decreases xs.len(),
{
    if xs.len() == 0 || ms.len() == 0 {
        0
    } else {
        spec_weighted_sum(xs.drop_last(), ms.drop_last()) + xs.last() * ms.last()
    }
}

/// The largest element of a sequence (`0` when it is empty).
pub open spec fn spec_seq_max(s: Seq<int>) -> int
    decreases s.len(),
{
    if s.len() == 0 {
        0
    } else if s.len() == 1 {
        s[0]
    } else {
        max(spec_seq_max(s.drop_last()), s.last())
    }
}

/// How many elements of `ms` equal `v`.
pub open spec fn spec_count_eq(ms: Seq<int>, v: int) -> int
    decreases ms.len(),
{
    if ms.len() == 0 {
        0
    } else {
        spec_count_eq(ms.drop_last(), v) + if ms.last() == v {
            1int
        } else {
            0int
        }
    }
}

/// The sum of the domain values whose degree equals `v`.
pub open spec fn spec_sum_x_eq(xs: Seq<int>, ms: Seq<int>, v: int) -> int
    decreases xs.len(),
{
    if xs.len() == 0 || ms.len() == 0 {
        0
    } else {
        spec_sum_x_eq(xs.drop_last(), ms.drop_last(), v) + if ms.last() == v {
            xs.last()
        } else {
            0int
        }
    }
}

/// The smallest domain value whose degree equals `v`.
pub open spec fn spec_min_x_eq(xs: Seq<int>, ms: Seq<int>, v: int) -> int
    decreases xs.len(),
{
    if xs.len() == 0 || ms.len() == 0 {
        0
    } else if ms.last() == v {
        if spec_count_eq(ms.drop_last(), v) > 0 {
            min(spec_min_x_eq(xs.drop_last(), ms.drop_last(), v), xs.last())
        } else {
            xs.last()
        }
    } else {
        spec_min_x_eq(xs.drop_last(), ms.drop_last(), v)
    }
}

/// The largest domain value whose degree equals `v`.
pub open spec fn spec_max_x_eq(xs: Seq<int>, ms: Seq<int>, v: int) -> int
    decreases xs.len(),
{
    if xs.len() == 0 || ms.len() == 0 {
        0
    } else if ms.last() == v {
        if spec_count_eq(ms.drop_last(), v) > 0 {
            max(spec_max_x_eq(xs.drop_last(), ms.drop_last(), v), xs.last())
        } else {
            xs.last()
        }
    } else {
        spec_max_x_eq(xs.drop_last(), ms.drop_last(), v)
    }
}

/// The midpoint of the discretized domain, rounded toward negative
/// infinity.
pub open spec fn spec_midpoint(xs: Seq<int>) -> int {
    (xs[0] + xs[xs.len() - 1]) / 2
}

/// The centroid `sum(x * m) / sum(m)` of the curve, or the domain
/// midpoint when the curve has no activation.
pub open spec fn spec_centroid(xs: Seq<int>, ms: Seq<int>) -> int {
    if spec_sum(ms) == 0 {
        spec_midpoint(xs)
    } else {
        spec_weighted_sum(xs, ms) / spec_sum(ms)
    }
}

/// What a defuzzifier accepts: a nonempty domain of bounded values
/// and a curve of valid degrees.
pub open spec fn defuzz_input_ok(xs: Seq<int>, ms: Seq<int>) -> bool {
    &&& xs.len() > 0
    &&& forall|i: int| 0 <= i < xs.len() ==> is_domain_value(#[trigger] xs[i])
    &&& forall|i: int| 0 <= i < ms.len() ==> is_degree(#[trigger] ms[i])
}

/// Rounding toward negative infinity: for a negative dividend and a
/// positive divisor, the ceiling of the magnitude quotient equals the
/// negated floor quotient.
proof fn lemma_div_floor_negative(n: int, d: int)
    requires
        n < 0,
        0 < d,
    ensures
        (-n + (d - 1)) / d == -(n / d),
{
    let q = n / d;
    let r = n % d;
    lemma_fundamental_div_mod(n, d);
    assert(n == q * d + r);
    assert((-q) * d == -(q * d)) by (nonlinear_arith);
    if r == 0 {
        assert(-n + (d - 1) == (-q) * d + (d - 1));
        lemma_fundamental_div_mod_converse(-n + (d - 1), d, -q, d - 1);
    } else {
        assert(-n + (d - 1) == (-q) * d + (d - r - 1));
        lemma_fundamental_div_mod_converse(-n + (d - 1), d, -q, d - r - 1);
    }
}

/// Quotient of `n` by the positive `d`, rounded toward negative
/// infinity, matching the specification-level `/` exactly.
fn div_floor(n: i128, d: i128) -> (r: i128)
    requires
        0 < d <= 85070591730234615865843651857942052863,
        -85070591730234615865843651857942052863 <= n <= 85070591730234615865843651857942052863,
    ensures
        r == n as int / d as int,
{
    if n >= 0 {
        n / d
    } else {
        proof {
            lemma_div_floor_negative(n as int, d as int);
        }
        -((-n + (d - 1)) / d)
    }
}

/// Centroid (center of gravity) defuzzification.
///
/// Returns `sum(x * m) / sum(m)` rounded toward negative infinity, or
/// the domain midpoint when every degree is zero. Fails with
/// `FuzzyError::InvalidInput` when the vectors differ in length.
pub fn centroid(x_values: &Vec<i64>, membership: &Vec<i64>) -> (r: Result<i64, FuzzyError>)
    requires
        defuzz_input_ok(as_ints(x_values@), as_ints(membership@)),
    ensures
        x_values@.len() == membership@.len() <==> r is Ok,
        r is Err ==> r == Result::<i64, FuzzyError>::Err(FuzzyError::InvalidInput),
        r matches Ok(v) ==> v == spec_centroid(as_ints(x_values@), as_ints(membership@)),
{
    let ghost xs = as_ints(x_values@);
    let ghost ms = as_ints(membership@);
    if x_values.len() != membership.len() {
        return Err(FuzzyError::InvalidInput);
    }
    let n = x_values.len();
    let mut num: i128 = 0;
    let mut den: i128 = 0;
    let mut i: usize = 0;
    while i < n
        invariant
            i <= n,
            n == xs.len() && n == ms.len(),
            xs == as_ints(x_values@) && ms == as_ints(membership@),
            n == x_values@.len() && n == membership@.len(),
            forall|j: int| 0 <= j < n ==> is_domain_value(#[trigger] xs[j]),
            forall|j: int| 0 <= j < n ==> is_degree(#[trigger] ms[j]),
            num == spec_weighted_sum(xs.take(i as int), ms.take(i as int)),
            den == spec_sum(ms.take(i as int)),
            0 <= den <= (i as int) * (ONE as int),
            -(den * (DOMAIN_LIMIT as int)) <= num <= den * (DOMAIN_LIMIT as int),
        decreases n - i,
    {
        let x = x_values[i];
        let m = membership[i];
        proof {
            assert(xs.take(i + 1).drop_last() =~= xs.take(i as int));
            assert(ms.take(i + 1).drop_last() =~= ms.take(i as int));
            assert(as_ints(x_values@)[i as int] == x_values@[i as int] as int);
            assert(as_ints(membership@)[i as int] == membership@[i as int] as int);
            assert(xs[i as int] == x as int && is_domain_value(x as int));
            assert(ms[i as int] == m as int && is_degree(m as int));
            assert((x as int) * (m as int) <= (m as int) * (DOMAIN_LIMIT as int) && (x as int) * (
            m as int) >= -((m as int) * (DOMAIN_LIMIT as int))) by (nonlinear_arith)
                requires
                    -DOMAIN_LIMIT <= x as int <= DOMAIN_LIMIT,
                    0 <= m as int,
            ;
        }
        num = num + (x as i128) * (m as i128);
        den = den + (m as i128);
        i = i + 1;
    }
    proof {
        assert(xs.take(n as int) =~= xs);
        assert(ms.take(n as int) =~= ms);
    }
    if den == 0 {
        let mid = div_floor((x_values[0] as i128) + (x_values[n - 1] as i128), 2);
        Ok(mid as i64)
    } else {
        proof {
            lemma_div_is_ordered(num as int, den * (DOMAIN_LIMIT as int), den as int);
            lemma_div_multiples_vanish(DOMAIN_LIMIT as int, den as int);
            lemma_div_is_ordered(-(den * (DOMAIN_LIMIT as int)), num as int, den as int);
            lemma_div_multiples_vanish(-(DOMAIN_LIMIT as int), den as int);
        }
        let v = div_floor(num, den);
        Ok(v as i64)
    }
}

/// Mean of maximum: the average of the domain values attaining the
/// maximum degree, or the domain midpoint when that maximum is zero.
pub open spec fn spec_mean_of_maximum(xs: Seq<int>, ms: Seq<int>) -> int {
    let mx = spec_seq_max(ms);
    if mx == 0 {
        spec_midpoint(xs)
    } else {
        spec_sum_x_eq(xs, ms, mx) / spec_count_eq(ms, mx)
    }
}

/// Smallest of maximum: the smallest domain value attaining the
/// maximum degree, or the first domain value when that maximum is zero.
pub open spec fn spec_smallest_of_maximum(xs: Seq<int>, ms: Seq<int>) -> int {
    let mx = spec_seq_max(ms);
    if mx == 0 {
        xs[0]
    } else {
        spec_min_x_eq(xs, ms, mx)
    }
}

/// Largest of maximum: the largest domain value attaining the maximum
/// degree, or the last domain value when that maximum is zero.
pub open spec fn spec_largest_of_maximum(xs: Seq<int>, ms: Seq<int>) -> int {
    let mx = spec_seq_max(ms);
    if mx == 0 {
        xs[xs.len() - 1]
    } else {
        spec_max_x_eq(xs, ms, mx)
    }
}

/// The maximum degree of a nonempty sequence is attained somewhere.
proof fn lemma_seq_max_attained(s: Seq<int>)
    requires
        s.len() > 0,
    ensures
        spec_count_eq(s, spec_seq_max(s)) > 0,
    decreases s.len(),
{
    lemma_count_eq_nonnegative(s.drop_last(), spec_seq_max(s));
    if s.len() > 1 && s.last() != spec_seq_max(s) {
        lemma_seq_max_attained(s.drop_last());
    }
}

/// Counts are never negative.
proof fn lemma_count_eq_nonnegative(s: Seq<int>, v: int)
    ensures
        spec_count_eq(s, v) >= 0,
    decreases s.len(),
{
    if s.len() > 0 {
        lemma_count_eq_nonnegative(s.drop_last(), v);
    }
}

/// The maximum degree of a nonempty vector of degrees.
fn max_degree(membership: &Vec<i64>) -> (r: i64)
    requires
        membership@.len() > 0,
    ensures
        r == spec_seq_max(as_ints(membership@)),
{
    let ghost ms = as_ints(membership@);
    let mut best = membership[0];
    let mut i: usize = 1;
    while i < membership.len()
        invariant
            1 <= i <= membership@.len(),
            ms == as_ints(membership@),
            ms.len() == membership@.len(),
            best == spec_seq_max(ms.take(i as int)),
        decreases membership@.len() - i,
    {
        proof {
            assert(ms.take(i + 1).drop_last() =~= ms.take(i as int));
            assert(ms.take(i + 1).last() == ms[i as int]);
        }
        let m = membership[i];
        if m > best {
            best = m;
        }
        i = i + 1;
    }
    proof {
        assert(ms.take(membership@.len() as int) =~= ms);
    }
    best
}

/// Mean of maximum defuzzification.
///
/// Averages (rounding toward negative infinity) the domain values
/// whose degree equals the maximum degree; an all-zero curve yields
/// the domain midpoint. Fails with `FuzzyError::InvalidInput` when
/// the vectors differ in length.
pub fn mean_of_maximum(x_values: &Vec<i64>, membership: &Vec<i64>) -> (r: Result<i64, FuzzyError>)
    requires
        defuzz_input_ok(as_ints(x_values@), as_ints(membership@)),
    ensures
        x_values@.len() == membership@.len() <==> r is Ok,
        r is Err ==> r == Result::<i64, FuzzyError>::Err(FuzzyError::InvalidInput),
        r matches Ok(v) ==> v == spec_mean_of_maximum(as_ints(x_values@), as_ints(membership@)),
{
    let ghost xs = as_ints(x_values@);
    let ghost ms = as_ints(membership@);
    if x_values.len() != membership.len() {
        return Err(FuzzyError::InvalidInput);
    }
    let n = x_values.len();
    let mx = max_degree(membership);
    if mx == 0 {
        let mid = div_floor((x_values[0] as i128) + (x_values[n - 1] as i128), 2);
        return Ok(mid as i64);
    }
    let mut count: i128 = 0;
    let mut sumx: i128 = 0;
    let mut i: usize = 0;
    while i < n
        invariant
            i <= n,
            n == xs.len() && n == ms.len(),
            xs == as_ints(x_values@) && ms == as_ints(membership@),
            n == x_values@.len() && n == membership@.len(),
            forall|j: int| 0 <= j < n ==> is_domain_value(#[trigger] xs[j]),
            count == spec_count_eq(ms.take(i as int), mx as int),
            sumx == spec_sum_x_eq(xs.take(i as int), ms.take(i as int), mx as int),
            0 <= count <= i as int,
            -(count * (DOMAIN_LIMIT as int)) <= sumx <= count * (DOMAIN_LIMIT as int),
        decreases n - i,
    {
        proof {
            assert(xs.take(i + 1).drop_last() =~= xs.take(i as int));
            assert(ms.take(i + 1).drop_last() =~= ms.take(i as int));
            assert(as_ints(x_values@)[i as int] == x_values@[i as int] as int);
            assert(as_ints(membership@)[i as int] == membership@[i as int] as int);
        }
        if membership[i] == mx {
            count = count + 1;
            sumx = sumx + (x_values[i] as i128);
        }
        i = i + 1;
    }
    proof {
        assert(xs.take(n as int) =~= xs);
        assert(ms.take(n as int) =~= ms);
        assert(ms.len() > 0);
        lemma_seq_max_attained(ms);
        lemma_div_is_ordered(sumx as int, count * (DOMAIN_LIMIT as int), count as int);
        lemma_div_multiples_vanish(DOMAIN_LIMIT as int, count as int);
        lemma_div_is_ordered(-(count * (DOMAIN_LIMIT as int)), sumx as int, count as int);
        lemma_div_multiples_vanish(-(DOMAIN_LIMIT as int), count as int);
    }
    let v = div_floor(sumx, count);
    Ok(v as i64)
}

/// Smallest of maximum defuzzification.
///
/// Returns the smallest domain value whose degree equals the maximum
/// degree; an all-zero curve yields the first domain value. Fails
/// with `FuzzyError::InvalidInput` when the vectors differ in length.
pub fn smallest_of_maximum(x_values: &Vec<i64>, membership: &Vec<i64>) -> (r: Result<
    i64,
    FuzzyError,
>)
    requires
        defuzz_input_ok(as_ints(x_values@), as_ints(membership@)),
    ensures
        x_values@.len() == membership@.len() <==> r is Ok,
        r is Err ==> r == Result::<i64, FuzzyError>::Err(FuzzyError::InvalidInput),
        r matches Ok(v) ==> v == spec_smallest_of_maximum(
            as_ints(x_values@),
            as_ints(membership@),
        ),
{
    let ghost xs = as_ints(x_values@);
    let ghost ms = as_ints(membership@);
    if x_values.len() != membership.len() {
        return Err(FuzzyError::InvalidInput);
    }
    let n = x_values.len();
    let mx = max_degree(membership);
    if mx == 0 {
        return Ok(x_values[0]);
    }
    let mut found = false;
    let mut best: i64 = 0;
    let mut i: usize = 0;
    while i < n
        invariant
            i <= n,
            n == xs.len() && n == ms.len(),
            xs == as_ints(x_values@) && ms == as_ints(membership@),
            n == x_values@.len() && n == membership@.len(),
            found <==> spec_count_eq(ms.take(i as int), mx as int) > 0,
            found ==> best == spec_min_x_eq(xs.take(i as int), ms.take(i as int), mx as int),
        decreases n - i,
    {
        proof {
            assert(xs.take(i + 1).drop_last() =~= xs.take(i as int));
            assert(ms.take(i + 1).drop_last() =~= ms.take(i as int));
            assert(as_ints(x_values@)[i as int] == x_values@[i as int] as int);
            assert(as_ints(membership@)[i as int] == membership@[i as int] as int);
            lemma_count_eq_nonnegative(ms.take(i as int), mx as int);
        }
        if membership[i] == mx {
            if !found || x_values[i] < best {
                best = x_values[i];
            }
            found = true;
        }
        i = i + 1;
    }
    proof {
        assert(xs.take(n as int) =~= xs);
        assert(ms.take(n as int) =~= ms);
        lemma_seq_max_attained(ms);
    }
    Ok(best)
}

/// Largest of maximum defuzzification.
///
/// Returns the largest domain value whose degree equals the maximum
/// degree; an all-zero curve yields the last domain value. Fails with
/// `FuzzyError::InvalidInput` when the vectors differ in length.
pub fn largest_of_maximum(x_values: &Vec<i64>, membership: &Vec<i64>) -> (r: Result<
    i64,
    FuzzyError,
>)
    requires
        defuzz_input_ok(as_ints(x_values@), as_ints(membership@)),
    ensures
        x_values@.len() == membership@.len() <==> r is Ok,
        r is Err ==> r == Result::<i64, FuzzyError>::Err(FuzzyError::InvalidInput),
        r matches Ok(v) ==> v == spec_largest_of_maximum(as_ints(x_values@), as_ints(membership@)),
{
    let ghost xs = as_ints(x_values@);
    let ghost ms = as_ints(membership@);
    if x_values.len() != membership.len() {
        return Err(FuzzyError::InvalidInput);
    }
    let n = x_values.len();
    let mx = max_degree(membership);
    if mx == 0 {
        return Ok(x_values[n - 1]);
    }
    let mut found = false;
    let mut best: i64 = 0;
    let mut i: usize = 0;
    while i < n
        invariant
            i <= n,
            n == xs.len() && n == ms.len(),
            xs == as_ints(x_values@) && ms == as_ints(membership@),
            n == x_values@.len() && n == membership@.len(),
            found <==> spec_count_eq(ms.take(i as int), mx as int) > 0,
            found ==> best == spec_max_x_eq(xs.take(i as int), ms.take(i as int), mx as int),
        decreases n - i,
    {
        proof {
            assert(xs.take(i + 1).drop_last() =~= xs.take(i as int));
            assert(ms.take(i + 1).drop_last() =~= ms.take(i as int));
            assert(as_ints(x_values@)[i as int] == x_values@[i as int] as int);
            assert(as_ints(membership@)[i as int] == membership@[i as int] as int);
            lemma_count_eq_nonnegative(ms.take(i as int), mx as int);
        }
        if membership[i] == mx {
            if !found || x_values[i] > best {
                best = x_values[i];
            }
            found = true;
        }
        i = i + 1;
    }
    proof {
        assert(xs.take(n as int) =~= xs);
        assert(ms.take(n as int) =~= ms);
        lemma_seq_max_attained(ms);
    }
    Ok(best)
}

/// The first domain value at which the running sum of degrees reaches
/// `target`, scanning from the front; the last domain value when the
/// scan runs out.
pub open spec fn spec_bisector_scan(xs: Seq<int>, ms: Seq<int>, target: int) -> int
    decreases xs.len(),
{
    if xs.len() == 0 || ms.len() == 0 {
        0
    } else if ms[0] >= target {
        xs[0]
    } else if xs.len() == 1 {
        xs[0]
    } else {
        spec_bisector_scan(xs.drop_first(), ms.drop_first(), target - ms[0])
    }
}

/// Bisector defuzzification: the first domain value at which the
/// cumulative degree reaches half the total (rounded up, so that the
/// integer comparison agrees with reaching the exact real half), or
/// the domain midpoint when the total is zero.
pub open spec fn spec_bisector(xs: Seq<int>, ms: Seq<int>) -> int {
    let total = spec_sum(ms);
    if total == 0 {
        spec_midpoint(xs)
    } else {
        spec_bisector_scan(xs, ms, (total + 1) / 2)
    }
}

/// Bisector defuzzification.
///
/// Scans the curve in order and returns the first domain value whose
/// cumulative degree reaches half the total degree; an all-zero curve
/// yields the domain midpoint, a scan that never reaches half yields
/// the last domain value. Fails with `FuzzyError::InvalidInput` when
/// the vectors differ in length.
pub fn bisector(x_values: &Vec<i64>, membership: &Vec<i64>) -> (r: Result<i64, FuzzyError>)
    requires
        defuzz_input_ok(as_ints(x_values@), as_ints(membership@)),
    ensures
        x_values@.len() == membership@.len() <==> r is Ok,
        r is Err ==> r == Result::<i64, FuzzyError>::Err(FuzzyError::InvalidInput),
        r matches Ok(v) ==> v == spec_bisector(as_ints(x_values@), as_ints(membership@)),
{
    let ghost xs = as_ints(x_values@);
    let ghost ms = as_ints(membership@);
    if x_values.len() != membership.len() {
        return Err(FuzzyError::InvalidInput);
    }
    let n = x_values.len();
    let mut total: i128 = 0;
    let mut i: usize = 0;
    while i < n
        invariant
            i <= n,
            n == ms.len(),
            ms == as_ints(membership@),
            n == membership@.len(),
            forall|j: int| 0 <= j < n ==> is_degree(#[trigger] ms[j]),
            total == spec_sum(ms.take(i as int)),
            0 <= total <= (i as int) * (ONE as int),
        decreases n - i,
    {
        proof {
            assert(ms.take(i + 1).drop_last() =~= ms.take(i as int));
            assert(as_ints(membership@)[i as int] == membership@[i as int] as int);
        }
        total = total + (membership[i] as i128);
        i = i + 1;
    }
    proof {
        assert(ms.take(n as int) =~= ms);
    }
    if total == 0 {
        let mid = div_floor((x_values[0] as i128) + (x_values[n - 1] as i128), 2);
        return Ok(mid as i64);
    }
    let half = (total + 1) / 2;
    let mut cum: i128 = 0;
    let mut i: usize = 0;
    proof {
        assert(xs.skip(0) =~= xs);
        assert(ms.skip(0) =~= ms);
    }
    while i < n
        invariant
            i <= n,
            n == xs.len() && n == ms.len(),
            xs == as_ints(x_values@) && ms == as_ints(membership@),
            n == x_values@.len() && n == membership@.len(),
            forall|j: int| 0 <= j < n ==> is_degree(#[trigger] ms[j]),
            spec_sum(ms) != 0,
            half as int == (spec_sum(ms) + 1) / 2,
            cum == spec_sum(ms.take(i as int)),
            0 <= cum <= (i as int) * (ONE as int),
            spec_bisector_scan(xs, ms, half as int) == if i < n {
                spec_bisector_scan(xs.skip(i as int), ms.skip(i as int), half - cum)
            } else {
                xs[n - 1]
            },
        decreases n - i,
    {
        proof {
            assert(ms.take(i + 1).drop_last() =~= ms.take(i as int));
            assert(as_ints(x_values@)[i as int] == x_values@[i as int] as int);
            assert(as_ints(membership@)[i as int] == membership@[i as int] as int);
            assert(xs.skip(i as int)[0] == xs[i as int]);
            assert(ms.skip(i as int)[0] == ms[i as int]);
        }
        let m = membership[i];
        if cum + (m as i128) >= half {
            return Ok(x_values[i]);
        }
        proof {
            assert(xs.skip(i as int).drop_first() =~= xs.skip(i + 1));
            assert(ms.skip(i as int).drop_first() =~= ms.skip(i + 1));
        }
        cum = cum + (m as i128);
        i = i + 1;
    }
    Ok(x_values[n - 1])
}

/// The selectable defuzzification strategies.
#[derive(Clone, Copy, Debug)]
pub enum DefuzzificationMethod {
    Centroid,
    MeanOfMaximum,
    SmallestOfMaximum,
    LargestOfMaximum,
    Bisector,
}

/// The result of the selected defuzzification strategy.
pub open spec fn spec_defuzzify(xs: Seq<int>, ms: Seq<int>, method: DefuzzificationMethod) -> int {
    match method {
        DefuzzificationMethod::Centroid => spec_centroid(xs, ms),
        DefuzzificationMethod::MeanOfMaximum => spec_mean_of_maximum(xs, ms),
        DefuzzificationMethod::SmallestOfMaximum => spec_smallest_of_maximum(xs, ms),
        DefuzzificationMethod::LargestOfMaximum => spec_largest_of_maximum(xs, ms),
        DefuzzificationMethod::Bisector => spec_bisector(xs, ms),
    }
}

/// Apply the selected defuzzification method.
pub fn defuzzify(x_values: &Vec<i64>, membership: &Vec<i64>, method: DefuzzificationMethod) -> (r:
    Result<i64, FuzzyError>)
    requires
        defuzz_input_ok(as_ints(x_values@), as_ints(membership@)),
    ensures
        x_values@.len() == membership@.len() <==> r is Ok,
        r is Err ==> r == Result::<i64, FuzzyError>::Err(FuzzyError::InvalidInput),
        r matches Ok(v) ==> v == spec_defuzzify(as_ints(x_values@), as_ints(membership@), method),
{
    match method {
        DefuzzificationMethod::Centroid => centroid(x_values, membership),
        DefuzzificationMethod::MeanOfMaximum => mean_of_maximum(x_values, membership),
        DefuzzificationMethod::SmallestOfMaximum => smallest_of_maximum(x_values, membership),
        DefuzzificationMethod::LargestOfMaximum => largest_of_maximum(x_values, membership),
        DefuzzificationMethod::Bisector => bisector(x_values, membership),
    }
}

/// A sequence of zero degrees sums to zero.
pub proof fn lemma_sum_of_zero_curve(ms: Seq<int>)
    requires
        forall|i: int| 0 <= i < ms.len() ==> #[trigger] ms[i] == 0,
    ensures
        spec_sum(ms) == 0,
    decreases ms.len(),
{
    if ms.len() > 0 {
        lemma_sum_of_zero_curve(ms.drop_last());
    }
}

/// The centroid of a curve with no activation is the midpoint of the
/// discretized domain `(x[0] + x[last]) / 2`, whatever the domain.
pub proof fn lemma_centroid_of_zero_curve(xs: Seq<int>, ms: Seq<int>)
    requires
        forall|i: int| 0 <= i < ms.len() ==> #[trigger] ms[i] == 0,
    ensures
        spec_centroid(xs, ms) == spec_midpoint(xs),
{
    lemma_sum_of_zero_curve(ms);
}

/// A sum of nonnegative degrees is nonnegative.
proof fn lemma_sum_nonnegative(ms: Seq<int>)
    requires
        forall|i: int| 0 <= i < ms.len() ==> 0 <= #[trigger] ms[i],
    ensures
        0 <= spec_sum(ms),
    decreases ms.len(),
{
    if ms.len() > 0 {
        assert(forall|i: int|
            0 <= i < ms.drop_last().len() ==> 0 <= #[trigger] ms.drop_last()[i]);
        lemma_sum_nonnegative(ms.drop_last());
    }
}

/// The sum decomposes at the front as well as at the back.
proof fn lemma_sum_drop_first(ms: Seq<int>)
    requires
        ms.len() > 0,
    ensures
        spec_sum(ms) == ms[0] + spec_sum(ms.drop_first()),
    decreases ms.len(),
{
    if ms.len() == 1 {
        assert(ms.drop_first() =~= Seq::<int>::empty());
        assert(ms.drop_last() =~= Seq::<int>::empty());
        assert(spec_sum(ms.drop_first()) == 0);
        assert(spec_sum(ms) == spec_sum(ms.drop_last()) + ms.last());
        assert(ms.last() == ms[0]);
    } else {
        lemma_sum_drop_first(ms.drop_last());
        assert(ms.drop_last()[0] == ms[0]);
        assert(ms.drop_last().drop_first() =~= ms.drop_first().drop_last());
        assert(ms.drop_first().last() == ms.last());
        assert(spec_sum(ms) == spec_sum(ms.drop_last()) + ms.last());
        assert(spec_sum(ms.drop_first()) == spec_sum(ms.drop_first().drop_last())
            + ms.drop_first().last());
    }
}

/// The weighted sum decomposes at the front as well as at the back.
proof fn lemma_weighted_sum_drop_first(xs: Seq<int>, ms: Seq<int>)
    requires
        xs.len() == ms.len(),
        xs.len() > 0,
    ensures
        spec_weighted_sum(xs, ms) == xs[0] * ms[0] + spec_weighted_sum(
            xs.drop_first(),
            ms.drop_first(),
        ),
    decreases xs.len(),
{
    if xs.len() == 1 {
        assert(xs.drop_first() =~= Seq::<int>::empty());
        assert(ms.drop_first() =~= Seq::<int>::empty());
        assert(spec_weighted_sum(xs.drop_first(), ms.drop_first()) == 0);
        assert(spec_weighted_sum(xs, ms) == spec_weighted_sum(xs.drop_last(), ms.drop_last())
            + xs.last() * ms.last());
        assert(xs.drop_last() =~= Seq::<int>::empty());
        assert(spec_weighted_sum(xs.drop_last(), ms.drop_last()) == 0);
        assert(xs.last() == xs[0] && ms.last() == ms[0]);
    } else {
        lemma_weighted_sum_drop_first(xs.drop_last(), ms.drop_last());
        assert(xs.drop_last()[0] == xs[0]);
        assert(ms.drop_last()[0] == ms[0]);
        assert(xs.drop_last().drop_first() =~= xs.drop_first().drop_last());
        assert(ms.drop_last().drop_first() =~= ms.drop_first().drop_last());
        assert(xs.drop_first().last() == xs.last());
        assert(ms.drop_first().last() == ms.last());
        assert(spec_weighted_sum(xs, ms) == spec_weighted_sum(xs.drop_last(), ms.drop_last())
            + xs.last() * ms.last());
        assert(spec_weighted_sum(xs.drop_first(), ms.drop_first()) == spec_weighted_sum(
            xs.drop_first().drop_last(),
            ms.drop_first().drop_last(),
        ) + xs.drop_first().last() * ms.drop_first().last());
    }
}

/// For a curve symmetric about `center` (domain values pair up to
/// `2 * center`, degrees mirror), the weighted sum is exactly the
/// center times the area: the two halves balance.
proof fn lemma_weighted_sum_symmetric(xs: Seq<int>, ms: Seq<int>, center: int)
    requires
        xs.len() == ms.len(),
        forall|i: int| 0 <= i < xs.len() ==> #[trigger] xs[i] + xs[xs.len() - 1 - i] == 2 * center,
        forall|i: int| 0 <= i < ms.len() ==> #[trigger] ms[i] == ms[ms.len() - 1 - i],
    ensures
        spec_weighted_sum(xs, ms) == center * spec_sum(ms),
    decreases xs.len(),
{
    let n = xs.len();
    if n == 0 {
        assert(center * 0 == 0) by (nonlinear_arith);
    } else if n == 1 {
        assert(xs[0] + xs[0] == 2 * center);
        assert(xs.drop_last() =~= Seq::<int>::empty());
        assert(ms.drop_last() =~= Seq::<int>::empty());
        assert(spec_weighted_sum(xs, ms) == spec_weighted_sum(xs.drop_last(), ms.drop_last())
            + xs.last() * ms.last());
        assert(spec_sum(ms) == spec_sum(ms.drop_last()) + ms.last());
        assert(xs.last() == xs[0] && ms.last() == ms[0]);
        assert(xs[0] * ms[0] == center * (0 + ms[0])) by (nonlinear_arith)
            requires
                xs[0] == center,
        ;
    } else {
        let xi = xs.drop_first().drop_last();
        let mi = ms.drop_first().drop_last();
        assert forall|i: int| 0 <= i < xi.len() implies #[trigger] xi[i] + xi[xi.len() - 1 - i]
            == 2 * center by {
            assert(xi[i] == xs[i + 1]);
            assert(xi[xi.len() - 1 - i] == xs[xs.len() - 1 - (i + 1)]);
            assert(xs[i + 1] + xs[xs.len() - 1 - (i + 1)] == 2 * center);
        }
        assert forall|i: int| 0 <= i < mi.len() implies #[trigger] mi[i] == mi[mi.len() - 1
            - i] by {
            assert(mi[i] == ms[i + 1]);
            assert(mi[mi.len() - 1 - i] == ms[ms.len() - 1 - (i + 1)]);
            assert(ms[i + 1] == ms[ms.len() - 1 - (i + 1)]);
        }
        lemma_weighted_sum_symmetric(xi, mi, center);
        lemma_weighted_sum_drop_first(xs, ms);
        lemma_sum_drop_first(ms);
        assert(xs.drop_first().last() == xs[n - 1]);
        assert(ms.drop_first().last() == ms[n - 1]);
        assert(xs.drop_first().drop_last() == xi);
        assert(ms.drop_first().drop_last() == mi);
        // The first and last entries pair: equal degrees at domain
        // values summing to twice the center.
        assert(xs[0] + xs[n - 1] == 2 * center);
        assert(ms[0] == ms[n - 1]);
        assert(spec_weighted_sum(xs, ms) == xs[0] * ms[0] + spec_weighted_sum(xi, mi) + xs[n - 1]
            * ms[n - 1]);
        assert(spec_sum(ms) == ms[0] + spec_sum(mi) + ms[n - 1]);
        assert(xs[0] * ms[0] + center * spec_sum(mi) + xs[n - 1] * ms[n - 1] == center * (ms[0]
            + spec_sum(mi) + ms[n - 1])) by (nonlinear_arith)
            requires
                xs[0] + xs[n - 1] == 2 * center,
                ms[0] == ms[n - 1],
        ;
    }
}

/// A curve symmetric about a center defuzzifies by centroid exactly
/// to that center, whether or not it is activated: a symmetric curve
/// centers on its peak.
pub proof fn lemma_centroid_symmetric(xs: Seq<int>, ms: Seq<int>, center: int)
    requires
        xs.len() == ms.len(),
        xs.len() > 0,
        forall|i: int| 0 <= i < xs.len() ==> #[trigger] xs[i] + xs[xs.len() - 1 - i] == 2 * center,
        forall|i: int| 0 <= i < ms.len() ==> #[trigger] ms[i] == ms[ms.len() - 1 - i],
        forall|i: int| 0 <= i < ms.len() ==> 0 <= #[trigger] ms[i],
    ensures
        spec_centroid(xs, ms) == center,
{
    if spec_sum(ms) == 0 {
        assert(xs[0] + xs[xs.len() - 1] == 2 * center);
        lemma_div_multiples_vanish(center, 2);
    } else {
        lemma_sum_nonnegative(ms);
        lemma_weighted_sum_symmetric(xs, ms, center);
        lemma_div_multiples_vanish(center, spec_sum(ms));
        assert(spec_sum(ms) * center == center * spec_sum(ms)) by (nonlinear_arith);
    }
}

} // verus!

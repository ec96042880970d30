//! Fuzzy set operations: union, intersection, complement, the
//! alternative t-norms and s-norms, element-wise application over
//! vectors, and alpha cuts.
//!
//! Every operation is a pure function over fixed-point degrees. The
//! binary operations expect valid degrees (between `0` and `ONE`) and
//! return the exact fixed-point value of their defining formula.

use vstd::math::max;
use vstd::math::min;
use vstd::prelude::*;

use crate::FuzzyError;
use crate::ONE;
use crate::is_degree;

verus! {

/// Fuzzy union (OR): the larger of the two degrees.
pub open spec fn spec_union(a: int, b: int) -> int {
    max(a, b)
}

/// Fuzzy intersection (AND): the smaller of the two degrees.
pub open spec fn spec_intersection(a: int, b: int) -> int {
    min(a, b)
}

/// Fuzzy complement (NOT): `1 - a` in fixed point.
pub open spec fn spec_complement(a: int) -> int {
    ONE - a
}

/// Algebraic product `a * b`, a t-norm; the fixed-point product
/// rounds toward negative infinity.
pub open spec fn spec_algebraic_product(a: int, b: int) -> int {
    a * b / (ONE as int)
}

/// Algebraic sum `a + b - a * b`, an s-norm.
pub open spec fn spec_algebraic_sum(a: int, b: int) -> int {
    a + b - spec_algebraic_product(a, b)
}

/// Bounded sum `min(1, a + b)`, an s-norm.
pub open spec fn spec_bounded_sum(a: int, b: int) -> int {
    min(ONE as int, a + b)
}

/// Bounded difference `max(0, a + b - 1)`, a t-norm.
pub open spec fn spec_bounded_difference(a: int, b: int) -> int {
    max(0, a + b - ONE)
}

/// Drastic sum: the other degree when one is `0`, else `1`.
pub open spec fn spec_drastic_sum(a: int, b: int) -> int {
    if a == 0 {
        b
    } else if b == 0 {
        a
    } else {
        ONE as int
    }
}

/// Drastic product: the other degree when one is `1`, else `0`.
pub open spec fn spec_drastic_product(a: int, b: int) -> int {
    if a == ONE {
        b
    } else if b == ONE {
        a
    } else {
        0
    }
}

/// Fuzzy union (OR operation) using maximum.
pub fn fuzzy_union(a: i64, b: i64) -> (r: i64)
    ensures
        r == spec_union(a as int, b as int),
{
    if a >= b {
        a
    } else {
        b
    }
}

/// Fuzzy intersection (AND operation) using minimum.
pub fn fuzzy_intersection(a: i64, b: i64) -> (r: i64)
    ensures
        r == spec_intersection(a as int, b as int),
{
    if a <= b {
        a
    } else {
        b
    }
}

/// Fuzzy complement (NOT operation).
pub fn fuzzy_complement(a: i64) -> (r: i64)
    requires
        is_degree(a as int),
    ensures
        r == spec_complement(a as int),
        is_degree(r as int),
{
    ONE - a
}

/// Algebraic product, the t-norm alternative to minimum.
pub fn algebraic_product(a: i64, b: i64) -> (r: i64)
    requires
        is_degree(a as int),
        is_degree(b as int),
    ensures
        r == spec_algebraic_product(a as int, b as int),
        is_degree(r as int),
{
    proof {
        lemma_algebraic_product_is_degree(a as int, b as int);
    }
    ((a as i128) * (b as i128) / (ONE as i128)) as i64
}

/// Algebraic sum, the s-norm alternative to maximum.
pub fn algebraic_sum(a: i64, b: i64) -> (r: i64)
    requires
        is_degree(a as int),
        is_degree(b as int),
    ensures
        r == spec_algebraic_sum(a as int, b as int),
        is_degree(r as int),
{
    proof {
        lemma_algebraic_sum_bounds(a as int, b as int);
    }
    let p = algebraic_product(a, b);
    a + b - p
}

/// Bounded sum `min(1, a + b)`, an s-norm.
pub fn bounded_sum(a: i64, b: i64) -> (r: i64)
    requires
        is_degree(a as int),
        is_degree(b as int),
    ensures
        r == spec_bounded_sum(a as int, b as int),
        is_degree(r as int),
{
    let s = a + b;
    if s <= ONE {
        s
    } else {
        ONE
    }
}

/// Bounded difference `max(0, a + b - 1)`, a t-norm.
pub fn bounded_difference(a: i64, b: i64) -> (r: i64)
    requires
        is_degree(a as int),
        is_degree(b as int),
    ensures
        r == spec_bounded_difference(a as int, b as int),
        is_degree(r as int),
{
    let s = a + b - ONE;
    if s >= 0 {
        s
    } else {
        0
    }
}

/// Drastic sum, an s-norm.
pub fn drastic_sum(a: i64, b: i64) -> (r: i64)
    requires
        is_degree(a as int),
        is_degree(b as int),
    ensures
        r == spec_drastic_sum(a as int, b as int),
        is_degree(r as int),
{
    if a == 0 {
        b
    } else if b == 0 {
        a
    } else {
        ONE
    }
}

/// Drastic product, a t-norm.
pub fn drastic_product(a: i64, b: i64) -> (r: i64)
    requires
        is_degree(a as int),
        is_degree(b as int),
    ensures
        r == spec_drastic_product(a as int, b as int),
        is_degree(r as int),
{
    if a == ONE {
        b
    } else if b == ONE {
        a
    } else {
        0
    }
}

/// Fuzzy union is commutative, associative and idempotent.
pub proof fn lemma_union_laws(a: int, b: int, c: int)
    ensures
        spec_union(a, b) == spec_union(b, a),
        spec_union(a, spec_union(b, c)) == spec_union(spec_union(a, b), c),
        spec_union(a, a) == a,
{
}

/// Fuzzy intersection is commutative, associative and idempotent.
pub proof fn lemma_intersection_laws(a: int, b: int, c: int)
    ensures
        spec_intersection(a, b) == spec_intersection(b, a),
        spec_intersection(a, spec_intersection(b, c)) == spec_intersection(
            spec_intersection(a, b),
            c,
        ),
        spec_intersection(a, a) == a,
{
}

/// The algebraic product of two degrees is a degree.
pub proof fn lemma_algebraic_product_is_degree(a: int, b: int)
    requires
        is_degree(a),
        is_degree(b),
    ensures
        is_degree(spec_algebraic_product(a, b)),
        spec_algebraic_product(a, b) <= a,
        spec_algebraic_product(a, b) <= b,
{
    let p = a * b;
    assert(0 <= a * b && a * b <= a * (ONE as int) && a * b <= (ONE as int) * b)
        by (nonlinear_arith)
        requires
            0 <= a <= ONE,
            0 <= b <= ONE,
    ;
    vstd::arithmetic::div_mod::lemma_div_is_ordered(p, a * (ONE as int), ONE as int);
    vstd::arithmetic::div_mod::lemma_div_is_ordered(p, (ONE as int) * b, ONE as int);
    vstd::arithmetic::div_mod::lemma_div_multiples_vanish(a, ONE as int);
    assert((ONE as int) * b / (ONE as int) == b) by {
        vstd::arithmetic::div_mod::lemma_div_multiples_vanish(b, ONE as int);
    }
    vstd::arithmetic::div_mod::lemma_div_pos_is_pos(p, ONE as int);
}

/// The algebraic sum of two degrees lies between both degrees and `1`:
/// in particular it is a degree at least as large as either argument.
pub proof fn lemma_algebraic_sum_bounds(a: int, b: int)
    requires
        is_degree(a),
        is_degree(b),
    ensures
        is_degree(spec_algebraic_sum(a, b)),
        spec_algebraic_sum(a, b) >= spec_union(a, b),
{
    lemma_algebraic_product_is_degree(a, b);
    let p = a * b / (ONE as int);
    assert(spec_algebraic_sum(a, b) <= ONE) by {
        // In exact arithmetic a + b - a*b/ONE <= ONE follows from
        // (ONE - a) * (ONE - b) >= 0; rounding only lowers the product
        // by less than one unit, so the bound survives division.
        assert((a + b) * (ONE as int) - a * b <= (ONE as int) * (ONE as int)) by (nonlinear_arith)
            requires
                0 <= a <= ONE,
                0 <= b <= ONE,
        ;
        vstd::arithmetic::div_mod::lemma_fundamental_div_mod(a * b, ONE as int);
        vstd::arithmetic::div_mod::lemma_mod_division_less_than_divisor(a * b, ONE as int);
    }
}

/// Apply a fuzzy operation element-wise to two vectors of degrees.
///
/// Fails with `FuzzyError::InvalidInput` when the vectors differ in
/// length; otherwise each output element is a possible result of the
/// supplied operation on the corresponding input pair.
pub fn apply_operation<F: Fn(i64, i64) -> i64>(a: &Vec<i64>, b: &Vec<i64>, op: F) -> (r: Result<
    Vec<i64>,
    FuzzyError,
>)
    requires
        a@.len() == b@.len() ==> forall|i: int|
            0 <= i < a@.len() ==> call_requires(op, (a@[i], b@[i])),
    ensures
        a@.len() != b@.len() <==> r is Err,
        r is Err ==> r == Result::<Vec<i64>, FuzzyError>::Err(FuzzyError::InvalidInput),
        r matches Ok(out) ==> out@.len() == a@.len() && forall|i: int|
            0 <= i < a@.len() ==> call_ensures(op, (a@[i], b@[i]), #[trigger] out@[i]),
{
    if a.len() != b.len() {
        return Err(FuzzyError::InvalidInput);
    }
    let mut out: Vec<i64> = Vec::new();
    let mut i: usize = 0;
    while i < a.len()
        invariant
            i <= a@.len(),
            a@.len() == b@.len(),
            out@.len() == i,
            forall|j: int| 0 <= j < a@.len() ==> call_requires(op, (a@[j], b@[j])),
            forall|j: int| 0 <= j < i ==> call_ensures(op, (a@[j], b@[j]), #[trigger] out@[j]),
        decreases a@.len() - i,
    {
        let v = op(a[i], b[i]);
        out.push(v);
        i = i + 1;
    }
    Ok(out)
}

/// The indices whose degree is at least `alpha`, in increasing order.
pub open spec fn spec_alpha_cut(m: Seq<int>, alpha: int) -> Seq<int>
    decreases m.len(),
{
    if m.len() == 0 {
        Seq::empty()
    } else {
        spec_alpha_cut(m.drop_last(), alpha) + if m.last() >= alpha {
            seq![m.len() - 1]
        } else {
            Seq::empty()
        }
    }
}

/// The indices whose degree is strictly above `alpha`, in increasing order.
pub open spec fn spec_strong_alpha_cut(m: Seq<int>, alpha: int) -> Seq<int>
    decreases m.len(),
{
    if m.len() == 0 {
        Seq::empty()
    } else {
        spec_strong_alpha_cut(m.drop_last(), alpha) + if m.last() > alpha {
            seq![m.len() - 1]
        } else {
            Seq::empty()
        }
    }
}

/// Alpha cut of a fuzzy set: the indices where membership is `>= alpha`.
pub fn alpha_cut(membership: &Vec<i64>, alpha: i64) -> (r: Vec<usize>)
    ensures
        r@.len() == spec_alpha_cut(crate::as_ints(membership@), alpha as int).len(),
        forall|k: int|
            0 <= k < r@.len() ==> r@[k] == spec_alpha_cut(
                crate::as_ints(membership@),
                alpha as int,
            )[k],
{
    let ghost ms = crate::as_ints(membership@);
    let mut r: Vec<usize> = Vec::new();
    let mut i: usize = 0;
    while i < membership.len()
        invariant
            i <= membership@.len(),
            ms == crate::as_ints(membership@),
            r@.len() == spec_alpha_cut(ms.take(i as int), alpha as int).len(),
            forall|k: int|
                0 <= k < r@.len() ==> r@[k] == spec_alpha_cut(ms.take(i as int), alpha as int)[k],
        decreases membership@.len() - i,
    {
        proof {
            assert(ms.take(i + 1).drop_last() =~= ms.take(i as int));
            assert(ms.take(i + 1).last() == ms[i as int]);
        }
        if membership[i] >= alpha {
            r.push(i);
        }
        i = i + 1;
    }
    proof {
        assert(ms.take(membership@.len() as int) =~= ms);
    }
    r
}

/// Strong alpha cut of a fuzzy set: the indices where membership is
/// strictly above `alpha`.
pub fn strong_alpha_cut(membership: &Vec<i64>, alpha: i64) -> (r: Vec<usize>)
    ensures
        r@.len() == spec_strong_alpha_cut(crate::as_ints(membership@), alpha as int).len(),
        forall|k: int|
            0 <= k < r@.len() ==> r@[k] == spec_strong_alpha_cut(
                crate::as_ints(membership@),
                alpha as int,
            )[k],
{
    let ghost ms = crate::as_ints(membership@);
    let mut r: Vec<usize> = Vec::new();
    let mut i: usize = 0;
    while i < membership.len()
        invariant
            i <= membership@.len(),
            ms == crate::as_ints(membership@),
            r@.len() == spec_strong_alpha_cut(ms.take(i as int), alpha as int).len(),
            forall|k: int|
                0 <= k < r@.len() ==> r@[k] == spec_strong_alpha_cut(
                    ms.take(i as int),
                    alpha as int,
                )[k],
        decreases membership@.len() - i,
    {
        proof {
            assert(ms.take(i + 1).drop_last() =~= ms.take(i as int));
            assert(ms.take(i + 1).last() == ms[i as int]);
        }
        if membership[i] > alpha {
            r.push(i);
        }
        i = i + 1;
    }
    proof {
        assert(ms.take(membership@.len() as int) =~= ms);
    }
    r
}

/// Every index of the strong alpha cut also belongs to the alpha cut:
/// as index sets, `strong_alpha_cut(m, t)` is contained in
/// `alpha_cut(m, t)` for any threshold `t`.
pub proof fn lemma_strong_alpha_cut_subset(m: Seq<int>, alpha: int)
    ensures
        forall|v: int|
            spec_strong_alpha_cut(m, alpha).contains(v) ==> spec_alpha_cut(m, alpha).contains(v),
    decreases m.len(),
{
    if m.len() > 0 {
        lemma_strong_alpha_cut_subset(m.drop_last(), alpha);
        assert forall|v: int| spec_strong_alpha_cut(m, alpha).contains(v) implies spec_alpha_cut(
            m,
            alpha,
        ).contains(v) by {
            let strong = spec_strong_alpha_cut(m, alpha);
            let sub = spec_strong_alpha_cut(m.drop_last(), alpha);
            let k = choose|k: int| 0 <= k < strong.len() && strong[k] == v;
            if k < sub.len() {
                assert(sub.contains(v));
                let j = choose|j: int|
                    0 <= j < spec_alpha_cut(m.drop_last(), alpha).len() && spec_alpha_cut(
                        m.drop_last(),
                        alpha,
                    )[j] == v;
                assert(spec_alpha_cut(m, alpha)[j] == v);
            } else {
                // v is the index of the last element, whose degree is
                // strictly above alpha, hence at least alpha.
                assert(v == m.len() - 1 && m.last() > alpha);
                assert(spec_alpha_cut(m, alpha).last() == v);
            }
        }
    }
}

} // verus!

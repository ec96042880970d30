//! Fuzzy logic in exact fixed-point arithmetic.
//!
//! Degrees of membership and domain values are `i64` numbers scaled by
//! [`ONE`]: the real number `x` is represented as `x * ONE`, so a degree
//! ranges over `0 ..= ONE`. All divisions round toward negative infinity,
//! and every public function states its result exactly over that
//! arithmetic.
//!
//! The library provides:
//! - membership functions (triangular, trapezoidal, Gaussian, sigmoid),
//! - fuzzy set operations (union, intersection, complement, further
//!   t-norms and s-norms, alpha cuts),
//! - Mamdani-style inference (rules and controllers),
//! - defuzzification methods (centroid, maxima-based methods, bisector).

use vstd::prelude::*;

pub mod defuzzification;
pub mod inference;
pub mod membership;
pub mod operations;

mod exp;

pub use defuzzification::bisector;
pub use defuzzification::centroid;
pub use defuzzification::mean_of_maximum;
pub use membership::MembershipFunction;
pub use operations::fuzzy_complement;
pub use operations::fuzzy_intersection;
pub use operations::fuzzy_union;

verus! {

/// The fixed-point scale: the real number `1.0` is stored as `ONE`.
pub const ONE: i64 = 1_000_000;

/// The degree `0.5`, stored in the fixed-point scale.
pub const HALF: i64 = 500_000;

/// Largest magnitude accepted for a domain value handed to a
/// defuzzifier or used as a controller output bound. Keeps every
/// intermediate product within `i128`.
pub const DOMAIN_LIMIT: i64 = 1_000_000_000_000;

/// Largest number of discretization steps a controller accepts.
pub const STEPS_LIMIT: usize = 1_000_000;

/// A valid degree of membership lies between `0` and `ONE`.
pub open spec fn is_degree(d: int) -> bool {
    0 <= d <= ONE
}

/// A domain value a defuzzifier accepts.
pub open spec fn is_domain_value(x: int) -> bool {
    -DOMAIN_LIMIT <= x <= DOMAIN_LIMIT
}

/// The failures the library reports: paired sequences of differing
/// length are invalid input, and a controller whose output range is
/// empty or has no steps is an invalid configuration.
#[derive(Clone, Copy, Debug, PartialEq, Eq, Structural)]
pub enum FuzzyError {
    InvalidInput,
    InvalidConfiguration,
}

/// The mathematical contents of a fixed-point vector.
pub open spec fn as_ints(s: Seq<i64>) -> Seq<int> {
    s.map_values(|v: i64| v as int)
}

/// The mathematical contents have the length of the vector.
pub broadcast proof fn lemma_as_ints_len(s: Seq<i64>)
    ensures
        #[trigger] as_ints(s).len() == s.len(),
{
}

/// The mathematical contents agree with the vector element-wise.
pub broadcast proof fn lemma_as_ints_index(s: Seq<i64>, i: int)
    requires
        0 <= i < s.len(),
    ensures
        #[trigger] as_ints(s)[i] == s[i] as int,
{
}

} // verus!

//! Mamdani-style fuzzy inference: rules and controllers.
//!
//! A rule pairs antecedent membership functions with one consequent
//! membership function; its contribution at an output point is the
//! consequent degree clipped by the firing strength. A controller
//! holds an ordered list of rules and an output range `(min, max,
//! steps)`; evaluation discretizes the range, aggregates every rule's
//! clipped contribution point-wise by union (maximum) and defuzzifies
//! the aggregated curve with the centroid method. Aggregation by
//! maximum makes the result independent of the order in which rules
//! were added, which is proved below.

use vstd::math::max;
use vstd::math::min;
use vstd::prelude::*;

use crate::DOMAIN_LIMIT;
use crate::FuzzyError;
use crate::STEPS_LIMIT;
use crate::as_ints;
use crate::defuzzification::centroid;
use crate::defuzzification::spec_centroid;
use crate::is_degree;
use crate::is_domain_value;
use crate::membership::MembershipFunction;
use crate::membership::lemma_membership_is_degree;
use crate::membership::spec_membership;
use crate::operations::fuzzy_intersection;
use crate::operations::fuzzy_union;

verus! {

broadcast use crate::lemma_as_ints_len, crate::lemma_as_ints_index;

/// A fuzzy rule: IF condition THEN conclusion.
///
/// Both parts are membership functions; the controller only depends
/// on the degree each one assigns to a value.
#[derive(Clone, Copy, Debug, PartialEq, Eq, Structural)]
pub struct FuzzyRule {
    /// Antecedent (IF part), evaluated at the input value.
    pub condition: MembershipFunction,
    /// Consequent (THEN part), evaluated at output points.
    pub conclusion: MembershipFunction,
}

/// A rule's clipped contribution at one output point: the consequent
/// degree, cut off at the firing strength of the antecedent.
pub open spec fn spec_rule_clip(rule: FuzzyRule, input: int, output: int) -> int {
    min(spec_membership(rule.condition, input), spec_membership(rule.conclusion, output))
}

impl FuzzyRule {
    /// Create a new fuzzy rule.
    pub fn new(condition: MembershipFunction, conclusion: MembershipFunction) -> (r: FuzzyRule)
        ensures
            r == (FuzzyRule { condition, conclusion }),
    {
        FuzzyRule { condition, conclusion }
    }

    /// Evaluate the rule's firing strength for a given input.
    pub fn evaluate_condition(&self, input: i64) -> (r: i64)
        ensures
            r == spec_membership(self.condition, input as int),
            is_degree(r as int),
    {
        self.condition.evaluate(input)
    }

    /// Apply the rule's firing strength to the conclusion membership
    /// function at one output point.
    pub fn apply(&self, input: i64, output: i64) -> (r: i64)
        ensures
            r == spec_rule_clip(*self, input as int, output as int),
            is_degree(r as int),
    {
        proof {
            lemma_membership_is_degree(self.condition, input as int);
            lemma_membership_is_degree(self.conclusion, output as int);
        }
        let strength = self.evaluate_condition(input);
        let conclusion_membership = self.conclusion.evaluate(output);
        fuzzy_intersection(strength, conclusion_membership)
    }
}

/// The `j`-th point of the discretized output range: `min + j * (max
/// - min) / steps`, rounded toward negative infinity.
pub open spec fn spec_universe_point(min: int, max: int, steps: int, j: int) -> int {
    min + j * (max - min) / steps
}

/// The discretized output range: `steps` equally spaced points from
/// `min` (inclusive) toward `max` (exclusive).
pub open spec fn spec_universe(min: int, max: int, steps: int) -> Seq<int> {
    Seq::new(steps as nat, |j: int| spec_universe_point(min, max, steps, j))
}

/// The union-aggregated degree of a rule list at one output point:
/// the maximum clipped contribution, `0` for an empty list.
pub open spec fn spec_aggregate(rules: Seq<FuzzyRule>, input: int, output: int) -> int
    decreases rules.len(),
{
    if rules.len() == 0 {
        0
    } else {
        max(
            spec_aggregate(rules.drop_last(), input, output),
            spec_rule_clip(rules.last(), input, output),
        )
    }
}

/// The aggregated membership curve over the discretized output range.
pub open spec fn spec_aggregated_curve(
    rules: Seq<FuzzyRule>,
    min: int,
    max: int,
    steps: int,
    input: int,
) -> Seq<int> {
    Seq::new(
        steps as nat,
        |j: int| spec_aggregate(rules, input, spec_universe_point(min, max, steps, j)),
    )
}

/// What a controller returns: the centroid of the aggregated curve
/// over the discretized output range.
pub open spec fn spec_controller_output(
    rules: Seq<FuzzyRule>,
    min: int,
    max: int,
    steps: int,
    input: int,
) -> int {
    spec_centroid(
        spec_universe(min, max, steps),
        spec_aggregated_curve(rules, min, max, steps, input),
    )
}

/// The aggregated degree is a degree, dominates every rule's clipped
/// contribution, and is either zero or attained by some rule.
pub proof fn lemma_aggregate_properties(rules: Seq<FuzzyRule>, input: int, output: int)
    ensures
        is_degree(spec_aggregate(rules, input, output)),
        forall|i: int|
            0 <= i < rules.len() ==> spec_aggregate(rules, input, output) >= spec_rule_clip(
                #[trigger] rules[i],
                input,
                output,
            ),
        spec_aggregate(rules, input, output) == 0 || exists|i: int|
            0 <= i < rules.len() && spec_aggregate(rules, input, output) == spec_rule_clip(
                #[trigger] rules[i],
                input,
                output,
            ),
    decreases rules.len(),
{
    if rules.len() > 0 {
        lemma_aggregate_properties(rules.drop_last(), input, output);
        lemma_membership_is_degree(rules.last().condition, input);
        lemma_membership_is_degree(rules.last().conclusion, output);
        let sub = spec_aggregate(rules.drop_last(), input, output);
        let agg = spec_aggregate(rules, input, output);
        assert forall|i: int| 0 <= i < rules.len() implies agg >= spec_rule_clip(
            #[trigger] rules[i],
            input,
            output,
        ) by {
            if i < rules.len() - 1 {
                assert(rules.drop_last()[i] == rules[i]);
            }
        }
        if agg != 0 {
            if agg == spec_rule_clip(rules.last(), input, output) {
                assert(agg == spec_rule_clip(rules[rules.len() - 1], input, output));
            } else {
                let i = choose|i: int|
                    0 <= i < rules.drop_last().len() && sub == spec_rule_clip(
                        #[trigger] rules.drop_last()[i],
                        input,
                        output,
                    );
                assert(rules.drop_last()[i] == rules[i]);
                assert(agg == spec_rule_clip(rules[i], input, output));
            }
        }
    }
}

/// Aggregation is order-independent: two rule lists holding the same
/// rules with the same multiplicities aggregate to the same degree at
/// every output point.
pub proof fn lemma_aggregate_order_independent(
    rules1: Seq<FuzzyRule>,
    rules2: Seq<FuzzyRule>,
    input: int,
    output: int,
)
    requires
        rules1.to_multiset() == rules2.to_multiset(),
    ensures
        spec_aggregate(rules1, input, output) == spec_aggregate(rules2, input, output),
{
    rules1.to_multiset_ensures();
    rules2.to_multiset_ensures();
    lemma_aggregate_properties(rules1, input, output);
    lemma_aggregate_properties(rules2, input, output);
    let a1 = spec_aggregate(rules1, input, output);
    let a2 = spec_aggregate(rules2, input, output);
    if a1 != 0 {
        let i = choose|i: int|
            0 <= i < rules1.len() && a1 == spec_rule_clip(#[trigger] rules1[i], input, output);
        let x = rules1[i];
        assert(rules1.contains(x));
        assert(rules1.to_multiset().count(x) > 0);
        assert(rules2.contains(x));
        let j = choose|j: int| 0 <= j < rules2.len() && rules2[j] == x;
        assert(a2 >= spec_rule_clip(rules2[j], input, output));
        assert(a2 >= a1);
    }
    if a2 != 0 {
        let i = choose|i: int|
            0 <= i < rules2.len() && a2 == spec_rule_clip(#[trigger] rules2[i], input, output);
        let x = rules2[i];
        assert(rules2.contains(x));
        assert(rules2.to_multiset().count(x) > 0);
        assert(rules1.contains(x));
        let j = choose|j: int| 0 <= j < rules1.len() && rules1[j] == x;
        assert(a1 >= spec_rule_clip(rules1[j], input, output));
        assert(a1 >= a2);
    }
}

/// A controller's output does not depend on the order in which its
/// rules were added: rule lists equal as multisets give identical
/// outputs for every input and output range.
pub proof fn lemma_controller_output_order_independent(
    rules1: Seq<FuzzyRule>,
    rules2: Seq<FuzzyRule>,
    min: int,
    max: int,
    steps: int,
    input: int,
)
    requires
        rules1.to_multiset() == rules2.to_multiset(),
    ensures
        spec_controller_output(rules1, min, max, steps, input) == spec_controller_output(
            rules2,
            min,
            max,
            steps,
            input,
        ),
{
    let curve1 = spec_aggregated_curve(rules1, min, max, steps, input);
    let curve2 = spec_aggregated_curve(rules2, min, max, steps, input);
    assert forall|j: int| 0 <= j < curve1.len() implies curve1[j] == curve2[j] by {
        lemma_aggregate_order_independent(
            rules1,
            rules2,
            input,
            spec_universe_point(min, max, steps, j),
        );
    }
    assert(curve1 =~= curve2);
}

/// Two controllers that hold the same rules (in any order) over the
/// same output range return the same output for every input.
pub proof fn lemma_controller_order_independent(
    c1: &FuzzyController,
    c2: &FuzzyController,
    input: int,
)
    requires
        c1.spec_rules().to_multiset() == c2.spec_rules().to_multiset(),
        c1.spec_output_range() == c2.spec_output_range(),
    ensures
        spec_controller_output(
            c1.spec_rules(),
            c1.spec_output_range().0 as int,
            c1.spec_output_range().1 as int,
            c1.spec_output_range().2 as int,
            input,
        ) == spec_controller_output(
            c2.spec_rules(),
            c2.spec_output_range().0 as int,
            c2.spec_output_range().1 as int,
            c2.spec_output_range().2 as int,
            input,
        ),
{
    lemma_controller_output_order_independent(
        c1.spec_rules(),
        c2.spec_rules(),
        c1.spec_output_range().0 as int,
        c1.spec_output_range().1 as int,
        c1.spec_output_range().2 as int,
        input,
    );
}

/// A fuzzy controller: an ordered list of rules over one input, plus
/// a discretized output range.
pub struct FuzzyController {
    rules: Vec<FuzzyRule>,
    output_range: (i64, i64, usize),
}

impl FuzzyController {
    /// The rules added so far, in insertion order.
    pub closed spec fn spec_rules(&self) -> Seq<FuzzyRule> {
        self.rules@
    }

    /// The output range `(min, max, steps)` the controller was built
    /// with.
    pub closed spec fn spec_output_range(&self) -> (i64, i64, usize) {
        self.output_range
    }

    /// The bounds every controller keeps: an output range of bounded
    /// domain values with a bounded step count.
    pub open spec fn wf(&self) -> bool {
        &&& is_domain_value(self.spec_output_range().0 as int)
        &&& is_domain_value(self.spec_output_range().1 as int)
        &&& self.spec_output_range().2 <= STEPS_LIMIT
    }

    /// Whether evaluation must reject the output range: no steps, or
    /// an empty range.
    pub open spec fn spec_config_invalid(&self) -> bool {
        self.spec_output_range().2 == 0 || self.spec_output_range().1 <= self.spec_output_range().0
    }

    /// Create a new fuzzy controller with the given output range.
    pub fn new(output_min: i64, output_max: i64, output_steps: usize) -> (r: FuzzyController)
        requires
            is_domain_value(output_min as int),
            is_domain_value(output_max as int),
            output_steps <= STEPS_LIMIT,
        ensures
            r.spec_rules() == Seq::<FuzzyRule>::empty(),
            r.spec_output_range() == (output_min, output_max, output_steps),
            r.wf(),
    {
        let r = FuzzyController { rules: Vec::new(), output_range: (output_min, output_max, output_steps) };
        proof {
            assert(r.rules@ =~= Seq::<FuzzyRule>::empty());
        }
        r
    }

    /// Add a rule to the controller.
    pub fn add_rule(&mut self, rule: FuzzyRule)
        ensures
            final(self).spec_rules() == old(self).spec_rules().push(rule),
            final(self).spec_output_range() == old(self).spec_output_range(),
    {
        self.rules.push(rule);
    }

    /// Evaluate the controller for a given input, by Mamdani
    /// inference with centroid defuzzification.
    ///
    /// Fails with `FuzzyError::InvalidConfiguration` exactly when the
    /// output range has no steps or is empty.
    pub fn evaluate(&self, input: i64) -> (r: Result<i64, FuzzyError>)
        requires
            self.wf(),
        ensures
            self.spec_config_invalid() <==> r is Err,
            r is Err ==> r == Result::<i64, FuzzyError>::Err(FuzzyError::InvalidConfiguration),
            r matches Ok(v) ==> v == spec_controller_output(
                self.spec_rules(),
                self.spec_output_range().0 as int,
                self.spec_output_range().1 as int,
                self.spec_output_range().2 as int,
                input as int,
            ),
    {
        let omin = self.output_range.0;
        let omax = self.output_range.1;
        let steps = self.output_range.2;
        if steps == 0 || omax <= omin {
            return Err(FuzzyError::InvalidConfiguration);
        }
        let ghost gmin = omin as int;
        let ghost gmax = omax as int;
        let ghost gsteps = steps as int;
        let output_values = build_universe(omin, omax, steps);
        let mut aggregated: Vec<i64> = Vec::new();
        let mut j: usize = 0;
        while j < steps
            invariant
                j <= steps,
                aggregated@.len() == j,
                forall|k: int| 0 <= k < j ==> aggregated@[k] == 0,
            decreases steps - j,
        {
            aggregated.push(0);
            j = j + 1;
        }
        let mut r_idx: usize = 0;
        while r_idx < self.rules.len()
            invariant
                r_idx <= self.rules@.len(),
                output_values@.len() == steps,
                aggregated@.len() == steps,
                0 < steps == gsteps,
                gmin == omin as int && gmax == omax as int,
                forall|k: int|
                    0 <= k < steps ==> output_values@[k] as int == spec_universe_point(
                        gmin,
                        gmax,
                        gsteps,
                        k,
                    ),
                forall|k: int|
                    0 <= k < steps ==> aggregated@[k] as int == spec_aggregate(
                        self.rules@.take(r_idx as int),
                        input as int,
                        spec_universe_point(gmin, gmax, gsteps, k),
                    ),
            decreases self.rules@.len() - r_idx,
        {
            let rule = self.rules[r_idx];
            let mut j: usize = 0;
            while j < steps
                invariant
                    j <= steps,
                    r_idx < self.rules@.len(),
                    rule == self.rules@[r_idx as int],
                    output_values@.len() == steps,
                    aggregated@.len() == steps,
                    0 < steps == gsteps,
                    gmin == omin as int && gmax == omax as int,
                    forall|k: int|
                        0 <= k < steps ==> output_values@[k] as int == spec_universe_point(
                            gmin,
                            gmax,
                            gsteps,
                            k,
                        ),
                    forall|k: int|
                        j <= k < steps ==> aggregated@[k] as int == spec_aggregate(
                            self.rules@.take(r_idx as int),
                            input as int,
                            spec_universe_point(gmin, gmax, gsteps, k),
                        ),
                    forall|k: int|
                        0 <= k < j ==> aggregated@[k] as int == spec_aggregate(
                            self.rules@.take(r_idx + 1),
                            input as int,
                            spec_universe_point(gmin, gmax, gsteps, k),
                        ),
                decreases steps - j,
            {
                proof {
                    assert(self.rules@.take(r_idx + 1).drop_last() =~= self.rules@.take(
                        r_idx as int,
                    ));
                    assert(self.rules@.take(r_idx + 1).last() == self.rules@[r_idx as int]);
                    lemma_aggregate_properties(
                        self.rules@.take(r_idx as int),
                        input as int,
                        spec_universe_point(gmin, gmax, gsteps, j as int),
                    );
                }
                let clipped = rule.apply(input, output_values[j]);
                let cur = aggregated[j];
                aggregated.set(j, fuzzy_union(cur, clipped));
                j = j + 1;
            }
            r_idx = r_idx + 1;
        }
        proof {
            assert(self.rules@.take(self.rules@.len() as int) =~= self.rules@);
            assert(as_ints(output_values@) =~= spec_universe(gmin, gmax, gsteps));
            assert(as_ints(aggregated@) =~= spec_aggregated_curve(
                self.rules@,
                gmin,
                gmax,
                gsteps,
                input as int,
            ));
            assert forall|k: int| 0 <= k < steps implies is_degree(
                as_ints(aggregated@)[k],
            ) by {
                lemma_aggregate_properties(
                    self.rules@,
                    input as int,
                    spec_universe_point(gmin, gmax, gsteps, k),
                );
            }
        }
        centroid(&output_values, &aggregated)
    }
}

/// A fuzzy rule with two antecedents: IF condition1 AND condition2
/// THEN conclusion. The two firing strengths are combined by
/// intersection (minimum).
#[derive(Clone, Copy, Debug, PartialEq, Eq, Structural)]
pub struct TwoInputFuzzyRule {
    /// First antecedent, evaluated at the first input value.
    pub condition1: MembershipFunction,
    /// Second antecedent, evaluated at the second input value.
    pub condition2: MembershipFunction,
    /// Consequent, evaluated at output points.
    pub conclusion: MembershipFunction,
}

/// A two-input rule's clipped contribution at one output point: the
/// consequent degree, cut off at the intersection of both firing
/// strengths.
pub open spec fn spec_two_input_rule_clip(
    rule: TwoInputFuzzyRule,
    input1: int,
    input2: int,
    output: int,
) -> int {
    min(
        min(
            spec_membership(rule.condition1, input1),
            spec_membership(rule.condition2, input2),
        ),
        spec_membership(rule.conclusion, output),
    )
}

impl TwoInputFuzzyRule {
    /// Create a new two-input fuzzy rule.
    pub fn new(
        condition1: MembershipFunction,
        condition2: MembershipFunction,
        conclusion: MembershipFunction,
    ) -> (r: TwoInputFuzzyRule)
        ensures
            r == (TwoInputFuzzyRule { condition1, condition2, conclusion }),
    {
        TwoInputFuzzyRule { condition1, condition2, conclusion }
    }

    /// Evaluate the rule with the AND of both conditions, clipping
    /// the conclusion membership at one output point.
    pub fn apply(&self, input1: i64, input2: i64, output: i64) -> (r: i64)
        ensures
            r == spec_two_input_rule_clip(*self, input1 as int, input2 as int, output as int),
            is_degree(r as int),
    {
        proof {
            lemma_membership_is_degree(self.condition1, input1 as int);
            lemma_membership_is_degree(self.condition2, input2 as int);
            lemma_membership_is_degree(self.conclusion, output as int);
        }
        let strength1 = self.condition1.evaluate(input1);
        let strength2 = self.condition2.evaluate(input2);
        let combined_strength = fuzzy_intersection(strength1, strength2);
        let conclusion_membership = self.conclusion.evaluate(output);
        fuzzy_intersection(combined_strength, conclusion_membership)
    }
}

/// The union-aggregated degree of a two-input rule list at one output
/// point.
pub open spec fn spec_two_input_aggregate(
    rules: Seq<TwoInputFuzzyRule>,
    input1: int,
    input2: int,
    output: int,
) -> int
    decreases rules.len(),
{
    if rules.len() == 0 {
        0
    } else {
        max(
            spec_two_input_aggregate(rules.drop_last(), input1, input2, output),
            spec_two_input_rule_clip(rules.last(), input1, input2, output),
        )
    }
}

/// The aggregated membership curve of a two-input rule list over the
/// discretized output range.
pub open spec fn spec_two_input_aggregated_curve(
    rules: Seq<TwoInputFuzzyRule>,
    min: int,
    max: int,
    steps: int,
    input1: int,
    input2: int,
) -> Seq<int> {
    Seq::new(
        steps as nat,
        |j: int|
            spec_two_input_aggregate(
                rules,
                input1,
                input2,
                spec_universe_point(min, max, steps, j),
            ),
    )
}

/// What a two-input controller returns: the centroid of the
/// aggregated curve over the discretized output range.
pub open spec fn spec_two_input_controller_output(
    rules: Seq<TwoInputFuzzyRule>,
    min: int,
    max: int,
    steps: int,
    input1: int,
    input2: int,
) -> int {
    spec_centroid(
        spec_universe(min, max, steps),
        spec_two_input_aggregated_curve(rules, min, max, steps, input1, input2),
    )
}

/// The two-input aggregated degree is a degree, dominates every
/// rule's clipped contribution, and is either zero or attained by
/// some rule.
pub proof fn lemma_two_input_aggregate_properties(
    rules: Seq<TwoInputFuzzyRule>,
    input1: int,
    input2: int,
    output: int,
)
    ensures
        is_degree(spec_two_input_aggregate(rules, input1, input2, output)),
        forall|i: int|
            0 <= i < rules.len() ==> spec_two_input_aggregate(rules, input1, input2, output)
                >= spec_two_input_rule_clip(#[trigger] rules[i], input1, input2, output),
        spec_two_input_aggregate(rules, input1, input2, output) == 0 || exists|i: int|
            0 <= i < rules.len() && spec_two_input_aggregate(rules, input1, input2, output)
                == spec_two_input_rule_clip(#[trigger] rules[i], input1, input2, output),
    decreases rules.len(),
{
    if rules.len() > 0 {
        lemma_two_input_aggregate_properties(rules.drop_last(), input1, input2, output);
        lemma_membership_is_degree(rules.last().condition1, input1);
        lemma_membership_is_degree(rules.last().condition2, input2);
        lemma_membership_is_degree(rules.last().conclusion, output);
        let sub = spec_two_input_aggregate(rules.drop_last(), input1, input2, output);
        let agg = spec_two_input_aggregate(rules, input1, input2, output);
        assert forall|i: int| 0 <= i < rules.len() implies agg >= spec_two_input_rule_clip(
            #[trigger] rules[i],
            input1,
            input2,
            output,
        ) by {
            if i < rules.len() - 1 {
                assert(rules.drop_last()[i] == rules[i]);
            }
        }
        if agg != 0 {
            if agg == spec_two_input_rule_clip(rules.last(), input1, input2, output) {
                assert(agg == spec_two_input_rule_clip(
                    rules[rules.len() - 1],
                    input1,
                    input2,
                    output,
                ));
            } else {
                let i = choose|i: int|
                    0 <= i < rules.drop_last().len() && sub == spec_two_input_rule_clip(
                        #[trigger] rules.drop_last()[i],
                        input1,
                        input2,
                        output,
                    );
                assert(rules.drop_last()[i] == rules[i]);
                assert(agg == spec_two_input_rule_clip(rules[i], input1, input2, output));
            }
        }
    }
}

/// Two-input aggregation is order-independent: rule lists equal as
/// multisets aggregate to the same degree at every output point.
pub proof fn lemma_two_input_aggregate_order_independent(
    rules1: Seq<TwoInputFuzzyRule>,
    rules2: Seq<TwoInputFuzzyRule>,
    input1: int,
    input2: int,
    output: int,
)
    requires
        rules1.to_multiset() == rules2.to_multiset(),
    ensures
        spec_two_input_aggregate(rules1, input1, input2, output) == spec_two_input_aggregate(
            rules2,
            input1,
            input2,
            output,
        ),
{
    rules1.to_multiset_ensures();
    rules2.to_multiset_ensures();
    lemma_two_input_aggregate_properties(rules1, input1, input2, output);
    lemma_two_input_aggregate_properties(rules2, input1, input2, output);
    let a1 = spec_two_input_aggregate(rules1, input1, input2, output);
    let a2 = spec_two_input_aggregate(rules2, input1, input2, output);
    if a1 != 0 {
        let i = choose|i: int|
            0 <= i < rules1.len() && a1 == spec_two_input_rule_clip(
                #[trigger] rules1[i],
                input1,
                input2,
                output,
            );
        let x = rules1[i];
        assert(rules1.contains(x));
        assert(rules1.to_multiset().count(x) > 0);
        assert(rules2.contains(x));
        let j = choose|j: int| 0 <= j < rules2.len() && rules2[j] == x;
        assert(a2 >= spec_two_input_rule_clip(rules2[j], input1, input2, output));
    }
    if a2 != 0 {
        let i = choose|i: int|
            0 <= i < rules2.len() && a2 == spec_two_input_rule_clip(
                #[trigger] rules2[i],
                input1,
                input2,
                output,
            );
        let x = rules2[i];
        assert(rules2.contains(x));
        assert(rules2.to_multiset().count(x) > 0);
        assert(rules1.contains(x));
        let j = choose|j: int| 0 <= j < rules1.len() && rules1[j] == x;
        assert(a1 >= spec_two_input_rule_clip(rules1[j], input1, input2, output));
    }
}

/// A two-input controller's output does not depend on the order in
/// which its rules were added.
pub proof fn lemma_two_input_controller_output_order_independent(
    rules1: Seq<TwoInputFuzzyRule>,
    rules2: Seq<TwoInputFuzzyRule>,
    min: int,
    max: int,
    steps: int,
    input1: int,
    input2: int,
)
    requires
        rules1.to_multiset() == rules2.to_multiset(),
    ensures
        spec_two_input_controller_output(rules1, min, max, steps, input1, input2)
            == spec_two_input_controller_output(rules2, min, max, steps, input1, input2),
{
    let curve1 = spec_two_input_aggregated_curve(rules1, min, max, steps, input1, input2);
    let curve2 = spec_two_input_aggregated_curve(rules2, min, max, steps, input1, input2);
    assert forall|j: int| 0 <= j < curve1.len() implies curve1[j] == curve2[j] by {
        lemma_two_input_aggregate_order_independent(
            rules1,
            rules2,
            input1,
            input2,
            spec_universe_point(min, max, steps, j),
        );
    }
    assert(curve1 =~= curve2);
}

/// Two two-input controllers that hold the same rules (in any order)
/// over the same output range return the same output for every pair
/// of inputs.
pub proof fn lemma_two_input_controller_order_independent(
    c1: &TwoInputFuzzyController,
    c2: &TwoInputFuzzyController,
    input1: int,
    input2: int,
)
    requires
        c1.spec_rules().to_multiset() == c2.spec_rules().to_multiset(),
        c1.spec_output_range() == c2.spec_output_range(),
    ensures
        spec_two_input_controller_output(
            c1.spec_rules(),
            c1.spec_output_range().0 as int,
            c1.spec_output_range().1 as int,
            c1.spec_output_range().2 as int,
            input1,
            input2,
        ) == spec_two_input_controller_output(
            c2.spec_rules(),
            c2.spec_output_range().0 as int,
            c2.spec_output_range().1 as int,
            c2.spec_output_range().2 as int,
            input1,
            input2,
        ),
{
    lemma_two_input_controller_output_order_independent(
        c1.spec_rules(),
        c2.spec_rules(),
        c1.spec_output_range().0 as int,
        c1.spec_output_range().1 as int,
        c1.spec_output_range().2 as int,
        input1,
        input2,
    );
}

/// A fuzzy controller over two inputs, otherwise like
/// [`FuzzyController`].
pub struct TwoInputFuzzyController {
    rules: Vec<TwoInputFuzzyRule>,
    output_range: (i64, i64, usize),
}

impl TwoInputFuzzyController {
    /// The rules added so far, in insertion order.
    pub closed spec fn spec_rules(&self) -> Seq<TwoInputFuzzyRule> {
        self.rules@
    }

    /// The output range `(min, max, steps)` the controller was built
    /// with.
    pub closed spec fn spec_output_range(&self) -> (i64, i64, usize) {
        self.output_range
    }

    /// The bounds every controller keeps.
    pub open spec fn wf(&self) -> bool {
        &&& is_domain_value(self.spec_output_range().0 as int)
        &&& is_domain_value(self.spec_output_range().1 as int)
        &&& self.spec_output_range().2 <= STEPS_LIMIT
    }

    /// Whether evaluation must reject the output range.
    pub open spec fn spec_config_invalid(&self) -> bool {
        self.spec_output_range().2 == 0 || self.spec_output_range().1 <= self.spec_output_range().0
    }

    /// Create a new two-input fuzzy controller with the given output
    /// range.
    pub fn new(output_min: i64, output_max: i64, output_steps: usize) -> (r:
        TwoInputFuzzyController)
        requires
            is_domain_value(output_min as int),
            is_domain_value(output_max as int),
            output_steps <= STEPS_LIMIT,
        ensures
            r.spec_rules() == Seq::<TwoInputFuzzyRule>::empty(),
            r.spec_output_range() == (output_min, output_max, output_steps),
            r.wf(),
    {
        let r = TwoInputFuzzyController {
            rules: Vec::new(),
            output_range: (output_min, output_max, output_steps),
        };
        proof {
            assert(r.rules@ =~= Seq::<TwoInputFuzzyRule>::empty());
        }
        r
    }

    /// Add a rule to the controller.
    pub fn add_rule(&mut self, rule: TwoInputFuzzyRule)
        ensures
            final(self).spec_rules() == old(self).spec_rules().push(rule),
            final(self).spec_output_range() == old(self).spec_output_range(),
    {
        self.rules.push(rule);
    }

    /// Evaluate the controller for two given inputs, by Mamdani
    /// inference with centroid defuzzification.
    ///
    /// Fails with `FuzzyError::InvalidConfiguration` exactly when the
    /// output range has no steps or is empty.
    pub fn evaluate(&self, input1: i64, input2: i64) -> (r: Result<i64, FuzzyError>)
        requires
            self.wf(),
        ensures
            self.spec_config_invalid() <==> r is Err,
            r is Err ==> r == Result::<i64, FuzzyError>::Err(FuzzyError::InvalidConfiguration),
            r matches Ok(v) ==> v == spec_two_input_controller_output(
                self.spec_rules(),
                self.spec_output_range().0 as int,
                self.spec_output_range().1 as int,
                self.spec_output_range().2 as int,
                input1 as int,
                input2 as int,
            ),
    {
        let omin = self.output_range.0;
        let omax = self.output_range.1;
        let steps = self.output_range.2;
        if steps == 0 || omax <= omin {
            return Err(FuzzyError::InvalidConfiguration);
        }
        let ghost gmin = omin as int;
        let ghost gmax = omax as int;
        let ghost gsteps = steps as int;
        let output_values = build_universe(omin, omax, steps);
        let mut aggregated: Vec<i64> = Vec::new();
        let mut j: usize = 0;
        while j < steps
            invariant
                j <= steps,
                aggregated@.len() == j,
                forall|k: int| 0 <= k < j ==> aggregated@[k] == 0,
            decreases steps - j,
        {
            aggregated.push(0);
            j = j + 1;
        }
        let mut r_idx: usize = 0;
        while r_idx < self.rules.len()
            invariant
                r_idx <= self.rules@.len(),
                output_values@.len() == steps,
                aggregated@.len() == steps,
                0 < steps == gsteps,
                gmin == omin as int && gmax == omax as int,
                forall|k: int|
                    0 <= k < steps ==> output_values@[k] as int == spec_universe_point(
                        gmin,
                        gmax,
                        gsteps,
                        k,
                    ),
                forall|k: int|
                    0 <= k < steps ==> aggregated@[k] as int == spec_two_input_aggregate(
                        self.rules@.take(r_idx as int),
                        input1 as int,
                        input2 as int,
                        spec_universe_point(gmin, gmax, gsteps, k),
                    ),
            decreases self.rules@.len() - r_idx,
        {
            let rule = self.rules[r_idx];
            let mut j: usize = 0;
            while j < steps
                invariant
                    j <= steps,
                    r_idx < self.rules@.len(),
                    rule == self.rules@[r_idx as int],
                    output_values@.len() == steps,
                    aggregated@.len() == steps,
                    0 < steps == gsteps,
                    gmin == omin as int && gmax == omax as int,
                    forall|k: int|
                        0 <= k < steps ==> output_values@[k] as int == spec_universe_point(
                            gmin,
                            gmax,
                            gsteps,
                            k,
                        ),
                    forall|k: int|
                        j <= k < steps ==> aggregated@[k] as int == spec_two_input_aggregate(
                            self.rules@.take(r_idx as int),
                            input1 as int,
                            input2 as int,
                            spec_universe_point(gmin, gmax, gsteps, k),
                        ),
                    forall|k: int|
                        0 <= k < j ==> aggregated@[k] as int == spec_two_input_aggregate(
                            self.rules@.take(r_idx + 1),
                            input1 as int,
                            input2 as int,
                            spec_universe_point(gmin, gmax, gsteps, k),
                        ),
                decreases steps - j,
            {
                proof {
                    assert(self.rules@.take(r_idx + 1).drop_last() =~= self.rules@.take(
                        r_idx as int,
                    ));
                    assert(self.rules@.take(r_idx + 1).last() == self.rules@[r_idx as int]);
                    lemma_two_input_aggregate_properties(
                        self.rules@.take(r_idx as int),
                        input1 as int,
                        input2 as int,
                        spec_universe_point(gmin, gmax, gsteps, j as int),
                    );
                }
                let clipped = rule.apply(input1, input2, output_values[j]);
                let cur = aggregated[j];
                aggregated.set(j, fuzzy_union(cur, clipped));
                j = j + 1;
            }
            r_idx = r_idx + 1;
        }
        proof {
            assert(self.rules@.take(self.rules@.len() as int) =~= self.rules@);
            assert(as_ints(output_values@) =~= spec_universe(gmin, gmax, gsteps));
            assert(as_ints(aggregated@) =~= spec_two_input_aggregated_curve(
                self.rules@,
                gmin,
                gmax,
                gsteps,
                input1 as int,
                input2 as int,
            ));
            assert forall|k: int| 0 <= k < steps implies is_degree(
                as_ints(aggregated@)[k],
            ) by {
                lemma_two_input_aggregate_properties(
                    self.rules@,
                    input1 as int,
                    input2 as int,
                    spec_universe_point(gmin, gmax, gsteps, k),
                );
            }
        }
        centroid(&output_values, &aggregated)
    }
}

/// Build the discretized output range: `steps` points `min + j * (max
/// - min) / steps`.
fn build_universe(omin: i64, omax: i64, steps: usize) -> (r: Vec<i64>)
    requires
        is_domain_value(omin as int),
        is_domain_value(omax as int),
        omin < omax,
        0 < steps <= STEPS_LIMIT,
    ensures
        r@.len() == steps,
        forall|k: int|
            0 <= k < steps ==> r@[k] as int == spec_universe_point(
                omin as int,
                omax as int,
                steps as int,
                k,
            ),
        forall|k: int| 0 <= k < steps ==> is_domain_value(#[trigger] r@[k] as int),
{
    let mut r: Vec<i64> = Vec::new();
    let mut j: usize = 0;
    let width = (omax as i128) - (omin as i128);
    while j < steps
        invariant
            j <= steps,
            width == omax - omin,
            0 < width <= 2 * (DOMAIN_LIMIT as int),
            is_domain_value(omin as int),
            is_domain_value(omax as int),
            0 < steps <= STEPS_LIMIT,
            r@.len() == j,
            forall|k: int|
                0 <= k < j ==> r@[k] as int == spec_universe_point(
                    omin as int,
                    omax as int,
                    steps as int,
                    k,
                ),
            forall|k: int| 0 <= k < j ==> is_domain_value(#[trigger] r@[k] as int),
        decreases steps - j,
    {
        proof {
            assert((j as int) * (omax - omin) >= 0 && (j as int) * (omax - omin) <= (steps as int)
                * (omax - omin) && (j as int) * (omax - omin) <= 2000000000000000000int)
                by (nonlinear_arith)
                requires
                    0 <= j as int <= steps as int,
                    steps as int <= 1000000,
                    0 < omax - omin <= 2000000000000,
            ;
            vstd::arithmetic::div_mod::lemma_div_pos_is_pos(
                (j as int) * (omax - omin),
                steps as int,
            );
            vstd::arithmetic::div_mod::lemma_div_is_ordered(
                (j as int) * (omax - omin),
                (steps as int) * (omax - omin),
                steps as int,
            );
            vstd::arithmetic::div_mod::lemma_div_multiples_vanish(omax - omin, steps as int);
        }
        let offset = ((j as i128) * width) / (steps as i128);
        let point = ((omin as i128) + offset) as i64;
        r.push(point);
        j = j + 1;
    }
    r
}

} // verus!

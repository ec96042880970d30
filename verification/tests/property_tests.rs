//! Concrete checks of the library's general laws and edge cases:
//! operator algebra, cut containment, fallback policies, error
//! variants, rule-order independence, and two end-to-end controllers.

use fuzzy_logic::defuzzification::bisector;
use fuzzy_logic::defuzzification::centroid;
use fuzzy_logic::defuzzification::defuzzify;
use fuzzy_logic::defuzzification::largest_of_maximum;
use fuzzy_logic::defuzzification::mean_of_maximum;
use fuzzy_logic::defuzzification::smallest_of_maximum;
use fuzzy_logic::defuzzification::DefuzzificationMethod;
use fuzzy_logic::inference::FuzzyController;
use fuzzy_logic::inference::FuzzyRule;
use fuzzy_logic::inference::TwoInputFuzzyController;
use fuzzy_logic::inference::TwoInputFuzzyRule;
use fuzzy_logic::membership::MembershipFunction;
use fuzzy_logic::operations::algebraic_sum;
use fuzzy_logic::operations::alpha_cut;
use fuzzy_logic::operations::apply_operation;
use fuzzy_logic::operations::drastic_product;
use fuzzy_logic::operations::drastic_sum;
use fuzzy_logic::operations::fuzzy_intersection;
use fuzzy_logic::operations::fuzzy_union;
use fuzzy_logic::operations::strong_alpha_cut;
use fuzzy_logic::FuzzyError;
use fuzzy_logic::HALF;
use fuzzy_logic::ONE;

#[test]
fn test_union_intersection_algebra() {
    let samples = [0, 130_000, HALF, 680_000, ONE];
    for &a in &samples {
        for &b in &samples {
            // union is max, intersection is min
            assert_eq!(fuzzy_union(a, b), a.max(b));
            assert_eq!(fuzzy_intersection(a, b), a.min(b));
            // commutativity
            assert_eq!(fuzzy_union(a, b), fuzzy_union(b, a));
            assert_eq!(fuzzy_intersection(a, b), fuzzy_intersection(b, a));
            for &c in &samples {
                // associativity
                assert_eq!(
                    fuzzy_union(a, fuzzy_union(b, c)),
                    fuzzy_union(fuzzy_union(a, b), c)
                );
                assert_eq!(
                    fuzzy_intersection(a, fuzzy_intersection(b, c)),
                    fuzzy_intersection(fuzzy_intersection(a, b), c)
                );
            }
        }
        // idempotence
        assert_eq!(fuzzy_union(a, a), a);
        assert_eq!(fuzzy_intersection(a, a), a);
    }
}

#[test]
fn test_algebraic_sum_range() {
    let samples = [0, 270_000, HALF, 810_000, ONE];
    for &a in &samples {
        for &b in &samples {
            let s = algebraic_sum(a, b);
            assert!(s >= a.max(b), "algebraic sum dominates both arguments");
            assert!(s <= ONE, "algebraic sum stays a degree");
        }
    }
}

#[test]
fn test_drastic_operations() {
    assert_eq!(drastic_sum(0, 700_000), 700_000);
    assert_eq!(drastic_sum(300_000, 0), 300_000);
    assert_eq!(drastic_sum(300_000, 700_000), ONE);

    assert_eq!(drastic_product(ONE, 700_000), 700_000);
    assert_eq!(drastic_product(300_000, ONE), 300_000);
    assert_eq!(drastic_product(300_000, 700_000), 0);
}

#[test]
fn test_strong_cut_contained_in_cut() {
    let membership = vec![0, HALF, HALF, 900_000, ONE, 100_000];
    for &alpha in &[0, 100_000, HALF, 900_000, ONE] {
        let cut = alpha_cut(&membership, alpha);
        let strong = strong_alpha_cut(&membership, alpha);
        for idx in &strong {
            assert!(cut.contains(idx), "strong cut is a subset of the cut");
        }
    }
}

#[test]
fn test_length_mismatch_is_invalid_input() {
    let a = vec![0, ONE];
    let b = vec![0, ONE, HALF];

    assert_eq!(apply_operation(&a, &b, fuzzy_union), Err(FuzzyError::InvalidInput));
    assert_eq!(centroid(&a, &b), Err(FuzzyError::InvalidInput));
    assert_eq!(mean_of_maximum(&a, &b), Err(FuzzyError::InvalidInput));
    assert_eq!(smallest_of_maximum(&a, &b), Err(FuzzyError::InvalidInput));
    assert_eq!(largest_of_maximum(&a, &b), Err(FuzzyError::InvalidInput));
    assert_eq!(bisector(&a, &b), Err(FuzzyError::InvalidInput));
    assert_eq!(
        defuzzify(&a, &b, DefuzzificationMethod::Bisector),
        Err(FuzzyError::InvalidInput)
    );
}

#[test]
fn test_invalid_controller_configuration() {
    let cold = MembershipFunction::Triangular {
        a: 0,
        b: 0,
        c: 20 * ONE,
    };
    let low = MembershipFunction::Triangular {
        a: 0,
        b: 0,
        c: 50 * ONE,
    };

    // No steps.
    let mut no_steps = FuzzyController::new(0, 100 * ONE, 0);
    no_steps.add_rule(FuzzyRule::new(cold, low));
    assert_eq!(no_steps.evaluate(10 * ONE), Err(FuzzyError::InvalidConfiguration));

    // Empty output range.
    let empty_range = FuzzyController::new(100 * ONE, 100 * ONE, 100);
    assert_eq!(empty_range.evaluate(10 * ONE), Err(FuzzyError::InvalidConfiguration));

    let mut two_input = TwoInputFuzzyController::new(50 * ONE, 10 * ONE, 100);
    two_input.add_rule(TwoInputFuzzyRule::new(cold, cold, low));
    assert_eq!(
        two_input.evaluate(10 * ONE, 20 * ONE),
        Err(FuzzyError::InvalidConfiguration)
    );
}

#[test]
fn test_zero_curve_fallbacks_differ_by_method() {
    let x = vec![10 * ONE, 20 * ONE, 30 * ONE, 40 * ONE];
    let m = vec![0, 0, 0, 0];

    // Centroid, bisector and mean of maximum fall back to the domain
    // midpoint; smallest and largest of maximum keep an endpoint.
    assert_eq!(centroid(&x, &m).unwrap(), 25 * ONE);
    assert_eq!(bisector(&x, &m).unwrap(), 25 * ONE);
    assert_eq!(mean_of_maximum(&x, &m).unwrap(), 25 * ONE);
    assert_eq!(smallest_of_maximum(&x, &m).unwrap(), 10 * ONE);
    assert_eq!(largest_of_maximum(&x, &m).unwrap(), 40 * ONE);
}

#[test]
fn test_defuzzify_dispatches_every_method() {
    let x = vec![0, ONE, 2 * ONE, 3 * ONE, 4 * ONE];
    let m = vec![0, HALF, ONE, ONE, HALF];

    assert_eq!(
        defuzzify(&x, &m, DefuzzificationMethod::Centroid).unwrap(),
        centroid(&x, &m).unwrap()
    );
    assert_eq!(
        defuzzify(&x, &m, DefuzzificationMethod::MeanOfMaximum).unwrap(),
        2 * ONE + HALF
    );
    assert_eq!(
        defuzzify(&x, &m, DefuzzificationMethod::SmallestOfMaximum).unwrap(),
        2 * ONE
    );
    assert_eq!(
        defuzzify(&x, &m, DefuzzificationMethod::LargestOfMaximum).unwrap(),
        3 * ONE
    );
    assert_eq!(
        defuzzify(&x, &m, DefuzzificationMethod::Bisector).unwrap(),
        bisector(&x, &m).unwrap()
    );
}

#[test]
fn test_gaussian_zero_sigma_guard() {
    let mf = MembershipFunction::Gaussian {
        mean: 3 * ONE,
        sigma: 0,
    };
    assert_eq!(mf.evaluate(3 * ONE), ONE);
    assert_eq!(mf.evaluate(3 * ONE + 1), 0);
    assert_eq!(mf.evaluate(-7 * ONE), 0);
}

#[test]
fn test_gaussian_decays_from_mean() {
    let mf = MembershipFunction::Gaussian {
        mean: 5 * ONE,
        sigma: 2 * ONE,
    };
    let mut previous = mf.evaluate(5 * ONE);
    assert_eq!(previous, ONE);
    for step in 1..=8 {
        let right = mf.evaluate(5 * ONE + step * ONE);
        let left = mf.evaluate(5 * ONE - step * ONE);
        assert_eq!(left, right, "bell curve is symmetric");
        assert!(right <= previous, "bell curve decays away from the mean");
        previous = right;
    }
}

#[test]
fn test_sigmoid_directions() {
    // Rising for positive steepness...
    let rising = MembershipFunction::Sigmoid { a: 2 * ONE, c: 0 };
    assert!(rising.evaluate(3 * ONE) > HALF);
    assert!(rising.evaluate(-3 * ONE) < HALF);

    // ...falling for negative steepness.
    let falling = MembershipFunction::Sigmoid { a: -2 * ONE, c: 0 };
    assert!(falling.evaluate(3 * ONE) < HALF);
    assert!(falling.evaluate(-3 * ONE) > HALF);
}

#[test]
fn test_membership_degree_range_sampled() {
    let shapes = [
        MembershipFunction::Triangular {
            a: -5 * ONE,
            b: 0,
            c: 5 * ONE,
        },
        MembershipFunction::Trapezoidal {
            a: -5 * ONE,
            b: -ONE,
            c: ONE,
            d: 5 * ONE,
        },
        MembershipFunction::Gaussian { mean: 0, sigma: ONE },
        MembershipFunction::Sigmoid { a: -3 * ONE, c: ONE },
        // Degenerate shapes with collapsed ramps.
        MembershipFunction::Triangular { a: 0, b: 0, c: 0 },
        MembershipFunction::Trapezoidal {
            a: 0,
            b: 0,
            c: 0,
            d: 0,
        },
        MembershipFunction::Gaussian { mean: 0, sigma: 0 },
    ];
    for mf in &shapes {
        let mut x = -10 * ONE;
        while x <= 10 * ONE {
            let d = mf.evaluate(x);
            assert!(0 <= d && d <= ONE, "degree out of range for {}", mf.description());
            x += ONE / 4;
        }
    }
}

#[test]
fn test_description_renders_parameters() {
    let mf = MembershipFunction::Triangular {
        a: -ONE,
        b: 0,
        c: ONE,
    };
    assert_eq!(mf.description(), "Triangular(a=-1000000, b=0, c=1000000)");

    let mf = MembershipFunction::Gaussian {
        mean: 5 * ONE,
        sigma: 2 * ONE,
    };
    assert_eq!(mf.description(), "Gaussian(mean=5000000, sigma=2000000)");
}

#[test]
fn test_controller_rule_order_is_irrelevant() {
    let temp_sets = [
        MembershipFunction::Triangular {
            a: 0,
            b: 0,
            c: 20 * ONE,
        },
        MembershipFunction::Triangular {
            a: 10 * ONE,
            b: 25 * ONE,
            c: 40 * ONE,
        },
        MembershipFunction::Triangular {
            a: 30 * ONE,
            b: 40 * ONE,
            c: 40 * ONE,
        },
    ];
    let fan_sets = [
        MembershipFunction::Triangular {
            a: 0,
            b: 0,
            c: 50 * ONE,
        },
        MembershipFunction::Triangular {
            a: 25 * ONE,
            b: 50 * ONE,
            c: 75 * ONE,
        },
        MembershipFunction::Triangular {
            a: 50 * ONE,
            b: 100 * ONE,
            c: 100 * ONE,
        },
    ];

    let rules: Vec<FuzzyRule> = (0..3).map(|i| FuzzyRule::new(temp_sets[i], fan_sets[i])).collect();

    let mut forward = FuzzyController::new(0, 100 * ONE, 100);
    for rule in &rules {
        forward.add_rule(*rule);
    }
    let mut backward = FuzzyController::new(0, 100 * ONE, 100);
    for rule in rules.iter().rev() {
        backward.add_rule(*rule);
    }
    let mut rotated = FuzzyController::new(0, 100 * ONE, 100);
    for i in [1, 2, 0] {
        rotated.add_rule(rules[i]);
    }

    for input in [0, 5 * ONE, 15 * ONE, 22 * ONE, 33 * ONE, 40 * ONE] {
        let expected = forward.evaluate(input).unwrap();
        assert_eq!(backward.evaluate(input).unwrap(), expected);
        assert_eq!(rotated.evaluate(input).unwrap(), expected);
    }
}

fn fan_controller() -> TwoInputFuzzyController {
    // Temperature in [0, 40] degrees.
    let cold = MembershipFunction::Triangular {
        a: 0,
        b: 0,
        c: 20 * ONE,
    };
    let mild = MembershipFunction::Triangular {
        a: 10 * ONE,
        b: 20 * ONE,
        c: 30 * ONE,
    };
    let hot = MembershipFunction::Triangular {
        a: 20 * ONE,
        b: 40 * ONE,
        c: 40 * ONE,
    };
    // Relative humidity in [0, 100] percent.
    let dry = MembershipFunction::Triangular {
        a: 0,
        b: 0,
        c: 50 * ONE,
    };
    let humid = MembershipFunction::Triangular {
        a: 25 * ONE,
        b: 50 * ONE,
        c: 75 * ONE,
    };
    let damp = MembershipFunction::Triangular {
        a: 50 * ONE,
        b: 100 * ONE,
        c: 100 * ONE,
    };
    // Fan speed in [0, 100] percent.
    let slow = MembershipFunction::Triangular {
        a: 0,
        b: 0,
        c: 50 * ONE,
    };
    let medium = MembershipFunction::Triangular {
        a: 25 * ONE,
        b: 50 * ONE,
        c: 75 * ONE,
    };
    let fast = MembershipFunction::Triangular {
        a: 50 * ONE,
        b: 100 * ONE,
        c: 100 * ONE,
    };

    let mut controller = TwoInputFuzzyController::new(0, 100 * ONE, 100);
    controller.add_rule(TwoInputFuzzyRule::new(cold, dry, slow));
    controller.add_rule(TwoInputFuzzyRule::new(cold, humid, medium));
    controller.add_rule(TwoInputFuzzyRule::new(cold, damp, fast));
    controller.add_rule(TwoInputFuzzyRule::new(mild, dry, slow));
    controller.add_rule(TwoInputFuzzyRule::new(mild, humid, medium));
    controller.add_rule(TwoInputFuzzyRule::new(mild, damp, medium));
    controller.add_rule(TwoInputFuzzyRule::new(hot, dry, medium));
    controller.add_rule(TwoInputFuzzyRule::new(hot, humid, fast));
    controller.add_rule(TwoInputFuzzyRule::new(hot, damp, fast));
    controller
}

#[test]
fn test_fan_controller_cold_and_damp() {
    let controller = fan_controller();
    let fan = controller.evaluate(15 * ONE, 80 * ONE).unwrap();
    assert!(fan > 50 * ONE, "cold air at high humidity asks for a fast fan");
}

#[test]
fn test_tipping_controller_good_evening() {
    // Service and food quality in [0, 10]; tip in [0, 30] percent.
    let poor_service = MembershipFunction::Triangular {
        a: 0,
        b: 0,
        c: 5 * ONE,
    };
    let good_service = MembershipFunction::Triangular {
        a: 2 * ONE + HALF,
        b: 5 * ONE,
        c: 7 * ONE + HALF,
    };
    let excellent_service = MembershipFunction::Triangular {
        a: 5 * ONE,
        b: 10 * ONE,
        c: 10 * ONE,
    };
    let bad_food = MembershipFunction::Triangular {
        a: 0,
        b: 0,
        c: 5 * ONE,
    };
    let ok_food = MembershipFunction::Triangular {
        a: 2 * ONE + HALF,
        b: 5 * ONE,
        c: 7 * ONE + HALF,
    };
    let delicious_food = MembershipFunction::Triangular {
        a: 5 * ONE,
        b: 10 * ONE,
        c: 10 * ONE,
    };
    let low_tip = MembershipFunction::Triangular {
        a: 0,
        b: 0,
        c: 15 * ONE,
    };
    let medium_tip = MembershipFunction::Triangular {
        a: 7 * ONE + HALF,
        b: 15 * ONE,
        c: 22 * ONE + HALF,
    };
    let high_tip = MembershipFunction::Triangular {
        a: 15 * ONE,
        b: 30 * ONE,
        c: 30 * ONE,
    };

    let mut controller = TwoInputFuzzyController::new(0, 30 * ONE, 100);
    controller.add_rule(TwoInputFuzzyRule::new(poor_service, bad_food, low_tip));
    controller.add_rule(TwoInputFuzzyRule::new(poor_service, ok_food, low_tip));
    controller.add_rule(TwoInputFuzzyRule::new(poor_service, delicious_food, medium_tip));
    controller.add_rule(TwoInputFuzzyRule::new(good_service, bad_food, low_tip));
    controller.add_rule(TwoInputFuzzyRule::new(good_service, ok_food, medium_tip));
    controller.add_rule(TwoInputFuzzyRule::new(good_service, delicious_food, high_tip));
    controller.add_rule(TwoInputFuzzyRule::new(excellent_service, bad_food, medium_tip));
    controller.add_rule(TwoInputFuzzyRule::new(excellent_service, ok_food, high_tip));
    controller.add_rule(TwoInputFuzzyRule::new(excellent_service, delicious_food, high_tip));

    let tip = controller.evaluate(8 * ONE, 9 * ONE).unwrap();
    assert!(tip > 15 * ONE, "great service and food earn an above-average tip");
}

#[test]
fn test_two_input_rule_order_is_irrelevant() {
    let controller = fan_controller();

    // The same rule base added in reverse order.
    let mut reversed = TwoInputFuzzyController::new(0, 100 * ONE, 100);
    let cold = MembershipFunction::Triangular {
        a: 0,
        b: 0,
        c: 20 * ONE,
    };
    let mild = MembershipFunction::Triangular {
        a: 10 * ONE,
        b: 20 * ONE,
        c: 30 * ONE,
    };
    let hot = MembershipFunction::Triangular {
        a: 20 * ONE,
        b: 40 * ONE,
        c: 40 * ONE,
    };
    let dry = MembershipFunction::Triangular {
        a: 0,
        b: 0,
        c: 50 * ONE,
    };
    let humid = MembershipFunction::Triangular {
        a: 25 * ONE,
        b: 50 * ONE,
        c: 75 * ONE,
    };
    let damp = MembershipFunction::Triangular {
        a: 50 * ONE,
        b: 100 * ONE,
        c: 100 * ONE,
    };
    let slow = MembershipFunction::Triangular {
        a: 0,
        b: 0,
        c: 50 * ONE,
    };
    let medium = MembershipFunction::Triangular {
        a: 25 * ONE,
        b: 50 * ONE,
        c: 75 * ONE,
    };
    let fast = MembershipFunction::Triangular {
        a: 50 * ONE,
        b: 100 * ONE,
        c: 100 * ONE,
    };
    reversed.add_rule(TwoInputFuzzyRule::new(hot, damp, fast));
    reversed.add_rule(TwoInputFuzzyRule::new(hot, humid, fast));
    reversed.add_rule(TwoInputFuzzyRule::new(hot, dry, medium));
    reversed.add_rule(TwoInputFuzzyRule::new(mild, damp, medium));
    reversed.add_rule(TwoInputFuzzyRule::new(mild, humid, medium));
    reversed.add_rule(TwoInputFuzzyRule::new(mild, dry, slow));
    reversed.add_rule(TwoInputFuzzyRule::new(cold, damp, fast));
    reversed.add_rule(TwoInputFuzzyRule::new(cold, humid, medium));
    reversed.add_rule(TwoInputFuzzyRule::new(cold, dry, slow));

    for (t, h) in [(0, 0), (15, 80), (25, 40), (40, 100), (33, 66)] {
        assert_eq!(
            controller.evaluate(t * ONE, h * ONE).unwrap(),
            reversed.evaluate(t * ONE, h * ONE).unwrap()
        );
    }
}

#[test]
fn test_bisector_splits_area() {
    // An asymmetric curve: the bisector sits left of the peak.
    let x = vec![0, ONE, 2 * ONE, 3 * ONE, 4 * ONE, 5 * ONE];
    let m = vec![ONE, ONE, HALF, HALF, 0, 0];

    // Total 3.0; half rounds up to 1.5: reached at index 1.
    assert_eq!(bisector(&x, &m).unwrap(), ONE);
}

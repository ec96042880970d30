use fuzzy_logic::defuzzification::centroid;
use fuzzy_logic::defuzzification::largest_of_maximum;
use fuzzy_logic::defuzzification::mean_of_maximum;
use fuzzy_logic::defuzzification::smallest_of_maximum;
use fuzzy_logic::inference::FuzzyController;
use fuzzy_logic::inference::FuzzyRule;
use fuzzy_logic::membership::FuzzySet;
use fuzzy_logic::membership::MembershipFunction;
use fuzzy_logic::operations::algebraic_product;
use fuzzy_logic::operations::algebraic_sum;
use fuzzy_logic::operations::alpha_cut;
use fuzzy_logic::operations::bounded_difference;
use fuzzy_logic::operations::bounded_sum;
use fuzzy_logic::operations::fuzzy_complement;
use fuzzy_logic::operations::fuzzy_intersection;
use fuzzy_logic::operations::fuzzy_union;
use fuzzy_logic::operations::strong_alpha_cut;
use fuzzy_logic::HALF;
use fuzzy_logic::ONE;

#[test]
fn test_triangular_membership() {
    let mf = MembershipFunction::Triangular {
        a: 0,
        b: 5 * ONE,
        c: 10 * ONE,
    };

    // Test key points
    assert_eq!(mf.evaluate(0), 0, "Left foot should be 0");
    assert_eq!(mf.evaluate(5 * ONE), ONE, "Peak should be 1");
    assert_eq!(mf.evaluate(10 * ONE), 0, "Right foot should be 0");

    // Test slopes
    assert_eq!(mf.evaluate(2 * ONE + HALF), HALF, "Midpoint of left slope");
    assert_eq!(mf.evaluate(7 * ONE + HALF), HALF, "Midpoint of right slope");
}

#[test]
fn test_trapezoidal_membership() {
    let mf = MembershipFunction::Trapezoidal {
        a: 0,
        b: 2 * ONE,
        c: 8 * ONE,
        d: 10 * ONE,
    };

    assert_eq!(mf.evaluate(0), 0);
    assert_eq!(mf.evaluate(2 * ONE), ONE);
    assert_eq!(mf.evaluate(5 * ONE), ONE, "Should be 1 on plateau");
    assert_eq!(mf.evaluate(8 * ONE), ONE);
    assert_eq!(mf.evaluate(10 * ONE), 0);
}

#[test]
fn test_gaussian_membership() {
    let mf = MembershipFunction::Gaussian {
        mean: 5 * ONE,
        sigma: 2 * ONE,
    };

    assert_eq!(mf.evaluate(5 * ONE), ONE, "Should be 1 at mean");
    assert!(mf.evaluate(3 * ONE) > HALF, "Should be > 0.5 at mean-sigma");
    assert!(mf.evaluate(7 * ONE) > HALF, "Should be > 0.5 at mean+sigma");
    assert!(mf.evaluate(ONE) < 2 * ONE / 10, "Should be low far from mean");
}

#[test]
fn test_sigmoid_membership() {
    let mf = MembershipFunction::Sigmoid { a: ONE, c: 5 * ONE };

    assert_eq!(mf.evaluate(5 * ONE), HALF, "Should be 0.5 at center");
    assert!(mf.evaluate(10 * ONE) > 9 * ONE / 10, "Should approach 1");
    assert!(mf.evaluate(0) < ONE / 10, "Should approach 0");
}

#[test]
fn test_fuzzy_operations_basic() {
    let a = 700_000;
    let b = 500_000;

    assert_eq!(fuzzy_union(a, b), 700_000, "Union should be max");
    assert_eq!(fuzzy_intersection(a, b), 500_000, "Intersection should be min");
    assert_eq!(fuzzy_complement(a), 300_000, "Complement should be 1-a");
}

#[test]
fn test_algebraic_operations() {
    let a = 600_000;
    let b = 500_000;

    let product = algebraic_product(a, b);
    assert_eq!(product, 300_000, "Algebraic product");

    let sum = algebraic_sum(a, b);
    assert_eq!(sum, 800_000, "Algebraic sum");
}

#[test]
fn integration_tests_test_bounded_operations() {
    assert_eq!(bounded_sum(700_000, 500_000), ONE, "Bounded sum should cap at 1");
    assert_eq!(bounded_sum(300_000, 400_000), 700_000, "Bounded sum < 1");

    assert_eq!(bounded_difference(700_000, 500_000), 200_000, "Bounded difference");
    assert_eq!(bounded_difference(300_000, 400_000), 0, "Bounded difference floors at 0");
}

#[test]
fn test_alpha_cuts() {
    let membership = vec![200_000, 500_000, 800_000, 300_000, 900_000];

    let cut = alpha_cut(&membership, 500_000);
    assert_eq!(cut, vec![1, 2, 4], "Alpha cut at 0.5");

    let strong_cut = strong_alpha_cut(&membership, 500_000);
    assert_eq!(strong_cut, vec![2, 4], "Strong alpha cut at 0.5");
}

#[test]
fn test_centroid_defuzzification() {
    let x = vec![0, ONE, 2 * ONE, 3 * ONE, 4 * ONE];
    let m = vec![0, HALF, ONE, HALF, 0];

    let result = centroid(&x, &m).unwrap();
    assert_eq!(result, 2 * ONE, "Centroid should be at center");
}

#[test]
fn test_mean_of_maximum_defuzzification() {
    let x = vec![0, ONE, 2 * ONE, 3 * ONE, 4 * ONE];
    let m = vec![0, HALF, ONE, ONE, HALF];

    let result = mean_of_maximum(&x, &m).unwrap();
    assert_eq!(result, 2 * ONE + HALF, "MOM should be average of maxima");
}

#[test]
fn test_smallest_and_largest_of_maximum() {
    let x = vec![0, ONE, 2 * ONE, 3 * ONE, 4 * ONE];
    let m = vec![0, HALF, ONE, ONE, HALF];

    let som = smallest_of_maximum(&x, &m).unwrap();
    assert_eq!(som, 2 * ONE, "SOM should be first maximum");

    let lom = largest_of_maximum(&x, &m).unwrap();
    assert_eq!(lom, 3 * ONE, "LOM should be last maximum");
}

#[test]
fn test_fuzzy_set_creation() {
    let fuzzy_set = FuzzySet::new(
        "Temperature Cold",
        MembershipFunction::Triangular {
            a: 0,
            b: 0,
            c: 20 * ONE,
        },
    );

    assert_eq!(fuzzy_set.name, "Temperature Cold");
    assert_eq!(fuzzy_set.membership(0), ONE);
    assert_eq!(fuzzy_set.membership(10 * ONE), HALF);
    assert_eq!(fuzzy_set.membership(20 * ONE), 0);
}

#[test]
fn test_simple_fuzzy_controller() {
    let mut controller = FuzzyController::new(0, 100 * ONE, 100);

    // Create simple rules
    let cold = MembershipFunction::Triangular {
        a: 0,
        b: 0,
        c: 20 * ONE,
    };
    let hot = MembershipFunction::Triangular {
        a: 30 * ONE,
        b: 40 * ONE,
        c: 40 * ONE,
    };
    let low = MembershipFunction::Triangular {
        a: 0,
        b: 0,
        c: 50 * ONE,
    };
    let high = MembershipFunction::Triangular {
        a: 50 * ONE,
        b: 100 * ONE,
        c: 100 * ONE,
    };

    // Rule 1: IF cold THEN low
    controller.add_rule(FuzzyRule::new(cold, low));

    // Rule 2: IF hot THEN high
    controller.add_rule(FuzzyRule::new(hot, high));

    // Test
    let output_cold = controller.evaluate(10 * ONE).unwrap();
    let output_hot = controller.evaluate(35 * ONE).unwrap();

    assert!(output_cold < 50 * ONE, "Cold input should produce low output");
    assert!(output_hot > 50 * ONE, "Hot input should produce high output");
}

#[test]
fn test_multiple_membership_functions() {
    let mf_types = vec![
        MembershipFunction::Triangular {
            a: 0,
            b: 5 * ONE,
            c: 10 * ONE,
        },
        MembershipFunction::Trapezoidal {
            a: 0,
            b: 2 * ONE,
            c: 8 * ONE,
            d: 10 * ONE,
        },
        MembershipFunction::Gaussian {
            mean: 5 * ONE,
            sigma: 2 * ONE,
        },
        MembershipFunction::Sigmoid { a: ONE, c: 5 * ONE },
    ];

    // All should evaluate to valid membership degrees
    for mf in mf_types {
        let val = mf.evaluate(5 * ONE);
        assert!(val >= 0 && val <= ONE, "Membership should be in [0, 1]");
    }
}

#[test]
fn test_defuzzification_methods_consistency() {
    let x: Vec<i64> = (0..=100).map(|i| i * ONE).collect();
    let m: Vec<i64> = x
        .iter()
        .map(|&xi| {
            let mf = MembershipFunction::Triangular {
                a: 25 * ONE,
                b: 50 * ONE,
                c: 75 * ONE,
            };
            mf.evaluate(xi)
        })
        .collect();

    let c = centroid(&x, &m).unwrap();
    let mom = mean_of_maximum(&x, &m).unwrap();

    // For symmetric triangular, centroid and MOM should be close
    assert!((c - 50 * ONE).abs() < 5 * ONE, "Centroid near peak");
    assert_eq!(mom, 50 * ONE, "MOM at peak");
}

#[test]
fn test_controller_with_overlapping_rules() {
    let mut controller = FuzzyController::new(0, 100 * ONE, 100);

    // Overlapping membership functions
    let low = MembershipFunction::Triangular {
        a: 0,
        b: 0,
        c: 30 * ONE,
    };
    let medium = MembershipFunction::Triangular {
        a: 20 * ONE,
        b: 50 * ONE,
        c: 80 * ONE,
    };
    let high = MembershipFunction::Triangular {
        a: 70 * ONE,
        b: 100 * ONE,
        c: 100 * ONE,
    };

    let out_low = MembershipFunction::Triangular {
        a: 0,
        b: 0,
        c: 40 * ONE,
    };
    let out_medium = MembershipFunction::Triangular {
        a: 30 * ONE,
        b: 50 * ONE,
        c: 70 * ONE,
    };
    let out_high = MembershipFunction::Triangular {
        a: 60 * ONE,
        b: 100 * ONE,
        c: 100 * ONE,
    };

    controller.add_rule(FuzzyRule::new(low, out_low));
    controller.add_rule(FuzzyRule::new(medium, out_medium));
    controller.add_rule(FuzzyRule::new(high, out_high));

    // Test at overlap points - should produce smooth transitions
    let result_25 = controller.evaluate(25 * ONE).unwrap();
    let result_50 = controller.evaluate(50 * ONE).unwrap();
    let result_75 = controller.evaluate(75 * ONE).unwrap();

    assert!(result_25 < result_50, "Output should increase");
    assert!(result_50 < result_75, "Output should increase");
}

#[test]
fn test_edge_cases() {
    // Test with zero membership everywhere
    let x = vec![0, ONE, 2 * ONE, 3 * ONE];
    let m = vec![0, 0, 0, 0];

    let c = centroid(&x, &m);
    assert!(c.is_ok(), "Should handle zero membership");

    // Test with single point
    let x_single = vec![5 * ONE];
    let m_single = vec![ONE];
    let c_single = centroid(&x_single, &m_single).unwrap();
    assert_eq!(c_single, 5 * ONE, "Single point centroid");
}

use fuzzy_logic::defuzzification::bisector;
use fuzzy_logic::defuzzification::centroid;
use fuzzy_logic::defuzzification::defuzzify;
use fuzzy_logic::defuzzification::largest_of_maximum;
use fuzzy_logic::defuzzification::mean_of_maximum;
use fuzzy_logic::defuzzification::smallest_of_maximum;
use fuzzy_logic::defuzzification::DefuzzificationMethod;
use fuzzy_logic::ONE;

#[test]
fn test_centroid() {
    let x = vec![0, ONE, 2 * ONE, 3 * ONE, 4 * ONE];
    let m = vec![0, ONE / 2, ONE, ONE / 2, 0];

    let result = centroid(&x, &m).unwrap();
    assert_eq!(result, 2 * ONE);
}

#[test]
fn test_mean_of_maximum() {
    let x = vec![0, ONE, 2 * ONE, 3 * ONE, 4 * ONE];
    let m = vec![0, ONE / 2, ONE, ONE, ONE / 2];

    let result = mean_of_maximum(&x, &m).unwrap();
    assert_eq!(result, 2 * ONE + ONE / 2);
}

#[test]
fn test_smallest_of_maximum() {
    let x = vec![0, ONE, 2 * ONE, 3 * ONE, 4 * ONE];
    let m = vec![0, ONE / 2, ONE, ONE, ONE / 2];

    let result = smallest_of_maximum(&x, &m).unwrap();
    assert_eq!(result, 2 * ONE);
}

#[test]
fn test_largest_of_maximum() {
    let x = vec![0, ONE, 2 * ONE, 3 * ONE, 4 * ONE];
    let m = vec![0, ONE / 2, ONE, ONE, ONE / 2];

    let result = largest_of_maximum(&x, &m).unwrap();
    assert_eq!(result, 3 * ONE);
}

#[test]
fn test_bisector() {
    let x = vec![0, ONE, 2 * ONE, 3 * ONE, 4 * ONE];
    let m = vec![0, ONE / 2, ONE, ONE / 2, 0];

    let result = bisector(&x, &m).unwrap();
    // Should be close to center
    assert!((result - 2 * ONE).abs() < ONE);
}

#[test]
fn test_zero_membership() {
    let x = vec![0, ONE, 2 * ONE, 3 * ONE, 4 * ONE];
    let m = vec![0, 0, 0, 0, 0];

    // Should return midpoint
    let result = centroid(&x, &m).unwrap();
    assert_eq!(result, 2 * ONE);
}

#[test]
fn test_defuzzify_enum() {
    let x = vec![0, ONE, 2 * ONE, 3 * ONE, 4 * ONE];
    let m = vec![0, ONE / 2, ONE, ONE / 2, 0];

    let c = defuzzify(&x, &m, DefuzzificationMethod::Centroid).unwrap();
    let mom = defuzzify(&x, &m, DefuzzificationMethod::MeanOfMaximum).unwrap();

    assert_eq!(c, 2 * ONE);
    assert_eq!(mom, 2 * ONE);
}

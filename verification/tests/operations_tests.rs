use fuzzy_logic::operations::algebraic_product;
use fuzzy_logic::operations::algebraic_sum;
use fuzzy_logic::operations::alpha_cut;
use fuzzy_logic::operations::apply_operation;
use fuzzy_logic::operations::bounded_difference;
use fuzzy_logic::operations::bounded_sum;
use fuzzy_logic::operations::fuzzy_complement;
use fuzzy_logic::operations::fuzzy_intersection;
use fuzzy_logic::operations::fuzzy_union;
use fuzzy_logic::operations::strong_alpha_cut;
use fuzzy_logic::ONE;

#[test]
fn test_fuzzy_union() {
    assert_eq!(fuzzy_union(700_000, 500_000), 700_000);
    assert_eq!(fuzzy_union(300_000, 800_000), 800_000);
    assert_eq!(fuzzy_union(500_000, 500_000), 500_000);
}

#[test]
fn test_fuzzy_intersection() {
    assert_eq!(fuzzy_intersection(700_000, 500_000), 500_000);
    assert_eq!(fuzzy_intersection(300_000, 800_000), 300_000);
    assert_eq!(fuzzy_intersection(500_000, 500_000), 500_000);
}

#[test]
fn test_fuzzy_complement() {
    assert_eq!(fuzzy_complement(700_000), 300_000);
    assert_eq!(fuzzy_complement(0), ONE);
    assert_eq!(fuzzy_complement(ONE), 0);
}

#[test]
fn test_algebraic_product() {
    assert_eq!(algebraic_product(500_000, 500_000), 250_000);
    assert_eq!(algebraic_product(800_000, 500_000), 400_000);
}

#[test]
fn test_algebraic_sum() {
    assert_eq!(algebraic_sum(500_000, 500_000), 750_000);
    assert_eq!(algebraic_sum(300_000, 400_000), 580_000);
}

#[test]
fn operations_test_bounded_operations() {
    assert_eq!(bounded_sum(700_000, 500_000), ONE);
    assert_eq!(bounded_difference(700_000, 500_000), 200_000);
}

#[test]
fn test_apply_operation() {
    let a = vec![300_000, 500_000, 700_000];
    let b = vec![400_000, 600_000, 200_000];

    let union = apply_operation(&a, &b, fuzzy_union).unwrap();
    assert_eq!(union, vec![400_000, 600_000, 700_000]);

    let intersection = apply_operation(&a, &b, fuzzy_intersection).unwrap();
    assert_eq!(intersection, vec![300_000, 500_000, 200_000]);
}

#[test]
fn test_alpha_cut() {
    let membership = vec![200_000, 500_000, 800_000, 300_000, 900_000];
    let cut = alpha_cut(&membership, 500_000);
    assert_eq!(cut, vec![1, 2, 4]);

    let strong_cut = strong_alpha_cut(&membership, 500_000);
    assert_eq!(strong_cut, vec![2, 4]);
}

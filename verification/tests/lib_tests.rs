use fuzzy_logic::fuzzy_complement;
use fuzzy_logic::fuzzy_intersection;
use fuzzy_logic::fuzzy_union;
use fuzzy_logic::MembershipFunction;
use fuzzy_logic::HALF;
use fuzzy_logic::ONE;

#[test]
fn test_basic_membership() {
    let mf = MembershipFunction::Triangular {
        a: 0,
        b: 5 * ONE,
        c: 10 * ONE,
    };

    assert_eq!(mf.evaluate(5 * ONE), ONE);
    assert_eq!(mf.evaluate(0), 0);
    assert_eq!(mf.evaluate(10 * ONE), 0);
    assert_eq!(mf.evaluate(2 * ONE + HALF), HALF);
}

#[test]
fn test_fuzzy_operations() {
    let a = 700_000;
    let b = 500_000;

    assert_eq!(fuzzy_union(a, b), 700_000);
    assert_eq!(fuzzy_intersection(a, b), 500_000);
    assert_eq!(fuzzy_complement(a), 300_000);
}

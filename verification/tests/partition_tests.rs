use quantabeta::bigint::Int;
use quantabeta::partition::{
    complexity_invariant, partition_numbers, verify_ramanujan_congruence_5,
    verify_ramanujan_congruence_7,
};

#[test]
fn test_oeis_a000041() {
    let p = partition_numbers(20);
    let expected = [1, 1, 2, 3, 5, 7, 11, 15, 22, 30, 42, 56, 77, 101, 135, 176, 231, 297, 385, 490, 627];
    for (i, &e) in expected.iter().enumerate() {
        assert_eq!(p[i], Int::from_i64(e as i64), "p({}) mismatch", i);
    }
}

#[test]
fn test_ramanujan_congruence_5() {
    assert!(verify_ramanujan_congruence_5(10));
}

#[test]
fn test_ramanujan_congruence_7() {
    assert!(verify_ramanujan_congruence_7(5));
}

#[test]
fn partition_of_zero_is_one() {
    let p = partition_numbers(0);
    assert_eq!(p.len(), 1);
    assert_eq!(p[0], Int::from_i64(1));
}

#[test]
fn partition_of_one_hundred_is_exact() {
    // p(100) = 190569292 (Hardy and Ramanujan's check value).
    assert_eq!(complexity_invariant(100), Int::from_i64(190569292));
    assert_eq!(complexity_invariant(100).to_decimal(), "190569292");
}

#[test]
fn partition_beyond_sixty_four_bits() {
    // p(500) has 22 digits.
    let p = complexity_invariant(500);
    assert_eq!(p.to_decimal(), "2300165032574323995027");
}

use quantabeta::qseries::{q_integer, q_pochhammer, q_power, rogers_ramanujan_check};
use quantabeta::rational::Rat;

#[test]
fn test_q_integer_at_1() {
    let q = Rat::from_pair(1, 1);
    assert_eq!(q_integer(5, &q), Rat::from_pair(5, 1));
}

#[test]
fn test_q_pochhammer_n0() {
    let q = Rat::from_pair(1, 2);
    let a = Rat::from_pair(1, 1);
    assert_eq!(q_pochhammer(&a, &q, 0), Rat::from_pair(1, 1));
}

#[test]
fn test_rogers_ramanujan_small_q() {
    // q = 1/10 is small enough for rapid convergence
    let q = Rat::from_pair(1, 10);
    assert!(rogers_ramanujan_check(&q, 20));
}

#[test]
fn q_power_exact() {
    let q = Rat::from_pair(-2, 3);
    assert_eq!(q_power(&q, 3), Rat::from_pair(-8, 27));
    assert_eq!(q_power(&q, -2), Rat::from_pair(9, 4));
    assert_eq!(q_power(&q, 0), Rat::from_i64(1));
}

#[test]
fn q_integer_exact() {
    let q = Rat::from_pair(1, 2);
    assert_eq!(q_integer(3, &q), Rat::from_pair(21, 4));
    // q = -1: the denominator q - 1/q vanishes and the value is n
    assert_eq!(q_integer(4, &Rat::from_i64(-1)), Rat::from_i64(4));
}

#[test]
fn q_pochhammer_exact() {
    let q = Rat::from_pair(1, 2);
    assert_eq!(q_pochhammer(&q, &q, 3), Rat::from_pair(21, 64));
}

#[test]
fn rogers_ramanujan_fails_far_from_zero() {
    // at q = 9/10 the truncations are far apart
    assert!(!rogers_ramanujan_check(&Rat::from_pair(9, 10), 20));
}

#[test]
fn q_power_exponents_add() {
    let q = Rat::from_pair(-2, 3);
    for (a, b) in [(3i64, -5i64), (-4, 1), (2, 2), (-3, -1), (5, -5), (0, 4)] {
        let lhs = q_power(&q, a).mul(&q_power(&q, b));
        assert_eq!(lhs, q_power(&q, a + b));
    }
    assert_eq!(q_power(&q, 4).mul(&q_power(&q, -4)), Rat::from_i64(1));
}

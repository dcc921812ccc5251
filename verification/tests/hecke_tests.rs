use quantabeta::bigint::Int;
use quantabeta::hecke::{deligne_bound_holds, divisors, gcd, HeckeOperator, ModularForm};

#[test]
fn test_hecke_t2_identity() {
    // T_1 is the identity operator
    let coeffs: Vec<Int> = (0..10).map(Int::from_i64).collect();
    let f = ModularForm::new(1, 12, coeffs.clone());
    let t1 = HeckeOperator::new(1, 12);
    let result = t1.apply(&f, 10);
    for i in 0..10 {
        assert_eq!(result.coeffs[i], coeffs[i]);
    }
}

#[test]
fn test_deligne_bound() {
    // For weight 12, prime 2: |a_2| <= 2 * 2^5 = 64
    let a2 = Int::from_i64(24);
    assert!(deligne_bound_holds(&a2, 2, 12));
}

#[test]
fn deligne_bound_edges() {
    assert!(deligne_bound_holds(&Int::from_i64(-64), 2, 12));
    assert!(!deligne_bound_holds(&Int::from_i64(65), 2, 12));
    // tau(3) = 252 <= 2 * 3^5 = 486
    assert!(deligne_bound_holds(&Int::from_i64(252), 3, 12));
}

#[test]
fn hecke_t2_weight_12_exact() {
    let coeffs: Vec<Int> = (0..10).map(Int::from_i64).collect();
    let f = ModularForm::new(1, 12, coeffs);
    let r = HeckeOperator::new(2, 12).apply(&f, 10);
    let expected = [0i64, 2, 2052, 6, 4104, 0, 6144, 0, 8192, 0];
    assert_eq!(r.prec(), 10);
    for (m, &e) in expected.iter().enumerate() {
        assert_eq!(r.coeffs[m], Int::from_i64(e), "coefficient {}", m);
    }
    assert_eq!(r.weight, 12);
    assert_eq!(r.level, 1);
}

#[test]
fn identity_beyond_known_coefficients_is_zero() {
    let f = ModularForm::new(1, 12, vec![Int::from_i64(5), Int::from_i64(-3)]);
    let r = HeckeOperator::new(1, 12).apply(&f, 4);
    assert_eq!(r.coeffs, vec![Int::from_i64(5), Int::from_i64(-3), Int::from_i64(0), Int::from_i64(0)]);
}

#[test]
fn gcd_and_divisors() {
    assert_eq!(gcd(12, 18), 6);
    assert_eq!(gcd(0, 7), 7);
    assert_eq!(gcd(0, 0), 0);
    assert_eq!(divisors(36), vec![1, 36, 2, 18, 3, 12, 4, 9, 6]);
    assert_eq!(divisors(1), vec![1]);
    assert!(divisors(0).is_empty());
}

#[test]
fn coprime_hecke_operators_compose_to_their_product() {
    // a_i = i^2 - 7 i + 3 for i < 24: enough coefficients for T_6 up to 4 terms
    let coeffs: Vec<Int> = (0..24i64).map(|i| Int::from_i64(i * i - 7 * i + 3)).collect();
    let f = ModularForm::new(1, 4, coeffs);
    let g = HeckeOperator::new(3, 4).apply(&f, 8);
    let t2_t3 = HeckeOperator::new(2, 4).apply(&g, 4);
    let t6 = HeckeOperator::new(6, 4).apply(&f, 4);
    assert_eq!(t2_t3.coeffs, t6.coeffs);
    // the order of coprime operators does not matter either
    let h = HeckeOperator::new(2, 4).apply(&f, 12);
    let t3_t2 = HeckeOperator::new(3, 4).apply(&h, 4);
    assert_eq!(t3_t2.coeffs, t6.coeffs);
}

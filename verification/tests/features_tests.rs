use quantabeta::bigint::Int;
use quantabeta::features::{
    compute_partition_volatility, hecke_cross_correlation, partition_numbers, FeatureExpr,
    FeatureMeta, SymbolicFeature,
};
use quantabeta::rational::Rat;

#[test]
fn test_partition_numbers_known_values() {
    let p = partition_numbers(10);
    assert_eq!(p[0], Int::from_i64(1));
    assert_eq!(p[1], Int::from_i64(1));
    assert_eq!(p[2], Int::from_i64(2));
    assert_eq!(p[3], Int::from_i64(3));
    assert_eq!(p[4], Int::from_i64(5));
    assert_eq!(p[5], Int::from_i64(7));
    assert_eq!(p[10], Int::from_i64(42));
}

#[test]
fn test_partition_volatility_deterministic() {
    let r1 = vec![
        Rat::from_pair(1, 100),
        Rat::from_pair(2, 100),
        Rat::from_pair(3, 100),
        Rat::from_pair(4, 100),
    ];
    let v1 = compute_partition_volatility(&r1, 3);
    let v2 = compute_partition_volatility(&r1, 3);
    assert_eq!(v1, v2);
}

#[test]
fn partition_volatility_exact_values() {
    let r = vec![Rat::from_pair(1, 100), Rat::from_pair(2, 100), Rat::from_pair(3, 100), Rat::from_pair(4, 100)];
    // buckets 100, 200, 300, 400 mod 3 are all distinct: 3 * p(1) / p(3) = 1
    let v = compute_partition_volatility(&r, 3);
    assert_eq!(v, vec![Rat::from_i64(1), Rat::from_i64(1)]);
    // window 2 over equal returns: one bucket of 2, p(2)/p(2) = 1
    let same = vec![Rat::from_pair(1, 7), Rat::from_pair(1, 7), Rat::from_pair(1, 7)];
    let w = compute_partition_volatility(&same, 2);
    assert_eq!(w, vec![Rat::from_i64(1), Rat::from_i64(1)]);
    // floor(10000/7) = 1428 for every return, one bucket: p(3)/p(3)
    let w3 = compute_partition_volatility(&same, 3);
    assert_eq!(w3, vec![Rat::from_i64(1)]);
    // two returns in one bucket and one in another: (p(2) + p(1)) / p(3) = 3/3
    let mixed = vec![Rat::from_pair(1, 100), Rat::from_pair(4, 100), Rat::from_pair(2, 100)];
    assert_eq!(compute_partition_volatility(&mixed, 3), vec![Rat::from_i64(1)]);
    // window of 4 with buckets 0,0,0,1 (mod 4): (p(3) + p(1)) / p(4) = 4/5
    let four = vec![Rat::from_pair(4, 10000), Rat::from_pair(8, 10000), Rat::from_pair(12, 10000), Rat::from_pair(1, 10000)];
    assert_eq!(compute_partition_volatility(&four, 4), vec![Rat::from_pair(4, 5)]);
}

#[test]
fn partition_volatility_buckets_floor_the_scaled_return() {
    // floor(10000 * 1/30000) = 0, so all four returns share bucket 0: p(4)/p(4)
    let r = vec![Rat::from_pair(1, 30000), Rat::from_i64(0), Rat::from_i64(0), Rat::from_i64(0)];
    assert_eq!(compute_partition_volatility(&r, 4), vec![Rat::from_i64(1)]);
    // floor(10000 * |-3/20000|) = 1 and floor(10000 * 5/20000) = 2: buckets 1, 2, 0
    let s = vec![Rat::from_pair(-3, 20000), Rat::from_pair(5, 20000), Rat::from_i64(0)];
    // (p(1) + p(1) + p(1)) / p(3) = 3/3
    assert_eq!(compute_partition_volatility(&s, 3), vec![Rat::from_i64(1)]);
    // floor(10000 * 7/20000) = 3 = 0 mod 3 joins the zero return: (p(2) + p(1)) / p(3)
    let t = vec![Rat::from_pair(7, 20000), Rat::from_i64(0), Rat::from_pair(1, 10000)];
    assert_eq!(compute_partition_volatility(&t, 3), vec![Rat::from_i64(1)]);
    // two returns in one bucket out of four: (p(2) + p(1) + p(1)) / p(4) = 4/5
    let u = vec![Rat::from_pair(1, 10000), Rat::from_pair(3, 20000), Rat::from_pair(2, 10000), Rat::from_pair(3, 10000)];
    assert_eq!(compute_partition_volatility(&u, 4), vec![Rat::from_pair(4, 5)]);
}

#[test]
fn partition_volatility_short_input_is_empty() {
    let r = vec![Rat::from_pair(1, 2)];
    assert!(compute_partition_volatility(&r, 2).is_empty());
}

#[test]
fn hecke_cross_correlation_exact() {
    let a = vec![Rat::from_pair(1, 2), Rat::from_pair(1, 3), Rat::from_pair(1, 4), Rat::from_pair(1, 5)];
    let b = vec![Rat::from_i64(1), Rat::from_i64(2), Rat::from_i64(3)];
    assert_eq!(hecke_cross_correlation(&a, &b, 2), Rat::from_pair(1, 3));
    // level longer than the common length gives zero
    assert_eq!(hecke_cross_correlation(&a, &b, 4), Rat::from_i64(0));
    // level 0 reads a_0 everywhere: (1/2)(1 + 2 + 3) / 3 = 1
    assert_eq!(hecke_cross_correlation(&a, &b, 0), Rat::from_i64(1));
}

#[test]
fn feature_types_clone_and_compare() {
    let e = FeatureExpr::Compose(Box::new(FeatureExpr::LogReturn), Box::new(FeatureExpr::HeckeCorr { level: 11 }));
    let f = SymbolicFeature {
        expr: e.clone(),
        metadata: FeatureMeta { arity: 1, complexity: 2, algebraic_degree: 3 },
    };
    let g = f.clone();
    assert_eq!(g.expr, e);
    assert_ne!(g.expr, FeatureExpr::PartitionVol { window: 3 });
    assert_eq!(g.metadata.algebraic_degree, 3);
}

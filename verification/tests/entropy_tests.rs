use quantabeta::bigint::Int;
use quantabeta::entropy::shannon_entropy_symbolic;
use quantabeta::rational::Rat;

fn ints(v: &[i64]) -> Vec<Int> {
    v.iter().map(|&x| Int::from_i64(x)).collect()
}

#[test]
fn test_symbolic_terms_count() {
    // n distinct values -> n+1 symbolic terms (1 for log2(N) + n for c_i terms)
    let counts = ints(&[1, 2, 3]);
    let sym = shannon_entropy_symbolic(counts);
    assert_eq!(sym.len(), 4); // log2(6) + 3 terms
}

#[test]
fn symbolic_terms_exact() {
    let sym = shannon_entropy_symbolic(ints(&[1, 0, 3, -2]));
    assert_eq!(sym.len(), 3);
    assert_eq!(sym[0].coeff, Rat::from_i64(1));
    assert_eq!(sym[0].base, Int::from_i64(4));
    assert_eq!(sym[1].coeff, Rat::from_pair(-1, 4));
    assert_eq!(sym[1].base, Int::from_i64(1));
    assert_eq!(sym[2].coeff, Rat::from_pair(-3, 4));
    assert_eq!(sym[2].base, Int::from_i64(3));
}

#[test]
fn symbolic_terms_without_positive_counts() {
    assert!(shannon_entropy_symbolic(ints(&[0, -1])).is_empty());
    assert!(shannon_entropy_symbolic(Vec::new()).is_empty());
}

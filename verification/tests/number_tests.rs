use quantabeta::bigint::Int;
use quantabeta::bignat::Nat;
use quantabeta::digest::{sha256_hex, to_lower_hex};
use quantabeta::rational::Rat;

fn big(x: u64) -> Nat {
    Nat::from_u64(x)
}

fn text(n: &Nat) -> String {
    Int::from_nat(n.clone()).to_decimal()
}

#[test]
fn nat_arithmetic_across_limbs() {
    let a = big(u64::MAX);
    let b = big(3);
    let sum = a.add(&b);
    assert_eq!(text(&sum), "18446744073709551618");
    let prod = a.mul(&a);
    assert_eq!(text(&prod), "340282366920938463426481119284349108225");
    let (q, r) = prod.divrem(&big(1_000_000_007));
    assert_eq!(text(&q), "340282364538961911653747737708");
    assert_eq!(text(&r), "114944269");
    assert_eq!(prod.sub(&a.mul(&big(u64::MAX - 1))), a);
    assert!(b.lt(&a));
    assert!(!a.lt(&b));
    assert!(a.equals(&big(u64::MAX)));
    assert_eq!(text(&Nat::pow_u64(2, 100)), "1267650600228229401496703205376");
    assert_eq!(big(84).gcd(&big(36)), big(12));
    assert!(Nat::zero().is_zero());
    assert_eq!(big(0x1_2345_6789).low_u32(), 0x2345_6789);
}

#[test]
fn int_signs_and_truncation() {
    let a = Int::from_i64(-7);
    let b = Int::from_i64(2);
    assert_eq!(a.div_trunc(&b), Int::from_i64(-3));
    assert_eq!(Int::from_i64(7).div_trunc(&Int::from_i64(-2)), Int::from_i64(-3));
    assert_eq!(a.mul(&b), Int::from_i64(-14));
    assert_eq!(a.add(&Int::from_i64(7)), Int::zero());
    assert_eq!(a.sub(&b).to_decimal(), "-9");
    assert_eq!(Int::from_i64(i64::MIN).to_decimal(), "-9223372036854775808");
    assert!(a.lt(&b));
    assert!(a.is_negative());
    assert!(Int::from_i64(-12).divisible_by(&big(4)));
    assert!(!Int::from_i64(-13).divisible_by(&big(4)));
    assert_eq!(Int::pow_u64(10, 3), Int::from_i64(1000));
}

#[test]
fn rationals_are_canonical() {
    let r = Rat::from_pair(6, -4);
    assert_eq!(r.to_text(), "-3/2");
    assert_eq!(r.numer(), Int::from_i64(-3));
    assert_eq!(r.denom(), Int::from_i64(2));
    let s = Rat::from_pair(1, 6).add(&Rat::from_pair(1, 3));
    assert_eq!(s, Rat::from_pair(1, 2));
    assert_eq!(Rat::from_pair(2, 3).mul(&Rat::from_pair(3, 4)).to_text(), "1/2");
    assert_eq!(Rat::from_pair(1, 2).div(&Rat::from_pair(-1, 4)), Rat::from_i64(-2));
    assert_eq!(Rat::from_pair(1, 2).sub(&Rat::from_pair(1, 2)), Rat::zero());
    assert_eq!(Rat::from_i64(4).to_text(), "4");
    assert!(Rat::from_pair(1, 3).lt(&Rat::from_pair(1, 2)));
    assert!(Rat::from_pair(2, 4).equals(&Rat::from_pair(1, 2)));
    assert_eq!(Rat::from_pair(-5, 3).abs(), Rat::from_pair(5, 3));
}

#[test]
fn sha256_hex_known_digests() {
    assert_eq!(sha256_hex(""), "e3b0c44298fc1c149afbf4c8996fb92427ae41e4649b934ca495991b7852b855");
    assert_eq!(sha256_hex("abc"), "ba7816bf8f01cfea414140de5dae2223b00361a396177a9cb410ff61f20015ad");
    assert_eq!(to_lower_hex(&[0x0a, 0x14, 0x1e, 0xff]), "0a141eff");
    assert_eq!(sha256_hex(&"0123456789".repeat(40)).len(), 64);
}

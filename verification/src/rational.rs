//! Exact rationals in lowest terms with a positive denominator.

use vstd::prelude::*;
use crate::bignat::{Nat, gcd_spec, lemma_gcd_divides, lemma_divides_combo, lemma_gcd_scale, push_char};
use crate::bigint::{Int, abs_int, int_text};

verus! {

/// The common divisor by which a fraction is reduced.
pub open spec fn reduce_divisor(n: int, d: int) -> int {
    gcd_spec(abs_int(n), abs_int(d)) as int
}

/// `n / d` in lowest terms, for `d > 0`, as (numerator, denominator).
pub open spec fn reduce(n: int, d: int) -> (int, int) {
    (n / reduce_divisor(n, d), d / reduce_divisor(n, d))
}

/// The rational `x / 1`.
pub open spec fn rat_of_int(x: int) -> (int, int) {
    (x, 1)
}

/// `a / b` for `b != 0`, in lowest terms.
pub open spec fn rat_of_pair(a: int, b: int) -> (int, int) {
    if b > 0 {
        reduce(a, b)
    } else {
        reduce(-a, -b)
    }
}

pub open spec fn rat_add(a: (int, int), b: (int, int)) -> (int, int) {
    reduce(a.0 * b.1 + b.0 * a.1, a.1 * b.1)
}

pub open spec fn rat_sub(a: (int, int), b: (int, int)) -> (int, int) {
    reduce(a.0 * b.1 - b.0 * a.1, a.1 * b.1)
}

pub open spec fn rat_mul(a: (int, int), b: (int, int)) -> (int, int) {
    reduce(a.0 * b.0, a.1 * b.1)
}

/// `a / b` for `b` nonzero.
pub open spec fn rat_div(a: (int, int), b: (int, int)) -> (int, int) {
    rat_of_pair(a.0 * b.1, a.1 * b.0)
}

pub open spec fn rat_neg(a: (int, int)) -> (int, int) {
    (-a.0, a.1)
}

pub open spec fn rat_abs(a: (int, int)) -> (int, int) {
    (abs_int(a.0) as int, a.1)
}

/// `a < b` for positive denominators.
pub open spec fn rat_lt(a: (int, int), b: (int, int)) -> bool {
    a.0 * b.1 < b.0 * a.1
}

/// `a == b` as numbers, for positive denominators.
pub open spec fn rat_eq(a: (int, int), b: (int, int)) -> bool {
    a.0 * b.1 == b.0 * a.1
}

/// How a rational is written: `n` when the denominator is one, else `n/d`.
pub open spec fn rat_text(a: (int, int)) -> Seq<char> {
    if a.1 == 1 {
        int_text(a.0)
    } else {
        int_text(a.0) + seq!['/'] + int_text(a.1)
    }
}

/// A reduced fraction's denominator stays positive and its divisor divides both parts.
pub proof fn lemma_reduce(n: int, d: int)
    requires
        d > 0,
    ensures
        reduce_divisor(n, d) > 0,
        n % reduce_divisor(n, d) == 0,
        d % reduce_divisor(n, d) == 0,
        reduce(n, d).1 > 0,
        reduce(n, d).0 * reduce_divisor(n, d) == n,
        reduce(n, d).1 * reduce_divisor(n, d) == d,
{
    let g = reduce_divisor(n, d);
    lemma_gcd_divides(abs_int(n), abs_int(d));
    if n < 0 {
        lemma_divides_combo(-n, 0, -1, g);
        assert((-n) * -1 + 0 == n);
    }
    vstd::arithmetic::div_mod::lemma_fundamental_div_mod(n, g);
    vstd::arithmetic::div_mod::lemma_fundamental_div_mod(d, g);
    assert((d / g) * g == d) by (nonlinear_arith)
        requires
            d == g * (d / g),
    ;
    assert((n / g) * g == n) by (nonlinear_arith)
        requires
            n == g * (n / g),
    ;
    assert(d / g > 0) by (nonlinear_arith)
        requires
            (d / g) * g == d,
            d > 0,
            g > 0,
    ;
}

/// Reducing keeps the value: n' / d' == n / d.
pub proof fn law_reduce_same_value(n: int, d: int)
    requires
        d > 0,
    ensures
        reduce(n, d).0 * d == n * reduce(n, d).1,
{
    lemma_reduce(n, d);
    let g = reduce_divisor(n, d);
    let r = reduce(n, d);
    assert(r.0 * d == n * r.1) by (nonlinear_arith)
        requires
            r.0 * g == n,
            r.1 * g == d,
    ;
}

/// A reduced fraction is in lowest terms: its numerator and denominator are coprime.
pub proof fn law_reduce_lowest_terms(n: int, d: int)
    requires
        d > 0,
    ensures
        gcd_spec(abs_int(reduce(n, d).0), abs_int(reduce(n, d).1)) == 1,
{
    lemma_reduce(n, d);
    let g = reduce_divisor(n, d);
    let r = reduce(n, d);
    let a = abs_int(r.0);
    let b = abs_int(r.1);
    assert(g * a == abs_int(n)) by (nonlinear_arith)
        requires
            r.0 * g == n,
            g > 0,
            a == abs_int(r.0),
            abs_int(n) == (if n < 0 { -n } else { n }),
            a == (if r.0 < 0 { -r.0 } else { r.0 }),
    ;
    assert(g * b == abs_int(d)) by (nonlinear_arith)
        requires
            r.1 * g == d,
            r.1 > 0,
            d > 0,
            b == r.1,
    ;
    lemma_gcd_scale(g as nat, a, b);
    assert(g == g * gcd_spec(a, b));
    assert(gcd_spec(a, b) == 1) by (nonlinear_arith)
        requires
            g == g * gcd_spec(a, b),
            g > 0,
    ;
}

/// Every rational the library builds is in canonical form: a positive
/// denominator, numerator and denominator coprime.
pub proof fn law_rat_canonical(r: &Rat)
    requires
        r.wf(),
    ensures
        r@.1 > 0,
        gcd_spec(abs_int(r@.0), abs_int(r@.1)) == 1,
{
}

/// A pair in canonical form: positive denominator, coprime parts.
pub open spec fn canonical_rat(a: (int, int)) -> bool {
    a.1 > 0 && gcd_spec(abs_int(a.0), abs_int(a.1)) == 1
}

/// A common divisor of `a` and `b` divides their gcd.
pub proof fn lemma_common_divisor_divides_gcd(a: nat, b: nat, c: nat)
    requires
        c > 0,
        a % c == 0,
        b % c == 0,
    ensures
        gcd_spec(a, b) % c == 0,
    decreases b,
{
    if b > 0 {
        let ai = a as int;
        let bi = b as int;
        let q = ai / bi;
        vstd::arithmetic::div_mod::lemma_fundamental_div_mod(ai, bi);
        lemma_divides_combo(bi, ai, -q, c as int);
        assert(bi * (-q) + ai == ai % bi) by (nonlinear_arith)
            requires
                ai == bi * q + ai % bi,
        ;
        assert((a % b) as int == ai % bi);
        lemma_common_divisor_divides_gcd(b, a % b, c);
    }
}

/// Two canonical pairs of equal value are the same pair.
pub proof fn lemma_canonical_unique(x: (int, int), y: (int, int))
    requires
        canonical_rat(x),
        canonical_rat(y),
        x.0 * y.1 == y.0 * x.1,
    ensures
        x == y,
{
    let a = abs_int(x.0);
    let c = abs_int(y.0);
    let b = x.1 as nat;
    let e = y.1 as nat;
    assert(a * e == c * b) by (nonlinear_arith)
        requires
            x.0 * y.1 == y.0 * x.1,
            a == (if x.0 < 0 { -x.0 } else { x.0 }),
            c == (if y.0 < 0 { -y.0 } else { y.0 }),
            b == x.1,
            e == y.1,
            b > 0,
            e > 0,
    ;
    // b divides a * e and b * e, so it divides gcd(e a, e b) = e
    vstd::arithmetic::div_mod::lemma_mod_multiples_basic(c as int, b as int);
    vstd::arithmetic::div_mod::lemma_mod_multiples_basic(e as int, b as int);
    assert(a * e == e * a && b * e == e * b && c * b == b * c) by (nonlinear_arith);
    lemma_gcd_scale(e, a, b);
    assert(abs_int(x.1) == b);
    lemma_common_divisor_divides_gcd(e * a, e * b, b);
    assert(e % b == 0) by (nonlinear_arith)
        requires
            gcd_spec(e * a, e * b) == e * gcd_spec(a, b),
            gcd_spec(a, b) == 1,
            gcd_spec(e * a, e * b) % b == 0,
    ;
    // and symmetrically e divides b
    vstd::arithmetic::div_mod::lemma_mod_multiples_basic(a as int, e as int);
    vstd::arithmetic::div_mod::lemma_mod_multiples_basic(b as int, e as int);
    assert(a * e == e * a && b * e == e * b) by (nonlinear_arith);
    lemma_gcd_scale(b, c, e);
    assert(abs_int(y.1) == e);
    assert(c * b == b * c && e * b == b * e) by (nonlinear_arith);
    lemma_common_divisor_divides_gcd(b * c, b * e, e);
    assert(b % e == 0) by (nonlinear_arith)
        requires
            gcd_spec(b * c, b * e) == b * gcd_spec(c, e),
            gcd_spec(c, e) == 1,
            gcd_spec(b * c, b * e) % e == 0,
    ;
    vstd::arithmetic::div_mod::lemma_fundamental_div_mod(e as int, b as int);
    vstd::arithmetic::div_mod::lemma_fundamental_div_mod(b as int, e as int);
    assert(b == e) by (nonlinear_arith)
        requires
            b > 0,
            e > 0,
            e == b * (e / b) + e % b,
            b == e * (b / e) + b % e,
            e % b == 0,
            b % e == 0,
    ;
    assert(x.0 == y.0) by (nonlinear_arith)
        requires
            x.0 * y.1 == y.0 * x.1,
            x.1 == y.1,
            x.1 > 0,
    ;
}

/// A reduced fraction is canonical and has the value of the fraction.
pub proof fn lemma_reduce_canonical(n: int, d: int)
    requires
        d > 0,
    ensures
        canonical_rat(reduce(n, d)),
        reduce(n, d).0 * d == n * reduce(n, d).1,
{
    lemma_reduce(n, d);
    law_reduce_lowest_terms(n, d);
    law_reduce_same_value(n, d);
}

/// `a / b` for a nonzero `b` is canonical and has the value of the fraction.
pub proof fn lemma_rat_of_pair_canonical(a: int, b: int)
    requires
        b != 0,
    ensures
        canonical_rat(rat_of_pair(a, b)),
        rat_of_pair(a, b).0 * b == a * rat_of_pair(a, b).1,
{
    if b > 0 {
        lemma_reduce_canonical(a, b);
    } else {
        lemma_reduce_canonical(-a, -b);
        let r = rat_of_pair(a, b);
        assert(r.0 * b == a * r.1) by (nonlinear_arith)
            requires
                r.0 * (-b) == (-a) * r.1,
        ;
    }
}

/// A product of nonzero rationals is nonzero.
pub proof fn lemma_mul_nonzero(a: Rat, b: Rat)
    requires
        a.wf(),
        b.wf(),
        a@.0 != 0,
        b@.0 != 0,
    ensures
        rat_mul(a@, b@).0 != 0,
{
    let n = a@.0 * b@.0;
    let d = a@.1 * b@.1;
    assert(d > 0) by (nonlinear_arith)
        requires
            a@.1 > 0,
            b@.1 > 0,
            d == a@.1 * b@.1,
    ;
    assert(n != 0) by (nonlinear_arith)
        requires
            a@.0 != 0,
            b@.0 != 0,
            n == a@.0 * b@.0,
    ;
    lemma_reduce(n, d);
}

/// An exact rational number.
#[derive(Debug, PartialEq, Eq)]
pub struct Rat {
    num: Int,
    den: Int,
}

impl View for Rat {
    type V = (int, int);

    closed spec fn view(&self) -> (int, int) {
        (self.num@, self.den@)
    }
}

impl Clone for Rat {
    fn clone(&self) -> (r: Self)
        ensures
            r@ == self@,
            self.wf() ==> r.wf(),
    {
        Rat { num: self.num.clone(), den: self.den.clone() }
    }
}

impl Rat {
    /// Canonical parts, a positive denominator, and lowest terms.
    pub closed spec fn wf(&self) -> bool {
        &&& self.num.wf()
        &&& self.den.wf()
        &&& self.den@ > 0
        &&& gcd_spec(abs_int(self.num@), abs_int(self.den@)) == 1
    }

    /// `n / d` in lowest terms, for `d > 0`.
    pub fn reduced(n: &Int, d: &Int) -> (r: Rat)
        requires
            n.wf(),
            d.wf(),
            d@ > 0,
        ensures
            r@ == reduce(n@, d@),
            r.wf(),
    {
        let g = n.gcd(d);
        proof {
            lemma_reduce(n@, d@);
        }
        let num = n.div_exact(&g);
        let den = d.div_exact(&g);
        proof {
            law_reduce_lowest_terms(n@, d@);
        }
        Rat { num, den }
    }

    /// The integer `x` as a rational.
    pub fn from_int(x: Int) -> (r: Rat)
        requires
            x.wf(),
        ensures
            r@ == rat_of_int(x@),
            r.wf(),
    {
        proof {
            crate::bignat::lemma_gcd_one(abs_int(x@));
        }
        Rat { num: x, den: Int::from_u64(1) }
    }

    /// The integer `x` as a rational.
    pub fn from_i64(x: i64) -> (r: Rat)
        ensures
            r@ == rat_of_int(x as int),
            r.wf(),
    {
        Rat::from_int(Int::from_i64(x))
    }

    /// Zero.
    pub fn zero() -> (r: Rat)
        ensures
            r@ == rat_of_int(0),
            r.wf(),
    {
        Rat::from_int(Int::zero())
    }

    /// `a / b` in lowest terms, for `b != 0`.
    pub fn from_pair(a: i64, b: i64) -> (r: Rat)
        requires
            b != 0,
        ensures
            r@ == rat_of_pair(a as int, b as int),
            r.wf(),
    {
        let x = Int::from_i64(a);
        let y = Int::from_i64(b);
        Rat::from_ints(&x, &y)
    }

    /// `a / b` in lowest terms, for `b != 0`.
    pub fn from_ints(a: &Int, b: &Int) -> (r: Rat)
        requires
            a.wf(),
            b.wf(),
            b@ != 0,
        ensures
            r@ == rat_of_pair(a@, b@),
            r.wf(),
    {
        if b.is_positive() {
            Rat::reduced(a, b)
        } else {
            Rat::reduced(&a.neg(), &b.neg())
        }
    }

    /// The numerator.
    pub fn numer(&self) -> (r: Int)
        requires
            self.wf(),
        ensures
            r@ == self@.0,
            r.wf(),
    {
        self.num.clone()
    }

    /// The denominator.
    pub fn denom(&self) -> (r: Int)
        requires
            self.wf(),
        ensures
            r@ == self@.1,
            r.wf(),
    {
        self.den.clone()
    }

    /// `self + other`.
    pub fn add(&self, other: &Rat) -> (r: Rat)
        requires
            self.wf(),
            other.wf(),
        ensures
            r@ == rat_add(self@, other@),
            r.wf(),
    {
        let n = self.num.mul(&other.den).add(&other.num.mul(&self.den));
        let d = self.den.mul(&other.den);
        proof {
            assert(d@ > 0) by (nonlinear_arith)
                requires
                    d@ == self.den@ * other.den@,
                    self.den@ > 0,
                    other.den@ > 0,
            ;
        }
        Rat::reduced(&n, &d)
    }

    /// `self - other`.
    pub fn sub(&self, other: &Rat) -> (r: Rat)
        requires
            self.wf(),
            other.wf(),
        ensures
            r@ == rat_sub(self@, other@),
            r.wf(),
    {
        let n = self.num.mul(&other.den).sub(&other.num.mul(&self.den));
        let d = self.den.mul(&other.den);
        proof {
            assert(d@ > 0) by (nonlinear_arith)
                requires
                    d@ == self.den@ * other.den@,
                    self.den@ > 0,
                    other.den@ > 0,
            ;
        }
        Rat::reduced(&n, &d)
    }

    /// `self * other`.
    pub fn mul(&self, other: &Rat) -> (r: Rat)
        requires
            self.wf(),
            other.wf(),
        ensures
            r@ == rat_mul(self@, other@),
            r.wf(),
    {
        let n = self.num.mul(&other.num);
        let d = self.den.mul(&other.den);
        proof {
            assert(d@ > 0) by (nonlinear_arith)
                requires
                    d@ == self.den@ * other.den@,
                    self.den@ > 0,
                    other.den@ > 0,
            ;
        }
        Rat::reduced(&n, &d)
    }

    /// `self / other`, for a nonzero `other`.
    pub fn div(&self, other: &Rat) -> (r: Rat)
        requires
            self.wf(),
            other.wf(),
            other@.0 != 0,
        ensures
            r@ == rat_div(self@, other@),
            r.wf(),
    {
        let n = self.num.mul(&other.den);
        let d = self.den.mul(&other.num);
        proof {
            assert(d@ != 0) by (nonlinear_arith)
                requires
                    d@ == self.den@ * other.num@,
                    self.den@ > 0,
                    other.num@ != 0,
            ;
        }
        Rat::from_ints(&n, &d)
    }

    /// `-self`.
    pub fn neg(&self) -> (r: Rat)
        requires
            self.wf(),
        ensures
            r@ == rat_neg(self@),
            r.wf(),
    {
        Rat { num: self.num.neg(), den: self.den.clone() }
    }

    /// `|self|`.
    pub fn abs(&self) -> (r: Rat)
        requires
            self.wf(),
        ensures
            r@ == rat_abs(self@),
            r.wf(),
    {
        Rat { num: self.num.abs(), den: self.den.clone() }
    }

    /// Whether the number is zero.
    pub fn is_zero(&self) -> (b: bool)
        ensures
            b == (self@.0 == 0),
    {
        self.num.is_zero()
    }

    /// `self < other`.
    pub fn lt(&self, other: &Rat) -> (b: bool)
        requires
            self.wf(),
            other.wf(),
        ensures
            b == rat_lt(self@, other@),
    {
        self.num.mul(&other.den).lt(&other.num.mul(&self.den))
    }

    /// `self <= other`.
    pub fn le(&self, other: &Rat) -> (b: bool)
        requires
            self.wf(),
            other.wf(),
        ensures
            b == !rat_lt(other@, self@),
    {
        !other.lt(self)
    }

    /// `self == other` as numbers.
    pub fn equals(&self, other: &Rat) -> (b: bool)
        requires
            self.wf(),
            other.wf(),
        ensures
            b == rat_eq(self@, other@),
    {
        self.num.mul(&other.den).equals(&other.num.mul(&self.den))
    }

    /// The text of `self`: `n` for a whole number, else `n/d`.
    pub fn to_text(&self) -> (r: String)
        requires
            self.wf(),
        ensures
            r@ == rat_text(self@),
    {
        let mut s = String::new();
        self.num.write_decimal(&mut s);
        let one = Int::from_u64(1);
        if !self.den.equals(&one) {
            push_char(&mut s, '/');
            self.den.write_decimal(&mut s);
        }
        proof {
            assert(s@ =~= rat_text(self@));
        }
        s
    }
}

} // verus!

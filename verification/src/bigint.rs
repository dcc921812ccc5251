//! Arbitrary-precision signed integers in sign-magnitude form.

use vstd::prelude::*;
use crate::bignat::{Nat, dec_digits, gcd_spec, nat_pow, push_char, lemma_divides_combo};

verus! {

/// Absolute value.
pub open spec fn abs_int(x: int) -> nat {
    if x < 0 {
        (-x) as nat
    } else {
        x as nat
    }
}

/// Division rounding toward zero.
pub open spec fn trunc_div(a: int, b: int) -> int {
    if (a < 0) == (b < 0) {
        (abs_int(a) / abs_int(b)) as int
    } else {
        -((abs_int(a) / abs_int(b)) as int)
    }
}

/// Decimal representation with a leading minus sign for negative numbers.
pub open spec fn int_text(x: int) -> Seq<char> {
    if x < 0 {
        seq!['-'] + dec_digits(abs_int(x))
    } else {
        dec_digits(abs_int(x))
    }
}

/// An arbitrary-precision integer.
#[derive(Debug, PartialEq, Eq)]
pub struct Int {
    neg: bool,
    mag: Nat,
}

impl View for Int {
    type V = int;

    closed spec fn view(&self) -> int {
        if self.neg {
            -(self.mag@ as int)
        } else {
            self.mag@ as int
        }
    }
}

impl Clone for Int {
    fn clone(&self) -> (r: Self)
        ensures
            r@ == self@,
            self.wf() ==> r.wf(),
    {
        Int { neg: self.neg, mag: self.mag.clone() }
    }
}

impl Int {
    /// Canonical form: canonical magnitude and no negative zero.
    pub closed spec fn wf(&self) -> bool {
        &&& self.mag.wf()
        &&& (self.mag@ == 0 ==> !self.neg)
    }

    /// The integer with the given sign and magnitude; zero is never negative.
    fn signed(neg: bool, mag: Nat) -> (r: Int)
        requires
            mag.wf(),
        ensures
            r@ == (if neg { -(mag@ as int) } else { mag@ as int }),
            r.wf(),
    {
        let z = mag.is_zero();
        Int { neg: neg && !z, mag }
    }

    /// A non-negative integer of the given magnitude.
    pub fn from_nat(mag: Nat) -> (r: Int)
        requires
            mag.wf(),
        ensures
            r@ == mag@,
            r.wf(),
    {
        Int { neg: false, mag }
    }

    /// Zero.
    pub fn zero() -> (r: Int)
        ensures
            r@ == 0,
            r.wf(),
    {
        Int { neg: false, mag: Nat::zero() }
    }

    /// The integer `x`.
    pub fn from_u64(x: u64) -> (r: Int)
        ensures
            r@ == x,
            r.wf(),
    {
        Int { neg: false, mag: Nat::from_u64(x) }
    }

    /// The integer `x`.
    pub fn from_i64(x: i64) -> (r: Int)
        ensures
            r@ == x,
            r.wf(),
    {
        if x < 0 {
            let m: u64 = if x == i64::MIN {
                0x8000_0000_0000_0000
            } else {
                (-x) as u64
            };
            Int::signed(true, Nat::from_u64(m))
        } else {
            Int { neg: false, mag: Nat::from_u64(x as u64) }
        }
    }

    /// The absolute value as a natural number.
    pub fn magnitude(&self) -> (r: Nat)
        ensures
            r@ == abs_int(self@),
            self.wf() ==> r.wf(),
    {
        self.mag.clone()
    }

    /// Whether the integer is zero.
    pub fn is_zero(&self) -> (b: bool)
        ensures
            b == (self@ == 0),
    {
        self.mag.is_zero()
    }

    /// Whether the integer is negative.
    pub fn is_negative(&self) -> (b: bool)
        ensures
            b == (self@ < 0),
    {
        self.neg && !self.mag.is_zero()
    }

    /// Whether the integer is positive.
    pub fn is_positive(&self) -> (b: bool)
        ensures
            b == (self@ > 0),
    {
        !self.neg && !self.mag.is_zero()
    }

    /// `-self`.
    pub fn neg(&self) -> (r: Int)
        requires
            self.wf(),
        ensures
            r@ == -self@,
            r.wf(),
    {
        Int::signed(!self.neg, self.mag.clone())
    }

    /// `|self|`.
    pub fn abs(&self) -> (r: Int)
        requires
            self.wf(),
        ensures
            r@ == abs_int(self@),
            r.wf(),
    {
        Int { neg: false, mag: self.mag.clone() }
    }

    /// `self + other`.
    pub fn add(&self, other: &Int) -> (r: Int)
        requires
            self.wf(),
            other.wf(),
        ensures
            r@ == self@ + other@,
            r.wf(),
    {
        if self.neg == other.neg {
            Int::signed(self.neg, self.mag.add(&other.mag))
        } else if self.mag.lt(&other.mag) {
            Int::signed(other.neg, other.mag.sub(&self.mag))
        } else {
            Int::signed(self.neg, self.mag.sub(&other.mag))
        }
    }

    /// `self - other`.
    pub fn sub(&self, other: &Int) -> (r: Int)
        requires
            self.wf(),
            other.wf(),
        ensures
            r@ == self@ - other@,
            r.wf(),
    {
        self.add(&other.neg())
    }

    /// `self * other`.
    pub fn mul(&self, other: &Int) -> (r: Int)
        requires
            self.wf(),
            other.wf(),
        ensures
            r@ == self@ * other@,
            r.wf(),
    {
        let m = self.mag.mul(&other.mag);
        proof {
            let a = self.mag@ as int;
            let b = other.mag@ as int;
            assert((-a) * b == -(a * b)) by (nonlinear_arith);
            assert(a * (-b) == -(a * b)) by (nonlinear_arith);
            assert((-a) * (-b) == a * b) by (nonlinear_arith);
        }
        Int::signed(self.neg != other.neg, m)
    }

    /// `self < other`.
    pub fn lt(&self, other: &Int) -> (b: bool)
        requires
            self.wf(),
            other.wf(),
        ensures
            b == (self@ < other@),
    {
        let d = other.sub(self);
        d.is_positive()
    }

    /// `self <= other`.
    pub fn le(&self, other: &Int) -> (b: bool)
        requires
            self.wf(),
            other.wf(),
        ensures
            b == (self@ <= other@),
    {
        !other.lt(self)
    }

    /// `self == other`, by value.
    pub fn equals(&self, other: &Int) -> (b: bool)
        requires
            self.wf(),
            other.wf(),
        ensures
            b == (self@ == other@),
    {
        let d = other.sub(self);
        d.is_zero()
    }

    /// Quotient rounded toward zero, for a nonzero divisor.
    pub fn div_trunc(&self, d: &Int) -> (r: Int)
        requires
            self.wf(),
            d.wf(),
            d@ != 0,
        ensures
            r@ == trunc_div(self@, d@),
            r.wf(),
    {
        let (q, _) = self.mag.divrem(&d.mag);
        Int::signed(self.neg != d.neg, q)
    }

    /// Exact quotient by a positive divisor of `self`.
    pub fn div_exact(&self, g: &Nat) -> (r: Int)
        requires
            self.wf(),
            g.wf(),
            g@ > 0,
            self@ % (g@ as int) == 0,
        ensures
            r@ * (g@ as int) == self@,
            r@ == self@ / (g@ as int),
            r.wf(),
    {
        let (q, rem) = self.mag.divrem(g);
        proof {
            let a = self.mag@ as int;
            let gg = g@ as int;
            vstd::arithmetic::div_mod::lemma_fundamental_div_mod(a, gg);
            if self.neg {
                vstd::arithmetic::div_mod::lemma_fundamental_div_mod(-a, gg);
                assert((-a) % gg == 0);
                assert(-a == gg * ((-a) / gg));
                assert(a == gg * (a / gg) + a % gg);
                assert(a % gg == 0) by {
                    vstd::arithmetic::div_mod::lemma_mod_multiples_basic(-((-a) / gg), gg);
                    assert(a == (-((-a) / gg)) * gg) by (nonlinear_arith)
                        requires
                            -a == gg * ((-a) / gg),
                    ;
                }
                assert((-(q@ as int)) * gg == -a) by (nonlinear_arith)
                    requires
                        a == gg * (q@ as int),
                ;
                vstd::arithmetic::div_mod::lemma_div_multiples_vanish(-(q@ as int), gg);
                assert(gg * (-(q@ as int)) == -a) by (nonlinear_arith)
                    requires
                        a == gg * (q@ as int),
                ;
            } else {
                assert((q@ as int) * gg == a) by (nonlinear_arith)
                    requires
                        a == gg * (q@ as int),
                ;
            }
        }
        Int::signed(self.neg, q)
    }

    /// Whether `m` divides `self`, for `m > 0`.
    pub fn divisible_by(&self, m: &Nat) -> (b: bool)
        requires
            m@ > 0,
        ensures
            b == (self@ % (m@ as int) == 0),
    {
        let (_, r) = self.mag.divrem(m);
        proof {
            let a = self.mag@ as int;
            let mm = m@ as int;
            if a % mm == 0 {
                lemma_divides_combo(a, 0, -1, mm);
                assert(a * -1 + 0 == -a);
            }
            if (-a) % mm == 0 {
                lemma_divides_combo(-a, 0, -1, mm);
                assert((-a) * -1 + 0 == a);
            }
        }
        r.is_zero()
    }

    /// Greatest common divisor of the absolute values.
    pub fn gcd(&self, other: &Int) -> (r: Nat)
        ensures
            r@ == gcd_spec(abs_int(self@), abs_int(other@)),
            r.wf(),
    {
        self.mag.gcd(&other.mag)
    }

    /// `base` raised to `exp`.
    pub fn pow_u64(base: u64, exp: u32) -> (r: Int)
        ensures
            r@ == nat_pow(base as nat, exp as nat),
            r.wf(),
    {
        Int { neg: false, mag: Nat::pow_u64(base, exp) }
    }

    /// Appends the decimal text of `self` to `s`.
    pub fn write_decimal(&self, s: &mut String)
        requires
            self.wf(),
        ensures
            final(s)@ == old(s)@ + int_text(self@),
    {
        if self.neg {
            push_char(s, '-');
        }
        self.mag.write_decimal(s);
        proof {
            assert(s@ =~= old(s)@ + int_text(self@));
        }
    }

    /// The decimal text of `self`.
    pub fn to_decimal(&self) -> (r: String)
        requires
            self.wf(),
        ensures
            r@ == int_text(self@),
    {
        let mut s = String::new();
        self.write_decimal(&mut s);
        proof {
            assert(s@ =~= int_text(self@));
        }
        s
    }
}

} // verus!

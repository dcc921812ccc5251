//! Arbitrary-precision natural numbers, little-endian in base 2^32.

use vstd::prelude::*;

verus! {

/// The radix of a limb.
pub open spec fn base() -> nat {
    0x1_0000_0000
}

/// `base()` raised to `n`.
pub open spec fn base_pow(n: nat) -> nat
    decreases n,
{
    if n == 0 {
        1
    } else {
        base() * base_pow((n - 1) as nat)
    }
}

/// The number that a little-endian limb sequence stands for.
pub open spec fn limbs_val(s: Seq<u32>) -> nat
    decreases s.len(),
{
    if s.len() == 0 {
        0
    } else {
        s[0] as nat + base() * limbs_val(s.drop_first())
    }
}

/// No most-significant zero limb.
pub open spec fn canonical(s: Seq<u32>) -> bool {
    s.len() == 0 || s.last() != 0
}

pub proof fn lemma_base_pow_pos(n: nat)
    ensures
        base_pow(n) > 0,
    decreases n,
{
    if n > 0 {
        lemma_base_pow_pos((n - 1) as nat);
        assert(base() * base_pow((n - 1) as nat) > 0) by (nonlinear_arith)
            requires
                base_pow((n - 1) as nat) > 0,
                base() > 0,
        ;
    }
}

/// Appending a limb at the top adds it at weight `base_pow(len)`.
pub proof fn lemma_val_push(s: Seq<u32>, x: u32)
    ensures
        limbs_val(s.push(x)) == limbs_val(s) + x * base_pow(s.len()),
    decreases s.len(),
{
    if s.len() == 0 {
        assert(s.push(x).drop_first() =~= Seq::<u32>::empty());
        assert(limbs_val(Seq::<u32>::empty()) == 0);
        assert(s.push(x)[0] == x);
        assert(base_pow(0) == 1);
        assert(x * base_pow(s.len()) == x);
    } else {
        let rest = s.drop_first();
        assert(s.push(x).drop_first() =~= rest.push(x));
        lemma_val_push(rest, x);
        let v = limbs_val(rest);
        let p = base_pow(rest.len());
        assert(base_pow(s.len()) == base() * p);
        assert(base() * (v + x * p) == base() * v + x * (base() * p)) by (nonlinear_arith);
        assert(s.push(x)[0] == s[0]);
        assert(limbs_val(s.push(x)) == s[0] + base() * limbs_val(rest.push(x)));
    }
}

/// A limb sequence stands for less than `base_pow(len)`.
pub proof fn lemma_val_bound(s: Seq<u32>)
    ensures
        limbs_val(s) < base_pow(s.len()),
    decreases s.len(),
{
    if s.len() > 0 {
        let rest = s.drop_first();
        lemma_val_bound(rest);
        let v = limbs_val(rest);
        let p = base_pow(rest.len());
        assert(s[0] + base() * v < base() * p) by (nonlinear_arith)
            requires
                v < p,
                s[0] < base(),
        ;
    }
}

/// The value is zero exactly when every limb is zero.
pub proof fn lemma_val_zero(s: Seq<u32>)
    ensures
        limbs_val(s) == 0 <==> (forall|i: int| 0 <= i < s.len() ==> s[i] == 0),
    decreases s.len(),
{
    if s.len() > 0 {
        let rest = s.drop_first();
        lemma_val_zero(rest);
        if limbs_val(s) == 0 {
            assert(limbs_val(rest) == 0) by (nonlinear_arith)
                requires
                    s[0] + base() * limbs_val(rest) == 0,
            ;
            assert forall|i: int| 0 <= i < s.len() implies s[i] == 0 by {
                if i > 0 {
                    assert(s[i] == rest[i - 1]);
                }
            }
        }
        if forall|i: int| 0 <= i < s.len() ==> s[i] == 0 {
            assert forall|i: int| 0 <= i < rest.len() implies rest[i] == 0 by {
                assert(rest[i] == s[i + 1]);
            }
            assert(s[0] == 0);
        }
    }
}

/// The lowest limb is the value modulo the base.
pub proof fn lemma_val_low(s: Seq<u32>)
    requires
        s.len() > 0,
    ensures
        limbs_val(s) % base() == s[0] as nat,
        limbs_val(s) / base() == limbs_val(s.drop_first()),
{
    let v = limbs_val(s.drop_first());
    vstd::arithmetic::div_mod::lemma_fundamental_div_mod_converse(
        limbs_val(s) as int,
        base() as int,
        v as int,
        s[0] as int,
    );
}

/// Appending zero limbs keeps the value.
pub proof fn lemma_val_push_zero(s: Seq<u32>)
    ensures
        limbs_val(s.push(0u32)) == limbs_val(s),
{
    lemma_val_push(s, 0u32);
}

/// Removes most-significant zero limbs.
fn trim(v: &mut Vec<u32>)
    ensures
        limbs_val(final(v)@) == limbs_val(old(v)@),
        canonical(final(v)@),
{
    while v.len() > 0 && v[v.len() - 1] == 0
        invariant
            limbs_val(v@) == limbs_val(old(v)@),
        decreases v.len(),
    {
        let ghost before = v@;
        v.pop();
        proof {
            assert(before =~= v@.push(0u32));
            lemma_val_push_zero(v@);
        }
    }
}

/// A copy of `a` extended with zero limbs to length `n`.
fn padded(a: &Vec<u32>, n: usize) -> (r: Vec<u32>)
    requires
        a.len() <= n,
    ensures
        r.len() == n,
        limbs_val(r@) == limbs_val(a@),
{
    let mut r = a.clone();
    while r.len() < n
        invariant
            r.len() <= n,
            limbs_val(r@) == limbs_val(a@),
        decreases n - r.len(),
    {
        proof {
            lemma_val_push_zero(r@);
        }
        r.push(0);
    }
    r
}


proof fn lemma_digit_step(p: nat, x: nat, y: nat, c: nat, lo: nat, hi: nat)
    requires
        x + y + c == lo + base() * hi,
    ensures
        x * p + y * p + c * p == lo * p + hi * (base() * p),
{
    assert(x * p + y * p + c * p == (x + y + c) * p) by (nonlinear_arith);
    assert((lo + base() * hi) * p == lo * p + hi * (base() * p)) by (nonlinear_arith);
}

proof fn lemma_prefix_push(s: Seq<u32>, i: int)
    requires
        0 <= i < s.len(),
    ensures
        limbs_val(s.subrange(0, i + 1)) == limbs_val(s.subrange(0, i)) + s[i] * base_pow(
            i as nat,
        ),
{
    assert(s.subrange(0, i + 1) =~= s.subrange(0, i).push(s[i]));
    lemma_val_push(s.subrange(0, i), s[i]);
}

/// Sum of two limb sequences of the same length.
fn add_limbs(a: &Vec<u32>, b: &Vec<u32>) -> (r: Vec<u32>)
    requires
        a.len() == b.len(),
    ensures
        limbs_val(r@) == limbs_val(a@) + limbs_val(b@),
        r.len() == a.len() + 1,
{
    let n = a.len();
    let mut r: Vec<u32> = Vec::new();
    let mut carry: u64 = 0;
    let mut i: usize = 0;
    while i < n
        invariant
            n == a.len(),
            n == b.len(),
            i <= n,
            r.len() == i,
            carry <= 1,
            limbs_val(a@.subrange(0, i as int)) + limbs_val(b@.subrange(0, i as int)) == limbs_val(
                r@,
            ) + carry * base_pow(i as nat),
        decreases n - i,
    {
        let s: u64 = a[i] as u64 + b[i] as u64 + carry;
        let lo: u32 = (s % 0x1_0000_0000) as u32;
        let hi: u64 = s / 0x1_0000_0000;
        proof {
            lemma_prefix_push(a@, i as int);
            lemma_prefix_push(b@, i as int);
            lemma_val_push(r@, lo);
            lemma_digit_step(base_pow(i as nat), a[i as int] as nat, b[i as int] as nat, carry as nat, lo as nat, hi as nat);
        }
        r.push(lo);
        carry = hi;
        i = i + 1;
    }
    proof {
        lemma_val_push(r@, carry as u32);
        assert(a@.subrange(0, n as int) =~= a@);
        assert(b@.subrange(0, n as int) =~= b@);
    }
    r.push(carry as u32);
    r
}

/// Difference of two limb sequences of the same length, with the final borrow.
fn sub_limbs(a: &Vec<u32>, b: &Vec<u32>) -> (res: (Vec<u32>, bool))
    requires
        a.len() == b.len(),
    ensures
        res.1 <==> limbs_val(a@) < limbs_val(b@),
        !res.1 ==> limbs_val(res.0@) == limbs_val(a@) - limbs_val(b@),
        res.0.len() == a.len(),
{
    let n = a.len();
    let mut r: Vec<u32> = Vec::new();
    let mut borrow: u64 = 0;
    let mut i: usize = 0;
    while i < n
        invariant
            n == a.len(),
            n == b.len(),
            i <= n,
            r.len() == i,
            borrow <= 1,
            limbs_val(a@.subrange(0, i as int)) + borrow * base_pow(i as nat) == limbs_val(r@)
                + limbs_val(b@.subrange(0, i as int)),
        decreases n - i,
    {
        let x: u64 = a[i] as u64;
        let y: u64 = b[i] as u64 + borrow;
        let d: u64;
        let nb: u64;
        if x >= y {
            d = x - y;
            nb = 0;
        } else {
            d = x + 0x1_0000_0000 - y;
            nb = 1;
        }
        proof {
            lemma_prefix_push(a@, i as int);
            lemma_prefix_push(b@, i as int);
            lemma_val_push(r@, d as u32);
            lemma_digit_step(base_pow(i as nat), d as nat, b[i as int] as nat, borrow as nat, x as nat, nb as nat);
            assert(x + base() * nb == d + b[i as int] + borrow);
        }
        r.push(d as u32);
        borrow = nb;
        i = i + 1;
    }
    proof {
        assert(a@.subrange(0, n as int) =~= a@);
        assert(b@.subrange(0, n as int) =~= b@);
        lemma_val_bound(r@);
        lemma_base_pow_pos(n as nat);
    }
    (r, borrow == 1)
}

/// Product of a limb sequence with one limb.
fn mul_small_limbs(a: &Vec<u32>, x: u32) -> (r: Vec<u32>)
    ensures
        limbs_val(r@) == limbs_val(a@) * x,
        r.len() == a.len() + 1,
{
    let n = a.len();
    let mut r: Vec<u32> = Vec::new();
    let mut carry: u64 = 0;
    let mut i: usize = 0;
    proof {
        let v0 = limbs_val(a@.subrange(0, 0));
        assert(v0 == 0);
        assert(v0 * x == 0) by (nonlinear_arith)
            requires
                v0 == 0,
        ;
    }
    while i < n
        invariant
            n == a.len(),
            i <= n,
            r.len() == i,
            carry < 0x1_0000_0000,
            limbs_val(a@.subrange(0, i as int)) * x == limbs_val(r@) + carry * base_pow(i as nat),
        decreases n - i,
    {
        let ai: u64 = a[i] as u64;
        assert(ai * (x as u64) <= 0xffff_fffe_0000_0001) by (nonlinear_arith)
            requires
                ai < 0x1_0000_0000,
                x < 0x1_0000_0000,
        ;
        let t: u64 = ai * (x as u64) + carry;
        let lo: u32 = (t % 0x1_0000_0000) as u32;
        let hi: u64 = t / 0x1_0000_0000;
        proof {
            lemma_prefix_push(a@, i as int);
            lemma_val_push(r@, lo);
            let p = base_pow(i as nat);
            let va = limbs_val(a@.subrange(0, i as int));
            assert((va + ai * p) * x == va * x + (ai * x) * p) by (nonlinear_arith);
            lemma_digit_step(p, (ai * x) as nat, 0, carry as nat, lo as nat, hi as nat);
        }
        r.push(lo);
        carry = hi;
        i = i + 1;
    }
    proof {
        lemma_val_push(r@, carry as u32);
        assert(a@.subrange(0, n as int) =~= a@);
    }
    r.push(carry as u32);
    r
}


/// `b` raised to `e`.
pub open spec fn nat_pow(b: nat, e: nat) -> nat
    decreases e,
{
    if e == 0 {
        1
    } else {
        b * nat_pow(b, (e - 1) as nat)
    }
}

/// Greatest common divisor, by Euclid's algorithm.
pub open spec fn gcd_spec(a: nat, b: nat) -> nat
    decreases b,
{
    if b == 0 {
        a
    } else {
        gcd_spec(b, a % b)
    }
}

/// If `g` divides `x` and `y`, it divides `x * k + y`.
pub proof fn lemma_divides_combo(x: int, y: int, k: int, g: int)
    requires
        g > 0,
        x % g == 0,
        y % g == 0,
    ensures
        (x * k + y) % g == 0,
{
    vstd::arithmetic::div_mod::lemma_fundamental_div_mod(x, g);
    vstd::arithmetic::div_mod::lemma_fundamental_div_mod(y, g);
    let qx = x / g;
    let qy = y / g;
    assert(x * k + y == (qx * k + qy) * g) by (nonlinear_arith)
        requires
            x == g * qx,
            y == g * qy,
    ;
    vstd::arithmetic::div_mod::lemma_mod_multiples_basic(qx * k + qy, g);
}

/// The greatest common divisor divides both arguments, and is positive
/// unless both are zero.
pub proof fn lemma_gcd_divides(a: nat, b: nat)
    ensures
        (a > 0 || b > 0) ==> gcd_spec(a, b) > 0,
        gcd_spec(a, b) > 0 ==> a % gcd_spec(a, b) == 0 && b % gcd_spec(a, b) == 0,
    decreases b,
{
    if b == 0 {
        if a > 0 {
            vstd::arithmetic::div_mod::lemma_mod_self_0(a as int);
            vstd::arithmetic::div_mod::lemma_small_mod(0nat, a);
        }
    } else {
        let r = a % b;
        lemma_gcd_divides(b, r);
        let g = gcd_spec(a, b);
        assert(g == gcd_spec(b, r));
        if g > 0 {
            vstd::arithmetic::div_mod::lemma_fundamental_div_mod(a as int, b as int);
            assert(a as int == (b as int) * (a as int / b as int) + r);
            lemma_divides_combo(b as int, r as int, a as int / b as int, g as int);
        }
    }
}

/// Scaling both arguments scales the greatest common divisor.
pub proof fn lemma_gcd_scale(k: nat, a: nat, b: nat)
    requires
        k > 0,
    ensures
        gcd_spec(k * a, k * b) == k * gcd_spec(a, b),
    decreases b,
{
    if b == 0 {
        assert(k * b == 0) by (nonlinear_arith)
            requires
                b == 0,
        ;
    } else {
        assert(k * b > 0) by (nonlinear_arith)
            requires
                k > 0,
                b > 0,
        ;
        let q = a / b;
        let r = a % b;
        vstd::arithmetic::div_mod::lemma_fundamental_div_mod(a as int, b as int);
        assert(k * a == q * (k * b) + k * r) by (nonlinear_arith)
            requires
                a == b * q + r,
        ;
        assert(k * r < k * b) by (nonlinear_arith)
            requires
                k > 0,
                r < b,
        ;
        vstd::arithmetic::div_mod::lemma_fundamental_div_mod_converse(
            (k * a) as int,
            (k * b) as int,
            q as int,
            (k * r) as int,
        );
        assert((k * a) % (k * b) == k * r);
        lemma_gcd_scale(k, b, r);
    }
}

/// One is coprime to everything.
pub proof fn lemma_gcd_one(m: nat)
    ensures
        gcd_spec(1, m) == 1,
        gcd_spec(m, 1) == 1,
{
    assert(gcd_spec(1, 0) == 1);
    assert(gcd_spec(m, 1) == gcd_spec(1, m % 1nat));
    if m == 1 {
        assert(gcd_spec(1, m) == gcd_spec(m, 1nat % m));
    } else if m > 1 {
        vstd::arithmetic::div_mod::lemma_small_mod(1, m);
        assert(gcd_spec(1, m) == gcd_spec(m, 1));
    }
}

/// The character of a decimal digit.
pub open spec fn digit_char(d: nat) -> char {
    (48 + d) as char
}

/// Decimal representation, most significant digit first, without leading zeros.
pub open spec fn dec_digits(n: nat) -> Seq<char>
    decreases n,
{
    if n < 10 {
        seq![digit_char(n)]
    } else {
        dec_digits(n / 10).push(digit_char(n % 10))
    }
}

/// `x` followed by the limbs of `v`.
fn prepend(v: &Vec<u32>, x: u32) -> (r: Vec<u32>)
    ensures
        limbs_val(r@) == x + base() * limbs_val(v@),
{
    let mut r = v.clone();
    assert(r@ =~= v@);
    r.insert(0, x);
    assert(r@.drop_first() =~= v@);
    r
}

/// Appends a character to a string.
#[verifier::external_body]
pub(crate) fn push_char(s: &mut String, c: char)
    ensures
        final(s)@ == old(s)@.push(c),
{
    s.push(c);
}

/// An arbitrary-precision natural number.
#[derive(Debug, PartialEq, Eq)]
pub struct Nat {
    limbs: Vec<u32>,
}

impl View for Nat {
    type V = nat;

    closed spec fn view(&self) -> nat {
        limbs_val(self.limbs@)
    }
}

impl Clone for Nat {
    fn clone(&self) -> (r: Self)
        ensures
            r@ == self@,
            r.wf() == self.wf(),
    {
        let limbs = self.limbs.clone();
        assert(limbs@ =~= self.limbs@);
        Nat { limbs }
    }
}

impl Nat {
    /// No most-significant zero limb: the form every operation returns.
    pub closed spec fn wf(&self) -> bool {
        canonical(self.limbs@)
    }

    /// The number whose base-2^32 digits, least significant first, are `limbs`.
    pub fn from_limbs(mut limbs: Vec<u32>) -> (r: Nat)
        ensures
            r@ == limbs_val(limbs@),
            r.wf(),
    {
        trim(&mut limbs);
        Nat { limbs }
    }

    /// The base-2^32 digits of the number, least significant first, without
    /// leading zero digits.
    pub fn to_limbs(&self) -> (r: Vec<u32>)
        requires
            self.wf(),
        ensures
            limbs_val(r@) == self@,
            canonical(r@),
    {
        self.limbs.clone()
    }

    /// Zero.
    pub fn zero() -> (r: Nat)
        ensures
            r@ == 0,
            r.wf(),
    {
        Nat { limbs: Vec::new() }
    }

    /// The number `x`.
    pub fn from_u64(x: u64) -> (r: Nat)
        ensures
            r@ == x,
            r.wf(),
    {
        let lo: u32 = (x % 0x1_0000_0000) as u32;
        let hi: u32 = (x / 0x1_0000_0000) as u32;
        let mut v: Vec<u32> = Vec::new();
        v.push(lo);
        v.push(hi);
        proof {
            assert(v@.drop_first().drop_first() =~= Seq::<u32>::empty());
            assert(v@.drop_first()[0] == hi);
            assert(limbs_val(v@.drop_first().drop_first()) == 0);
            assert(limbs_val(v@.drop_first()) == hi as nat);
            assert(v@[0] == lo);
        }
        Nat::from_limbs(v)
    }

    /// Whether the number is zero.
    pub fn is_zero(&self) -> (b: bool)
        ensures
            b == (self@ == 0),
    {
        proof {
            lemma_val_zero(self.limbs@);
        }
        let mut i: usize = 0;
        while i < self.limbs.len()
            invariant
                i <= self.limbs.len(),
                forall|j: int| 0 <= j < i ==> self.limbs@[j] == 0,
            decreases self.limbs.len() - i,
        {
            if self.limbs[i] != 0 {
                proof {
                    lemma_val_zero(self.limbs@);
                    assert(self.limbs@[i as int] != 0);
                }
                return false;
            }
            i = i + 1;
        }
        true
    }

    /// The lowest 32 bits.
    pub fn low_u32(&self) -> (r: u32)
        ensures
            r == self@ % base(),
    {
        if self.limbs.len() == 0 {
            0
        } else {
            proof {
                lemma_val_low(self.limbs@);
            }
            self.limbs[0]
        }
    }

    /// `self + other`.
    pub fn add(&self, other: &Nat) -> (r: Nat)
        ensures
            r@ == self@ + other@,
            r.wf(),
    {
        let n = if self.limbs.len() < other.limbs.len() {
            other.limbs.len()
        } else {
            self.limbs.len()
        };
        let a = padded(&self.limbs, n);
        let b = padded(&other.limbs, n);
        Nat::from_limbs(add_limbs(&a, &b))
    }

    /// `self - other`, for `other <= self`.
    pub fn sub(&self, other: &Nat) -> (r: Nat)
        requires
            other@ <= self@,
        ensures
            r@ == self@ - other@,
            r.wf(),
    {
        let n = if self.limbs.len() < other.limbs.len() {
            other.limbs.len()
        } else {
            self.limbs.len()
        };
        let a = padded(&self.limbs, n);
        let b = padded(&other.limbs, n);
        let (d, _) = sub_limbs(&a, &b);
        Nat::from_limbs(d)
    }

    /// `self < other`.
    pub fn lt(&self, other: &Nat) -> (b: bool)
        ensures
            b == (self@ < other@),
    {
        let n = if self.limbs.len() < other.limbs.len() {
            other.limbs.len()
        } else {
            self.limbs.len()
        };
        let a = padded(&self.limbs, n);
        let b = padded(&other.limbs, n);
        let (_, borrow) = sub_limbs(&a, &b);
        borrow
    }

    /// `self <= other`.
    pub fn le(&self, other: &Nat) -> (b: bool)
        ensures
            b == (self@ <= other@),
    {
        !other.lt(self)
    }

    /// `self == other`, by value.
    pub fn equals(&self, other: &Nat) -> (b: bool)
        ensures
            b == (self@ == other@),
    {
        !self.lt(other) && !other.lt(self)
    }

    /// `self * x` for one limb `x`.
    pub fn mul_small(&self, x: u32) -> (r: Nat)
        ensures
            r@ == self@ * x,
            r.wf(),
    {
        Nat::from_limbs(mul_small_limbs(&self.limbs, x))
    }

    /// `self * other`.
    pub fn mul(&self, other: &Nat) -> (r: Nat)
        ensures
            r@ == self@ * other@,
            r.wf(),
    {
        let lb = other.limbs.len();
        let mut acc = Nat::zero();
        let mut j = lb;
        proof {
            assert(other.limbs@.subrange(lb as int, lb as int) =~= Seq::<u32>::empty());
            assert(self@ * 0 == 0) by (nonlinear_arith);
        }
        while j > 0
            invariant
                lb == other.limbs.len(),
                j <= lb,
                acc.wf(),
                acc@ == self@ * limbs_val(other.limbs@.subrange(j as int, lb as int)),
            decreases j,
        {
            j = j - 1;
            let part = self.mul_small(other.limbs[j]);
            let shifted = prepend(&acc.limbs, 0);
            let next = Nat::from_limbs(shifted).add(&part);
            proof {
                let sub = other.limbs@.subrange(j as int, lb as int);
                assert(sub.drop_first() =~= other.limbs@.subrange(j + 1, lb as int));
                let v = limbs_val(sub.drop_first());
                let d = other.limbs@[j as int] as nat;
                assert(limbs_val(sub) == d + base() * v);
                assert(base() * (self@ * v) + self@ * d == self@ * (d + base() * v))
                    by (nonlinear_arith);
            }
            acc = next;
        }
        proof {
            assert(other.limbs@.subrange(0, lb as int) =~= other.limbs@);
        }
        acc
    }
    /// Quotient and remainder of `self` by a nonzero divisor.
    pub fn divrem(&self, d: &Nat) -> (res: (Nat, Nat))
        requires
            d@ > 0,
        ensures
            res.0@ == self@ / d@,
            res.1@ == self@ % d@,
            res.0.wf(),
            res.1.wf(),
    {
        let la = self.limbs.len();
        let mut q = Nat::zero();
        let mut r = Nat::zero();
        let mut i = la;
        proof {
            assert(self.limbs@.subrange(la as int, la as int) =~= Seq::<u32>::empty());
            assert(q@ * d@ == 0) by (nonlinear_arith)
                requires
                    q@ == 0,
            ;
        }
        while i > 0
            invariant
                la == self.limbs.len(),
                i <= la,
                d@ > 0,
                r@ < d@,
                q.wf(),
                r.wf(),
                limbs_val(self.limbs@.subrange(i as int, la as int)) == q@ * d@ + r@,
            decreases i,
        {
            i = i - 1;
            let digit_in = self.limbs[i];
            let rr = Nat::from_limbs(prepend(&r.limbs, digit_in));
            proof {
                assert(rr@ < d@ * base()) by (nonlinear_arith)
                    requires
                        rr@ == digit_in + base() * r@,
                        r@ < d@,
                        digit_in < base(),
                ;
                assert(d@ * 0 == 0) by (nonlinear_arith);
            }
            let mut lo: u64 = 0;
            let mut hi: u64 = 0x1_0000_0000;
            while hi - lo > 1
                invariant
                    lo < hi <= 0x1_0000_0000,
                    d@ * lo <= rr@,
                    rr@ < d@ * hi,
                decreases hi - lo,
            {
                let mid: u64 = lo + (hi - lo) / 2;
                let m = d.mul_small(mid as u32);
                if m.le(&rr) {
                    lo = mid;
                } else {
                    hi = mid;
                }
            }
            let digit: u32 = lo as u32;
            let dm = d.mul_small(digit);
            let new_r = rr.sub(&dm);
            let new_q = Nat::from_limbs(prepend(&q.limbs, digit));
            proof {
                let sub = self.limbs@.subrange(i as int, la as int);
                assert(sub.drop_first() =~= self.limbs@.subrange(i + 1, la as int));
                assert(sub[0] == digit_in);
                assert(hi == lo + 1);
                assert(d@ * (lo + 1) == d@ * lo + d@) by (nonlinear_arith);
                assert((digit + base() * q@) * d@ + (rr@ - d@ * digit) == base() * (q@ * d@)
                    + rr@) by (nonlinear_arith);
                assert(base() * (q@ * d@ + r@) == base() * (q@ * d@) + base() * r@)
                    by (nonlinear_arith);
            }
            q = new_q;
            r = new_r;
        }
        proof {
            assert(self.limbs@.subrange(0, la as int) =~= self.limbs@);
            vstd::arithmetic::div_mod::lemma_fundamental_div_mod_converse(
                self@ as int,
                d@ as int,
                q@ as int,
                r@ as int,
            );
        }
        (q, r)
    }

    /// Greatest common divisor of `self` and `other`.
    pub fn gcd(&self, other: &Nat) -> (r: Nat)
        ensures
            r@ == gcd_spec(self@, other@),
            r.wf(),
    {
        let mut x = Nat::from_limbs(self.limbs.clone());
        let mut y = Nat::from_limbs(other.limbs.clone());
        assert(x@ == self@ && y@ == other@);
        while !y.is_zero()
            invariant
                gcd_spec(x@, y@) == gcd_spec(self@, other@),
                x.wf(),
                y.wf(),
            decreases y@,
        {
            let (_, rem) = x.divrem(&y);
            x = y;
            y = rem;
        }
        x
    }

    /// `base` raised to `exp`.
    pub fn pow_u64(base: u64, exp: u32) -> (r: Nat)
        ensures
            r@ == nat_pow(base as nat, exp as nat),
            r.wf(),
    {
        let b = Nat::from_u64(base);
        let mut acc = Nat::from_u64(1);
        let mut i: u32 = 0;
        while i < exp
            invariant
                i <= exp,
                b@ == base,
                acc@ == nat_pow(base as nat, i as nat),
                acc.wf(),
            decreases exp - i,
        {
            let next = b.mul(&acc);
            acc = next;
            i = i + 1;
        }
        acc
    }

    /// Appends the decimal digits of `self` to `s`.
    pub fn write_decimal(&self, s: &mut String)
        ensures
            final(s)@ == old(s)@ + dec_digits(self@),
        decreases self@,
    {
        let ten = Nat::from_u64(10);
        if self.lt(&ten) {
            let d = self.low_u32();
            proof {
                vstd::arithmetic::div_mod::lemma_small_mod(self@, base());
            }
            push_char(s, ((d + 48) as u8) as char);
            proof {
                assert(dec_digits(self@) == seq![digit_char(self@)]);
                assert(old(s)@.push(digit_char(self@)) =~= old(s)@ + seq![digit_char(self@)]);
            }
        } else {
            let (q, r) = self.divrem(&ten);
            q.write_decimal(s);
            let d = r.low_u32();
            proof {
                vstd::arithmetic::div_mod::lemma_small_mod(r@, base());
            }
            push_char(s, ((d + 48) as u8) as char);
            proof {
                assert(dec_digits(self@) == dec_digits(q@).push(digit_char(r@)));
                assert(s@ =~= old(s)@ + dec_digits(self@));
            }
        }
    }
}

} // verus!

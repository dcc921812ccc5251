//! q-integers, q-Pochhammer symbols and a truncated check of the first
//! Rogers-Ramanujan identity, in exact rational arithmetic.

use vstd::prelude::*;
use crate::bigint::Int;
use vstd::arithmetic::power::{pow, lemma_pow_adds};
use crate::rational::{
    Rat, canonical_rat, law_rat_canonical, lemma_canonical_unique, lemma_rat_of_pair_canonical,
    lemma_reduce_canonical, rat_abs, rat_add, rat_div, rat_eq, rat_lt, rat_mul, rat_of_int, rat_of_pair, rat_sub,
};

verus! {

/// q^e for e >= 0, as repeated multiplication starting from 1.
pub open spec fn qpow_up(q: (int, int), e: nat) -> (int, int)
    decreases e,
{
    if e == 0 {
        rat_of_int(1)
    } else {
        rat_mul(qpow_up(q, (e - 1) as nat), q)
    }
}

/// q^-e for e >= 0, as repeated division starting from 1.
pub open spec fn qpow_down(q: (int, int), e: nat) -> (int, int)
    decreases e,
{
    if e == 0 {
        rat_of_int(1)
    } else {
        rat_div(qpow_down(q, (e - 1) as nat), q)
    }
}

/// q^n for any integer n.
pub open spec fn q_power_spec(q: (int, int), n: int) -> (int, int) {
    if n >= 0 {
        qpow_up(q, n as nat)
    } else {
        qpow_down(q, (-n) as nat)
    }
}

/// q^n as an exact rational, by repeated multiplication or division.
pub fn q_power(q: &Rat, n: i64) -> (r: Rat)
    requires
        q.wf(),
        n >= 0 || q@.0 != 0,
        n != i64::MIN,
    ensures
        r@ == q_power_spec(q@, n as int),
        r.wf(),
{
    if n == 0 {
        return Rat::from_i64(1);
    }
    let mut r = Rat::from_i64(1);
    if n > 0 {
        let mut i: i64 = 0;
        while i < n
            invariant
                0 <= i <= n,
                q.wf(),
                r.wf(),
                r@ == qpow_up(q@, i as nat),
            decreases n - i,
        {
            r = r.mul(q);
            i = i + 1;
        }
        r
    } else {
        let m: i64 = -n;
        let mut i: i64 = 0;
        while i < m
            invariant
                0 <= i <= m,
                q.wf(),
                q@.0 != 0,
                r.wf(),
                r@ == qpow_down(q@, i as nat),
            decreases m - i,
        {
            r = r.div(q);
            i = i + 1;
        }
        r
    }
}

/// `x` and `y` are fractions of the same value (for nonzero denominators).
pub open spec fn same_value(x: (int, int), y: (int, int)) -> bool {
    x.0 * y.1 == y.0 * x.1
}

/// q^x written as a plain fraction of powers: (n^x, d^x) for x >= 0 and
/// (d^-x, n^-x) for x < 0, where q = n / d.
pub open spec fn power_pair(q: (int, int), x: int) -> (int, int) {
    if x >= 0 {
        (pow(q.0, x as nat), pow(q.1, x as nat))
    } else {
        (pow(q.1, (-x) as nat), pow(q.0, (-x) as nat))
    }
}

proof fn lemma_same_value_trans(x: (int, int), y: (int, int), z: (int, int))
    requires
        same_value(x, y),
        same_value(y, z),
        y.1 != 0,
    ensures
        same_value(x, z),
{
    assert((x.0 * z.1 - z.0 * x.1) * y.1 == 0) by (nonlinear_arith)
        requires
            x.0 * y.1 == y.0 * x.1,
            y.0 * z.1 == z.0 * y.1,
    ;
    assert(x.0 * z.1 - z.0 * x.1 == 0) by (nonlinear_arith)
        requires
            (x.0 * z.1 - z.0 * x.1) * y.1 == 0,
            y.1 != 0,
    ;
}

proof fn lemma_same_value_mul(x: (int, int), y: (int, int), u: (int, int), v: (int, int))
    requires
        same_value(x, y),
        same_value(u, v),
    ensures
        same_value((x.0 * u.0, x.1 * u.1), (y.0 * v.0, y.1 * v.1)),
{
    assert((x.0 * u.0) * (y.1 * v.1) == (y.0 * v.0) * (x.1 * u.1)) by (nonlinear_arith)
        requires
            x.0 * y.1 == y.0 * x.1,
            u.0 * v.1 == v.0 * u.1,
    ;
}

proof fn lemma_pow_nonzero(b: int, e: nat)
    requires
        b != 0,
    ensures
        pow(b, e) != 0,
    decreases e,
{
    reveal(pow);
    if e > 0 {
        lemma_pow_nonzero(b, (e - 1) as nat);
        assert(b * pow(b, (e - 1) as nat) != 0) by (nonlinear_arith)
            requires
                b != 0,
                pow(b, (e - 1) as nat) != 0,
        ;
    }
}

proof fn lemma_one_canonical()
    ensures
        canonical_rat(rat_of_int(1)),
{
    crate::bignat::lemma_gcd_one(1);
    assert(crate::bigint::abs_int(1) == 1);
}

proof fn lemma_qpow_up_value(q: (int, int), e: nat)
    requires
        canonical_rat(q),
    ensures
        canonical_rat(qpow_up(q, e)),
        same_value(qpow_up(q, e), (pow(q.0, e), pow(q.1, e))),
    decreases e,
{
    reveal(pow);
    if e == 0 {
        lemma_one_canonical();
    } else {
        let k = (e - 1) as nat;
        lemma_qpow_up_value(q, k);
        let p = qpow_up(q, k);
        let m = (p.0 * q.0, p.1 * q.1);
        assert(m.1 > 0) by (nonlinear_arith)
            requires
                p.1 > 0,
                q.1 > 0,
                m.1 == p.1 * q.1,
        ;
        lemma_reduce_canonical(m.0, m.1);
        assert(same_value(m, (pow(q.0, e), pow(q.1, e)))) by (nonlinear_arith)
            requires
                p.0 * pow(q.1, k) == pow(q.0, k) * p.1,
                pow(q.0, e) == q.0 * pow(q.0, k),
                pow(q.1, e) == q.1 * pow(q.1, k),
                m == (p.0 * q.0, p.1 * q.1),
        ;
        lemma_same_value_trans(qpow_up(q, e), m, (pow(q.0, e), pow(q.1, e)));
    }
}

proof fn lemma_qpow_down_value(q: (int, int), e: nat)
    requires
        canonical_rat(q),
        q.0 != 0,
    ensures
        canonical_rat(qpow_down(q, e)),
        same_value(qpow_down(q, e), (pow(q.1, e), pow(q.0, e))),
    decreases e,
{
    reveal(pow);
    if e == 0 {
        lemma_one_canonical();
    } else {
        let k = (e - 1) as nat;
        lemma_qpow_down_value(q, k);
        let p = qpow_down(q, k);
        let m = (p.0 * q.1, p.1 * q.0);
        assert(m.1 != 0) by (nonlinear_arith)
            requires
                p.1 > 0,
                q.0 != 0,
                m.1 == p.1 * q.0,
        ;
        lemma_rat_of_pair_canonical(m.0, m.1);
        assert(same_value(m, (pow(q.1, e), pow(q.0, e)))) by (nonlinear_arith)
            requires
                p.0 * pow(q.0, k) == pow(q.1, k) * p.1,
                pow(q.0, e) == q.0 * pow(q.0, k),
                pow(q.1, e) == q.1 * pow(q.1, k),
                m == (p.0 * q.1, p.1 * q.0),
        ;
        lemma_same_value_trans(qpow_down(q, e), m, (pow(q.1, e), pow(q.0, e)));
    }
}

proof fn lemma_q_power_value(q: (int, int), x: int)
    requires
        canonical_rat(q),
        q.0 != 0,
    ensures
        canonical_rat(q_power_spec(q, x)),
        same_value(q_power_spec(q, x), power_pair(q, x)),
        power_pair(q, x).1 != 0,
{
    if x >= 0 {
        lemma_qpow_up_value(q, x as nat);
        vstd::arithmetic::power::lemma_pow_positive(q.1, x as nat);
    } else {
        lemma_qpow_down_value(q, (-x) as nat);
        lemma_pow_nonzero(q.0, (-x) as nat);
    }
}

/// The plain fractions of powers multiply by adding exponents, for a >= 0 > b.
proof fn lemma_power_pair_mixed(q: (int, int), a: int, b: int)
    requires
        a >= 0,
        b < 0,
    ensures
        same_value(
            (power_pair(q, a).0 * power_pair(q, b).0, power_pair(q, a).1 * power_pair(q, b).1),
            power_pair(q, a + b),
        ),
{
    let n = q.0;
    let d = q.1;
    let an = a as nat;
    let m = (-b) as nat;
    if a >= -b {
        let k = (a + b) as nat;
        lemma_pow_adds(n, k, m);
        lemma_pow_adds(d, k, m);
        assert(k + m == an);
        assert(pow(n, an) * pow(d, m) * pow(d, k) == pow(n, k) * (pow(d, an) * pow(n, m))) by (nonlinear_arith)
            requires
                pow(n, an) == pow(n, k) * pow(n, m),
                pow(d, an) == pow(d, k) * pow(d, m),
        ;
    } else {
        let k = (-(a + b)) as nat;
        lemma_pow_adds(n, an, k);
        lemma_pow_adds(d, an, k);
        assert(an + k == m);
        assert(pow(n, an) * pow(d, m) * pow(n, k) == pow(d, k) * (pow(d, an) * pow(n, m))) by (nonlinear_arith)
            requires
                pow(n, m) == pow(n, an) * pow(n, k),
                pow(d, m) == pow(d, an) * pow(d, k),
        ;
    }
}

proof fn lemma_power_pair_adds(q: (int, int), a: int, b: int)
    ensures
        same_value(
            (power_pair(q, a).0 * power_pair(q, b).0, power_pair(q, a).1 * power_pair(q, b).1),
            power_pair(q, a + b),
        ),
{
    let n = q.0;
    let d = q.1;
    if a >= 0 && b >= 0 {
        lemma_pow_adds(n, a as nat, b as nat);
        lemma_pow_adds(d, a as nat, b as nat);
        assert((a + b) as nat == a as nat + b as nat);
    } else if a < 0 && b < 0 {
        lemma_pow_adds(n, (-a) as nat, (-b) as nat);
        lemma_pow_adds(d, (-a) as nat, (-b) as nat);
        assert((-(a + b)) as nat == (-a) as nat + (-b) as nat);
    } else if a >= 0 {
        lemma_power_pair_mixed(q, a, b);
    } else {
        lemma_power_pair_mixed(q, b, a);
        let pa = power_pair(q, a);
        let pb = power_pair(q, b);
        assert(pa.0 * pb.0 == pb.0 * pa.0 && pa.1 * pb.1 == pb.1 * pa.1) by (nonlinear_arith);
        assert(b + a == a + b);
    }
}

/// Powers of a nonzero rational add their exponents: q^a q^b = q^(a+b) for all
/// integers a and b, and in particular q^a q^-a = 1.
pub proof fn law_q_power_exponents(q: Rat, a: int, b: int)
    requires
        q.wf(),
        q@.0 != 0,
    ensures
        rat_mul(q_power_spec(q@, a), q_power_spec(q@, b)) == q_power_spec(q@, a + b),
        rat_mul(q_power_spec(q@, a), q_power_spec(q@, -a)) == rat_of_int(1),
{
    law_rat_canonical(&q);
    assert(crate::bigint::abs_int(q@.1) == q@.1);
    let qv = q@;
    assert(canonical_rat(qv));
    lemma_product_of_powers(qv, a, b);
    lemma_product_of_powers(qv, a, -a);
    assert(a + -a == 0);
}

proof fn lemma_product_of_powers(q: (int, int), a: int, b: int)
    requires
        canonical_rat(q),
        q.0 != 0,
    ensures
        rat_mul(q_power_spec(q, a), q_power_spec(q, b)) == q_power_spec(q, a + b),
{
    let x = q_power_spec(q, a);
    let y = q_power_spec(q, b);
    let z = q_power_spec(q, a + b);
    lemma_q_power_value(q, a);
    lemma_q_power_value(q, b);
    lemma_q_power_value(q, a + b);
    let pa = power_pair(q, a);
    let pb = power_pair(q, b);
    let pz = power_pair(q, a + b);
    let xy = (x.0 * y.0, x.1 * y.1);
    let pp = (pa.0 * pb.0, pa.1 * pb.1);
    assert(xy.1 > 0) by (nonlinear_arith)
        requires
            x.1 > 0,
            y.1 > 0,
            xy.1 == x.1 * y.1,
    ;
    assert(pp.1 != 0) by (nonlinear_arith)
        requires
            pa.1 != 0,
            pb.1 != 0,
            pp.1 == pa.1 * pb.1,
    ;
    lemma_reduce_canonical(xy.0, xy.1);
    let r = rat_mul(x, y);
    assert(same_value(r, xy));
    lemma_same_value_mul(x, pa, y, pb);
    lemma_power_pair_adds(q, a, b);
    assert(same_value(pz, z));
    lemma_same_value_trans(r, xy, pp);
    lemma_same_value_trans(r, pp, pz);
    lemma_same_value_trans(r, pz, z);
    lemma_canonical_unique(r, z);
}

/// The q-integer [n]_q = (q^n - q^-n) / (q - q^-1), which is n at q = 1 and
/// wherever the denominator vanishes.
pub open spec fn q_integer_spec(n: nat, q: (int, int)) -> (int, int) {
    if rat_eq(q, rat_of_int(1)) {
        rat_of_int(n as int)
    } else {
        let num = rat_sub(q_power_spec(q, n as int), q_power_spec(q, -(n as int)));
        let den = rat_sub(q, q_power_spec(q, -1));
        if den.0 == 0 {
            rat_of_int(n as int)
        } else {
            rat_div(num, den)
        }
    }
}

/// The q-integer [n]_q as an exact rational.
pub fn q_integer(n: u32, q: &Rat) -> (r: Rat)
    requires
        q.wf(),
        rat_eq(q@, rat_of_int(1)) || q@.0 != 0,
    ensures
        r@ == q_integer_spec(n as nat, q@),
        rat_eq(q@, rat_of_int(1)) ==> r@ == rat_of_int(n as int),
        r.wf(),
{
    if q.equals(&Rat::from_i64(1)) {
        return Rat::from_i64(n as i64);
    }
    let q_n = q_power(q, n as i64);
    let q_neg = q_power(q, -(n as i64));
    let q_m1 = q_power(q, -1);
    let num = q_n.sub(&q_neg);
    let den = q.sub(&q_m1);
    if den.is_zero() {
        Rat::from_i64(n as i64)
    } else {
        num.div(&den)
    }
}

/// (a; q)_k = prod_{j < k} (1 - a q^j).
pub open spec fn q_pochhammer_spec(a: (int, int), q: (int, int), k: nat) -> (int, int)
    decreases k,
{
    if k == 0 {
        rat_of_int(1)
    } else {
        rat_mul(
            q_pochhammer_spec(a, q, (k - 1) as nat),
            rat_sub(rat_of_int(1), rat_mul(a, q_power_spec(q, (k - 1) as int))),
        )
    }
}

/// Reducing a canonical pair leaves it unchanged.
proof fn lemma_reduce_canonical_fixed(x: (int, int))
    requires
        canonical_rat(x),
    ensures
        crate::rational::reduce(x.0, x.1) == x,
{
    lemma_reduce_canonical(x.0, x.1);
    lemma_canonical_unique(crate::rational::reduce(x.0, x.1), x);
}

/// Multiplying a canonical rational by one, on either side, leaves it unchanged.
proof fn lemma_mul_one(x: (int, int))
    requires
        canonical_rat(x),
    ensures
        rat_mul(x, rat_of_int(1)) == x,
        rat_mul(rat_of_int(1), x) == x,
{
    assert(x.0 * 1 == x.0 && x.1 * 1 == x.1 && 1 * x.0 == x.0 && 1 * x.1 == x.1);
    lemma_reduce_canonical_fixed(x);
}

/// The first factor of the q-Pochhammer symbol is 1 - a, whatever q is:
/// (a; q)_1 = 1 - a.
pub proof fn law_q_pochhammer_first_factor(a: Rat, q: (int, int))
    requires
        a.wf(),
    ensures
        q_pochhammer_spec(a@, q, 1) == rat_sub(rat_of_int(1), a@),
{
    law_rat_canonical(&a);
    assert(crate::bigint::abs_int(a@.1) == a@.1);
    assert(canonical_rat(a@));
    assert(q_power_spec(q, 0) == rat_of_int(1));
    lemma_mul_one(a@);
    let t = rat_sub(rat_of_int(1), a@);
    assert(1 * a@.1 > 0) by (nonlinear_arith)
        requires
            a@.1 > 0,
    ;
    lemma_reduce_canonical(1 * a@.1 - a@.0 * 1, 1 * a@.1);
    assert(t == crate::rational::reduce(1 * a@.1 - a@.0 * 1, 1 * a@.1));
    lemma_mul_one(t);
    assert(q_pochhammer_spec(a@, q, 0) == rat_of_int(1));
    assert(rat_mul(a@, q_power_spec(q, 0)) == a@);
    assert(q_pochhammer_spec(a@, q, 1) == rat_mul(rat_of_int(1), t));
}

/// Each further factor multiplies by 1 - a q^n, with q^n the n-th power of q
/// by repeated multiplication: (a; q)_(n+1) = (a; q)_n (1 - a q^n).
pub proof fn law_q_pochhammer_step(a: (int, int), q: (int, int), n: nat)
    ensures
        q_pochhammer_spec(a, q, n + 1) == rat_mul(
            q_pochhammer_spec(a, q, n),
            rat_sub(rat_of_int(1), rat_mul(a, qpow_up(q, n))),
        ),
{
}

/// At q = 1 every factor is 1 - a: (a; 1)_n = (1 - a)^n.
pub proof fn law_q_pochhammer_at_one(a: Rat, n: nat)
    requires
        a.wf(),
    ensures
        q_pochhammer_spec(a@, rat_of_int(1), n) == qpow_up(rat_sub(rat_of_int(1), a@), n),
    decreases n,
{
    if n > 0 {
        law_q_pochhammer_at_one(a, (n - 1) as nat);
        law_rat_canonical(&a);
        assert(crate::bigint::abs_int(a@.1) == a@.1);
        lemma_one_canonical();
        lemma_qpow_up_value(rat_of_int(1), (n - 1) as nat);
        lemma_qpow_up_one((n - 1) as nat);
        lemma_mul_one(a@);
    }
}

/// Every power of one is one.
proof fn lemma_qpow_up_one(e: nat)
    ensures
        qpow_up(rat_of_int(1), e) == rat_of_int(1),
    decreases e,
{
    if e > 0 {
        lemma_qpow_up_one((e - 1) as nat);
        lemma_one_canonical();
        lemma_mul_one(rat_of_int(1));
    }
}

/// The q-Pochhammer symbol (a; q)_n as an exact rational.
pub fn q_pochhammer(a: &Rat, q: &Rat, n: u32) -> (r: Rat)
    requires
        a.wf(),
        q.wf(),
    ensures
        r@ == q_pochhammer_spec(a@, q@, n as nat),
        n == 0 ==> r@ == rat_of_int(1),
        n == 1 ==> r@ == rat_sub(rat_of_int(1), a@),
        r.wf(),
{
    proof {
        law_q_pochhammer_first_factor(*a, q@);
    }
    let mut result = Rat::from_i64(1);
    let mut k: u32 = 0;
    while k < n
        invariant
            k <= n,
            a.wf(),
            q.wf(),
            result.wf(),
            result@ == q_pochhammer_spec(a@, q@, k as nat),
        decreases n - k,
    {
        let q_k = q_power(q, k as i64);
        let term = Rat::from_i64(1).sub(&a.mul(&q_k));
        result = result.mul(&term);
        k = k + 1;
    }
    result
}

/// The left side, sum over n with n^2 < prec, up to `count` terms, of q^(n^2) / (q;q)_n,
/// skipping terms whose denominator vanishes.
pub open spec fn rr_lhs(q: (int, int), count: nat) -> (int, int)
    decreases count,
{
    if count == 0 {
        rat_of_int(0)
    } else {
        let n = (count - 1) as nat;
        let prev = rr_lhs(q, n);
        let poch = q_pochhammer_spec(q, q, n);
        if poch.0 != 0 {
            rat_add(prev, rat_div(q_power_spec(q, (n * n) as int), poch))
        } else {
            prev
        }
    }
}

/// The right side, prod over the first `count` k of 1 / ((1 - q^(5k+1)) (1 - q^(5k+4))),
/// skipping factors that vanish.
pub open spec fn rr_rhs(q: (int, int), count: nat) -> (int, int)
    decreases count,
{
    if count == 0 {
        rat_of_int(1)
    } else {
        let k = (count - 1) as nat;
        let prev = rr_rhs(q, k);
        let q1 = rat_sub(rat_of_int(1), q_power_spec(q, (5 * k + 1) as int));
        let q4 = rat_sub(rat_of_int(1), q_power_spec(q, (5 * k + 4) as int));
        if q1.0 != 0 && q4.0 != 0 {
            rat_div(prev, rat_mul(q1, q4))
        } else {
            prev
        }
    }
}

/// Whether the truncated sides of the first Rogers-Ramanujan identity at `q`
/// differ by less than 1/1000000: the left side over n with n^2 < prec, the
/// right side over k with 5k + 4 < prec.
pub open spec fn rr_check_spec(q: (int, int), prec: nat, lhs_count: nat, rhs_count: nat) -> bool {
    rat_lt(rat_abs(rat_sub(rr_lhs(q, lhs_count), rr_rhs(q, rhs_count))), rat_of_pair(1, 1000000))
}

/// The largest precision for which the loop bound n * n stays in 32 bits.
pub open spec fn rr_prec_limit() -> nat {
    0xFFFE_0001
}

/// Checks the first Rogers-Ramanujan identity, truncated at `prec`, at a rational q.
pub fn rogers_ramanujan_check(q: &Rat, prec: u32) -> (b: bool)
    requires
        q.wf(),
        prec <= rr_prec_limit(),
    ensures
        exists|lc: nat, rc: nat|
            {
                &&& lc * lc >= prec
                &&& (lc == 0 || (lc - 1) * (lc - 1) < prec)
                &&& 5 * rc + 4 >= prec
                &&& (rc == 0 || 5 * (rc - 1) + 4 < prec)
                &&& b == rr_check_spec(q@, prec as nat, lc, rc)
            },
{
    let mut lhs = Rat::zero();
    let mut n: u32 = 0;
    while n * n < prec
        invariant
            q.wf(),
            prec <= rr_prec_limit(),
            n <= 0xFFFF,
            n * n <= 0xFFFE_0001,
            n == 0 || (n - 1) * (n - 1) < prec,
            lhs.wf(),
            lhs@ == rr_lhs(q@, n as nat),
        decreases 0x10000 - n,
    {
        proof {
            assert(n < 0xFFFF) by (nonlinear_arith)
                requires
                    n * n < prec,
                    prec <= 0xFFFE_0001,
                    n <= 0xFFFF,
            ;
            assert((n + 1) * (n + 1) <= 0xFFFE_0001) by (nonlinear_arith)
                requires
                    n < 0xFFFF,
            ;
        }
        let q_n2 = q_power(q, (n * n) as i64);
        let poch = q_pochhammer(q, q, n);
        if !poch.is_zero() {
            lhs = lhs.add(&q_n2.div(&poch));
        }
        n = n + 1;
    }
    let mut rhs = Rat::from_i64(1);
    let mut k: u32 = 0;
    while 5 * k + 4 < prec
        invariant
            q.wf(),
            prec <= rr_prec_limit(),
            5 * k <= prec,
            k == 0 || 5 * (k - 1) + 4 < prec,
            rhs.wf(),
            rhs@ == rr_rhs(q@, k as nat),
        decreases prec - 5 * k,
    {
        let one = Rat::from_i64(1);
        let q1 = one.sub(&q_power(q, (5 * k + 1) as i64));
        let q4 = one.sub(&q_power(q, (5 * k + 4) as i64));
        if !q1.is_zero() && !q4.is_zero() {
            let prod = q1.mul(&q4);
            proof {
                assert(prod@.0 != 0) by {
                    crate::rational::lemma_mul_nonzero(q1, q4);
                }
            }
            rhs = rhs.div(&prod);
        }
        k = k + 1;
    }
    let diff = lhs.sub(&rhs).abs();
    let tol = Rat::from_pair(1, 1000000);
    let b = diff.lt(&tol);
    proof {
        assert(b == rr_check_spec(q@, prec as nat, n as nat, k as nat));
    }
    b
}

} // verus!

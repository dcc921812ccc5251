//! Hecke operators of coprime index compose to the operator of their product:
//! T_m (T_n f) = T_mn f, coefficient by coefficient.

use vstd::prelude::*;
use crate::bignat::{gcd_spec, nat_pow, lemma_gcd_divides, lemma_gcd_scale};
use crate::hecke::{divisor_list, hecke_coeff, hecke_sum, hecke_term, law_divisor_list};
use crate::rational::lemma_common_divisor_divides_gcd;

verus! {

/// The sum of `f` over a list.
pub open spec fn list_sum(s: Seq<nat>, f: spec_fn(nat) -> int) -> int
    decreases s.len(),
{
    if s.len() == 0 {
        0
    } else {
        list_sum(s.drop_last(), f) + f(s.last())
    }
}

proof fn lemma_sum_concat(s: Seq<nat>, t: Seq<nat>, f: spec_fn(nat) -> int)
    ensures
        list_sum(s + t, f) == list_sum(s, f) + list_sum(t, f),
    decreases t.len(),
{
    if t.len() == 0 {
        assert(s + t =~= s);
    } else {
        assert((s + t).drop_last() =~= s + t.drop_last());
        lemma_sum_concat(s, t.drop_last(), f);
    }
}

proof fn lemma_sum_remove(s: Seq<nat>, i: int, f: spec_fn(nat) -> int)
    requires
        0 <= i < s.len(),
    ensures
        list_sum(s, f) == list_sum(s.remove(i), f) + f(s[i]),
    decreases s.len(),
{
    if i == s.len() - 1 {
        assert(s.remove(i) =~= s.drop_last());
    } else {
        lemma_sum_remove(s.drop_last(), i, f);
        assert(s.remove(i).drop_last() =~= s.drop_last().remove(i));
        assert(s.remove(i).last() == s.last());
    }
}

/// Sums over two duplicate-free lists of the same elements agree.
proof fn lemma_sum_same_elements(s: Seq<nat>, t: Seq<nat>, f: spec_fn(nat) -> int)
    requires
        s.no_duplicates(),
        t.no_duplicates(),
        forall|x: nat| s.contains(x) <==> t.contains(x),
    ensures
        list_sum(s, f) == list_sum(t, f),
    decreases s.len(),
{
    if s.len() == 0 {
        if t.len() > 0 {
            assert(t.contains(t[0]));
        }
    } else {
        let x = s.last();
        assert(s.contains(x));
        let i = t.index_of(x);
        let t2 = t.remove(i);
        let s2 = s.drop_last();
        lemma_sum_remove(t, i, f);
        assert forall|y: nat| s2.contains(y) <==> t2.contains(y) by {
            if s2.contains(y) {
                let a = choose|a: int| 0 <= a < s2.len() && s2[a] == y;
                assert(s[a] == y);
                assert(y != x);
                assert(t.contains(y));
                let b = choose|b: int| 0 <= b < t.len() && t[b] == y;
                assert(b != i);
                if b < i {
                    assert(t2[b] == y);
                } else {
                    assert(t2[b - 1] == y);
                }
            }
            if t2.contains(y) {
                let b = choose|b: int| 0 <= b < t2.len() && t2[b] == y;
                let b2 = if b < i { b } else { b + 1 };
                assert(t[b2] == y);
                assert(b2 != i);
                assert(y != x);
                assert(t.contains(y));
                let a = choose|a: int| 0 <= a < s.len() && s[a] == y;
                assert(a != s.len() - 1);
                assert(s2[a] == y);
            }
        }
        assert(t2.no_duplicates()) by {
            assert forall|p: int, q: int| 0 <= p < t2.len() && 0 <= q < t2.len() && p != q implies t2[p] != t2[q] by {
                let p2 = if p < i { p } else { p + 1 };
                let q2 = if q < i { q } else { q + 1 };
                assert(t2[p] == t[p2] && t2[q] == t[q2]);
            }
        }
        lemma_sum_same_elements(s2, t2, f);
    }
}

/// `d` divides `x`.
pub open spec fn divides(d: nat, x: nat) -> bool {
    d >= 1 && x % d == 0
}

proof fn lemma_divides_intro(d: nat, u: nat, x: nat)
    requires
        d >= 1,
        x == d * u,
    ensures
        divides(d, x),
{
    vstd::arithmetic::div_mod::lemma_mod_multiples_basic(u as int, d as int);
    assert(u * d == d * u) by (nonlinear_arith);
}

proof fn lemma_divides_elim(d: nat, x: nat)
    requires
        divides(d, x),
    ensures
        x == d * (x / d),
{
    vstd::arithmetic::div_mod::lemma_fundamental_div_mod(x as int, d as int);
}

proof fn lemma_divides_trans(d: nat, e: nat, x: nat)
    requires
        divides(d, e),
        divides(e, x),
    ensures
        divides(d, x),
{
    lemma_divides_elim(d, e);
    lemma_divides_elim(e, x);
    let v = e / d;
    let u = x / e;
    assert(x == d * (v * u)) by (nonlinear_arith)
        requires
            x == e * u,
            e == d * v,
    ;
    lemma_divides_intro(d, v * u, x);
}

proof fn lemma_divides_mul(d: nat, x: nat, c: nat)
    requires
        divides(d, x),
    ensures
        divides(d, x * c),
{
    lemma_divides_elim(d, x);
    let u = x / d;
    assert(x * c == d * (u * c)) by (nonlinear_arith)
        requires
            x == d * u,
    ;
    lemma_divides_intro(d, u * c, x * c);
}

/// The divisors of gcd(x, y) are the common divisors of x and y.
proof fn lemma_gcd_divisors(x: nat, y: nat, d: nat)
    requires
        x > 0 || y > 0,
    ensures
        gcd_spec(x, y) > 0,
        divides(d, gcd_spec(x, y)) <==> divides(d, x) && divides(d, y),
{
    lemma_gcd_divides(x, y);
    let g = gcd_spec(x, y);
    if divides(d, g) {
        lemma_divides_trans(d, g, x);
        lemma_divides_trans(d, g, y);
    }
    if divides(d, x) && divides(d, y) {
        lemma_common_divisor_divides_gcd(x, y, d);
    }
}

/// Euclid's lemma: a divisor of b c coprime to b divides c.
proof fn lemma_euclid(a: nat, b: nat, c: nat)
    requires
        divides(a, b * c),
        gcd_spec(a, b) == 1,
    ensures
        divides(a, c),
{
    if c == 0 {
        assert(0nat % a == 0) by {
            vstd::arithmetic::div_mod::lemma_small_mod(0, a);
        }
    } else {
        lemma_gcd_scale(c, a, b);
        assert(c * a == a * c && c * b == b * c) by (nonlinear_arith);
        lemma_divides_intro(a, c, a * c);
        assert(divides(a, c * a));
        assert(divides(a, c * b));
        lemma_common_divisor_divides_gcd(c * a, c * b, a);
        assert(c * gcd_spec(a, b) == c) by (nonlinear_arith)
            requires
                gcd_spec(a, b) == 1,
        ;
    }
}

/// Divisors of coprime numbers are coprime.
proof fn lemma_coprime_divisors(m: nat, n: nat, d: nat, e: nat)
    requires
        gcd_spec(m, n) == 1,
        divides(d, m),
        divides(e, n),
    ensures
        gcd_spec(d, e) == 1,
{
    lemma_gcd_divisors(d, e, gcd_spec(d, e));
    let g = gcd_spec(d, e);
    lemma_gcd_divides(d, e);
    assert(divides(g, g)) by {
        vstd::arithmetic::div_mod::lemma_mod_self_0(g as int);
    }
    lemma_divides_trans(g, d, m);
    lemma_divides_trans(g, e, n);
    lemma_common_divisor_divides_gcd(m, n, g);
    assert(g <= 1) by {
        vstd::arithmetic::div_mod::lemma_mod_self_0(g as int);
        if g > 1 {
            vstd::arithmetic::div_mod::lemma_small_mod(1, g);
        }
    }
}

/// Coprime divisors of j divide j together.
proof fn lemma_product_divides(d: nat, e: nat, j: nat)
    requires
        divides(d, j),
        divides(e, j),
        gcd_spec(e, d) == 1,
    ensures
        divides(d * e, j),
{
    lemma_divides_elim(d, j);
    let x = j / d;
    lemma_euclid(e, d, x);
    lemma_divides_elim(e, x);
    let y = x / e;
    assert(d * e >= 1) by (nonlinear_arith)
        requires
            d >= 1,
            e >= 1,
    ;
    assert(j == (d * e) * y) by (nonlinear_arith)
        requires
            j == d * x,
            x == e * y,
    ;
    lemma_divides_intro(d * e, y, j);
}

proof fn lemma_sum_pointwise(s: Seq<nat>, f: spec_fn(nat) -> int, g: spec_fn(nat) -> int)
    requires
        forall|i: int| 0 <= i < s.len() ==> f(#[trigger] s[i]) == g(s[i]),
    ensures
        list_sum(s, f) == list_sum(s, g),
    decreases s.len(),
{
    if s.len() > 0 {
        assert(s.last() == s[s.len() - 1]);
        assert forall|i: int| 0 <= i < s.drop_last().len() implies f(#[trigger] s.drop_last()[i]) == g(
            s.drop_last()[i],
        ) by {
            assert(s.drop_last()[i] == s[i]);
        }
        lemma_sum_pointwise(s.drop_last(), f, g);
    }
}

proof fn lemma_sum_scale(s: Seq<nat>, f: spec_fn(nat) -> int, c: int)
    ensures
        c * list_sum(s, f) == list_sum(s, |x: nat| c * f(x)),
    decreases s.len(),
{
    if s.len() > 0 {
        lemma_sum_scale(s.drop_last(), f, c);
        let a = list_sum(s.drop_last(), f);
        let b = f(s.last());
        assert(c * (a + b) == c * a + c * b) by (nonlinear_arith);
    }
}

proof fn lemma_sum_map(s: Seq<nat>, d: nat, h: spec_fn(nat) -> int)
    ensures
        list_sum(s, |e: nat| h(d * e)) == list_sum(s.map_values(|e: nat| d * e), h),
    decreases s.len(),
{
    if s.len() > 0 {
        lemma_sum_map(s.drop_last(), d, h);
        assert(s.map_values(|e: nat| d * e).drop_last() =~= s.drop_last().map_values(|e: nat| d * e));
    }
}

/// The products d e for d in `ds` and e in `es`, grouped by d.
pub open spec fn prod_list(ds: Seq<nat>, es: Seq<nat>) -> Seq<nat>
    decreases ds.len(),
{
    if ds.len() == 0 {
        seq![]
    } else {
        prod_list(ds.drop_last(), es) + es.map_values(|e: nat| ds.last() * e)
    }
}

proof fn lemma_sum_prod_list(ds: Seq<nat>, es: Seq<nat>, h: spec_fn(nat) -> int)
    ensures
        list_sum(ds, |d: nat| list_sum(es, |e: nat| h(d * e))) == list_sum(prod_list(ds, es), h),
    decreases ds.len(),
{
    if ds.len() > 0 {
        lemma_sum_prod_list(ds.drop_last(), es, h);
        let d = ds.last();
        lemma_sum_concat(prod_list(ds.drop_last(), es), es.map_values(|e: nat| d * e), h);
        lemma_sum_map(es, d, h);
    }
}

proof fn lemma_prod_list_elements(ds: Seq<nat>, es: Seq<nat>)
    ensures
        forall|t: nat| #[trigger] prod_list(ds, es).contains(t) ==> exists|i: int, j: int|
            0 <= i < ds.len() && 0 <= j < es.len() && t == ds[i] * es[j],
        forall|i: int, j: int| 0 <= i < ds.len() && 0 <= j < es.len() ==> prod_list(ds, es).contains(
            #[trigger] (ds[i] * es[j]),
        ),
    decreases ds.len(),
{
    if ds.len() > 0 {
        let d0 = ds.drop_last();
        let d = ds.last();
        let blk = es.map_values(|e: nat| d * e);
        let pl = prod_list(d0, es);
        lemma_prod_list_elements(d0, es);
        assert(prod_list(ds, es) == pl + blk);
        assert forall|t: nat| #[trigger] prod_list(ds, es).contains(t) implies exists|i: int, j: int|
            0 <= i < ds.len() && 0 <= j < es.len() && t == ds[i] * es[j] by {
            let k = choose|k: int| 0 <= k < (pl + blk).len() && (pl + blk)[k] == t;
            if k < pl.len() {
                assert(pl.contains(t));
                let (i, j) = choose|i: int, j: int| 0 <= i < d0.len() && 0 <= j < es.len() && t == d0[i] * es[j];
                assert(ds[i] == d0[i]);
            } else {
                let j = k - pl.len();
                assert(blk[j] == d * es[j]);
                assert(ds[ds.len() - 1] == d);
            }
        }
        assert forall|i: int, j: int| 0 <= i < ds.len() && 0 <= j < es.len() implies prod_list(ds, es).contains(
            #[trigger] (ds[i] * es[j]),
        ) by {
            if i < d0.len() {
                assert(d0[i] == ds[i]);
                assert(pl.contains(d0[i] * es[j]));
                let k = choose|k: int| 0 <= k < pl.len() && pl[k] == d0[i] * es[j];
                assert((pl + blk)[k] == ds[i] * es[j]);
            } else {
                assert(blk[j] == d * es[j]);
                assert((pl + blk)[pl.len() + j] == ds[i] * es[j]);
            }
        }
    }
}

proof fn lemma_prod_list_no_duplicates(ds: Seq<nat>, es: Seq<nat>)
    requires
        ds.no_duplicates(),
        es.no_duplicates(),
        forall|i1: int, j1: int, i2: int, j2: int|
            0 <= i1 < ds.len() && 0 <= j1 < es.len() && 0 <= i2 < ds.len() && 0 <= j2 < es.len()
                && #[trigger] (ds[i1] * es[j1]) == #[trigger] (ds[i2] * es[j2]) ==> i1 == i2 && j1 == j2,
    ensures
        prod_list(ds, es).no_duplicates(),
    decreases ds.len(),
{
    if ds.len() > 0 {
        let d0 = ds.drop_last();
        let d = ds.last();
        let n = ds.len() - 1;
        let blk = es.map_values(|e: nat| d * e);
        let pl = prod_list(d0, es);
        assert forall|i1: int, j1: int, i2: int, j2: int|
            0 <= i1 < d0.len() && 0 <= j1 < es.len() && 0 <= i2 < d0.len() && 0 <= j2 < es.len()
                && #[trigger] (d0[i1] * es[j1]) == #[trigger] (d0[i2] * es[j2]) implies i1 == i2 && j1 == j2 by {
            assert(d0[i1] == ds[i1] && d0[i2] == ds[i2]);
        }
        assert(d0.no_duplicates()) by {
            assert forall|p: int, q: int| 0 <= p < d0.len() && 0 <= q < d0.len() && p != q implies d0[p] != d0[q] by {
                assert(d0[p] == ds[p] && d0[q] == ds[q]);
            }
        }
        lemma_prod_list_no_duplicates(d0, es);
        lemma_prod_list_elements(d0, es);
        assert(prod_list(ds, es) == pl + blk);
        assert forall|p: int, q: int| 0 <= p < (pl + blk).len() && 0 <= q < (pl + blk).len() && p != q
            implies (pl + blk)[p] != (pl + blk)[q] by {
            if p < pl.len() && q < pl.len() {
            } else if p >= pl.len() && q >= pl.len() {
                let jp = p - pl.len();
                let jq = q - pl.len();
                assert(blk[jp] == ds[n] * es[jp] && blk[jq] == ds[n] * es[jq]);
            } else {
                let (pa, qb) = if p < pl.len() { (p, q) } else { (q, p) };
                let t = pl[pa];
                assert(pl.contains(t));
                let (i, j) = choose|i: int, j: int| 0 <= i < d0.len() && 0 <= j < es.len() && t == d0[i] * es[j];
                let jb = qb - pl.len();
                assert(blk[jb] == ds[n] * es[jb]);
                assert(d0[i] == ds[i]);
                if t == blk[jb] {
                    assert(ds[i] * es[j] == ds[n] * es[jb]);
                }
            }
        }
    }
}

proof fn lemma_hecke_sum_is_list_sum(n: nat, k: nat, a: Seq<int>, m: nat, ds: Seq<nat>)
    ensures
        hecke_sum(n, k, a, m, ds) == list_sum(ds, |d: nat| hecke_term(n, k, a, m, d)),
    decreases ds.len(),
{
    if ds.len() > 0 {
        lemma_hecke_sum_is_list_sum(n, k, a, m, ds.drop_last());
    }
}

proof fn lemma_divides_self(x: nat)
    requires
        x >= 1,
    ensures
        divides(x, x),
{
    vstd::arithmetic::div_mod::lemma_mod_self_0(x as int);
}

/// Positive numbers that divide each other are equal.
proof fn lemma_mutual_divides(x: nat, y: nat)
    requires
        divides(x, y),
        divides(y, x),
        x >= 1,
        y >= 1,
    ensures
        x == y,
{
    lemma_divides_elim(x, y);
    lemma_divides_elim(y, x);
    let u = y / x;
    let v = x / y;
    assert(x == y) by (nonlinear_arith)
        requires
            y == x * u,
            x == y * v,
            x >= 1,
            y >= 1,
    ;
}

proof fn lemma_gcd_sym(a: nat, b: nat)
    requires
        a >= 1,
        b >= 1,
    ensures
        gcd_spec(a, b) == gcd_spec(b, a),
{
    let g = gcd_spec(a, b);
    let h = gcd_spec(b, a);
    lemma_gcd_divides(a, b);
    lemma_gcd_divides(b, a);
    lemma_gcd_divisors(a, b, h);
    lemma_gcd_divisors(b, a, g);
    lemma_divides_self(g);
    lemma_divides_self(h);
    lemma_gcd_divisors(a, b, g);
    lemma_gcd_divisors(b, a, h);
    lemma_mutual_divides(g, h);
}

proof fn lemma_nat_pow_mul(d: nat, e: nat, x: nat)
    ensures
        nat_pow(d, x) * nat_pow(e, x) == nat_pow(d * e, x),
    decreases x,
{
    let de: nat = d * e;
    if x > 0 {
        let y = (x - 1) as nat;
        lemma_nat_pow_mul(d, e, y);
        let pd: int = nat_pow(d, y) as int;
        let pe: int = nat_pow(e, y) as int;
        let pde: int = nat_pow(de, y) as int;
        assert(pd * pe == pde);
        assert(nat_pow(d, x) as int == d * pd);
        assert(nat_pow(e, x) as int == e * pe);
        assert(nat_pow(de, x) as int == de * pde);
        assert((d * pd) * (e * pe) == (d * e) * (pd * pe)) by (nonlinear_arith);
        assert(de as int == d * e);
    } else {
        assert(nat_pow(d, x) == 1 && nat_pow(e, x) == 1 && nat_pow(de, x) == 1);
    }
}

/// A divisor t of m n and j, for coprime m and n, is d e with d = gcd(t, m)
/// dividing m and j and e = t / d dividing n and j.
proof fn lemma_factor(m: nat, n: nat, j: nat, t: nat)
    requires
        m >= 1,
        n >= 1,
        gcd_spec(m, n) == 1,
        divides(t, m * n),
        divides(t, j),
    ensures
        divides(gcd_spec(t, m), m),
        divides(gcd_spec(t, m), j),
        divides(t / gcd_spec(t, m), n),
        divides(t / gcd_spec(t, m), j),
        t == gcd_spec(t, m) * (t / gcd_spec(t, m)),
{
    let d = gcd_spec(t, m);
    lemma_gcd_divides(t, m);
    assert(divides(d, t) && divides(d, m));
    lemma_divides_elim(d, t);
    lemma_divides_elim(d, m);
    let e = t / d;
    let m1 = m / d;
    assert(e >= 1 && m1 >= 1) by (nonlinear_arith)
        requires
            t == d * e,
            m == d * m1,
            t >= 1,
            m >= 1,
    ;
    lemma_gcd_scale(d, e, m1);
    assert(gcd_spec(e, m1) == 1) by (nonlinear_arith)
        requires
            d * gcd_spec(e, m1) == d,
            d >= 1,
    ;
    lemma_divides_elim(t, m * n);
    let w = (m * n) / t;
    assert(m1 * n == e * w) by (nonlinear_arith)
        requires
            m * n == t * w,
            t == d * e,
            m == d * m1,
            d >= 1,
    ;
    lemma_divides_intro(e, w, m1 * n);
    lemma_gcd_sym(e, m1);
    lemma_euclid(e, m1, n);
    assert(t == e * d) by (nonlinear_arith)
        requires
            t == d * e,
    ;
    lemma_divides_intro(e, d, t);
    lemma_divides_trans(e, t, j);
    lemma_divides_trans(d, t, j);
}

/// The first `len` coefficients of T_n f, for f with coefficients `a`.
pub open spec fn hecke_table(n: nat, k: nat, a: Seq<int>, len: nat) -> Seq<int> {
    Seq::new(len, |i: int| hecke_coeff(n, k, a, i as nat))
}

/// For d | m, d | j, the cofactor m j / d^2 is (m / d) (j / d).
proof fn lemma_cofactor_index(m: nat, j: nat, d: nat)
    requires
        divides(d, m),
        divides(d, j),
    ensures
        (m * j) / (d * d) == (m / d) * (j / d),
        m == d * (m / d),
        j == d * (j / d),
{
    lemma_divides_elim(d, m);
    lemma_divides_elim(d, j);
    let m1 = m / d;
    let j1 = j / d;
    assert(m * j == (m1 * j1) * (d * d)) by (nonlinear_arith)
        requires
            m == d * m1,
            j == d * j1,
    ;
    assert(d * d > 0) by (nonlinear_arith)
        requires
            d >= 1,
    ;
    vstd::arithmetic::div_mod::lemma_div_by_multiple((m1 * j1) as int, (d * d) as int);
}

/// For d | m and d | j, the divisors of gcd(n, m j / d^2) are those of gcd(n, j).
proof fn lemma_inner_divisors(m: nat, n: nat, j: nat, d: nat, e: nat)
    requires
        m >= 1,
        n >= 1,
        gcd_spec(m, n) == 1,
        divides(d, m),
        divides(d, j),
    ensures
        divides(e, gcd_spec(n, (m * j) / (d * d))) <==> divides(e, gcd_spec(n, j)),
{
    lemma_cofactor_index(m, j, d);
    let m1 = m / d;
    let j1 = j / d;
    let i = (m * j) / (d * d);
    lemma_gcd_divisors(n, i, e);
    lemma_gcd_divisors(n, j, e);
    if divides(e, n) {
        assert(m1 >= 1) by (nonlinear_arith)
            requires
                m == d * m1,
                m >= 1,
        ;
        assert(m == m1 * d) by (nonlinear_arith)
            requires
                m == d * m1,
        ;
        lemma_divides_intro(m1, d, m);
        lemma_coprime_divisors(m, n, d, e);
        lemma_coprime_divisors(m, n, m1, e);
        lemma_gcd_sym(d, e);
        lemma_gcd_sym(m1, e);
        // e | m1 j1 <==> e | j1 <==> e | d j1
        if divides(e, i) {
            lemma_euclid(e, m1, j1);
            lemma_divides_mul(e, j1, d);
            assert(j1 * d == j) by (nonlinear_arith)
                requires
                    j == d * j1,
            ;
        }
        if divides(e, j) {
            lemma_euclid(e, d, j1);
            lemma_divides_mul(e, j1, m1);
            assert(j1 * m1 == i) by (nonlinear_arith)
                requires
                    i == m1 * j1,
            ;
        }
    }
}

/// One term of T_m (T_n f): d^(k-1) times the term of T_n at m j / d^2 for e
/// is the term of T_mn at j for d e, with both coefficients known.
proof fn lemma_term_product(
    m: nat,
    n: nat,
    k: nat,
    a: Seq<int>,
    p: nat,
    j: nat,
    d: nat,
    e: nat,
)
    requires
        m >= 1,
        n >= 1,
        gcd_spec(m, n) == 1,
        p >= 1,
        a.len() >= m * n * p,
        j < p,
        divides(d, m),
        divides(d, j),
        divides(e, n),
        divides(e, j),
    ensures
        (m * j) / (d * d) < m * p,
        nat_pow(d, (k - 1) as nat) * hecke_term(n, k, a, (m * j) / (d * d), e) == hecke_term(
            m * n,
            k,
            a,
            j,
            d * e,
        ),
{
    lemma_cofactor_index(m, j, d);
    let m1 = m / d;
    let j1 = j / d;
    let i = (m * j) / (d * d);
    lemma_coprime_divisors(m, n, d, e);
    lemma_gcd_sym(d, e);
    assert(j == d * j1);
    lemma_euclid(e, d, j1);
    lemma_divides_elim(e, j1);
    lemma_divides_elim(e, n);
    let j2 = j1 / e;
    let n1 = n / e;
    let idx = m1 * n1 * j2;
    assert(m1 <= m && n1 <= n && j1 <= j && j2 <= j1) by (nonlinear_arith)
        requires
            m == d * m1,
            n == e * n1,
            j == d * j1,
            j1 == e * j2,
            d >= 1,
            e >= 1,
    ;
    assert(i < m * p) by (nonlinear_arith)
        requires
            i == m1 * j1,
            m1 <= m,
            j1 <= j,
            j < p,
            m >= 1,
    ;
    assert(idx < m * n * p) by (nonlinear_arith)
        requires
            idx == m1 * n1 * j2,
            m1 <= m,
            n1 <= n,
            j2 <= j1,
            j1 <= j,
            j < p,
            m >= 1,
            n >= 1,
    ;
    // the index of the inner term: n i / e^2 == m1 n1 j2
    assert(n * i == idx * (e * e)) by (nonlinear_arith)
        requires
            n == e * n1,
            i == m1 * j1,
            j1 == e * j2,
            idx == m1 * n1 * j2,
    ;
    assert(e * e > 0) by (nonlinear_arith)
        requires
            e >= 1,
    ;
    vstd::arithmetic::div_mod::lemma_div_by_multiple(idx as int, (e * e) as int);
    assert((n * i) / (e * e) == idx);
    // the index of the outer term: m n j / (d e)^2 == m1 n1 j2
    let de = d * e;
    assert((m * n) * j == idx * (de * de)) by (nonlinear_arith)
        requires
            m == d * m1,
            n == e * n1,
            j == d * j1,
            j1 == e * j2,
            idx == m1 * n1 * j2,
            de == d * e,
    ;
    assert(de * de > 0) by (nonlinear_arith)
        requires
            d >= 1,
            e >= 1,
            de == d * e,
    ;
    vstd::arithmetic::div_mod::lemma_div_by_multiple(idx as int, (de * de) as int);
    assert(((m * n) * j) / (de * de) == idx);
    lemma_nat_pow_mul(d, e, (k - 1) as nat);
    let pd = nat_pow(d, (k - 1) as nat);
    let pe = nat_pow(e, (k - 1) as nat);
    let v = a[idx as int];
    assert(pd * (pe * v) == (pd * pe) * v) by (nonlinear_arith);
}

/// Hecke operators of coprime index compose to the operator of their product:
/// for coprime m, n >= 1 and a form f whose coefficients `a` reach m n p, the
/// j-th coefficient (j < p) of T_m applied to the first m p coefficients of
/// T_n f is the j-th coefficient of T_mn f.
pub proof fn law_hecke_multiplicative(m: nat, n: nat, k: nat, a: Seq<int>, p: nat, j: nat)
    requires
        m >= 1,
        n >= 1,
        gcd_spec(m, n) == 1,
        p >= 1,
        a.len() >= m * n * p,
        j < p,
    ensures
        hecke_coeff(m, k, hecke_table(n, k, a, m * p), j) == hecke_coeff(m * n, k, a, j),
{
    let g = hecke_table(n, k, a, m * p);
    let mn = m * n;
    assert(mn >= 1) by (nonlinear_arith)
        requires
            m >= 1,
            n >= 1,
            mn == m * n,
    ;
    let gm = gcd_spec(m, j);
    let gn = gcd_spec(n, j);
    let gt = gcd_spec(mn, j);
    let ds = divisor_list(gm);
    let es = divisor_list(gn);
    let ts = divisor_list(gt);
    law_divisor_list(gm);
    law_divisor_list(gn);
    law_divisor_list(gt);
    lemma_gcd_divisors(m, j, 0);
    lemma_gcd_divisors(n, j, 0);
    lemma_gcd_divisors(mn, j, 0);
    let h = |t: nat| hecke_term(mn, k, a, j, t);
    let outer = |d: nat| hecke_term(m, k, g, j, d);
    let nested = |d: nat| list_sum(es, |e: nat| h(d * e));
    // each outer term is the inner sum over the divisors of gcd(n, j)
    assert forall|x: int| 0 <= x < ds.len() implies outer(#[trigger] ds[x]) == nested(ds[x]) by {
        let d = ds[x];
        assert(ds.contains(d));
        lemma_gcd_divisors(m, j, d);
        assert(divides(d, m) && divides(d, j));
        let i = (m * j) / (d * d);
        let inner = |e: nat| hecke_term(n, k, a, i, e);
        let gi = gcd_spec(n, i);
        lemma_gcd_divisors(n, i, 0);
        law_divisor_list(gi);
        assert forall|e: nat| divisor_list(gi).contains(e) <==> es.contains(e) by {
            lemma_inner_divisors(m, n, j, d, e);
        }
        lemma_hecke_sum_is_list_sum(n, k, a, i, divisor_list(gi));
        lemma_sum_same_elements(divisor_list(gi), es, inner);
        lemma_term_product(m, n, k, a, p, j, d, 1);
        assert(i < g.len());
        assert(g[i as int] == hecke_coeff(n, k, a, i));
        let c = nat_pow(d, (k - 1) as nat) as int;
        assert(outer(d) == c * list_sum(es, inner));
        lemma_sum_scale(es, inner, c);
        assert forall|y: int| 0 <= y < es.len() implies (|e: nat| c * inner(e))(#[trigger] es[y]) == (|e: nat|
            h(d * e))(es[y]) by {
            let e = es[y];
            assert(es.contains(e));
            lemma_gcd_divisors(n, j, e);
            lemma_term_product(m, n, k, a, p, j, d, e);
        }
        lemma_sum_pointwise(es, |e: nat| c * inner(e), |e: nat| h(d * e));
    }
    lemma_hecke_sum_is_list_sum(m, k, g, j, ds);
    lemma_sum_pointwise(ds, outer, nested);
    lemma_sum_prod_list(ds, es, h);
    // the products d e are exactly the divisors of gcd(m n, j), each once
    let ps = prod_list(ds, es);
    lemma_prod_list_elements(ds, es);
    assert forall|i1: int, j1: int, i2: int, j2: int|
        0 <= i1 < ds.len() && 0 <= j1 < es.len() && 0 <= i2 < ds.len() && 0 <= j2 < es.len()
            && #[trigger] (ds[i1] * es[j1]) == #[trigger] (ds[i2] * es[j2]) implies i1 == i2 && j1 == j2 by {
        let d1 = ds[i1];
        let d2 = ds[i2];
        let e1 = es[j1];
        let e2 = es[j2];
        assert(ds.contains(d1) && ds.contains(d2) && es.contains(e1) && es.contains(e2));
        lemma_gcd_divisors(m, j, d1);
        lemma_gcd_divisors(m, j, d2);
        lemma_gcd_divisors(n, j, e1);
        lemma_gcd_divisors(n, j, e2);
        lemma_coprime_divisors(m, n, d1, e2);
        lemma_coprime_divisors(m, n, d2, e1);
        lemma_divides_intro(d1, e1, d1 * e1);
        lemma_divides_intro(d2, e2, d2 * e2);
        assert(d1 * e1 == e2 * d2 && d2 * e2 == e1 * d1) by (nonlinear_arith)
            requires
                d1 * e1 == d2 * e2,
        ;
        lemma_euclid(d1, e2, d2);
        lemma_euclid(d2, e1, d1);
        lemma_mutual_divides(d1, d2);
        assert(e1 == e2) by (nonlinear_arith)
            requires
                d1 * e1 == d2 * e2,
                d1 == d2,
                d1 >= 1,
        ;
    }
    lemma_prod_list_no_duplicates(ds, es);
    assert forall|t: nat| ps.contains(t) <==> ts.contains(t) by {
        if ps.contains(t) {
            let (x, y) = choose|x: int, y: int| 0 <= x < ds.len() && 0 <= y < es.len() && t == ds[x] * es[y];
            let d = ds[x];
            let e = es[y];
            assert(ds.contains(d) && es.contains(e));
            lemma_gcd_divisors(m, j, d);
            lemma_gcd_divisors(n, j, e);
            lemma_coprime_divisors(m, n, d, e);
            lemma_gcd_sym(d, e);
            lemma_product_divides(d, e, j);
            lemma_divides_elim(d, m);
            lemma_divides_elim(e, n);
            let m1 = m / d;
            let n1 = n / e;
            assert(mn == (d * e) * (m1 * n1)) by (nonlinear_arith)
                requires
                    m == d * m1,
                    n == e * n1,
                    mn == m * n,
            ;
            lemma_divides_intro(d * e, m1 * n1, mn);
            lemma_gcd_divisors(mn, j, t);
        }
        if ts.contains(t) {
            lemma_gcd_divisors(mn, j, t);
            lemma_factor(m, n, j, t);
            let d = gcd_spec(t, m);
            let e = t / d;
            lemma_gcd_divisors(m, j, d);
            lemma_gcd_divisors(n, j, e);
            assert(ds.contains(d) && es.contains(e));
            let x = ds.index_of(d);
            let y = es.index_of(e);
            assert(ps.contains(ds[x] * es[y]));
        }
    }
    lemma_sum_same_elements(ps, ts, h);
    lemma_hecke_sum_is_list_sum(mn, k, a, j, ts);
}

} // verus!

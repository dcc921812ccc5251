//! Hecke operators T_n acting on modular forms given by exact q-expansions.

use vstd::prelude::*;
use crate::bignat::{gcd_spec, nat_pow, lemma_gcd_divides};
use crate::bigint::{Int, abs_int};

verus! {

/// The values of a list of integers.
pub open spec fn int_values(v: Seq<Int>) -> Seq<int> {
    v.map_values(|x: Int| x@)
}

/// Every integer of a list is in canonical form.
pub open spec fn all_wf(v: Seq<Int>) -> bool {
    forall|i: int| 0 <= i < v.len() ==> #[trigger] v[i].wf()
}

/// Modular form as a q-expansion: f(q) = sum_{n=0}^{N} a_n q^n.
#[derive(Clone, Debug)]
pub struct ModularForm {
    pub level: u32,
    pub weight: u32,
    pub coeffs: Vec<Int>,
}

impl ModularForm {
    /// The form of the given level and weight with coefficients a_0, a_1, ...
    pub fn new(level: u32, weight: u32, coeffs: Vec<Int>) -> (r: Self)
        ensures
            r.level == level,
            r.weight == weight,
            r.coeffs@ == coeffs@,
    {
        ModularForm { level, weight, coeffs }
    }

    /// The number of known coefficients.
    pub fn prec(&self) -> (r: usize)
        ensures
            r == self.coeffs.len(),
    {
        self.coeffs.len()
    }
}

/// The divisors that the trial-division loop finds from `i` on: for each i with
/// i*i <= n that divides n, first i, then n / i when it differs from i.
pub open spec fn divisor_list_from(n: nat, i: nat) -> Seq<nat>
    decreases n + 1 - i,
{
    if i == 0 || i * i > n {
        seq![]
    } else {
        proof {
            assert(i <= i * i) by (nonlinear_arith)
                requires
                    i >= 1,
            ;
        }
        let here = if n % i == 0 {
            if i != n / i {
                seq![i, n / i]
            } else {
                seq![i]
            }
        } else {
            seq![]
        };
        here + divisor_list_from(n, i + 1)
    }
}

/// The divisors of `n`, in the order trial division finds them.
pub open spec fn divisor_list(n: nat) -> Seq<nat> {
    divisor_list_from(n, 1)
}

/// The largest argument for which trial division up to the square root stays in range.
pub open spec fn divisor_limit() -> nat {
    0xFFFF_FFFE_0000_0001
}

/// Greatest common divisor by Euclid's algorithm.
pub fn gcd(a: u64, b: u64) -> (r: u64)
    ensures
        r == gcd_spec(a as nat, b as nat),
    decreases b,
{
    if b == 0 {
        a
    } else {
        gcd(b, a % b)
    }
}

/// The divisors of `n` by trial division up to its square root.
pub fn divisors(n: u64) -> (divs: Vec<u64>)
    requires
        n < divisor_limit(),
    ensures
        divs@.map_values(|d: u64| d as nat) == divisor_list(n as nat),
        forall|j: int| 0 <= j < divs.len() ==> 1 <= #[trigger] divs[j] <= n && n % divs[j] == 0,
        forall|d: u64| #[trigger] divs@.contains(d) <==> (n > 0 && d >= 1 && n % d == 0),
        divs@.no_duplicates(),
{
    let mut divs: Vec<u64> = Vec::new();
    let mut i: u64 = 1;
    proof {
        assert(divs@.map_values(|d: u64| d as nat) + divisor_list_from(n as nat, 1) =~= divisor_list(
            n as nat,
        ));
    }
    while i * i <= n
        invariant
            1 <= i <= 0xFFFF_FFFF,
            i * i <= 0xFFFF_FFFE_0000_0001,
            n < divisor_limit(),
            divs@.map_values(|d: u64| d as nat) + divisor_list_from(n as nat, i as nat)
                == divisor_list(n as nat),
            forall|j: int| 0 <= j < divs.len() ==> 1 <= #[trigger] divs[j] <= n && n % divs[j] == 0,
        decreases 0x1_0000_0000 - i,
    {
        proof {
            assert(i < 0xFFFF_FFFF) by (nonlinear_arith)
                requires
                    i * i <= n,
                    n < 0xFFFF_FFFE_0000_0001,
                    i >= 1,
            ;
            assert(i <= i * i) by (nonlinear_arith)
                requires
                    i >= 1,
            ;
            assert((i + 1) * (i + 1) <= 0xFFFF_FFFE_0000_0001) by (nonlinear_arith)
                requires
                    i < 0xFFFF_FFFF,
            ;
        }
        let ghost before = divs@;
        if n % i == 0 {
            divs.push(i);
            let q = n / i;
            proof {
                vstd::arithmetic::div_mod::lemma_fundamental_div_mod(n as int, i as int);
                assert(q >= 1) by (nonlinear_arith)
                    requires
                        n == i * q,
                        n >= i,
                        i >= 1,
                ;
                assert(q <= n) by (nonlinear_arith)
                    requires
                        n == i * q,
                        i >= 1,
                ;
                assert(n % q == 0) by {
                    vstd::arithmetic::div_mod::lemma_mod_multiples_basic(i as int, q as int);
                    assert(i * q == n);
                }
            }
            if i != q {
                divs.push(q);
            }
        }
        proof {
            let here = if n % i == 0 {
                if i != n / i {
                    seq![i as nat, (n / i) as nat]
                } else {
                    seq![i as nat]
                }
            } else {
                seq![]
            };
            assert(divisor_list_from(n as nat, i as nat) == here + divisor_list_from(
                n as nat,
                (i + 1) as nat,
            ));
            assert(divs@.map_values(|d: u64| d as nat) =~= before.map_values(|d: u64| d as nat)
                + here);
        }
        i = i + 1;
    }
    proof {
        assert(divisor_list_from(n as nat, i as nat) == Seq::<nat>::empty());
        let dsn = divs@.map_values(|d: u64| d as nat);
        assert(dsn =~= divisor_list(n as nat));
        law_divisor_list(n as nat);
        assert forall|d: u64| #[trigger] divs@.contains(d) <==> (n > 0 && d >= 1 && n % d == 0) by {
            if divs@.contains(d) {
                let k = choose|k: int| 0 <= k < divs.len() && divs@[k] == d;
                assert(dsn[k] == d as nat);
            }
            if n > 0 && d >= 1 && n % d == 0 {
                assert(dsn.contains(d as nat));
                let k = choose|k: int| 0 <= k < dsn.len() && dsn[k] == d as nat;
                assert(divs@[k] == d);
            }
        }
        assert forall|a: int, b: int| 0 <= a < divs.len() && 0 <= b < divs.len() && a != b implies divs@[a]
            != divs@[b] by {
            assert(dsn[a] != dsn[b]);
        }
    }
    divs
}

/// One term of T_n: d^(k-1) a_{nm/d^2}, or nothing when that coefficient is unknown.
pub open spec fn hecke_term(n: nat, k: nat, a: Seq<int>, m: nat, d: nat) -> int {
    let idx = (n * m) / (d * d);
    if idx < a.len() {
        nat_pow(d, (k - 1) as nat) * a[idx as int]
    } else {
        0
    }
}

/// The sum of the terms of T_n over a list of divisors.
pub open spec fn hecke_sum(n: nat, k: nat, a: Seq<int>, m: nat, ds: Seq<nat>) -> int
    decreases ds.len(),
{
    if ds.len() == 0 {
        0
    } else {
        hecke_sum(n, k, a, m, ds.drop_last()) + hecke_term(n, k, a, m, ds.last())
    }
}

/// The m-th coefficient of T_n f for weight k:
/// sum over d | gcd(n, m) of d^(k-1) a_{nm/d^2}, known coefficients only.
pub open spec fn hecke_coeff(n: nat, k: nat, a: Seq<int>, m: nat) -> int {
    hecke_sum(n, k, a, m, divisor_list(gcd_spec(n, m)))
}

/// The inputs on which T_n can be applied up to `prec` without leaving machine range.
pub open spec fn hecke_in_range(n: nat, prec: nat) -> bool {
    prec == 0 || (n * n <= usize::MAX && n * (prec - 1) <= usize::MAX && (n == 0 ==> (prec - 1)
        * (prec - 1) <= usize::MAX))
}

/// The inputs on which the weight is never decremented below zero.
pub open spec fn hecke_weight_ok(weight: nat, n: nat, fprec: nat, prec: nat) -> bool {
    weight >= 1 || fprec == 0 || prec == 0 || (n == 0 && prec == 1)
}

/// The Hecke operator T_n acting on forms of a given weight.
#[derive(Clone, Debug)]
pub struct HeckeOperator {
    pub index: u64,
    pub weight: u32,
}

proof fn lemma_divisor_le(d: nat, g: nat)
    requires
        d >= 1,
        g >= 1,
        g % d == 0,
    ensures
        d <= g,
{
    vstd::arithmetic::div_mod::lemma_fundamental_div_mod(g as int, d as int);
    assert(d <= g) by (nonlinear_arith)
        requires
            g == d * (g / d),
            g >= 1,
            d >= 1,
    ;
}

impl HeckeOperator {
    /// The operator T_n of weight `weight`.
    pub fn new(n: u64, weight: u32) -> (r: Self)
        ensures
            r.index == n,
            r.weight == weight,
    {
        HeckeOperator { index: n, weight }
    }

    /// T_n f up to `prec` coefficients, with a_m = sum_{d | gcd(n,m)} d^(k-1) a_{nm/d^2}.
    pub fn apply(&self, f: &ModularForm, prec: usize) -> (r: ModularForm)
        requires
            hecke_in_range(self.index as nat, prec as nat),
            hecke_weight_ok(self.weight as nat, self.index as nat, f.coeffs.len() as nat, prec as nat),
            all_wf(f.coeffs@),
        ensures
            r.level == f.level,
            r.weight == f.weight,
            r.coeffs.len() == prec,
            all_wf(r.coeffs@),
            forall|m: int| 0 <= m < prec ==> #[trigger] r.coeffs@[m]@ == hecke_coeff(
                self.index as nat,
                self.weight as nat,
                int_values(f.coeffs@),
                m as nat,
            ),
    {
        let n = self.index;
        let k = self.weight;
        let ghost a = int_values(f.coeffs@);
        let mut result: Vec<Int> = Vec::new();
        let mut m: usize = 0;
        while m < prec
            invariant
                n == self.index,
                k == self.weight,
                a == int_values(f.coeffs@),
                all_wf(f.coeffs@),
                hecke_in_range(n as nat, prec as nat),
                hecke_weight_ok(k as nat, n as nat, f.coeffs.len() as nat, prec as nat),
                m <= prec,
                result.len() == m,
                all_wf(result@),
                forall|j: int| 0 <= j < m ==> #[trigger] result@[j]@ == hecke_coeff(
                    n as nat,
                    k as nat,
                    a,
                    j as nat,
                ),
            decreases prec - m,
        {
            let g = gcd(n, m as u64);
            proof {
                lemma_gcd_divides(n as nat, m as nat);
                if n > 0 {
                    lemma_divisor_le(g as nat, n as nat);
                }
                if m > 0 && g > 0 {
                    lemma_divisor_le(g as nat, m as nat);
                }
                assert(n * n <= usize::MAX);
                assert(n <= 0xFFFF_FFFF) by (nonlinear_arith)
                    requires
                        n * n <= 0xFFFF_FFFF_FFFF_FFFF,
                ;
                if n == 0 && m > 0 {
                    assert(g == m) by {
                        assert(gcd_spec(0, m as nat) == gcd_spec(m as nat, 0));
                        vstd::arithmetic::div_mod::lemma_small_mod(0, m as nat);
                    }
                    assert(m * m <= (prec - 1) * (prec - 1)) by (nonlinear_arith)
                        requires
                            m <= prec - 1,
                    ;
                    assert(m <= 0xFFFF_FFFF) by (nonlinear_arith)
                        requires
                            m * m <= 0xFFFF_FFFF_FFFF_FFFF,
                    ;
                }
                if n == 0 && m == 0 {
                    assert(g == 0);
                }
                assert(g <= 0xFFFF_FFFF);
                assert(g < divisor_limit());
            }
            let ds = divisors(g);
            let ghost dsn = ds@.map_values(|d: u64| d as nat);
            let mut coeff = Int::zero();
            let mut j: usize = 0;
            proof {
                assert(n <= n * n) by (nonlinear_arith);
                assert(m * n <= usize::MAX) by (nonlinear_arith)
                    requires
                        n * (prec - 1) <= usize::MAX,
                        m <= prec - 1,
                ;
                assert(n * m == m * n) by (nonlinear_arith);
                if g == 0 {
                    assert(divisor_list(0) == Seq::<nat>::empty());
                }
                assert(dsn.subrange(0, 0) =~= Seq::<nat>::empty());
            }
            while j < ds.len()
                invariant
                    n == self.index,
                    k == self.weight,
                    a == int_values(f.coeffs@),
                    all_wf(f.coeffs@),
                    hecke_weight_ok(k as nat, n as nat, f.coeffs.len() as nat, prec as nat),
                    m < prec,
                    m * n <= usize::MAX,
                    n * m <= usize::MAX,
                    n * n <= usize::MAX,
                    n <= usize::MAX,
                    n == 0 && m > 0 ==> m * m <= usize::MAX,
                    g == gcd_spec(n as nat, m as nat),
                    n > 0 ==> g <= n,
                    m > 0 && g > 0 ==> g <= m,
                    n == 0 && m > 0 ==> g == m,
                    g == 0 ==> ds.len() == 0,
                    dsn == ds@.map_values(|d: u64| d as nat),
                    dsn == divisor_list(g as nat),
                    forall|i: int| 0 <= i < ds.len() ==> 1 <= #[trigger] ds[i] <= g && g % ds[i] == 0,
                    j <= ds.len(),
                    coeff.wf(),
                    coeff@ == hecke_sum(n as nat, k as nat, a, m as nat, dsn.subrange(0, j as int)),
                decreases ds.len() - j,
            {
                let d = ds[j];
                proof {
                    assert(d * d <= usize::MAX) by (nonlinear_arith)
                        requires
                            1 <= d <= g,
                            n > 0 ==> g <= n,
                            m > 0 && g > 0 ==> g <= m,
                            n == 0 && m > 0 ==> g == m,
                            g > 0,
                            m * n <= usize::MAX,
                            n * n <= usize::MAX,
                            n == 0 && m > 0 ==> m * m <= usize::MAX,
                            n > 0 || m > 0,
                    ;
                    assert(d * d >= 1) by (nonlinear_arith)
                        requires
                            d >= 1,
                    ;
                    assert(dsn.subrange(0, j + 1).drop_last() =~= dsn.subrange(0, j as int));
                    assert(dsn[j as int] == d as nat);
                }
                let dd: usize = (d * d) as usize;
                let idx: usize = (n as usize) * m / dd;
                if idx < f.prec() {
                    proof {
                        assert(k >= 1);
                    }
                    let d_pow = Int::pow_u64(d, k - 1);
                    let term = d_pow.mul(&f.coeffs[idx]);
                    coeff = coeff.add(&term);
                }
                j = j + 1;
            }
            proof {
                assert(dsn.subrange(0, ds.len() as int) =~= dsn);
            }
            result.push(coeff);
            m = m + 1;
        }
        ModularForm::new(f.level, f.weight, result)
    }
}

/// Deligne bound check: whether |a_p| <= 2 p^((k-1)/2).
pub fn deligne_bound_holds(a_p: &Int, p: u64, k: u32) -> (b: bool)
    requires
        k >= 1,
        a_p.wf(),
    ensures
        b == (abs_int(a_p@) <= 2 * nat_pow(p as nat, ((k - 1) / 2) as nat)),
{
    let exp = (k - 1) / 2;
    let bound = Int::from_u64(2).mul(&Int::pow_u64(p, exp));
    a_p.abs().le(&bound)
}

proof fn lemma_pow_one(e: nat)
    ensures
        nat_pow(1, e) == 1,
    decreases e,
{
    if e > 0 {
        lemma_pow_one((e - 1) as nat);
    }
}

/// T_1 is the identity: the m-th coefficient of T_1 f is a_m where f knows it,
/// and zero beyond.
pub proof fn law_hecke_identity(k: nat, a: Seq<int>, m: nat)
    ensures
        hecke_coeff(1, k, a, m) == (if m < a.len() {
            a[m as int]
        } else {
            0
        }),
{
    assert(gcd_spec(1, m) == 1) by {
        if m == 1 {
            assert(gcd_spec(1, 0) == 1);
        } else if m > 1 {
            vstd::arithmetic::div_mod::lemma_small_mod(1, m);
            assert(gcd_spec(1, m) == gcd_spec(m, 1));
            assert(gcd_spec(m, 1) == gcd_spec(1, m % 1));
            assert(gcd_spec(1, 0) == 1);
        }
    }
    assert(divisor_list_from(1, 2) == Seq::<nat>::empty());
    assert(divisor_list(1) =~= seq![1nat]);
    let ds = seq![1nat];
    assert(ds.drop_last() =~= Seq::<nat>::empty());
    lemma_pow_one((k - 1) as nat);
    assert((1 * m) / (1nat * 1nat) == m);
    assert(hecke_sum(1, k, a, m, ds) == hecke_sum(1, k, a, m, ds.drop_last()) + hecke_term(
        1,
        k,
        a,
        m,
        1,
    ));
    assert(hecke_sum(1, k, a, m, Seq::<nat>::empty()) == 0);
    if m < a.len() {
        assert(hecke_term(1, k, a, m, 1) == nat_pow(1, (k - 1) as nat) * a[m as int]);
        assert(1 * a[m as int] == a[m as int]);
    }
    assert(hecke_coeff(1, k, a, m) == hecke_sum(1, k, a, m, ds));
}

/// The smaller of a divisor `x` of `n` and its cofactor `n / x`.
pub open spec fn pair_min(n: nat, x: nat) -> nat {
    if x <= n / x {
        x
    } else {
        n / x
    }
}

/// `x` divides `n > 0`.
pub open spec fn is_divisor(n: nat, x: nat) -> bool {
    n > 0 && x >= 1 && n % x == 0
}

proof fn lemma_cofactor(n: nat, x: nat)
    requires
        is_divisor(n, x),
    ensures
        x * (n / x) == n,
        n / x >= 1,
        is_divisor(n, n / x),
        n / (n / x) == x,
{
    vstd::arithmetic::div_mod::lemma_fundamental_div_mod(n as int, x as int);
    let y = n / x;
    assert(x * y == n);
    assert(y >= 1) by (nonlinear_arith)
        requires
            x * y == n,
            n > 0,
            x >= 1,
    ;
    vstd::arithmetic::div_mod::lemma_fundamental_div_mod_converse(n as int, y as int, x as int, 0);
    assert(n % y == 0);
}

proof fn lemma_divisor_list_from(n: nat, i: nat)
    requires
        i >= 1,
    ensures
        forall|x: nat| #[trigger] divisor_list_from(n, i).contains(x) <==> (is_divisor(n, x) && pair_min(n, x) >= i),
        divisor_list_from(n, i).no_duplicates(),
    decreases n + 1 - i,
{
    let l = divisor_list_from(n, i);
    if i * i > n {
        assert forall|x: nat| is_divisor(n, x) implies pair_min(n, x) < i by {
            lemma_cofactor(n, x);
            let y = n / x;
            if pair_min(n, x) >= i {
                assert(x * y >= i * i) by (nonlinear_arith)
                    requires
                        x >= i,
                        y >= i,
                        i >= 1,
                ;
            }
        }
        assert(l =~= Seq::<nat>::empty());
    } else {
        assert(i <= i * i) by (nonlinear_arith)
            requires
                i >= 1,
        ;
        lemma_divisor_list_from(n, i + 1);
        let rest = divisor_list_from(n, i + 1);
        let here = if n % i == 0 {
            if i != n / i {
                seq![i, n / i]
            } else {
                seq![i]
            }
        } else {
            seq![]
        };
        assert(l == here + rest);
        vstd::arithmetic::div_mod::lemma_fundamental_div_mod(n as int, i as int);
        assert(n / i >= i) by (nonlinear_arith)
            requires
                i * i <= n,
                i >= 1,
                n == i * (n / i) + n % i,
                n % i < i,
        ;
        if n % i == 0 {
            lemma_cofactor(n, i);
            assert(pair_min(n, i) == i);
            assert(pair_min(n, n / i) == i);
        }
        assert forall|x: nat| #[trigger] l.contains(x) <== (is_divisor(n, x) && pair_min(n, x) >= i) by {
            if is_divisor(n, x) && pair_min(n, x) >= i {
                lemma_cofactor(n, x);
                if pair_min(n, x) >= i + 1 {
                    assert(rest.contains(x));
                    let k = choose|k: int| 0 <= k < rest.len() && rest[k] == x;
                    assert(l[here.len() + k] == x);
                } else if x <= n / x {
                    assert(x == i);
                    assert(here[0] == x);
                    assert(l[0] == x);
                } else {
                    assert(n / x == i);
                    vstd::arithmetic::div_mod::lemma_fundamental_div_mod_converse(
                        n as int,
                        i as int,
                        x as int,
                        0,
                    );
                    assert(n % i == 0 && n / i == x);
                    assert(here[1] == x);
                    assert(l[1] == x);
                }
            }
        }
        assert forall|x: nat| #[trigger] l.contains(x) ==> (is_divisor(n, x) && pair_min(n, x) >= i) by {
            if l.contains(x) {
                let k = choose|k: int| 0 <= k < l.len() && l[k] == x;
                if k >= here.len() {
                    assert(rest[k - here.len()] == x);
                    assert(rest.contains(x));
                } else {
                    assert(here.contains(x));
                }
            }
        }
        assert forall|a: int, b: int| 0 <= a < l.len() && 0 <= b < l.len() && a != b implies l[a]
            != l[b] by {
            if a < here.len() && b >= here.len() {
                assert(rest.contains(l[b]));
            } else if b < here.len() && a >= here.len() {
                assert(rest.contains(l[a]));
            } else if a >= here.len() && b >= here.len() {
                assert(rest[a - here.len()] != rest[b - here.len()]);
            }
        }
    }
}

/// Trial division finds every divisor of `n`, each once: `d` is in the list
/// exactly when `d >= 1` divides `n > 0`, and no divisor repeats.
pub proof fn law_divisor_list(n: nat)
    ensures
        forall|d: nat| #[trigger] divisor_list(n).contains(d) <==> (n > 0 && d >= 1 && n % d == 0),
        divisor_list(n).no_duplicates(),
{
    lemma_divisor_list_from(n, 1);
    assert forall|d: nat| (n > 0 && d >= 1 && n % d == 0) implies pair_min(n, d) >= 1 by {
        lemma_cofactor(n, d);
    }
}

} // verus!

use vstd::prelude::*;
use crate::bignat::{Nat, base};
use crate::bigint::{Int, abs_int};
use crate::partition::{partition_count, table_fits};
use crate::rational::{Rat, law_rat_canonical, rat_add, rat_mul, rat_div, rat_of_int, rat_of_pair};

pub use crate::partition::partition_numbers;
use std::collections::HashMap;

verus! {

broadcast use vstd::std_specs::hash::group_hash_axioms;

/// AST node for symbolic feature expressions.
#[derive(Debug, PartialEq)]
pub enum FeatureExpr {
    LogReturn,
    PartitionVol { window: usize },
    HeckeCorr { level: u32 },
    Compose(Box<FeatureExpr>, Box<FeatureExpr>),
}

impl Clone for FeatureExpr {
    fn clone(&self) -> (r: Self)
        ensures
            r == *self,
        decreases self,
    {
        match self {
            FeatureExpr::LogReturn => FeatureExpr::LogReturn,
            FeatureExpr::PartitionVol { window } => FeatureExpr::PartitionVol { window: *window },
            FeatureExpr::HeckeCorr { level } => FeatureExpr::HeckeCorr { level: *level },
            FeatureExpr::Compose(a, b) => {
                let a2 = (**a).clone();
                let b2 = (**b).clone();
                FeatureExpr::Compose(Box::new(a2), Box::new(b2))
            },
        }
    }
}

/// Descriptive metadata of a feature.
#[derive(Clone, Debug)]
pub struct FeatureMeta {
    pub arity: usize,
    pub complexity: u32,
    pub algebraic_degree: u32,
}

/// A feature expression together with its metadata.
#[derive(Clone, Debug)]
pub struct SymbolicFeature {
    pub expr: FeatureExpr,
    pub metadata: FeatureMeta,
}

/// The values of a list of rationals.
pub open spec fn rat_values(v: Seq<Rat>) -> Seq<(int, int)> {
    v.map_values(|x: Rat| x@)
}

/// Every rational of a list is in canonical form.
pub open spec fn rats_wf(v: Seq<Rat>) -> bool {
    forall|i: int| 0 <= i < v.len() ==> #[trigger] v[i].wf()
}

// ─── Ramanujan partition volatility ─────────────────────────────────────────

/// The bucket of a return r = n / d (d > 0): floor(10000 |r|) modulo the window,
/// cut to 32 bits.
pub open spec fn bucket_of(r: (int, int), window: nat) -> nat {
    (((10000 * abs_int(r.0)) as int / r.1) as nat % window) % base()
}

/// How many series of `ws` fall into bucket `b`.
pub open spec fn bucket_count(ws: Seq<(int, int)>, window: nat, b: nat) -> nat
    decreases ws.len(),
{
    if ws.len() == 0 {
        0
    } else {
        bucket_count(ws.drop_last(), window, b) + (if bucket_of(ws.last(), window) == b {
            1nat
        } else {
            0nat
        })
    }
}

/// The sum, over buckets below `j` holding some return, of p(count) / p(window).
pub open spec fn entropy_sum(ws: Seq<(int, int)>, window: nat, j: nat) -> (int, int)
    decreases j,
{
    if j == 0 {
        rat_of_int(0)
    } else {
        let prev = entropy_sum(ws, window, (j - 1) as nat);
        let f = bucket_count(ws, window, (j - 1) as nat);
        if f > 0 {
            rat_add(prev, rat_of_pair(partition_count(f), partition_count(window)))
        } else {
            prev
        }
    }
}

/// The partition entropy of one window of series.
pub open spec fn window_entropy(ws: Seq<(int, int)>, window: nat) -> (int, int) {
    if partition_count(window) == 0 {
        rat_of_int(0)
    } else {
        entropy_sum(ws, window, window)
    }
}

/// The partition entropy of every window of `window` consecutive series, in order.
pub open spec fn volatility_spec(series: Seq<(int, int)>, window: nat) -> Seq<(int, int)> {
    if series.len() < window {
        seq![]
    } else {
        Seq::new(
            (series.len() - window + 1) as nat,
            |s: int| window_entropy(series.subrange(s, s + window), window),
        )
    }
}

/// Each output of the volatility belongs to one window: the i-th output for a
/// series is the (only) output for the window series[i .. i + window] on its
/// own, so it depends on those returns alone; there is one output per window.
pub proof fn law_volatility_window_local(series: Seq<(int, int)>, window: nat, i: int)
    requires
        window > 0,
        0 <= i,
        i + window <= series.len(),
    ensures
        volatility_spec(series, window).len() == series.len() - window + 1,
        volatility_spec(series.subrange(i, i + window), window).len() == 1,
        volatility_spec(series, window)[i] == volatility_spec(
            series.subrange(i, i + window),
            window,
        )[0],
{
    let w = series.subrange(i, i + window);
    assert(w.subrange(0, window as int) =~= w);
}

/// Dropping the first return shifts the outputs by one: output i + 1 of a
/// series is output i of the series without its first return.
pub proof fn law_volatility_shift(series: Seq<(int, int)>, window: nat, i: int)
    requires
        window > 0,
        0 <= i,
        i + 1 + window <= series.len(),
    ensures
        volatility_spec(series, window)[i + 1] == volatility_spec(series.drop_first(), window)[i],
{
    assert(series.subrange(i + 1, i + 1 + window) =~= series.drop_first().subrange(i, i + window));
}

proof fn lemma_bucket_count_le(ws: Seq<(int, int)>, window: nat, b: nat)
    ensures
        bucket_count(ws, window, b) <= ws.len(),
    decreases ws.len(),
{
    if ws.len() > 0 {
        lemma_bucket_count_le(ws.drop_last(), window, b);
    }
}

/// How often bucket `b` occurs in a frequency map: 0 when it is absent.
pub open spec fn count_in(freq: Map<usize, usize>, b: usize) -> nat {
    if freq.contains_key(b) {
        freq[b] as nat
    } else {
        0
    }
}

/// The bucket of one return.
fn bucket(r: &Rat, window: usize) -> (b: usize)
    requires
        r.wf(),
        window > 0,
    ensures
        b == bucket_of(r@, window as nat),
        b < window,
{
    proof {
        law_rat_canonical(r);
    }
    let scaled = r.numer().magnitude().mul_small(10000);
    let den = r.denom().magnitude();
    let (floor, _) = scaled.divrem(&den);
    let w = Nat::from_u64(window as u64);
    let (_, rem) = floor.divrem(&w);
    let low = rem.low_u32();
    proof {
        vstd::arithmetic::div_mod::lemma_mod_bound(rem@ as int, base() as int);
    }
    low as usize
}

/// Partition entropy of one window `ws` of size `window`, using the table `cache`.
fn window_entropy_exec(ws: &[Rat], window: usize, cache: &Vec<Int>) -> (e: Rat)
    requires
        ws.len() == window,
        window > 0,
        rats_wf(ws@),
        cache.len() > window,
        forall|j: int| 0 <= j < cache.len() ==> #[trigger] cache[j]@ == partition_count(j as nat),
        forall|j: int| 0 <= j < cache.len() ==> #[trigger] cache[j].wf(),
    ensures
        e@ == window_entropy(rat_values(ws@), window as nat),
        e.wf(),
{
    let ghost vals = rat_values(ws@);
    let mut freq: HashMap<usize, usize> = HashMap::new();
    let mut t: usize = 0;
    while t < window
        invariant
            ws.len() == window,
            window > 0,
            rats_wf(ws@),
            vals == rat_values(ws@),
            t <= window,
            forall|b: usize| b < window ==> #[trigger] count_in(freq@, b) == bucket_count(
                vals.subrange(0, t as int),
                window as nat,
                b as nat,
            ),
        decreases window - t,
    {
        let b = bucket(&ws[t], window);
        proof {
            assert(vals.subrange(0, t + 1).drop_last() =~= vals.subrange(0, t as int));
            assert(vals.subrange(0, t + 1).last() == ws@[t as int]@);
            lemma_bucket_count_le(vals.subrange(0, t as int), window as nat, b as nat);
        }
        let c: usize = match freq.get(&b) {
            Some(v) => *v,
            None => 0,
        };
        assert(c == count_in(freq@, b));
        let ghost before = freq@;
        freq.insert(b, c + 1);
        proof {
            assert forall|b2: usize| b2 < window implies #[trigger] count_in(freq@, b2) == bucket_count(
                vals.subrange(0, t + 1),
                window as nat,
                b2 as nat,
            ) by {
                if b2 != b {
                    assert(count_in(freq@, b2) == count_in(before, b2));
                }
            }
        }
        t = t + 1;
    }
    proof {
        assert(vals.subrange(0, window as int) =~= vals);
    }
    let p_total = &cache[window];
    if p_total.is_zero() {
        return Rat::zero();
    }
    let mut acc = Rat::zero();
    let mut b: usize = 0;
    while b < window
        invariant
            window > 0,
            cache.len() > window,
            forall|j: int| 0 <= j < cache.len() ==> #[trigger] cache[j]@ == partition_count(j as nat),
            forall|j: int| 0 <= j < cache.len() ==> #[trigger] cache[j].wf(),
            forall|b2: usize| b2 < window ==> #[trigger] count_in(freq@, b2) == bucket_count(
                vals,
                window as nat,
                b2 as nat,
            ),
            vals.len() == window,
            p_total@ == partition_count(window as nat),
            p_total.wf(),
            p_total@ != 0,
            b <= window,
            acc.wf(),
            acc@ == entropy_sum(vals, window as nat, b as nat),
        decreases window - b,
    {
        let f: usize = match freq.get(&b) {
            Some(v) => *v,
            None => 0,
        };
        assert(f == count_in(freq@, b));
        if f > 0 {
            proof {
                lemma_bucket_count_le(vals, window as nat, b as nat);
            }
            let term = Rat::from_ints(&cache[f], p_total);
            acc = acc.add(&term);
        }
        b = b + 1;
    }
    acc
}

/// Ramanujan partition volatility: the partition entropy of every window of
/// `window` consecutive series, as exact rationals.
pub fn compute_partition_volatility(series: &[Rat], window: usize) -> (v: Vec<Rat>)
    requires
        window > 0,
        series.len() < window || table_fits(window + 10),
        rats_wf(series@),
    ensures
        rat_values(v@) == volatility_spec(rat_values(series@), window as nat),
        rats_wf(v@),
        series.len() >= window ==> v.len() == series.len() - window + 1,
        forall|i: int| 0 <= i < v.len() ==> #[trigger] v@[i]@ == window_entropy(
            rat_values(series@).subrange(i, i + window),
            window as nat,
        ),
{
    let ghost vals = rat_values(series@);
    if series.len() < window {
        let empty: Vec<Rat> = Vec::new();
        proof {
            assert(rat_values(empty@) =~= volatility_spec(vals, window as nat));
        }
        return empty;
    }
    let cache = partition_numbers(window + 10);
    let count = series.len() - window + 1;
    let mut out: Vec<Rat> = Vec::new();
    let mut s: usize = 0;
    while s < count
        invariant
            count == series.len() - window + 1,
            series.len() >= window,
            window > 0,
            rats_wf(series@),
            vals == rat_values(series@),
            cache.len() == window + 11,
            forall|j: int| 0 <= j < cache.len() ==> #[trigger] cache[j]@ == partition_count(j as nat),
            forall|j: int| 0 <= j < cache.len() ==> #[trigger] cache[j].wf(),
            s <= count,
            out.len() == s,
            rats_wf(out@),
            forall|i: int| 0 <= i < s ==> #[trigger] out@[i]@ == window_entropy(
                vals.subrange(i, i + window),
                window as nat,
            ),
        decreases count - s,
    {
        let ws = &series[s..s + window];
        proof {
            assert(rat_values(ws@) =~= vals.subrange(s as int, s + window));
        }
        let e = window_entropy_exec(ws, window, &cache);
        out.push(e);
        s = s + 1;
    }
    proof {
        assert(rat_values(out@) =~= volatility_spec(vals, window as nat));
    }
    out
}

// ─── Hecke operator cross-correlation ───────────────────────────────────────

/// The m-th coefficient of T_n applied to `a`: a_{nm} where it exists, else zero.
pub open spec fn shifted_term(a: Seq<(int, int)>, n: nat, len: nat, m: nat) -> (int, int) {
    if m * n < len {
        a[(m * n) as int]
    } else {
        rat_of_int(0)
    }
}

/// The inner product of T_n a with b over the first `j` indices.
pub open spec fn correlation_dot(a: Seq<(int, int)>, b: Seq<(int, int)>, n: nat, len: nat, j: nat) -> (int, int)
    decreases j,
{
    if j == 0 {
        rat_of_int(0)
    } else {
        rat_add(
            correlation_dot(a, b, n, len, (j - 1) as nat),
            rat_mul(shifted_term(a, n, len, (j - 1) as nat), b[j - 1]),
        )
    }
}

/// The normalised overlap <T_n a, b> / len over the common length.
pub open spec fn correlation_spec(a: Seq<(int, int)>, b: Seq<(int, int)>, level: nat) -> (int, int) {
    let len = if a.len() < b.len() { a.len() } else { b.len() };
    if len < level {
        rat_of_int(0)
    } else {
        rat_div(correlation_dot(a, b, level, len, len), rat_of_int(len as int))
    }
}

/// The inputs on which the correlation neither divides by zero nor leaves machine range.
pub open spec fn correlation_in_range(la: nat, lb: nat, level: nat) -> bool {
    let len = if la < lb { la } else { lb };
    len < level || (len > 0 && (len - 1) * level <= usize::MAX)
}

/// Hecke T_n cross-correlation: the overlap of T_n a with b, normalised by
/// the common length, as an exact rational.
pub fn hecke_cross_correlation(series_a: &[Rat], series_b: &[Rat], level: u32) -> (r: Rat)
    requires
        rats_wf(series_a@),
        rats_wf(series_b@),
        correlation_in_range(series_a.len() as nat, series_b.len() as nat, level as nat),
    ensures
        r@ == correlation_spec(rat_values(series_a@), rat_values(series_b@), level as nat),
        r.wf(),
{
    let n = level as usize;
    let len = if series_a.len() < series_b.len() {
        series_a.len()
    } else {
        series_b.len()
    };
    if len < n {
        return Rat::zero();
    }
    let ghost a = rat_values(series_a@);
    let ghost b = rat_values(series_b@);
    let mut dot = Rat::zero();
    let mut m: usize = 0;
    while m < len
        invariant
            n == level,
            len <= series_a.len(),
            len <= series_b.len(),
            len > 0,
            (len - 1) * n <= usize::MAX,
            rats_wf(series_a@),
            rats_wf(series_b@),
            a == rat_values(series_a@),
            b == rat_values(series_b@),
            m <= len,
            dot.wf(),
            dot@ == correlation_dot(a, b, n as nat, len as nat, m as nat),
        decreases len - m,
    {
        proof {
            assert(m * n <= (len - 1) * n) by (nonlinear_arith)
                requires
                    m <= len - 1,
            ;
        }
        let nm = m * n;
        let t = if nm < len {
            series_a[nm].clone()
        } else {
            Rat::zero()
        };
        let prod = t.mul(&series_b[m]);
        dot = dot.add(&prod);
        m = m + 1;
    }
    let denom = Rat::from_int(Int::from_u64(len as u64));
    dot.div(&denom)
}

} // verus!

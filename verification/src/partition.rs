//! The partition function p(n) by Euler's pentagonal recurrence, and
//! bounded checks of Ramanujan's congruences.

use vstd::prelude::*;
use crate::bignat::Nat;
use crate::bigint::Int;

verus! {

/// The generalized pentagonal number g_k = k(3k-1)/2.
pub open spec fn pent_pos(k: int) -> int {
    k * (3 * k - 1) / 2
}

/// The generalized pentagonal number g_{-k} = k(3k+1)/2.
pub open spec fn pent_neg(k: int) -> int {
    k * (3 * k + 1) / 2
}

/// The sign (-1)^(k-1).
pub open spec fn pent_sign(k: int) -> int {
    if k % 2 == 1 {
        1
    } else {
        -1
    }
}

pub proof fn lemma_pent_ge(k: int)
    requires
        k >= 1,
    ensures
        pent_pos(k) >= k,
        pent_neg(k) >= pent_pos(k),
{
    assert(k * (3 * k - 1) >= 2 * k) by (nonlinear_arith)
        requires
            k >= 1,
    ;
    assert(k * (3 * k + 1) >= k * (3 * k - 1)) by (nonlinear_arith)
        requires
            k >= 1,
    ;
}

/// The terms of the pentagonal recurrence for index `i` from `k` on, reading
/// earlier values from `s`: the sum over k' >= k with g_{k'} <= i of
/// (-1)^(k'-1) (p(i - g_{k'}) + [g_{-k'} <= i] p(i - g_{-k'})).
pub open spec fn pent_sum(s: Seq<int>, i: int, k: int) -> int
    decreases i + 1 - k,
{
    if k < 1 || pent_pos(k) > i {
        0
    } else {
        proof {
            lemma_pent_ge(k);
        }
        pent_sign(k) * s[i - pent_pos(k)] + (if pent_neg(k) <= i {
            pent_sign(k) * s[i - pent_neg(k)]
        } else {
            0
        }) + pent_sum(s, i, k + 1)
    }
}

/// p(0), ..., p(n) by the pentagonal recurrence.
pub open spec fn partition_seq(n: nat) -> Seq<int>
    decreases n,
{
    if n == 0 {
        seq![1]
    } else {
        let s = partition_seq((n - 1) as nat);
        s.push(pent_sum(s, n as int, 1))
    }
}

/// The n-th value of the pentagonal recurrence. By Euler's pentagonal number
/// theorem this is p(n), the number of partitions of n; that theorem is not
/// proved here, and the values are checked against known ones by tests.
pub open spec fn partition_count(n: nat) -> int {
    partition_seq(n)[n as int]
}

/// Later tables extend earlier ones.
pub proof fn lemma_partition_seq(m: nat, n: nat)
    requires
        m <= n,
    ensures
        partition_seq(n).len() == n + 1,
        forall|j: int| 0 <= j <= m ==> partition_seq(n)[j] == partition_seq(m)[j],
    decreases n,
{
    if n > 0 {
        lemma_partition_seq(if m < n { m } else { (n - 1) as nat }, (n - 1) as nat);
        lemma_partition_seq((n - 1) as nat, (n - 1) as nat);
    }
}

/// Whether m divides p(m k + c).
pub open spec fn congruence_at(m: nat, c: nat, k: nat) -> bool {
    partition_count(m * k + c) % (m as int) == 0
}

/// A bound on table sizes: a table of this many 16-byte integers would
/// exceed `isize::MAX` bytes on a 64-bit target.
pub open spec fn partition_limit() -> nat {
    0x0800_0000_0000_0000
}

/// Whether a table of p(0), ..., p(n) can be allocated.
pub open spec fn table_fits(n: int) -> bool {
    n < partition_limit() && n < usize::MAX
}

/// p(0), ..., p(n), exactly, by Euler's pentagonal recurrence.
pub fn partition_numbers(n: usize) -> (p: Vec<Int>)
    requires
        table_fits(n as int),
    ensures
        p.len() == n + 1,
        forall|j: int| 0 <= j <= n ==> #[trigger] p[j]@ == partition_count(j as nat),
        forall|j: int| 0 <= j <= n ==> #[trigger] p[j].wf(),
{
    let mut p: Vec<Int> = Vec::new();
    p.push(Int::from_u64(1));
    let mut i: usize = 1;
    while i <= n
        invariant
            1 <= i <= n + 1,
            table_fits(n as int),
            p.len() == i,
            partition_seq((i - 1) as nat).len() == i,
            forall|j: int| 0 <= j < i ==> #[trigger] p[j]@ == partition_seq((i - 1) as nat)[j],
            forall|j: int| 0 <= j < i ==> #[trigger] p[j].wf(),
        decreases n + 1 - i,
    {
        let ghost s = partition_seq((i - 1) as nat);
        let ii: i64 = i as i64;
        let mut sum = Int::zero();
        let mut k: i64 = 1;
        let mut g_pos: i64 = 1;
        while g_pos <= ii
            invariant
                ii == i,
                i < partition_limit(),
                1 <= k <= 0x4000_0000,
                g_pos == pent_pos(k as int),
                s.len() == i,
                p.len() == i,
                forall|j: int| 0 <= j < i ==> #[trigger] p[j]@ == s[j],
                forall|j: int| 0 <= j < i ==> #[trigger] p[j].wf(),
                sum.wf(),
                sum@ + pent_sum(s, i as int, k as int) == pent_sum(s, i as int, 1),
            decreases i + 1 - k,
        {
            proof {
                lemma_pent_ge(k as int);
                assert(k * (3 * k + 1) <= 0x4000_0000 * (3 * 0x4000_0000 + 1)) by (nonlinear_arith)
                    requires
                        1 <= k <= 0x4000_0000,
                ;
            }
            let g_neg: i64 = (k * (3 * k + 1)) / 2;
            let a = &p[i - g_pos as usize];
            let mut next = if k % 2 == 1 {
                sum.add(a)
            } else {
                sum.sub(a)
            };
            if g_neg <= ii {
                let b = &p[i - g_neg as usize];
                next = if k % 2 == 1 {
                    next.add(b)
                } else {
                    next.sub(b)
                };
            }
            proof {
                assert(pent_sum(s, i as int, k as int) == pent_sign(k as int) * s[i - pent_pos(
                    k as int,
                )] + (if pent_neg(k as int) <= i {
                    pent_sign(k as int) * s[i - pent_neg(k as int)]
                } else {
                    0
                }) + pent_sum(s, i as int, k + 1));
                assert(k * (3 * k - 1) < 0x1000_0000_0000_0000) by (nonlinear_arith)
                    requires
                        k * (3 * k - 1) / 2 <= i,
                        i < 0x0800_0000_0000_0000,
                ;
                assert(k < 0x4000_0000) by (nonlinear_arith)
                    requires
                        k * (3 * k - 1) < 0x1000_0000_0000_0000,
                        k >= 1,
                ;
                assert((k + 1) * (3 * (k + 1) - 1) <= 0x4000_0000 * (3 * 0x4000_0000 - 1))
                    by (nonlinear_arith)
                    requires
                        1 <= k < 0x4000_0000,
                ;
            }
            sum = next;
            k = k + 1;
            g_pos = (k * (3 * k - 1)) / 2;
        }
        proof {
            assert(pent_sum(s, i as int, k as int) == 0);
            lemma_partition_seq((i - 1) as nat, i as nat);
            assert(partition_seq(i as nat) == s.push(pent_sum(s, i as int, 1)));
        }
        p.push(sum);
        i = i + 1;
    }
    proof {
        assert forall|j: int| 0 <= j <= n implies #[trigger] p[j]@ == partition_count(j as nat) by {
            lemma_partition_seq(j as nat, n as nat);
        }
    }
    p
}

/// Whether p(5k+4) is divisible by 5 for every k in 0..=max_k.
pub fn verify_ramanujan_congruence_5(max_k: usize) -> (r: bool)
    requires
        table_fits(5 * max_k + 4),
    ensures
        r == (forall|k: nat| k <= max_k ==> #[trigger] congruence_at(5, 4, k)),
{
    verify_congruence(max_k, 5, 4)
}

/// Whether p(7k+5) is divisible by 7 for every k in 0..=max_k.
pub fn verify_ramanujan_congruence_7(max_k: usize) -> (r: bool)
    requires
        table_fits(7 * max_k + 5),
    ensures
        r == (forall|k: nat| k <= max_k ==> #[trigger] congruence_at(7, 5, k)),
{
    verify_congruence(max_k, 7, 5)
}

/// Whether p(m k + c) is divisible by m for every k in 0..=max_k.
fn verify_congruence(max_k: usize, m: usize, c: usize) -> (r: bool)
    requires
        m > 0,
        table_fits(m * max_k + c),
    ensures
        r == (forall|k: nat| k <= max_k ==> #[trigger] congruence_at(m as nat, c as nat, k)),
{
    proof {
        assert(max_k <= m * max_k) by (nonlinear_arith)
            requires
                m > 0,
        ;
    }
    let max_n = m * max_k + c;
    let p = partition_numbers(max_n);
    let modulus = Nat::from_u64(m as u64);
    let mut k: usize = 0;
    while k <= max_k
        invariant
            m > 0,
            max_n == m * max_k + c,
            max_k < usize::MAX,
            modulus@ == m,
            modulus.wf(),
            p.len() == max_n + 1,
            forall|j: int| 0 <= j <= max_n ==> #[trigger] p[j]@ == partition_count(j as nat),
            forall|j: int| 0 <= j <= max_n ==> #[trigger] p[j].wf(),
            k <= max_k + 1,
            forall|k2: nat| k2 < k ==> #[trigger] congruence_at(m as nat, c as nat, k2),
        decreases max_k + 1 - k,
    {
        proof {
            assert(m * k + c <= m * max_k + c) by (nonlinear_arith)
                requires
                    k <= max_k,
            ;
        }
        let idx = m * k + c;
        if !p[idx].divisible_by(&modulus) {
            assert(!congruence_at(m as nat, c as nat, k as nat));
            return false;
        }
        k = k + 1;
    }
    true
}

/// p(n) as an exact integer: the number of states of a combinatorial search space of size n.
pub fn complexity_invariant(n: usize) -> (r: Int)
    requires
        table_fits(n as int),
    ensures
        r@ == partition_count(n as nat),
        r.wf(),
{
    let p = partition_numbers(n);
    p[n].clone()
}

} // verus!

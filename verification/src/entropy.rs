//! Exact symbolic Shannon entropy: H = sum of coeff * log2(base) terms.

use vstd::prelude::*;
use crate::bigint::Int;
use crate::hecke::{all_wf, int_values};
use crate::rational::{Rat, rat_of_int, rat_of_pair};

verus! {

/// The symbolic term coeff * log2(base).
#[derive(Clone, Debug)]
pub struct SymLog2 {
    pub coeff: Rat,
    pub base: Int,
}

/// The positive counts, in order.
pub open spec fn positive_counts(counts: Seq<int>) -> Seq<int>
    decreases counts.len(),
{
    if counts.len() == 0 {
        seq![]
    } else {
        let rest = positive_counts(counts.drop_last());
        if counts.last() > 0 {
            rest.push(counts.last())
        } else {
            rest
        }
    }
}

/// The sum of a list of integers.
pub open spec fn int_sum(s: Seq<int>) -> int
    decreases s.len(),
{
    if s.len() == 0 {
        0
    } else {
        int_sum(s.drop_last()) + s.last()
    }
}

proof fn lemma_positive_counts(counts: Seq<int>)
    ensures
        forall|i: int| 0 <= i < positive_counts(counts).len() ==> #[trigger] positive_counts(counts)[i] > 0,
        positive_counts(counts).len() > 0 ==> int_sum(positive_counts(counts)) > 0,
        int_sum(positive_counts(counts)) >= 0,
    decreases counts.len(),
{
    if counts.len() > 0 {
        lemma_positive_counts(counts.drop_last());
        let rest = positive_counts(counts.drop_last());
        if counts.last() > 0 {
            assert(rest.push(counts.last()).drop_last() =~= rest);
            assert(int_sum(rest.push(counts.last())) == int_sum(rest) + counts.last());
        }
    }
}

/// The terms of H = log2(N) - sum (c_i / N) log2(c_i) over the positive counts
/// c_i with N their sum: first (1, N), then (-c_i/N, c_i) for each c_i in order;
/// no terms at all when no count is positive.
pub open spec fn symbolic_terms_spec(counts: Seq<int>) -> Seq<((int, int), int)> {
    let pos = positive_counts(counts);
    let total = int_sum(pos);
    if pos.len() == 0 {
        seq![]
    } else {
        seq![(rat_of_int(1), total)] + pos.map_values(
            |c: int| (rat_of_pair(-c, total), c),
        )
    }
}

/// The value of a symbolic term.
pub open spec fn term_view(t: SymLog2) -> ((int, int), int) {
    (t.coeff@, t.base@)
}

/// The positive counts, in order, and their sum.
pub fn positive_counts_total(counts: &[Int]) -> (r: (Vec<Int>, Int))
    requires
        all_wf(counts@),
    ensures
        int_values(r.0@) == positive_counts(int_values(counts@)),
        r.1@ == int_sum(positive_counts(int_values(counts@))),
        all_wf(r.0@),
        r.1.wf(),
{
    let ghost cv = int_values(counts@);
    let mut total = Int::zero();
    let mut pos: Vec<Int> = Vec::new();
    let mut i: usize = 0;
    while i < counts.len()
        invariant
            all_wf(counts@),
            cv == int_values(counts@),
            i <= counts.len(),
            total.wf(),
            all_wf(pos@),
            int_values(pos@) == positive_counts(cv.subrange(0, i as int)),
            total@ == int_sum(positive_counts(cv.subrange(0, i as int))),
        decreases counts.len() - i,
    {
        proof {
            assert(cv.subrange(0, i + 1).drop_last() =~= cv.subrange(0, i as int));
            assert(cv.subrange(0, i + 1).last() == counts@[i as int]@);
        }
        if counts[i].is_positive() {
            total = total.add(&counts[i]);
            let ghost before = pos@;
            pos.push(counts[i].clone());
            proof {
                assert(int_values(pos@) =~= int_values(before).push(counts@[i as int]@));
                assert(positive_counts(cv.subrange(0, i + 1)).drop_last() =~= positive_counts(
                    cv.subrange(0, i as int),
                ));
            }
        }
        i = i + 1;
    }
    proof {
        assert(cv.subrange(0, counts.len() as int) =~= cv);
    }
    (pos, total)
}

/// Exact symbolic entropy of the given counts: no evaluation, no rounding.
#[verifier::spinoff_prover]
pub fn shannon_entropy_symbolic(counts: Vec<Int>) -> (terms: Vec<SymLog2>)
    requires
        all_wf(counts@),
    ensures
        terms@.map_values(|t: SymLog2| term_view(t)) == symbolic_terms_spec(int_values(counts@)),
        forall|i: int| 0 <= i < terms.len() ==> #[trigger] terms@[i].coeff.wf() && terms@[i].base.wf(),
        terms.len() == (if positive_counts(int_values(counts@)).len() == 0 {
            0
        } else {
            positive_counts(int_values(counts@)).len() + 1
        }),
{
    let ghost cv = int_values(counts@);
    let (pos, total) = positive_counts_total(counts.as_slice());
    proof {
        lemma_positive_counts(cv);
    }
    let mut terms: Vec<SymLog2> = Vec::new();
    if pos.len() == 0 {
        proof {
            assert(terms@.map_values(|t: SymLog2| term_view(t)) =~= symbolic_terms_spec(cv));
        }
        return terms;
    }
    terms.push(SymLog2 { coeff: Rat::from_i64(1), base: total.clone() });
    let ghost pv = int_values(pos@);
    let mut j: usize = 0;
    while j < pos.len()
        invariant
            all_wf(pos@),
            pv == int_values(pos@),
            pv == positive_counts(cv),
            total.wf(),
            total@ == int_sum(pv),
            total@ > 0,
            j <= pos.len(),
            terms.len() == j + 1,
            terms@.map_values(|t: SymLog2| term_view(t)) == seq![(rat_of_int(1), total@)]
                + pv.subrange(0, j as int).map_values(|c: int| (rat_of_pair(-c, total@), c)),
            forall|i: int| 0 <= i < terms.len() ==> #[trigger] terms@[i].coeff.wf() && terms@[i].base.wf(),
        decreases pos.len() - j,
    {
        let c = &pos[j];
        let coeff = Rat::from_ints(&c.neg(), &total);
        let ghost before = terms@;
        terms.push(SymLog2 { coeff, base: c.clone() });
        proof {
            assert(pv.subrange(0, j + 1) =~= pv.subrange(0, j as int).push(pv[j as int]));
            assert(terms@.map_values(|t: SymLog2| term_view(t)) =~= before.map_values(
                |t: SymLog2| term_view(t),
            ).push((rat_of_pair(-pv[j as int], total@), pv[j as int])));
        }
        j = j + 1;
    }
    assert(terms@.map_values(|t: SymLog2| term_view(t)) =~= symbolic_terms_spec(cv)) by {
        assert(pv.subrange(0, pos.len() as int) =~= pv);
    }
    terms
}

} // verus!

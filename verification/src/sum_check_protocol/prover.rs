//! The prover's round state machine: it owns the working copy of the
//! polynomial, folds it as challenges arrive, and emits one degree-one
//! message per round.

use vstd::prelude::*;
use vstd::pervasive::unreached;
use vstd::arithmetic::div_mod::{
    lemma_add_mod_noop, lemma_add_mod_noop_right, lemma_mod_twice, lemma_mul_mod_noop_general,
    lemma_sub_mod_noop,
};
use crate::field::{Fp, points_wf, vals};
use crate::polynomial::multilinear_polynomial::{
    combine, lemma_sum_combine, lemma_sum_split, spec_fix, sum_int, MultilinearPolynomial,
};
use crate::polynomial::univariate_polynomial::{poly_eval_int, Polynomial};
use super::verifier_state::{initial_claim, round_claim};
use super::RoundSequenceError;

verus! {

/// The message the honest prover sends for the working table `t`: the
/// degree-one polynomial `g` with `g(0)` the sum of the table folded at 0
/// and `g(1)` the sum folded at 1, held as `[g(0), g(1) - g(0)]`.
pub open spec fn spec_g(t: Seq<int>, m: int) -> Seq<int> {
    let g0 = sum_int(spec_fix(t, 0, m)) % m;
    let g1 = sum_int(spec_fix(t, 1, m)) % m;
    seq![g0, (g1 - g0) % m]
}

/// The round message commits to the working table's sum: `g(0) + g(1)` is
/// congruent to the total of the table the message was generated from.
pub proof fn lemma_g_claims(t: Seq<int>, m: int)
    requires
        m >= 2,
        t.len() >= 2,
        t.len() % 2 == 0,
    ensures
        initial_claim(spec_g(t, m), m) == sum_int(t) % m,
{
    let g = spec_g(t, m);
    let h = t.len() as int / 2;
    let lo = t.take(h);
    let hi = t.skip(h);
    let s0f = sum_int(spec_fix(t, 0, m));
    let s1f = sum_int(spec_fix(t, 1, m));
    let g0 = s0f % m;
    let g1 = s1f % m;
    let d = (g1 - g0) % m;
    assert(d == (s1f - g0) % m) by {
        lemma_sub_mod_noop(s1f, g0, m);
        lemma_mod_twice(s0f, m);
    }
    assert(spec_fix(t, 0, m) =~= combine(lo, hi, 0, m));
    assert(spec_fix(t, 1, m) =~= combine(lo, hi, 1, m));
    lemma_sum_combine(lo, hi, 0, m);
    lemma_sum_combine(lo, hi, 1, m);
    assert((1 - 0) * sum_int(lo) + 0 * sum_int(hi) == sum_int(lo)) by (nonlinear_arith);
    assert((1 - 1) * sum_int(lo) + 1 * sum_int(hi) == sum_int(hi)) by (nonlinear_arith);
    assert(s0f % m == sum_int(lo) % m);
    assert(s1f % m == sum_int(hi) % m);
    // g(0) + g(1) collapses to g0 + (g0 + d)
    assert(g.len() == 2 && g[0] == g0 && g[1] == d);
    assert(g.drop_first() =~= seq![d]);
    assert(g.drop_first().drop_first() =~= Seq::<int>::empty());
    assert(poly_eval_int(g.drop_first().drop_first(), 0) == 0);
    assert(poly_eval_int(g.drop_first().drop_first(), 1) == 0);
    assert(poly_eval_int(g.drop_first(), 0) == d + 0 * 0);
    assert(poly_eval_int(g.drop_first(), 1) == d + 1 * 0);
    assert(poly_eval_int(g, 0) == g0 + 0 * (d + 0 * 0));
    assert(poly_eval_int(g, 1) == g0 + 1 * (d + 1 * 0));
    assert(g0 + 0 * (d + 0 * 0) == g0) by (nonlinear_arith);
    assert(g0 + 1 * (d + 1 * 0) == g0 + d) by (nonlinear_arith);
    assert(initial_claim(g, m) == (g0 + (g0 + d)) % m);
    lemma_add_mod_noop_right(g0 + g0, s1f - g0, m);
    lemma_mod_twice(s1f - g0, m);
    assert((g0 + g0 + d) % m == (g0 + g0 + (s1f - g0)) % m);
    assert(g0 + g0 + (s1f - g0) == g0 + s1f);
    lemma_add_mod_noop(s0f, s1f, m);
    lemma_mod_twice(s0f, m);
    assert((g0 + s1f) % m == (s0f % m + s1f % m) % m) by {
        lemma_add_mod_noop(s0f % m, s1f, m);
        lemma_mod_twice(s0f, m);
        lemma_add_mod_noop(s0f, s1f, m);
    }
    lemma_add_mod_noop(sum_int(lo), sum_int(hi), m);
    assert((s0f % m + s1f % m) % m == (sum_int(lo) + sum_int(hi)) % m);
    lemma_sum_split(t, h);
}

/// The round message evaluated at any point is congruent to the sum of the
/// table folded at that point: `g(x) = sum(fix(t, x))`.
pub proof fn lemma_g_fold(t: Seq<int>, m: int, x: int)
    requires
        m >= 2,
        t.len() >= 2,
        t.len() % 2 == 0,
    ensures
        round_claim(spec_g(t, m), x, m) == sum_int(spec_fix(t, x, m)) % m,
{
    let g = spec_g(t, m);
    let h = t.len() as int / 2;
    let lo = t.take(h);
    let hi = t.skip(h);
    let s0f = sum_int(spec_fix(t, 0, m));
    let s1f = sum_int(spec_fix(t, 1, m));
    let g0 = s0f % m;
    let g1 = s1f % m;
    let d = (g1 - g0) % m;
    assert(d == (s1f - g0) % m) by {
        lemma_sub_mod_noop(s1f, g0, m);
        lemma_mod_twice(s0f, m);
    }
    assert(spec_fix(t, 0, m) =~= combine(lo, hi, 0, m));
    assert(spec_fix(t, 1, m) =~= combine(lo, hi, 1, m));
    assert(spec_fix(t, x, m) =~= combine(lo, hi, x, m));
    lemma_sum_combine(lo, hi, 0, m);
    lemma_sum_combine(lo, hi, 1, m);
    lemma_sum_combine(lo, hi, x, m);
    let sl = sum_int(lo);
    let sh = sum_int(hi);
    assert((1 - 0) * sl + 0 * sh == sl) by (nonlinear_arith);
    assert((1 - 1) * sl + 1 * sh == sh) by (nonlinear_arith);
    assert(s0f % m == sl % m);
    assert(s1f % m == sh % m);
    // g(x) = g0 + x * d
    assert(g.len() == 2 && g[0] == g0 && g[1] == d);
    assert(g.drop_first() =~= seq![d]);
    assert(g.drop_first().drop_first() =~= Seq::<int>::empty());
    assert(poly_eval_int(g.drop_first().drop_first(), x) == 0);
    assert(poly_eval_int(g.drop_first(), x) == d + x * 0);
    assert(poly_eval_int(g, x) == g0 + x * (d + x * 0));
    assert(x * (d + x * 0) == x * d) by (nonlinear_arith);
    // replace the reduced coefficient by its class and distribute
    lemma_add_mod_noop_right(g0, x * d, m);
    lemma_mul_mod_noop_general(x, s1f - g0, m);
    lemma_mod_twice(s1f - g0, m);
    assert((x * d) % m == (x * (s1f - g0)) % m);
    lemma_add_mod_noop_right(g0, x * (s1f - g0), m);
    assert((g0 + x * d) % m == (g0 + x * (s1f - g0)) % m);
    assert(g0 + x * (s1f - g0) == (1 - x) * g0 + x * s1f) by (nonlinear_arith);
    // move both addends to the sums of the halves
    lemma_add_mod_noop((1 - x) * g0, x * s1f, m);
    lemma_mul_mod_noop_general(1 - x, g0, m);
    lemma_mod_twice(s0f, m);
    lemma_mul_mod_noop_general(1 - x, s0f, m);
    lemma_mul_mod_noop_general(1 - x, sl, m);
    assert(((1 - x) * g0) % m == ((1 - x) * sl) % m);
    lemma_mul_mod_noop_general(x, s1f, m);
    lemma_mul_mod_noop_general(x, sh, m);
    assert((x * s1f) % m == (x * sh) % m);
    lemma_add_mod_noop((1 - x) * sl, x * sh, m);
    assert(((1 - x) * g0 + x * s1f) % m == ((1 - x) * sl + x * sh) % m);
    assert(sum_int(spec_fix(t, x, m)) % m == ((1 - x) * sl + x * sh) % m);
}

/// The prover in the sum-check protocol.
pub struct Prover {
    l: u64,
    multilinear_polynomial: MultilinearPolynomial,
    current_f: MultilinearPolynomial,
    g: Vec<Polynomial>,
}

impl Prover {
    /// Between rounds: the working polynomial has been folded once per
    /// completed round, over the same field as the original.
    pub closed spec fn wf(self) -> bool {
        &&& self.multilinear_polynomial.wf()
        &&& self.multilinear_polynomial.vars() == self.l as nat
        &&& self.current_f.wf()
        &&& self.current_f.m() == self.multilinear_polynomial.m()
        &&& self.g@.len() <= self.l
        &&& (self.g@.len() == 0 ==> self.current_f.vars() == self.l as nat)
        &&& (self.g@.len() >= 1 ==> self.current_f.vars() == self.l as nat - self.g@.len() + 1)
    }

    /// The modulus of the field the run is over.
    pub closed spec fn m(self) -> int {
        self.multilinear_polynomial.m()
    }

    /// The number of variables of the original polynomial.
    pub closed spec fn vars(self) -> nat {
        self.l as nat
    }

    /// The table of the original polynomial.
    pub closed spec fn original(self) -> Seq<int> {
        self.multilinear_polynomial.table()
    }

    /// The table of the working polynomial, folded by the challenges so far.
    pub closed spec fn working(self) -> Seq<int> {
        self.current_f.table()
    }

    /// The coefficient sequences of the messages emitted so far.
    pub closed spec fn messages(self) -> Seq<Seq<int>> {
        self.g@.map(|i: int, p: Polynomial| p.coeffs())
    }

    /// The number of completed rounds.
    pub closed spec fn rounds_done(self) -> nat {
        self.g@.len()
    }

    /// A fresh prover holding the original polynomial and a working copy.
    pub fn new(l: u64, f: MultilinearPolynomial) -> (p: Prover)
        requires
            f.wf(),
            f.vars() == l as nat,
        ensures
            p.wf(),
            p.vars() == l as nat,
            p.m() == f.m(),
            p.original() == f.table(),
            p.working() == f.table(),
            p.rounds_done() == 0,
    {
        let w = f.duplicate();
        Prover { l, multilinear_polynomial: f, current_f: w, g: Vec::new() }
    }

    /// The total hypercube sum of the original polynomial: the value the
    /// prover claims out-of-band before round 1.
    pub fn sum(&self) -> (res: Fp)
        requires
            self.wf(),
        ensures
            res.wf(),
            res.m() == self.m(),
            res.v() == sum_int(self.original()) % self.m(),
    {
        self.multilinear_polynomial.sum()
    }

    /// The number of completed rounds.
    pub fn current_round(&self) -> (r: u64)
        requires
            self.wf(),
        ensures
            r as nat == self.rounds_done(),
    {
        self.g.len() as u64
    }

    /// The message for the working polynomial: since it is multilinear, two
    /// evaluations determine the round polynomial — fold at 0 and sum, fold
    /// at 1 and sum — giving the coefficients `[g0, g1 - g0]`.
    pub fn gen_g(multi_linear_polynomial: &MultilinearPolynomial) -> (gi: Polynomial)
        requires
            multi_linear_polynomial.wf(),
            multi_linear_polynomial.vars() >= 1,
        ensures
            gi.wf(),
            gi.m() == multi_linear_polynomial.m(),
            gi.coeffs() == spec_g(multi_linear_polynomial.table(), multi_linear_polynomial.m()),
    {
        let m: u64 = multi_linear_polynomial.modulus();
        let g0: Fp = multi_linear_polynomial.fix_variable(Fp::zero(m)).sum();
        let g1: Fp = multi_linear_polynomial.fix_variable(Fp::one(m)).sum();
        let c1: Fp = g1.sub(g0);
        let mut coeff: Vec<Fp> = Vec::new();
        coeff.push(g0);
        coeff.push(c1);
        proof {
            assert(points_wf(coeff@, coeff@[0].m()));
            assert(vals(coeff@) =~= spec_g(
                multi_linear_polynomial.table(),
                multi_linear_polynomial.m(),
            ));
        }
        Polynomial::from_vec(coeff)
    }

    /// Run one round: fold the working polynomial by the previous challenge
    /// (for every round after the first), then emit and record the round
    /// message. Rejects a round number that is out of order or outside
    /// `[1, l]` without touching any state.
    pub fn prove(&mut self, round: u64, r: Option<Fp>) -> (res: Result<
        Polynomial,
        RoundSequenceError,
    >)
        requires
            old(self).wf(),
            round >= 2 ==> r is Some,
            r matches Some(x) ==> x.wf() && x.m() == old(self).m(),
        ensures
            res is Err <==> !(1 <= round && round as nat <= old(self).vars() && round as nat == old(self).rounds_done() + 1),
            res is Err ==> *final(self) == *old(self),
            res is Ok ==> final(self).wf(),
            res is Ok ==> final(self).vars() == old(self).vars(),
            res is Ok ==> final(self).m() == old(self).m(),
            res is Ok ==> final(self).original() == old(self).original(),
            res is Ok ==> final(self).rounds_done() == round as nat,
            res is Ok && round == 1 ==> final(self).working() == old(self).working(),
            res is Ok && round >= 2 ==> final(self).working() == spec_fix(old(self).working(), r.unwrap().v(), old(self).m()),
            res matches Ok(gi) ==> gi.wf() && gi.m() == old(self).m() && gi.coeffs().len() == 2,
            res matches Ok(gi) ==> gi.coeffs() == spec_g(final(self).working(), old(self).m()),
            res matches Ok(gi) ==> final(self).messages() == old(self).messages().push(gi.coeffs()),
    {
        if !(round >= 1 && round <= self.l) {
            return Err(RoundSequenceError);
        }
        let cur: u64 = self.g.len() as u64;
        if round - 1 != cur {
            return Err(RoundSequenceError);
        }
        if round > 1 {
            let x: Fp = match r {
                Some(x) => x,
                None => unreached(),
            };
            self.current_f = self.current_f.fix_variable(x);
        }
        let gi: Polynomial = Prover::gen_g(&self.current_f);
        self.g.push(gi.duplicate());
        proof {
            assert(final(self).messages() =~= old(self).messages().push(gi.coeffs()));
        }
        Ok(gi)
    }
}

} // verus!

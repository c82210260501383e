//! The verifier's round state machine: per round it checks the message's
//! degree against the oracle's bound, checks consistency with the running
//! claim, draws a challenge, and updates the claim; at the last round it
//! makes its single oracle call and compares.

use vstd::prelude::*;
use vstd::arithmetic::div_mod::lemma_add_mod_noop;
use crate::field::{Fp, points_wf, vals};
use crate::polynomial::multilinear_polynomial::{eval_int, MultilinearPolynomial};
use crate::polynomial::univariate_polynomial::{poly_eval_int, Polynomial, PolynomialTrait};
use crate::polynomial::MultivariatePolynomialOracle;
use crate::randomness_oracle::ChallengeOracle;
use super::RoundSequenceError;

verus! {

/// The claim a round message commits to: `g(0) + g(1)`, reduced.
pub open spec fn initial_claim(g: Seq<int>, m: int) -> int {
    (poly_eval_int(g, 0) + poly_eval_int(g, 1)) % m
}

/// The running claim a round leaves behind: `g(x)` at the drawn challenge,
/// reduced.
pub open spec fn round_claim(g: Seq<int>, x: int, m: int) -> int {
    poly_eval_int(g, x) % m
}

/// The verifier in the sum-check protocol. It holds only an oracle for the
/// full polynomial, a randomness oracle, and the histories of challenges and
/// running claims — never the exponential table itself.
pub struct Verifier {
    l: u64,
    function_oracle: MultilinearPolynomial,
    randomness_oracle: ChallengeOracle,
    c: Vec<Fp>,
    r: Vec<Fp>,
}

impl Verifier {
    /// Between rounds: one claim was recorded before round 1's challenge and
    /// one per drawn challenge since, all over the oracle's field.
    pub closed spec fn wf(self) -> bool {
        &&& self.function_oracle.wf()
        &&& self.function_oracle.vars() == self.l as nat
        &&& self.randomness_oracle.wf()
        &&& self.randomness_oracle.m() == self.function_oracle.m()
        &&& self.r@.len() <= self.l
        &&& points_wf(self.r@, self.m())
        &&& points_wf(self.c@, self.m())
        &&& self.c@.len() == (if self.r@.len() == 0 {
            0int
        } else {
            self.r@.len() + 1int
        })
    }

    /// The modulus of the field the run is over.
    pub closed spec fn m(self) -> int {
        self.function_oracle.m()
    }

    /// The number of variables of the full polynomial.
    pub closed spec fn vars(self) -> nat {
        self.l as nat
    }

    /// The table behind the function oracle.
    pub closed spec fn table(self) -> Seq<int> {
        self.function_oracle.table()
    }

    /// The challenges drawn so far, in round order.
    pub closed spec fn challenges(self) -> Seq<int> {
        vals(self.r@)
    }

    /// The running claims: `c_0` from round 1's message, then one per round.
    pub closed spec fn claims(self) -> Seq<int> {
        vals(self.c@)
    }

    /// The number of completed rounds.
    pub closed spec fn rounds_done(self) -> nat {
        self.r@.len()
    }

    /// The randomness oracle in its current state.
    pub closed spec fn oracle(self) -> ChallengeOracle {
        self.randomness_oracle
    }

    /// A fresh verifier over a function oracle and a randomness oracle.
    pub fn new(
        l: u64,
        function_oracle: MultilinearPolynomial,
        randomness_oracle: ChallengeOracle,
    ) -> (v: Verifier)
        requires
            function_oracle.wf(),
            function_oracle.vars() == l as nat,
            randomness_oracle.wf(),
            randomness_oracle.m() == function_oracle.m(),
        ensures
            v.wf(),
            v.vars() == l as nat,
            v.m() == function_oracle.m(),
            v.table() == function_oracle.table(),
            v.oracle() == randomness_oracle,
            v.rounds_done() == 0,
            v.claims() == Seq::<int>::empty(),
            v.challenges() == Seq::<int>::empty(),
    {
        let v = Verifier {
            l,
            function_oracle,
            randomness_oracle,
            c: Vec::new(),
            r: Vec::new(),
        };
        proof {
            assert(v.claims() =~= Seq::<int>::empty());
            assert(v.challenges() =~= Seq::<int>::empty());
        }
        v
    }

    /// Run one round on the message `gi`: degree check, consistency check,
    /// challenge draw, claim update, and — in the last round — the single
    /// oracle call. Returns the round's accept/reject; rejects a round
    /// number that is out of order or outside `[1, l]` without touching any
    /// state. A rejected degree or consistency check also leaves the state
    /// untouched, so the round may be retried.
    #[verifier::rlimit(100)]
    pub fn verify(&mut self, round: u64, gi: Polynomial) -> (res: Result<
        bool,
        RoundSequenceError,
    >)
        requires
            old(self).wf(),
            gi.wf(),
            gi.m() == old(self).m(),
        ensures
            res is Err <==> !(1 <= round && round as nat <= old(self).vars() && round as nat == old(self).rounds_done() + 1),
            res is Err ==> *final(self) == *old(self),
            res is Ok && gi.coeffs().len() != 2 ==> res == Ok::<bool, RoundSequenceError>(false) && *final(self) == *old(self),
            res is Ok && gi.coeffs().len() == 2 && round >= 2 && initial_claim(gi.coeffs(), old(self).m()) != old(self).claims().last() ==> res == Ok::<bool, RoundSequenceError>(false) && *final(self) == *old(self),
            res is Ok && gi.coeffs().len() == 2 && (round == 1 || initial_claim(gi.coeffs(), old(self).m()) == old(self).claims().last()) ==> ({
                &&& final(self).wf()
                &&& final(self).vars() == old(self).vars()
                &&& final(self).m() == old(self).m()
                &&& final(self).table() == old(self).table()
                &&& final(self).rounds_done() == round as nat
                &&& final(self).challenges().len() == round as nat
                &&& final(self).challenges().take(round - 1) == old(self).challenges()
                &&& final(self).oracle().is_fiat_shamir() == old(self).oracle().is_fiat_shamir()
                &&& (old(self).oracle().is_fiat_shamir() ==> final(self).challenges().last() == crate::randomness_oracle::fiat_shamir::fs_next_val(old(self).oracle().fs_state(), gi.coeffs(), old(self).m()) && final(self).oracle().fs_state() == final(self).challenges().last())
                &&& (round == 1 ==> final(self).claims() == seq![initial_claim(gi.coeffs(), old(self).m()), round_claim(gi.coeffs(), final(self).challenges().last(), old(self).m())])
                &&& (round >= 2 ==> final(self).claims() == old(self).claims().push(round_claim(gi.coeffs(), final(self).challenges().last(), old(self).m())))
                &&& (((round as nat) < old(self).vars()) ==> res == Ok::<bool, RoundSequenceError>(true))
                &&& (round as nat == old(self).vars() ==> (res == Ok::<bool, RoundSequenceError>(true) <==> eval_int(old(self).table(), final(self).challenges()) % old(self).m() == final(self).claims().last()))
            }),
    {
        if !(round >= 1 && round <= self.l) {
            return Err(RoundSequenceError);
        }
        let cur: u64 = self.r.len() as u64;
        if round - 1 != cur {
            return Err(RoundSequenceError);
        }
        // degree check against the oracle's bound for this variable
        let d: u64 = gi.deg();
        let od: u64 = self.function_oracle.deg(round);
        if d != od {
            return Ok(false);
        }
        let m: u64 = self.function_oracle.modulus();
        let e0: Fp = gi.evaluate(Fp::zero(m));
        let e1: Fp = gi.evaluate(Fp::one(m));
        let ci: Fp = e0.add(e1);
        proof {
            lemma_add_mod_noop(
                poly_eval_int(gi.coeffs(), 0),
                poly_eval_int(gi.coeffs(), 1),
                m as int,
            );
            assert(ci.v() == initial_claim(gi.coeffs(), old(self).m()));
        }
        if round == 1 {
            self.c.push(ci);
        } else {
            let last: Fp = self.c[self.c.len() - 1];
            if !(ci == last) {
                proof {
                    assert(old(self).claims().last() == last.v());
                }
                return Ok(false);
            }
        }
        // draw the challenge from the transcript
        let ri: Fp = self.randomness_oracle.next_random(gi.coeff());
        self.r.push(ri);
        let next_ci: Fp = gi.evaluate(ri);
        self.c.push(next_ci);
        proof {
            assert(final(self).challenges() =~= old(self).challenges().push(ri.v()));
            assert(final(self).challenges().take(round - 1) =~= old(self).challenges());
            assert(final(self).challenges().last() == ri.v());
            if round == 1 {
                assert(final(self).claims() =~= seq![
                    initial_claim(gi.coeffs(), old(self).m()),
                    round_claim(gi.coeffs(), ri.v(), old(self).m()),
                ]);
            } else {
                assert(final(self).claims() =~= old(self).claims().push(
                    round_claim(gi.coeffs(), ri.v(), old(self).m()),
                ));
            }
        }
        // the last round makes the single oracle call
        if round == self.l {
            let f_r: Fp = self.function_oracle.evaluate(&self.r);
            let lastc: Fp = self.c[self.c.len() - 1];
            if !(f_r == lastc) {
                return Ok(false);
            }
        }
        Ok(true)
    }

    /// The challenge recorded for a completed round.
    pub fn challenge(&self, round: u64) -> (r: Fp)
        requires
            self.wf(),
            1 <= round,
            round as nat <= self.rounds_done(),
        ensures
            r.wf(),
            r.m() == self.m(),
            r.v() == self.challenges()[round - 1],
    {
        let n: usize = self.r.len();
        let idx: usize = (round - 1) as usize;
        self.r[idx]
    }

    /// The number of completed rounds.
    pub fn current_round(&self) -> (r: u64)
        requires
            self.wf(),
        ensures
            r as nat == self.rounds_done(),
    {
        self.r.len() as u64
    }
}

} // verus!

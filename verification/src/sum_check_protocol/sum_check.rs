//! The non-interactive orchestrator: a prover coupled with one Fiat-Shamir
//! oracle builds a proof, and a fresh verifier with its own, independently
//! initialized Fiat-Shamir oracle checks it against the same transcript.

use vstd::prelude::*;
use vstd::pervasive::unreached;
use vstd::arithmetic::power2::{lemma_pow2_pos, lemma_pow2_unfold, pow2};
use vstd::arithmetic::div_mod::lemma_mod_twice;
use crate::field::Fp;
use crate::polynomial::multilinear_polynomial::{
    eval_int, lemma_fix_evaluate, spec_fix, sum_int, MultilinearPolynomial,
};
use crate::polynomial::univariate_polynomial::Polynomial;
use crate::randomness_oracle::fiat_shamir::{fs_next_val, FiatShamir};
use crate::randomness_oracle::ChallengeOracle;
use super::prover::{lemma_g_claims, lemma_g_fold, spec_g, Prover};
use super::verifier_state::{initial_claim, round_claim, Verifier};

verus! {

/// The coefficient sequences of a sequence of round messages.
pub open spec fn msgs_of(ps: Seq<Polynomial>) -> Seq<Seq<int>> {
    ps.map(|i: int, p: Polynomial| p.coeffs())
}

/// Every round message is well formed over the modulus `m`.
pub open spec fn proof_polys_wf(ps: Seq<Polynomial>, m: int) -> bool {
    forall|i: int| 0 <= i < ps.len() ==> (#[trigger] ps[i]).wf() && ps[i].m() == m
}

/// The challenges a Fiat-Shamir verifier derives from the messages, chained
/// from the state `s`.
pub open spec fn fs_chain(s: int, msgs: Seq<Seq<int>>, m: int) -> Seq<int>
    decreases msgs.len(),
{
    if msgs.len() == 0 {
        Seq::empty()
    } else {
        let r = fs_next_val(s, msgs[0], m);
        seq![r] + fs_chain(r, msgs.drop_first(), m)
    }
}

/// Acceptance of a transcript under a given challenge sequence: every round
/// message is degree one, every round's claim `g_i(0) + g_i(1)` matches the
/// previous round's running claim `g_{i-1}(r_{i-1})`, and the final running
/// claim matches the full polynomial at the challenge point.
pub open spec fn accepts_with(
    t: Seq<int>,
    m: int,
    l: nat,
    msgs: Seq<Seq<int>>,
    rs: Seq<int>,
) -> bool {
    &&& msgs.len() == l
    &&& rs.len() == l
    &&& (forall|i: int| 0 <= i < l ==> (#[trigger] msgs[i]).len() == 2)
    &&& (forall|i: int|
        1 <= i < l ==> initial_claim(#[trigger] msgs[i], m) == round_claim(
            msgs[i - 1],
            rs[i - 1],
            m,
        ))
    &&& (l >= 1 ==> eval_int(t, rs) % m == round_claim(msgs[l - 1], rs[l - 1], m))
}

/// Acceptance of a transcript by the Fiat-Shamir verifier.
pub open spec fn accepts(t: Seq<int>, m: int, l: nat, msgs: Seq<Seq<int>>) -> bool {
    accepts_with(t, m, l, msgs, fs_chain(0, msgs, m))
}

/// The messages an honest Fiat-Shamir prover emits over `k` rounds starting
/// from table `t` and chain state `s`.
pub open spec fn honest_msgs(t: Seq<int>, s: int, m: int, k: nat) -> Seq<Seq<int>>
    decreases k,
{
    if k == 0 {
        Seq::empty()
    } else {
        let g = spec_g(t, m);
        let r = fs_next_val(s, g, m);
        seq![g] + honest_msgs(spec_fix(t, r, m), r, m, (k - 1) as nat)
    }
}

/// The messages an honest prover emits against an arbitrary challenge
/// sequence `rs` — private-coin or derived, the fold is the same.
pub open spec fn honest_run(t: Seq<int>, rs: Seq<int>, m: int) -> Seq<Seq<int>>
    decreases rs.len(),
{
    if rs.len() == 0 {
        Seq::empty()
    } else {
        seq![spec_g(t, m)] + honest_run(spec_fix(t, rs[0], m), rs.drop_first(), m)
    }
}

/// A Fiat-Shamir chain is as long as the message list it consumes.
pub proof fn lemma_fs_chain_len(s: int, msgs: Seq<Seq<int>>, m: int)
    ensures
        fs_chain(s, msgs, m).len() == msgs.len(),
    decreases msgs.len(),
{
    if msgs.len() > 0 {
        lemma_fs_chain_len(fs_next_val(s, msgs[0], m), msgs.drop_first(), m);
    }
}

/// Each chained challenge is the hash step on the previous one and the
/// round's message.
pub proof fn lemma_fs_chain_step(s: int, msgs: Seq<Seq<int>>, m: int, k: int)
    requires
        0 <= k < msgs.len(),
    ensures
        fs_chain(s, msgs, m)[k] == fs_next_val(
            if k == 0 {
                s
            } else {
                fs_chain(s, msgs, m)[k - 1]
            },
            msgs[k],
            m,
        ),
    decreases msgs.len(),
{
    let r = fs_next_val(s, msgs[0], m);
    lemma_fs_chain_len(r, msgs.drop_first(), m);
    if k > 0 {
        lemma_fs_chain_step(r, msgs.drop_first(), m, k - 1);
        assert(msgs.drop_first()[k - 1] == msgs[k]);
        if k >= 2 {
            assert(fs_chain(s, msgs, m)[k - 1] == fs_chain(r, msgs.drop_first(), m)[k - 2]);
        }
    }
}

/// Interactive completeness: whatever challenges the verifier draws, the
/// honest prover's messages pass the degree check, every consistency check,
/// and the final oracle check.
pub proof fn lemma_completeness_interactive(t: Seq<int>, rs: Seq<int>, m: int)
    requires
        m >= 2,
        t.len() == pow2(rs.len()),
    ensures
        accepts_with(t, m, rs.len(), honest_run(t, rs, m), rs),
    decreases rs.len(),
{
    let l = rs.len();
    let ms = honest_run(t, rs, m);
    if l == 0 {
    } else {
        lemma_pow2_unfold(l);
        lemma_pow2_pos((l - 1) as nat);
        assert(t.len() >= 2 && t.len() % 2 == 0);
        let t1 = spec_fix(t, rs[0], m);
        let rs1 = rs.drop_first();
        let ms1 = honest_run(t1, rs1, m);
        assert(t1.len() == pow2(rs1.len()));
        lemma_completeness_interactive(t1, rs1, m);
        assert(ms == seq![spec_g(t, m)] + ms1);
        assert(ms[0] == spec_g(t, m));
        assert(forall|i: int| 1 <= i < l ==> ms[i] == ms1[i - 1]);
        assert(forall|i: int| 0 <= i < l ==> (#[trigger] ms[i]).len() == 2);
        // consistency between round 1 and round 2
        if l >= 2 {
            lemma_pow2_unfold((l - 1) as nat);
            lemma_pow2_pos((l - 2) as nat);
            assert(t1.len() >= 2 && t1.len() % 2 == 0);
            lemma_g_claims(t1, m);
            lemma_g_fold(t, m, rs[0]);
            assert(ms[1] == spec_g(t1, m));
            assert(initial_claim(ms[1], m) == sum_int(t1) % m);
            assert(round_claim(ms[0], rs[0], m) == sum_int(t1) % m);
        }
        // consistency for the later rounds carries over from the sub-run
        assert forall|i: int| 2 <= i < l implies initial_claim(#[trigger] ms[i], m)
            == round_claim(ms[i - 1], rs[i - 1], m) by {
            assert(ms[i] == ms1[i - 1]);
            assert(ms[i - 1] == ms1[i - 2]);
            assert(rs[i - 1] == rs1[i - 2]);
            assert(initial_claim(ms1[i - 1], m) == round_claim(ms1[i - 2], rs1[i - 2], m));
        }
        // the final check
        lemma_fix_evaluate(t, rs[0], m, rs1);
        assert(seq![rs[0]] + rs1 =~= rs);
        if l == 1 {
            assert(pow2(0) == 1 && pow2(1) == 2) by {
                vstd::arithmetic::power2::lemma2_to64();
            }
            assert(t1.len() == 1);
            assert(t1.last() == t1[0]);
            assert(sum_int(Seq::<int>::empty()) == 0);
            assert(eval_int(t1, rs1) == t1[0]);
            assert(t1.drop_last() =~= Seq::<int>::empty());
            assert(sum_int(t1) == t1[0]);
            lemma_g_fold(t, m, rs[0]);
            lemma_mod_twice(
                (1 - rs[0]) * t[0] + rs[0] * t[t.len() as int / 2],
                m,
            );
            assert(eval_int(t, rs) % m == t1[0] % m);
            assert(round_claim(ms[0], rs[0], m) == sum_int(t1) % m);
        } else {
            assert(eval_int(t, rs) % m == eval_int(t1, rs1) % m);
            assert(eval_int(t1, rs1) % m == round_claim(ms1[l - 2], rs1[l - 2], m));
            assert(ms[l - 1] == ms1[l - 2]);
            assert(rs[l - 1] == rs1[l - 2]);
        }
    }
}

/// The honest Fiat-Shamir transcript is the honest run against the very
/// challenges the chain derives from it.
pub proof fn lemma_honest_msgs_run(t: Seq<int>, s: int, m: int, k: nat)
    ensures
        fs_chain(s, honest_msgs(t, s, m, k), m).len() == k,
        honest_msgs(t, s, m, k) == honest_run(
            t,
            fs_chain(s, honest_msgs(t, s, m, k), m),
            m,
        ),
    decreases k,
{
    let ms = honest_msgs(t, s, m, k);
    lemma_fs_chain_len(s, ms, m);
    if k == 0 {
        assert(ms =~= honest_run(t, fs_chain(s, ms, m), m));
    } else {
        let g = spec_g(t, m);
        let r = fs_next_val(s, g, m);
        let t1 = spec_fix(t, r, m);
        let ms1 = honest_msgs(t1, r, m, (k - 1) as nat);
        lemma_honest_msgs_run(t1, r, m, (k - 1) as nat);
        assert(ms[0] == g);
        assert(ms.drop_first() =~= ms1);
        let rs = fs_chain(s, ms, m);
        assert(rs == seq![r] + fs_chain(r, ms1, m));
        let rs1 = fs_chain(r, ms1, m);
        assert(rs[0] == r);
        assert(rs.drop_first() =~= rs1);
        assert(honest_run(t, rs, m) == seq![spec_g(t, m)] + honest_run(t1, rs1, m));
        assert(ms == seq![g] + ms1);
        assert(ms1 == honest_run(t1, rs1, m));
    }
}

/// Non-interactive completeness: the honest Fiat-Shamir transcript is
/// accepted by the Fiat-Shamir verifier.
pub proof fn lemma_completeness(t: Seq<int>, m: int, l: nat)
    requires
        m >= 2,
        t.len() == pow2(l),
    ensures
        accepts(t, m, l, honest_msgs(t, 0, m, l)),
{
    let ms = honest_msgs(t, 0, m, l);
    lemma_honest_msgs_run(t, 0, m, l);
    let rs = fs_chain(0, ms, m);
    lemma_completeness_interactive(t, rs, m);
}

/// A transcript with a round message of the wrong shape is rejected.
proof fn lemma_reject_degree(t: Seq<int>, m: int, l: nat, msgs: Seq<Seq<int>>, i: int)
    requires
        0 <= i < l,
        i < msgs.len(),
        msgs[i].len() != 2,
    ensures
        !accepts(t, m, l, msgs),
{
}

/// A transcript that breaks one consistency check is rejected.
proof fn lemma_reject_consistency(t: Seq<int>, m: int, l: nat, msgs: Seq<Seq<int>>, i: int)
    requires
        1 <= i < l,
        i < msgs.len(),
        initial_claim(msgs[i], m) != round_claim(msgs[i - 1], fs_chain(0, msgs, m)[i - 1], m),
    ensures
        !accepts(t, m, l, msgs),
{
}

/// A transcript that fails the final oracle check is rejected.
proof fn lemma_reject_final(t: Seq<int>, m: int, l: nat, msgs: Seq<Seq<int>>)
    requires
        l >= 1,
        msgs.len() == l,
        eval_int(t, fs_chain(0, msgs, m)) % m != round_claim(
            msgs[l - 1],
            fs_chain(0, msgs, m)[l - 1],
            m,
        ),
    ensures
        !accepts(t, m, l, msgs),
{
}

/// The proof wire format: exactly `l` univariate round messages, in round
/// order, each a coefficient sequence low degree first.
pub struct Proof(pub Vec<Polynomial>);

/// Sum-check with the Fiat-Shamir heuristic: one-shot proof generation and
/// checking.
pub struct SumCheck {
    l: u64,
    f: MultilinearPolynomial,
}

impl SumCheck {
    /// The run is over a well-formed polynomial in `l` variables.
    pub closed spec fn wf(self) -> bool {
        self.f.wf() && self.f.vars() == self.l as nat
    }

    /// The modulus of the field the run is over.
    pub closed spec fn m(self) -> int {
        self.f.m()
    }

    /// The number of variables.
    pub closed spec fn vars(self) -> nat {
        self.l as nat
    }

    /// The table of the polynomial.
    pub closed spec fn table(self) -> Seq<int> {
        self.f.table()
    }

    /// An orchestrator for the polynomial `f` over `l` variables.
    pub fn new(l: u64, f: MultilinearPolynomial) -> (s: SumCheck)
        requires
            f.wf(),
            f.vars() == l as nat,
        ensures
            s.wf(),
            s.vars() == l as nat,
            s.m() == f.m(),
            s.table() == f.table(),
    {
        SumCheck { l, f }
    }

    /// The claimed sum: the polynomial's total over the hypercube.
    pub fn sum(&self) -> (res: Fp)
        requires
            self.wf(),
        ensures
            res.wf(),
            res.m() == self.m(),
            res.v() == sum_int(self.table()) % self.m(),
    {
        self.f.sum()
    }

    /// Run all `l` rounds of an honest prover, feeding each message's
    /// coefficients into the prover-side Fiat-Shamir oracle to derive the
    /// next fold point; the messages, in round order, are the proof.
    pub fn prove(&self) -> (p: Proof)
        requires
            self.wf(),
        ensures
            p.0@.len() == self.vars(),
            proof_polys_wf(p.0@, self.m()),
            msgs_of(p.0@) == honest_msgs(self.table(), 0, self.m(), self.vars()),
            accepts(self.table(), self.m(), self.vars(), msgs_of(p.0@)),
    {
        proof {
            self.f.lemma_wf_facts();
            lemma_completeness(self.table(), self.m(), self.vars());
        }
        let m: u64 = self.f.modulus();
        let mut prover: Prover = Prover::new(self.l, self.f.duplicate());
        let mut oracle: FiatShamir = FiatShamir::new(m);
        let mut proof_vec: Vec<Polynomial> = Vec::new();
        let mut r_opt: Option<Fp> = None;
        let ghost t0 = self.table();
        let ghost mut tcur: Seq<int> = self.table();
        let ghost mut scur: int = 0;
        let mut i: u64 = 0;
        proof {
            assert(msgs_of(proof_vec@) =~= Seq::<Seq<int>>::empty());
        }
        while i < self.l
            invariant
                self.wf(),
                m as int == self.m(),
                i <= self.l,
                prover.wf(),
                prover.vars() == self.vars(),
                prover.m() == self.m(),
                prover.rounds_done() == i as nat,
                oracle.wf(),
                oracle.m() == self.m(),
                oracle.state_val() == scur,
                proof_vec@.len() == i as nat,
                proof_polys_wf(proof_vec@, self.m()),
                t0 == self.table(),
                msgs_of(proof_vec@) + honest_msgs(tcur, scur, m as int, (self.l - i) as nat)
                    == honest_msgs(t0, 0, m as int, self.l as nat),
                i == 0 ==> tcur == prover.working() && scur == 0 && r_opt is None,
                i >= 1 ==> (r_opt matches Some(x) && x.wf() && x.m() == self.m() && x.v() == scur),
                i >= 1 ==> tcur == spec_fix(prover.working(), scur, self.m()),
            decreases self.l - i,
        {
            let round: u64 = i + 1;
            let gi: Polynomial = match prover.prove(round, r_opt) {
                Ok(g) => g,
                Err(_) => unreached(),
            };
            proof {
                assert(prover.working() == tcur);
                assert(gi.coeffs() == spec_g(tcur, m as int));
            }
            let ri: Fp = oracle.next_random(gi.coeff());
            proof {
                let k = (self.l - i) as nat;
                assert(honest_msgs(tcur, scur, m as int, k) == seq![spec_g(tcur, m as int)]
                    + honest_msgs(
                    spec_fix(tcur, ri.v(), m as int),
                    ri.v(),
                    m as int,
                    (k - 1) as nat,
                ));
                assert(msgs_of(proof_vec@.push(gi)) =~= msgs_of(proof_vec@) + seq![gi.coeffs()]);
                assert((msgs_of(proof_vec@) + seq![gi.coeffs()]) + honest_msgs(
                    spec_fix(tcur, ri.v(), m as int),
                    ri.v(),
                    m as int,
                    (k - 1) as nat,
                ) =~= msgs_of(proof_vec@) + honest_msgs(tcur, scur, m as int, k));
            }
            proof_vec.push(gi);
            r_opt = Some(ri);
            proof {
                tcur = spec_fix(tcur, ri.v(), m as int);
                scur = ri.v();
            }
            i += 1;
        }
        proof {
            assert(msgs_of(proof_vec@) + honest_msgs(tcur, scur, m as int, 0) =~= msgs_of(
                proof_vec@,
            ));
        }
        Proof(proof_vec)
    }

    /// Check a proof: run all `l` rounds of a fresh verifier whose own
    /// Fiat-Shamir oracle re-derives the challenges from the same message
    /// bytes, rejecting as soon as any round's check fails. Accepts exactly
    /// the structurally well-formed transcripts that pass every round.
    #[verifier::rlimit(100)]
    pub fn verify(&self, proof: Proof) -> (b: bool)
        requires
            self.wf(),
        ensures
            b == (proof.0@.len() == self.vars() && proof_polys_wf(proof.0@, self.m()) && accepts(
                self.table(),
                self.m(),
                self.vars(),
                msgs_of(proof.0@),
            )),
    {
        let m: u64 = self.f.modulus();
        if proof.0.len() as u64 != self.l {
            return false;
        }
        let mut k: usize = 0;
        while k < proof.0.len()
            invariant
                0 <= k <= proof.0@.len(),
                self.wf(),
                m as int == self.m(),
                forall|j: int|
                    0 <= j < k ==> (#[trigger] proof.0@[j]).wf() && proof.0@[j].m() == m as int,
            decreases proof.0@.len() - k,
        {
            if !proof.0[k].modulus_matches(m) {
                return false;
            }
            k += 1;
        }
        let ghost msgs = msgs_of(proof.0@);
        let ghost chain = fs_chain(0, msgs, m as int);
        proof {
            lemma_fs_chain_len(0, msgs, m as int);
        }
        let fo: MultilinearPolynomial = self.f.duplicate();
        let ro: ChallengeOracle = ChallengeOracle::FiatShamir(FiatShamir::new(m));
        let mut ver: Verifier = Verifier::new(self.l, fo, ro);
        proof {
            assert(ver.challenges() =~= chain.take(0));
        }
        let mut i: u64 = 0;
        while i < self.l
            invariant
                self.wf(),
                m as int == self.m(),
                i <= self.l,
                proof.0@.len() == self.l as nat,
                proof_polys_wf(proof.0@, self.m()),
                msgs == msgs_of(proof.0@),
                chain == fs_chain(0, msgs, m as int),
                chain.len() == self.l as nat,
                ver.wf(),
                ver.vars() == self.vars(),
                ver.m() == self.m(),
                ver.table() == self.table(),
                ver.rounds_done() == i as nat,
                ver.challenges() == chain.take(i as int),
                ver.oracle().is_fiat_shamir(),
                i == 0 ==> ver.oracle().fs_state() == 0,
                i >= 1 ==> ver.oracle().fs_state() == chain[i - 1],
                i >= 1 ==> ver.claims().len() == i + 1 && ver.claims().last() == round_claim(
                    msgs[i - 1],
                    chain[i - 1],
                    m as int,
                ),
                forall|j: int| 0 <= j < i ==> (#[trigger] msgs[j]).len() == 2,
                forall|j: int|
                    1 <= j < i ==> initial_claim(#[trigger] msgs[j], m as int) == round_claim(
                        msgs[j - 1],
                        chain[j - 1],
                        m as int,
                    ),
                i >= 1 && i as nat == self.vars() ==> eval_int(self.table(), chain) % (
                m as int) == round_claim(msgs[i - 1], chain[i - 1], m as int),
            decreases self.l - i,
        {
            let round: u64 = i + 1;
            let gi: Polynomial = proof.0[i as usize].duplicate();
            proof {
                assert(gi.coeffs() == msgs[i as int]);
                lemma_fs_chain_step(0, msgs, m as int, i as int);
            }
            let ghost prev_ver = ver;
            let ok: bool = match ver.verify(round, gi) {
                Ok(b) => b,
                Err(_) => unreached(),
            };
            if !ok {
                proof {
                    if msgs[i as int].len() != 2 {
                        lemma_reject_degree(self.table(), self.m(), self.vars(), msgs, i as int);
                    } else if i >= 1 && initial_claim(msgs[i as int], m as int) != round_claim(
                        msgs[i - 1],
                        chain[i - 1],
                        m as int,
                    ) {
                        lemma_reject_consistency(
                            self.table(),
                            self.m(),
                            self.vars(),
                            msgs,
                            i as int,
                        );
                    } else {
                        // only the last round can reject here: the final
                        // oracle check failed
                        assert(round as nat == self.vars());
                        assert(prev_ver.challenges() == chain.take(i as int));
                        assert(ver.challenges().take(round - 1) == chain.take(i as int));
                        assert(ver.challenges().last() == fs_next_val(
                            if i == 0 {
                                0int
                            } else {
                                chain[i - 1]
                            },
                            msgs[i as int],
                            m as int,
                        ));
                        assert(ver.challenges() =~= chain.take(i + 1));
                        assert(chain.take(i + 1) =~= chain);
                        assert(ver.claims().last() == round_claim(
                            msgs[i as int],
                            chain[i as int],
                            m as int,
                        ));
                        assert(eval_int(self.table(), chain) % self.m() != round_claim(
                            msgs[self.vars() - 1],
                            chain[self.vars() - 1],
                            m as int,
                        ));
                        lemma_reject_final(self.table(), self.m(), self.vars(), msgs);
                    }
                }
                return false;
            }
            proof {
                assert(msgs[i as int].len() == 2);
                assert(i >= 1 ==> initial_claim(msgs[i as int], m as int) == round_claim(
                    msgs[i - 1],
                    chain[i - 1],
                    m as int,
                ));
                assert(ver.challenges().take(round - 1) == chain.take(i as int));
                assert(ver.challenges().last() == fs_next_val(
                    if i == 0 {
                        0int
                    } else {
                        chain[i - 1]
                    },
                    msgs[i as int],
                    m as int,
                ));
                assert(ver.challenges() =~= chain.take(i + 1));
                assert(ver.claims().last() == round_claim(msgs[i as int], chain[i as int], m as int));
                if round == self.l {
                    assert(chain.take(i + 1) =~= chain);
                    assert(eval_int(self.table(), chain) % (m as int) == round_claim(
                        msgs[i as int],
                        chain[i as int],
                        m as int,
                    ));
                }
            }
            i += 1;
        }
        proof {
            assert(chain.take(self.l as int) =~= chain);
            if self.l >= 1 {
                let lv = self.vars() as int;
                assert(ver.claims().last() == round_claim(msgs[lv - 1], chain[lv - 1], m as int));
                assert(eval_int(self.table(), chain) % self.m() == round_claim(
                    msgs[lv - 1],
                    chain[lv - 1],
                    m as int,
                ));
            }
            assert(accepts(self.table(), self.m(), self.vars(), msgs));
        }
        true
    }
}

} // verus!

//! Randomness oracles: the capability the verifier draws its challenges
//! from. Two variants exist — true private coins for live interactive runs,
//! and the deterministic Fiat-Shamir hash chain that makes the protocol
//! non-interactive.

pub mod fiat_shamir;
pub mod private_coin;

use vstd::prelude::*;
use crate::field::{Fp, points_wf, vals};
use fiat_shamir::{fs_next_val, FiatShamir};
use private_coin::PrivateCoinRandomnessOracle;

verus! {

/// The capability of drawing one field element per call, possibly keyed on
/// the transcript bytes handed in.
pub trait RandomnessOracle: Sized {
    /// The oracle is in a state its operations may be called in.
    spec fn r_wf(&self) -> bool;

    /// The modulus of the field the oracle draws from.
    spec fn r_modulus(&self) -> int;

    /// Draw the next challenge, feeding in the transcript values `input`.
    fn next_random(&mut self, input: &Vec<Fp>) -> (r: Fp)
        requires
            old(self).r_wf(),
            points_wf(input@, old(self).r_modulus()),
        ensures
            final(self).r_wf(),
            final(self).r_modulus() == old(self).r_modulus(),
            r.wf(),
            r.m() == old(self).r_modulus(),
    ;
}

/// The closed choice of randomness oracle a verifier is run with, dispatched
/// at compile time: only these two variants exist in the protocol.
pub enum ChallengeOracle {
    PrivateCoin(PrivateCoinRandomnessOracle),
    FiatShamir(FiatShamir),
}

impl ChallengeOracle {
    /// The held variant is in a state its operations may be called in.
    pub open spec fn wf(self) -> bool {
        match self {
            ChallengeOracle::PrivateCoin(p) => p.wf(),
            ChallengeOracle::FiatShamir(f) => f.wf(),
        }
    }

    /// The modulus of the field the oracle draws from.
    pub open spec fn m(self) -> int {
        match self {
            ChallengeOracle::PrivateCoin(p) => p.m(),
            ChallengeOracle::FiatShamir(f) => f.m(),
        }
    }

    /// Whether the oracle is the deterministic Fiat-Shamir variant.
    pub open spec fn is_fiat_shamir(self) -> bool {
        self is FiatShamir
    }

    /// The running Fiat-Shamir state; meaningful only for that variant.
    pub open spec fn fs_state(self) -> int {
        match self {
            ChallengeOracle::PrivateCoin(p) => 0,
            ChallengeOracle::FiatShamir(f) => f.state_val(),
        }
    }

    /// Draw the next challenge. For the Fiat-Shamir variant the result is
    /// the deterministic hash-chain step on the transcript values; for the
    /// private-coin variant nothing is promised beyond well-formedness.
    pub fn next_random(&mut self, input: &Vec<Fp>) -> (r: Fp)
        requires
            old(self).wf(),
            points_wf(input@, old(self).m()),
        ensures
            r.wf(),
            r.m() == old(self).m(),
            final(self).wf(),
            final(self).m() == old(self).m(),
            final(self).is_fiat_shamir() == old(self).is_fiat_shamir(),
            old(self).is_fiat_shamir() ==> r.v() == fs_next_val(
                old(self).fs_state(),
                vals(input@),
                old(self).m(),
            ),
            old(self).is_fiat_shamir() ==> final(self).fs_state() == r.v(),
    {
        match self {
            ChallengeOracle::PrivateCoin(p) => p.next_random(input),
            ChallengeOracle::FiatShamir(f) => f.next_random(input),
        }
    }
}

impl RandomnessOracle for ChallengeOracle {
    open spec fn r_wf(&self) -> bool {
        self.wf()
    }

    open spec fn r_modulus(&self) -> int {
        self.m()
    }

    fn next_random(&mut self, input: &Vec<Fp>) -> (r: Fp) {
        ChallengeOracle::next_random(self, input)
    }
}

} // verus!

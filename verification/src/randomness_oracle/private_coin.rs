//! True verifier randomness for live interactive sessions: each challenge is
//! drawn fresh and cannot be re-derived, so this variant is unusable for
//! non-interactive proofs.

use vstd::prelude::*;
use crate::field::Fp;
use super::RandomnessOracle;

verus! {

/// Relies on rand's `random` with the `Standard` distribution: draws one
/// machine word from the thread-local generator; nothing is assumed of its
/// value.
#[verifier::external_body]
fn sample_u64() -> u64 {
    rand::random::<u64>()
}

/// The private-coin randomness oracle: ignores its input and returns a
/// freshly sampled field element.
pub struct PrivateCoinRandomnessOracle {
    modulus: u64,
}

impl PrivateCoinRandomnessOracle {
    /// The modulus admits both identities.
    pub closed spec fn wf(self) -> bool {
        self.modulus >= 2
    }

    /// The modulus of the field the oracle draws from.
    pub closed spec fn m(self) -> int {
        self.modulus as int
    }

    /// A private-coin oracle over the field of the given order.
    pub fn new(modulus: u64) -> (r: PrivateCoinRandomnessOracle)
        requires
            modulus >= 2,
        ensures
            r.wf(),
            r.m() == modulus as int,
    {
        PrivateCoinRandomnessOracle { modulus }
    }

    /// Draw one uniformly sampled field element; the input plays no part.
    pub fn next_random(&mut self, _input: &Vec<Fp>) -> (r: Fp)
        requires
            old(self).wf(),
        ensures
            *final(self) == *old(self),
            r.wf(),
            r.m() == old(self).m(),
    {
        let x: u64 = sample_u64();
        Fp::new(x, self.modulus)
    }
}

impl RandomnessOracle for PrivateCoinRandomnessOracle {
    open spec fn r_wf(&self) -> bool {
        self.wf()
    }

    open spec fn r_modulus(&self) -> int {
        self.m()
    }

    fn next_random(&mut self, input: &Vec<Fp>) -> (r: Fp) {
        PrivateCoinRandomnessOracle::next_random(self, input)
    }
}

} // verus!

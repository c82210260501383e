//! Prime-field elements held as a reduced residue together with the modulus.
//! All protocol arithmetic goes through this type; contracts speak of the
//! residues as mathematical integers.

use vstd::prelude::*;
use vstd::arithmetic::div_mod::{
    lemma_mod_add_multiples_vanish, lemma_small_mod,
};

verus! {

/// A field element: a residue `value` modulo `modulus`.
///
/// The modulus travels with the element so that a single protocol run can be
/// instantiated over any prime order at run time; operations demand that both
/// operands carry the same modulus.
#[derive(Clone, Copy, PartialEq, Eq, Structural, Debug)]
pub struct Fp {
    pub value: u64,
    pub modulus: u64,
}

/// The residues of a sequence of field elements, as integers.
pub open spec fn vals(s: Seq<Fp>) -> Seq<int> {
    s.map(|i: int, e: Fp| e.value as int)
}

/// Every element of `s` is well formed and carries modulus `m`.
pub open spec fn points_wf(s: Seq<Fp>, m: int) -> bool {
    forall|i: int| 0 <= i < s.len() ==> (#[trigger] s[i]).wf() && s[i].m() == m
}

impl Fp {
    /// The element is reduced and the modulus admits both identities.
    pub open spec fn wf(self) -> bool {
        self.modulus >= 2 && self.value < self.modulus
    }

    /// The modulus as a mathematical integer.
    pub open spec fn m(self) -> int {
        self.modulus as int
    }

    /// The residue as a mathematical integer.
    pub open spec fn v(self) -> int {
        self.value as int
    }

    /// Construct an element from any machine word, reducing it.
    pub fn new(value: u64, modulus: u64) -> (r: Fp)
        requires
            modulus >= 2,
        ensures
            r.wf(),
            r.modulus == modulus,
            r.v() == value as int % modulus as int,
    {
        Fp { value: value % modulus, modulus }
    }

    /// The additive identity.
    pub fn zero(modulus: u64) -> (r: Fp)
        requires
            modulus >= 2,
        ensures
            r.wf(),
            r.modulus == modulus,
            r.v() == 0,
    {
        Fp { value: 0, modulus }
    }

    /// The multiplicative identity.
    pub fn one(modulus: u64) -> (r: Fp)
        requires
            modulus >= 2,
        ensures
            r.wf(),
            r.modulus == modulus,
            r.v() == 1,
    {
        Fp { value: 1, modulus }
    }

    /// Field addition.
    pub fn add(self, other: Fp) -> (r: Fp)
        requires
            self.wf(),
            other.wf(),
            self.modulus == other.modulus,
        ensures
            r.wf(),
            r.modulus == self.modulus,
            r.v() == (self.v() + other.v()) % self.m(),
    {
        let m = self.modulus;
        let s: u64 = if self.value >= m - other.value {
            self.value - (m - other.value)
        } else {
            self.value + other.value
        };
        proof {
            if self.value >= m - other.value {
                lemma_mod_add_multiples_vanish(s as int, m as int);
                lemma_small_mod(s as nat, m as nat);
            } else {
                lemma_small_mod(s as nat, m as nat);
            }
        }
        Fp { value: s, modulus: m }
    }

    /// Field subtraction.
    pub fn sub(self, other: Fp) -> (r: Fp)
        requires
            self.wf(),
            other.wf(),
            self.modulus == other.modulus,
        ensures
            r.wf(),
            r.modulus == self.modulus,
            r.v() == (self.v() - other.v()) % self.m(),
    {
        let m = self.modulus;
        let s: u64 = if self.value >= other.value {
            self.value - other.value
        } else {
            m - other.value + self.value
        };
        proof {
            if self.value >= other.value {
                lemma_small_mod(s as nat, m as nat);
            } else {
                lemma_mod_add_multiples_vanish((self.v() - other.v()) as int, m as int);
                lemma_small_mod(s as nat, m as nat);
            }
        }
        Fp { value: s, modulus: m }
    }

    /// Field multiplication, through a double-width intermediate product.
    pub fn mul(self, other: Fp) -> (r: Fp)
        requires
            self.wf(),
            other.wf(),
            self.modulus == other.modulus,
        ensures
            r.wf(),
            r.modulus == self.modulus,
            r.v() == (self.v() * other.v()) % self.m(),
    {
        let m = self.modulus;
        proof {
            assert(self.v() * other.v() <= (u64::MAX as int) * (u64::MAX as int))
                by (nonlinear_arith)
                requires
                    0 <= self.v() <= u64::MAX as int,
                    0 <= other.v() <= u64::MAX as int,
            ;
        }
        let p: u128 = (self.value as u128) * (other.value as u128);
        let s: u64 = (p % (m as u128)) as u64;
        Fp { value: s, modulus: m }
    }
}

} // verus!

//! Dense univariate polynomials in coefficient form, low degree first.

use vstd::prelude::*;
use vstd::arithmetic::div_mod::{
    lemma_add_mod_noop_right, lemma_mul_mod_noop_general, lemma_small_mod,
};
use crate::field::{Fp, points_wf, vals};
use super::ConstructionError;

verus! {

/// The value of the polynomial with coefficients `c` (index = power of X) at
/// the point `x`, as an exact integer.
pub open spec fn poly_eval_int(c: Seq<int>, x: int) -> int
    decreases c.len(),
{
    if c.len() == 0 {
        0
    } else {
        c[0] + x * poly_eval_int(c.drop_first(), x)
    }
}

/// The univariate capability the verifier consumes: evaluation and the
/// structural degree.
pub trait PolynomialTrait: Sized {
    /// The polynomial is in a state its operations may be called in.
    spec fn p_wf(&self) -> bool;

    /// The modulus of the field the coefficients live in.
    spec fn p_modulus(&self) -> int;

    /// The coefficients as integers, low degree first.
    spec fn p_coeffs(&self) -> Seq<int>;

    /// Evaluate the polynomial at the point `r`.
    fn evaluate(&self, r: Fp) -> (res: Fp)
        requires
            self.p_wf(),
            r.wf(),
            r.m() == self.p_modulus(),
        ensures
            res.wf(),
            res.m() == self.p_modulus(),
            res.v() == poly_eval_int(self.p_coeffs(), r.v()) % self.p_modulus(),
    ;

    /// The structural degree: one less than the number of coefficients,
    /// whether or not the top coefficient is zero.
    fn deg(&self) -> (d: u64)
        requires
            self.p_wf(),
        ensures
            d as int == self.p_coeffs().len() - 1,
    ;
}

/// A univariate polynomial `coeff[0] + coeff[1] X + coeff[2] X^2 + ...`.
#[derive(Debug)]
pub struct Polynomial {
    coeff: Vec<Fp>,
}

impl Polynomial {
    /// Non-empty, with every coefficient reduced under one modulus.
    pub closed spec fn wf(self) -> bool {
        self.coeff@.len() >= 1 && points_wf(self.coeff@, self.coeff@[0].m())
    }

    /// The common modulus of the coefficients.
    pub closed spec fn m(self) -> int {
        self.coeff@[0].m()
    }

    /// The coefficients as integers, low degree first.
    pub closed spec fn coeffs(self) -> Seq<int> {
        vals(self.coeff@)
    }

    /// Build a polynomial from its coefficients; rejects an empty sequence
    /// and coefficients that do not share one well-formed modulus.
    pub fn new(coeff: Vec<Fp>) -> (res: Result<Polynomial, ConstructionError>)
        ensures
            res is Ok <==> coeff@.len() >= 1 && points_wf(coeff@, coeff@[0].m()),
            res == Err::<Polynomial, ConstructionError>(ConstructionError::EmptyCoefficients)
                <==> coeff@.len() == 0,
            res matches Ok(p) ==> p.wf() && p.coeffs() == vals(coeff@) && p.m() == coeff@[0].m(),
    {
        if coeff.len() == 0 {
            return Err(ConstructionError::EmptyCoefficients);
        }
        let m0: u64 = coeff[0].modulus;
        let mut i: usize = 0;
        while i < coeff.len()
            invariant
                0 <= i <= coeff@.len(),
                m0 == coeff@[0].modulus,
                forall|k: int|
                    0 <= k < i ==> (#[trigger] coeff@[k]).wf() && coeff@[k].m() == m0 as int,
            decreases coeff@.len() - i,
        {
            let e = coeff[i];
            if !(e.modulus == m0 && e.modulus >= 2 && e.value < e.modulus) {
                return Err(ConstructionError::MixedModulus);
            }
            i += 1;
        }
        Ok(Polynomial { coeff })
    }

    /// Build a polynomial from coefficients already known to be uniform.
    pub(crate) fn from_vec(coeff: Vec<Fp>) -> (p: Polynomial)
        requires
            coeff@.len() >= 1,
            points_wf(coeff@, coeff@[0].m()),
        ensures
            p.wf(),
            p.coeffs() == vals(coeff@),
            p.m() == coeff@[0].m(),
    {
        Polynomial { coeff }
    }

    /// The coefficients, low degree first.
    pub fn coeff(&self) -> (c: &Vec<Fp>)
        ensures
            vals(c@) == self.coeffs(),
            c@.len() == self.coeffs().len(),
            self.wf() ==> points_wf(c@, self.m()),
    {
        &self.coeff
    }

    /// An element-for-element copy.
    pub fn duplicate(&self) -> (p: Polynomial)
        ensures
            p.coeffs() == self.coeffs(),
            p.m() == self.m(),
            p.wf() == self.wf(),
    {
        let mut c: Vec<Fp> = Vec::new();
        let mut i: usize = 0;
        while i < self.coeff.len()
            invariant
                0 <= i <= self.coeff@.len(),
                c@ == self.coeff@.take(i as int),
            decreases self.coeff@.len() - i,
        {
            c.push(self.coeff[i]);
            proof {
                assert(c@ =~= self.coeff@.take(i + 1));
            }
            i += 1;
        }
        proof {
            assert(c@ =~= self.coeff@);
        }
        Polynomial { coeff: c }
    }

    /// Whether the polynomial is well formed over the modulus `m`.
    pub fn modulus_matches(&self, m: u64) -> (b: bool)
        ensures
            b == (self.wf() && self.m() == m as int),
    {
        if self.coeff.len() == 0 {
            return false;
        }
        if self.coeff[0].modulus != m {
            return false;
        }
        let mut i: usize = 0;
        while i < self.coeff.len()
            invariant
                0 <= i <= self.coeff@.len(),
                self.coeff@.len() >= 1,
                self.coeff@[0].modulus == m,
                forall|k: int|
                    0 <= k < i ==> (#[trigger] self.coeff@[k]).wf() && self.coeff@[k].m() == m as int,
            decreases self.coeff@.len() - i,
        {
            let e = self.coeff[i];
            if !(e.modulus == m && e.modulus >= 2 && e.value < e.modulus) {
                return false;
            }
            i += 1;
        }
        true
    }
}

impl PolynomialTrait for Polynomial {
    open spec fn p_wf(&self) -> bool {
        self.wf()
    }

    open spec fn p_modulus(&self) -> int {
        self.m()
    }

    open spec fn p_coeffs(&self) -> Seq<int> {
        self.coeffs()
    }

    fn evaluate(&self, r: Fp) -> (res: Fp) {
        let m: u64 = self.coeff[0].modulus;
        let mut acc: Fp = Fp::zero(m);
        let mut i: usize = self.coeff.len();
        proof {
            assert(self.coeffs().skip(i as int) =~= Seq::<int>::empty());
            lemma_small_mod(0, m as nat);
        }
        while i > 0
            invariant
                0 <= i <= self.coeff@.len(),
                self.wf(),
                m as int == self.m(),
                r.wf(),
                r.m() == m as int,
                acc.wf(),
                acc.m() == m as int,
                acc.v() == poly_eval_int(self.coeffs().skip(i as int), r.v()) % m as int,
            decreases i,
        {
            i -= 1;
            let ci: Fp = self.coeff[i];
            let prod: Fp = r.mul(acc);
            let next: Fp = ci.add(prod);
            proof {
                let cs = self.coeffs();
                let tail = poly_eval_int(cs.skip(i + 1), r.v());
                assert(cs.skip(i as int).drop_first() =~= cs.skip(i + 1));
                assert(cs.skip(i as int)[0] == cs[i as int]);
                assert(poly_eval_int(cs.skip(i as int), r.v()) == cs[i as int] + r.v() * tail);
                lemma_mul_mod_noop_general(r.v(), tail, m as int);
                assert((r.v() * (tail % m as int)) % m as int == (r.v() * tail) % m as int);
                lemma_add_mod_noop_right(cs[i as int], r.v() * tail, m as int);
            }
            acc = next;
        }
        proof {
            assert(self.coeffs().skip(0) =~= self.coeffs());
        }
        acc
    }

    fn deg(&self) -> (d: u64) {
        self.coeff.len() as u64 - 1
    }
}

} // verus!

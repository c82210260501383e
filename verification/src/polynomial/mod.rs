//! Polynomial representations: the dense multilinear evaluation table and the
//! dense univariate coefficient form, together with the oracle capability the
//! verifier receives.

pub mod multilinear_polynomial;
pub mod univariate_polynomial;

use vstd::prelude::*;
use crate::field::{Fp, points_wf, vals};

verus! {

/// Malformed structural input to a constructor: the evaluation table does not
/// hold `2^l` entries, the coefficient sequence is empty, or the entries do
/// not all carry one well-formed modulus.
#[derive(Clone, Copy, PartialEq, Eq, Structural, Debug)]
pub enum ConstructionError {
    TableLength,
    EmptyCoefficients,
    MixedModulus,
}

/// Restricted access to a multivariate polynomial: full evaluation at one
/// point, and a per-variable degree bound. This is all the verifier ever
/// sees of the exponential-size table.
pub trait MultivariatePolynomialOracle: Sized {
    /// The oracle is in a state its operations may be called in.
    spec fn o_wf(&self) -> bool;

    /// The modulus of the field the polynomial is over.
    spec fn o_modulus(&self) -> int;

    /// The number of variables.
    spec fn o_vars(&self) -> nat;

    /// The value of the polynomial at a point, as an integer to be reduced.
    spec fn o_eval(&self, r: Seq<int>) -> int;

    /// The degree bound of the i-th variable, 1-indexed.
    spec fn o_deg(&self, i: int) -> int;

    /// Evaluate the polynomial at an arbitrary point of the field, not
    /// restricted to the hypercube.
    fn evaluate(&self, r: &Vec<Fp>) -> (res: Fp)
        requires
            self.o_wf(),
            r@.len() == self.o_vars(),
            points_wf(r@, self.o_modulus()),
        ensures
            res.wf(),
            res.m() == self.o_modulus(),
            res.v() == self.o_eval(vals(r@)) % self.o_modulus(),
    ;

    /// The degree of the `x_i` term.
    fn deg(&self, i: u64) -> (d: u64)
        requires
            self.o_wf(),
            1 <= i <= self.o_vars(),
        ensures
            d as int == self.o_deg(i as int),
    ;
}

} // verus!

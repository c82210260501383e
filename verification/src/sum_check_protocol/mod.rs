//! The protocol engine: the prover and verifier round state machines and the
//! non-interactive orchestrator that couples them through Fiat-Shamir.

pub mod prover;
pub mod sum_check;
pub mod verifier_state;

use vstd::prelude::*;

verus! {

/// A round was requested out of order or outside `[1, l]`: API misuse, not a
/// protocol outcome.
#[derive(Clone, Copy, PartialEq, Eq, Structural, Debug)]
pub struct RoundSequenceError;

} // verus!

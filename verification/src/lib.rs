//! The sum-check interactive proof protocol: a prover convinces a verifier
//! that the sum of a multilinear polynomial over the boolean hypercube equals
//! a claimed value, round by round, without the verifier ever walking the
//! exponential-size table itself.

pub mod field;
pub mod polynomial;
pub mod randomness_oracle;
pub mod sum_check_protocol;

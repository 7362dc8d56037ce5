//! A Groth16 proving core over BLS12-381: constraint recording, the quotient
//! polynomial through radix-2 FFTs, proof creation and proof verification.

pub mod analyzer;
pub mod curve;
pub mod dft;
pub mod fft;
pub mod field;
pub mod prover;
pub mod verification;

use crate::curve::{G1, G2};
use crate::field::Fr;
use vstd::prelude::*;

verus! {

/// Why a proof was rejected.
#[derive(Clone, Copy, Debug, PartialEq, Eq, Structural)]
pub enum VerificationError {
    /// The pairing identity does not hold.
    InvalidProof,
    /// The number of public inputs does not match the verification key.
    InvalidVerifyingKey,
}

/// Why no proof was made: the parameters, the witness and the QAP do not fit
/// together.
#[derive(Clone, Copy, Debug, PartialEq, Eq, Structural)]
pub enum ProvingError {
    /// A length or an index among parameters, witness and QAP is out of line.
    ShapeMismatch,
    /// The vanishing polynomial or the root of unity has no inverse; this
    /// cannot happen below `2^31` constraints.
    DivisionByZero,
}

/// Why constraint analysis stopped.
#[derive(Clone, Copy, Debug, PartialEq, Eq, Structural)]
pub enum SynthesisError {
    /// A witness value was asked for and not supplied.
    AssignmentMissing,
    /// The number of constraints does not fit in a machine word.
    TooManyConstraints,
}

/// A Groth16 proof.
#[derive(Clone, Copy, Debug)]
pub struct Proof {
    pub a: G1,
    pub b: G2,
    pub c: G1,
}

/// The verification key: the part of the parameters a verifier needs.
#[derive(Clone, Debug)]
pub struct VerificationKey {
    pub alpha_g1: G1,
    pub beta_g1: G1,
    pub beta_g2: G2,
    pub gamma_g2: G2,
    pub delta_g1: G1,
    pub delta_g2: G2,
    /// One point per public input, the constant one included.
    pub ic: Vec<G1>,
}

/// The structured reference string.
#[derive(Clone, Debug)]
pub struct Parameters {
    pub vk: VerificationKey,
    /// One point per coefficient of the quotient polynomial.
    pub h: Vec<G1>,
    /// One point per private variable.
    pub l: Vec<G1>,
    /// One point per variable with a nonzero A column, in increasing order.
    pub a_g1: Vec<G1>,
    /// One point per variable with a nonzero B column, in increasing order.
    pub b_g1: Vec<G1>,
    /// As `b_g1`, in G2.
    pub b_g2: Vec<G2>,
}

/// A quadratic arithmetic program in sparse form. Each of `a`, `b` and `c`
/// holds, for every variable (public ones first, then private ones), its
/// column: the (coefficient, constraint index) pairs where it occurs.
#[derive(Clone, Debug)]
pub struct QAP {
    pub a: Vec<Vec<(Fr, usize)>>,
    pub b: Vec<Vec<(Fr, usize)>>,
    pub c: Vec<Vec<(Fr, usize)>>,
    /// The variables with a nonempty A column, in increasing order.
    pub a_constraints: Vec<usize>,
    /// The variables with a nonempty B column, in increasing order.
    pub b_constraints: Vec<usize>,
}

} // verus!

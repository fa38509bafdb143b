//! Problems and the type of their solutions.
use vstd::prelude::*;
use crate::qubo::{QuboProblem, QuboSolution};
use crate::sat::{KSatProblem, SatSolution};

verus! {

/// A problem, with the type of its solutions.
pub trait Problem {
    type Solution;
}

impl Problem for QuboProblem {
    type Solution = QuboSolution;
}

impl Problem for KSatProblem {
    type Solution = SatSolution;
}

} // verus!

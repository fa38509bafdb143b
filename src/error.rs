//! Errors of the whole pipeline, from reading a problem to answering it.
use vstd::prelude::*;
use crate::qubo::QuboError;
use crate::reducers::ReductionError;
use crate::sat::KSatProblemError;

verus! {

/// What went wrong.
#[derive(Clone, Copy, Debug, PartialEq, Eq, Structural)]
pub enum ErrorKind {
    /// The problem could not be read.
    InputIo,
    /// The DIMACS text is malformed.
    InputParse(KSatProblemError),
    /// The encoding does not implement a clause of the problem.
    InvalidReduction,
    /// The QUBO matrix could not be built.
    MatrixShape(QuboError),
}

/// An error of the pipeline.
#[derive(Clone, Copy, Debug, PartialEq, Eq, Structural)]
pub struct Error {
    pub kind: ErrorKind,
}

impl Error {
    /// What went wrong.
    pub fn kind(&self) -> (r: &ErrorKind)
        ensures
            *r == self.kind,
    {
        &self.kind
    }
}

/// The pipeline error for a failed reduction.
pub open spec fn reduction_error_kind(e: ReductionError) -> ErrorKind {
    match e {
        ReductionError::InvalidClause => ErrorKind::InvalidReduction,
        ReductionError::Matrix(q) => ErrorKind::MatrixShape(q),
    }
}

impl Error {
    /// The pipeline error for a failed reduction.
    pub fn from_reduction(e: ReductionError) -> (r: Error)
        ensures
            r.kind == reduction_error_kind(e),
    {
        match e {
            ReductionError::InvalidClause => Error { kind: ErrorKind::InvalidReduction },
            ReductionError::Matrix(q) => Error { kind: ErrorKind::MatrixShape(q) },
        }
    }
}

} // verus!

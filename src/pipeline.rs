//! The pipeline: reduce a k-SAT problem to QUBO, minimize it exactly, read the
//! answer back, and check it against the problem.
use vstd::prelude::*;
use crate::error::{reduction_error_kind, Error};
use crate::es::{is_candidate, no_worse, ExhaustiveSearch};
use crate::pes::ParallelExhaustiveSearch;
use crate::qubo::QuboProblem;
use crate::reduction::{read_back_of, reduction_outcome, KSatToQuboReduction, KSatToQuboSolutionReductionReverser};
use crate::reducers::ReductionError;
use crate::sat::{all_clauses_hold, satisfies, KSatProblem, SatSolution};

verus! {

/// `x` is a bit vector of `m` that no other bit vector beats.
pub open spec fn is_optimum(m: Seq<Seq<int>>, x: Seq<int>) -> bool {
    is_candidate(m, x) && forall|y: Seq<int>| #[trigger] is_candidate(m, y) ==> no_worse(m, x, y)
}

/// `sol` is the answer for the read-back `rb`: the assignment when it
/// satisfies the clauses, `Unknown` when it does not, `Unsat` on a conflict.
pub open spec fn answer_from(
    rb: Option<Seq<bool>>,
    clauses: Seq<Vec<crate::sat::SatVariable>>,
    sol: SatSolution,
) -> bool {
    match sol {
        SatSolution::Sat(v) => rb == Some(v@) && satisfies(clauses, v@),
        SatSolution::Unsat => rb is None,
        SatSolution::Unknown => rb matches Some(a) && !satisfies(clauses, a),
    }
}

/// An exact QUBO minimizer.
#[derive(Clone, Copy, Debug, PartialEq, Eq, Structural)]
pub enum QuboMinimizer {
    ExhaustiveSearch,
    /// Split into `2^β` subtrees, with `β` given.
    ParallelExhaustiveSearch(usize),
}

impl QuboMinimizer {
    /// The minimizer of `xᵀ·S·x`: among minimizers the one with the most ones,
    /// and among those the smallest binary number.
    pub fn minimize(&self, problem: &QuboProblem) -> (r: crate::qubo::QuboSolution)
        requires
            problem.wf(),
        ensures
            is_candidate(problem@, r@),
            forall|y: Seq<int>| #[trigger] is_candidate(problem@, y) ==> no_worse(problem@, r@, y),
    {
        match self {
            QuboMinimizer::ExhaustiveSearch => ExhaustiveSearch::new().solve(problem),
            QuboMinimizer::ParallelExhaustiveSearch(beta) => ParallelExhaustiveSearch::new(*beta).solve(
                problem,
            ),
        }
    }
}

impl KSatProblem {
    /// Whether `solution` is an assignment that satisfies every clause;
    /// `Unsat` and `Unknown` are not.
    pub fn validate_solution(&self, solution: &SatSolution) -> (r: bool)
        ensures
            r == match solution {
                SatSolution::Sat(v) => satisfies(self.clause_list@, v@),
                _ => false,
            },
    {
        match solution {
            SatSolution::Sat(v) => all_clauses_hold(&self.clause_list, v),
            _ => false,
        }
    }

    /// Reduces the problem with the encoding `reducer`.
    pub fn reduce(&self, reducer: KSatToQuboReduction) -> (r: Result<
        (QuboProblem, KSatToQuboSolutionReductionReverser),
        ReductionError,
    >)
        requires
            self.wf(),
        ensures
            match r {
                Ok((p, _)) => p.wf() && reduction_outcome(reducer, *self) == Ok::<
                    Seq<Seq<int>>,
                    ReductionError,
                >(p@),
                Err(e) => reduction_outcome(reducer, *self) == Err::<Seq<Seq<int>>, ReductionError>(e),
            },
    {
        reducer.reduce_problem(self)
    }

    /// Answers the problem: reduce with `reducer`, minimize with `minimizer`,
    /// read the answer back from the optimum, and downgrade an assignment that
    /// fails the problem to `Unknown`. A `Sat` answer always satisfies the
    /// problem, and only Choi's encoding answers `Unsat`.
    pub fn find_solution(&self, reducer: KSatToQuboReduction, minimizer: QuboMinimizer) -> (r: Result<
        SatSolution,
        Error,
    >)
        requires
            self.wf(),
        ensures
            r is Err <==> reduction_outcome(reducer, *self) is Err,
            match r {
                Ok(sol) => reduction_outcome(reducer, *self) is Ok && exists|x: Seq<int>|
                    #[trigger] is_optimum(reduction_outcome(reducer, *self)->Ok_0, x) && answer_from(
                        read_back_of(reducer, *self, x),
                        self.clause_list@,
                        sol,
                    ),
                Err(_) => true,
            },
            match r {
                Ok(SatSolution::Sat(a)) => satisfies(self.clause_list@, a@),
                Ok(SatSolution::Unsat) => reducer == KSatToQuboReduction::Choi,
                Ok(SatSolution::Unknown) => true,
                Err(e) => reduction_outcome(reducer, *self) matches Err(re) && e.kind
                    == reduction_error_kind(re),
            },
    {
        match reducer.reduce_problem(self) {
            Err(e) => Err(Error::from_reduction(e)),
            Ok((qubo_problem, reverser)) => {
                let x = minimizer.minimize(&qubo_problem);
                assert(reverser.read_back(x@) == read_back_of(reducer, *self, x@));
                assert(is_optimum(qubo_problem@, x@));
                let solution = reverser.reverse_reduce_solution(&x);
                let ghost rb = read_back_of(reducer, *self, x@);
                let valid = self.validate_solution(&solution);
                let answer = if valid {
                    solution
                } else {
                    match solution {
                        SatSolution::Unsat => SatSolution::Unsat,
                        _ => SatSolution::Unknown,
                    }
                };
                proof {
                    assert(answer_from(rb, self.clause_list@, answer));
                    assert(is_optimum(qubo_problem@, x@) && answer_from(
                        read_back_of(reducer, *self, x@),
                        self.clause_list@,
                        answer,
                    ));
                    assert(reduction_outcome(reducer, *self) == Ok::<Seq<Seq<int>>, ReductionError>(qubo_problem@));
                    let outcome = reduction_outcome(reducer, *self);
                    assert(outcome->Ok_0 == qubo_problem@);
                    assert(is_optimum(outcome->Ok_0, x@));
                    assert(exists|y: Seq<int>| #[trigger] is_optimum(outcome->Ok_0, y) && answer_from(
                        read_back_of(reducer, *self, y),
                        self.clause_list@,
                        answer,
                    ));
                }
                Ok(answer)
            },
        }
    }
}

} // verus!

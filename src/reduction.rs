//! The choice of a SAT to QUBO encoding as a closed sum type, and the
//! matching readers of QUBO solutions.
use vstd::prelude::*;
use crate::nusslein::{nusslein_all, total_len, Nusslein, MAX_CLAUSE_LEN};
use crate::qubo::{matrix_outcome, triplets_outcome, QuboError, QuboProblem, QuboSolution, MAX_SIZE};
use crate::reducers::{
    all_clauses_of_len,
    choi_value,
    positions,
    chancellor_all_biases,
    chancellor_all_couplings,
    choi_edge_weight,
    choi_upper,
    CHOI_EDGE_PENALTY,
    first_bits,
    flat_literals,
    flat_owners,
    ising_outcome,
    nusslein23_all,
    Chancellor,
    Choi,
    Nusslein23,
    ReductionError,
};
use crate::sat::{KSatProblem, SatSolution};

verus! {

/// The available encodings.
#[derive(Clone, Copy, Debug, PartialEq, Eq, Structural)]
pub enum KSatToQuboReduction {
    /// Maximum independent set over literal occurrences.
    Choi,
    /// One ancilla per 3-clause, through an Ising model.
    Chancellor,
    /// Penalty tables with logarithmic widening of long clauses.
    Nuesslein2022,
    /// Explicit penalty tables for 3-clauses.
    Nuesslein2023,
}

/// Lifts the error of building a matrix.
pub open spec fn lift(o: Result<Seq<Seq<int>>, QuboError>) -> Result<Seq<Seq<int>>, ReductionError> {
    match o {
        Ok(m) => Ok(m),
        Err(e) => Err(ReductionError::Matrix(e)),
    }
}

/// The matrix that Chancellor's encoding gives for `p`, or its error.
pub open spec fn chancellor_outcome(p: KSatProblem) -> Result<Seq<Seq<int>>, ReductionError> {
    let cs = p.clause_list@;
    let m = cs.len() as int;
    let n = p.nb_vars + m;
    if !all_clauses_of_len(cs, 3) {
        Err(ReductionError::InvalidClause)
    } else if n > MAX_SIZE {
        Err(ReductionError::Matrix(QuboError::TooLarge))
    } else {
        lift(
            ising_outcome(
                n,
                chancellor_all_couplings(cs, p.nb_vars as int, m),
                chancellor_all_biases(cs, p.nb_vars as int, m),
            ),
        )
    }
}

/// The matrix that the 2023 encoding gives for `p`, or its error.
pub open spec fn nusslein23_outcome(p: KSatProblem) -> Result<Seq<Seq<int>>, ReductionError> {
    let cs = p.clause_list@;
    let m = cs.len() as int;
    let n = p.nb_vars + m;
    if !all_clauses_of_len(cs, 3) {
        Err(ReductionError::InvalidClause)
    } else if n > MAX_SIZE {
        Err(ReductionError::Matrix(QuboError::TooLarge))
    } else {
        lift(triplets_outcome(n, nusslein23_all(cs, p.nb_vars as int, m)))
    }
}

/// The matrix that the 2022 encoding gives for `p`, or its error.
pub open spec fn nusslein_outcome(p: KSatProblem) -> Result<Seq<Seq<int>>, ReductionError> {
    let cs = p.clause_list@;
    let m = cs.len() as int;
    let enc = nusslein_all(cs, p.nb_vars as int, m);
    if exists|i: int| 0 <= i < m && (#[trigger] cs[i])@.len() == 0 {
        Err(ReductionError::InvalidClause)
    } else if (exists|i: int| 0 <= i < m && (#[trigger] cs[i])@.len() > MAX_CLAUSE_LEN) || p.nb_vars
        + 4 * total_len(cs, m) > MAX_SIZE {
        Err(ReductionError::Matrix(QuboError::TooLarge))
    } else {
        lift(triplets_outcome(enc.0, enc.1))
    }
}

/// The matrix that Choi's encoding gives for `p`, or its error.
pub open spec fn choi_outcome(p: KSatProblem) -> Result<Seq<Seq<int>>, ReductionError> {
    lift(
        matrix_outcome(
            choi_upper(
                flat_literals(p.clause_list@),
                flat_owners(p.clause_list@),
                choi_edge_weight(CHOI_EDGE_PENALTY as int),
            ),
        ),
    )
}

/// The matrix that the encoding `red` gives for `p`, or its error.
pub open spec fn reduction_outcome(red: KSatToQuboReduction, p: KSatProblem) -> Result<
    Seq<Seq<int>>,
    ReductionError,
> {
    match red {
        KSatToQuboReduction::Choi => choi_outcome(p),
        KSatToQuboReduction::Chancellor => chancellor_outcome(p),
        KSatToQuboReduction::Nuesslein2022 => nusslein_outcome(p),
        KSatToQuboReduction::Nuesslein2023 => nusslein23_outcome(p),
    }
}

/// The value of variable `v` that Choi's encoding of `p` reads from `x`.
pub open spec fn choi_read(p: KSatProblem, v: int, x: Seq<int>) -> Option<bool> {
    let lits = flat_literals(p.clause_list@);
    choi_value(positions(lits, true, v, lits.len() as int), positions(lits, false, v, lits.len() as int), x)
}

/// The assignment that the encoding `red` of `p` reads from the QUBO vector
/// `x`; `None` on a conflict.
pub open spec fn read_back_of(red: KSatToQuboReduction, p: KSatProblem, x: Seq<int>) -> Option<
    Seq<bool>,
> {
    match red {
        KSatToQuboReduction::Choi => {
            if exists|v: int| 0 <= v < p.nb_vars && (#[trigger] choi_read(p, v, x)) is None {
                None
            } else {
                Some(Seq::new(p.nb_vars as nat, |v: int| choi_read(p, v, x).unwrap()))
            }
        },
        _ => Some(first_bits(x, p.nb_vars as int)),
    }
}

/// What an encoding keeps to read QUBO solutions back.
pub enum KSatToQuboSolutionReductionReverser {
    Choi(Choi),
    Chancellor(Chancellor),
    Nuesslein2022(Nusslein),
    Nuesslein2023(Nusslein23),
}

impl KSatToQuboSolutionReductionReverser {
    /// The number of bits of the QUBO problems that this reader takes.
    pub open spec fn accepts(&self, x: Seq<int>) -> bool {
        match self {
            KSatToQuboSolutionReductionReverser::Choi(c) => c.wf() && x.len() == c.size(),
            KSatToQuboSolutionReductionReverser::Chancellor(c) => x.len() >= c.nb_vars,
            KSatToQuboSolutionReductionReverser::Nuesslein2022(n) => x.len() >= n.og_vars,
            KSatToQuboSolutionReductionReverser::Nuesslein2023(n) => x.len() >= n.nb_vars,
        }
    }

    /// The assignment read from `x`; `None` on a conflict.
    pub open spec fn read_back(&self, x: Seq<int>) -> Option<Seq<bool>> {
        match self {
            KSatToQuboSolutionReductionReverser::Choi(c) => if exists|v: int|
                0 <= v < c.nb_vars() && #[trigger] c.value_of(v, x) is None {
                None
            } else {
                Some(Seq::new(c.nb_vars() as nat, |v: int| c.value_of(v, x).unwrap()))
            },
            KSatToQuboSolutionReductionReverser::Chancellor(c) => Some(first_bits(x, c.nb_vars as int)),
            KSatToQuboSolutionReductionReverser::Nuesslein2022(n) => Some(
                first_bits(x, n.og_vars as int),
            ),
            KSatToQuboSolutionReductionReverser::Nuesslein2023(n) => Some(
                first_bits(x, n.nb_vars as int),
            ),
        }
    }

    /// Reads a SAT answer from a QUBO solution: the assignment, or `Unsat` on a conflict.
    pub fn reverse_reduce_solution(&self, solution: &QuboSolution) -> (r: SatSolution)
        requires
            self.accepts(solution@),
        ensures
            match self.read_back(solution@) {
                None => r == SatSolution::Unsat,
                Some(a) => r matches SatSolution::Sat(v) && v@ == a,
            },
    {
        match self {
            KSatToQuboSolutionReductionReverser::Choi(c) => {
                let r = c.up_model(solution);
                proof {
                    if !(exists|v: int| 0 <= v < c.nb_vars() && #[trigger] c.value_of(v, solution@) is None) {
                        assert forall|v: int| 0 <= v < c.nb_vars() implies #[trigger] c.value_of(v, solution@) is Some by {
                        }
                        if let SatSolution::Sat(a) = &r {
                            assert(a@ =~= Seq::new(c.nb_vars() as nat, |v: int| c.value_of(v, solution@).unwrap()));
                        }
                    }
                }
                r
            },
            KSatToQuboSolutionReductionReverser::Chancellor(c) => c.up_model(solution),
            KSatToQuboSolutionReductionReverser::Nuesslein2022(n) => n.up_model(solution),
            KSatToQuboSolutionReductionReverser::Nuesslein2023(n) => n.up_model(solution),
        }
    }
}

impl KSatToQuboReduction {
    /// Reduces `problem` with this encoding: the QUBO problem and its reader.
    pub fn reduce_problem(&self, problem: &KSatProblem) -> (r: Result<
        (QuboProblem, KSatToQuboSolutionReductionReverser),
        ReductionError,
    >)
        requires
            problem.wf(),
        ensures
            match r {
                Ok((p, rev)) => p.wf() && reduction_outcome(*self, *problem) == Ok::<
                    Seq<Seq<int>>,
                    ReductionError,
                >(p@) && (rev is Choi <==> *self == KSatToQuboReduction::Choi) && (forall|x: Seq<int>|
                    x.len() == p@.len() ==> #[trigger] rev.accepts(x)) && (forall|x: Seq<int>|
                    #[trigger] rev.read_back(x) == read_back_of(*self, *problem, x)),
                Err(e) => reduction_outcome(*self, *problem) == Err::<Seq<Seq<int>>, ReductionError>(
                    e,
                ),
            },
    {
        match self {
            KSatToQuboReduction::Choi => match Choi::reduce(problem) {
                Ok((p, c)) => {
                    let rev = KSatToQuboSolutionReductionReverser::Choi(c);
                    proof {
                        assert forall|x: Seq<int>| #[trigger] rev.read_back(x) == read_back_of(*self, *problem, x) by {
                            assert forall|v: int| 0 <= v < problem.nb_vars implies #[trigger] c.value_of(v, x)
                                == choi_read(*problem, v, x) by {}
                            if exists|v: int| 0 <= v < c.nb_vars() && #[trigger] c.value_of(v, x) is None {
                                let v = choose|v: int| 0 <= v < c.nb_vars() && #[trigger] c.value_of(v, x) is None;
                                assert(choi_read(*problem, v, x) is None);
                            } else {
                                assert forall|v: int| 0 <= v < problem.nb_vars implies !(#[trigger] choi_read(*problem, v, x) is None) by {
                                    assert(!(c.value_of(v, x) is None));
                                }
                                let a = rev.read_back(x).unwrap();
                                let b = read_back_of(*self, *problem, x).unwrap();
                                assert(a =~= b);
                            }
                        }
                    }
                    Ok((p, rev))
                },
                Err(e) => Err(e),
            },
            KSatToQuboReduction::Chancellor => match Chancellor::reduce(problem) {
                Ok((p, c)) => {
                    proof {
                        assert(p@.len() == problem.nb_vars + problem.clause_list@.len());
                    }
                    Ok((p, KSatToQuboSolutionReductionReverser::Chancellor(c)))
                },
                Err(e) => Err(e),
            },
            KSatToQuboReduction::Nuesslein2022 => match Nusslein::reduce(problem) {
                Ok((p, n)) => Ok((p, KSatToQuboSolutionReductionReverser::Nuesslein2022(n))),
                Err(e) => Err(e),
            },
            KSatToQuboReduction::Nuesslein2023 => match Nusslein23::reduce(problem) {
                Ok((p, n)) => Ok((p, KSatToQuboSolutionReductionReverser::Nuesslein2023(n))),
                Err(e) => Err(e),
            },
        }
    }
}

} // verus!

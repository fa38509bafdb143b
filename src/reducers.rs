//! SAT to QUBO encodings. Each reducer builds a QUBO problem from a k-SAT
//! problem and keeps what it needs to read a QUBO solution back as a SAT
//! assignment.
use vstd::prelude::*;
use crate::qubo::{
    ising_small,
    ising_triplets,
    triplets_outcome,
    QuboError,
    QuboProblem,
    QuboSolution,
    QuboType,
    MAX_SIZE,
};
use crate::ising::triplets_energy;
use crate::qubo::is_binary;
use crate::sat::{KSatProblem, SatSolution, SatVariable};

verus! {

/// A QUBO coefficient at `(row, column)`.
pub type Triplet = (usize, usize, QuboType);

/// Why a reduction failed.
#[derive(Clone, Copy, Debug, PartialEq, Eq, Structural)]
pub enum ReductionError {
    /// A clause has a shape that this encoding does not implement.
    InvalidClause,
    /// The QUBO matrix could not be built.
    Matrix(QuboError),
}

/// The spin of a polarity: 1 for a positive literal, −1 for a negative one.
pub open spec fn spin(b: bool) -> int {
    if b {
        1
    } else {
        -1
    }
}

/// 1 when the two polarities agree, 0 otherwise.
pub open spec fn same(a: bool, b: bool) -> int {
    if a == b {
        1
    } else {
        0
    }
}

/// The spin of a polarity as a coefficient.
fn spin_of(b: bool) -> (r: QuboType)
    ensures
        r == spin(b),
{
    if b {
        1
    } else {
        -1
    }
}

/// Chancellor's coupling strength between literal spins.
pub const CHANCELLOR_J: QuboType = 5;

/// Chancellor's coupling strength between a literal and the ancilla.
pub const CHANCELLOR_J_A: QuboType = 10;

/// Chancellor's site strength.
pub const CHANCELLOR_H: QuboType = 1;

/// Chancellor's ancilla site strength.
pub const CHANCELLOR_H_A: QuboType = 2;

/// The Ising couplings of one 3-clause with ancilla `a`: `J + H·cᵢ·cⱼ` between
/// each pair of literals and `J_A` between each literal and the ancilla.
pub open spec fn chancellor_couplings(c: Seq<SatVariable>, a: usize) -> Seq<Triplet> {
    let c0 = spin(c[0].0);
    let c1 = spin(c[1].0);
    let c2 = spin(c[2].0);
    seq![
        (c[0].1, c[1].1, (CHANCELLOR_J + CHANCELLOR_H * c0 * c1) as i64),
        (c[0].1, c[2].1, (CHANCELLOR_J + CHANCELLOR_H * c0 * c2) as i64),
        (c[0].1, a, CHANCELLOR_J_A),
        (c[1].1, c[2].1, (CHANCELLOR_J + CHANCELLOR_H * c1 * c2) as i64),
        (c[1].1, a, CHANCELLOR_J_A),
        (c[2].1, a, CHANCELLOR_J_A),
    ]
}

/// The Ising biases of one 3-clause with ancilla `a`: `H_A·(−c₀c₁c₂)` on the
/// ancilla, and `−2H·cᵢ` on each literal whose two partners share a polarity.
pub open spec fn chancellor_biases(c: Seq<SatVariable>, a: usize) -> Seq<(usize, QuboType)> {
    let c0 = spin(c[0].0);
    let c1 = spin(c[1].0);
    let c2 = spin(c[2].0);
    seq![
        (a, (CHANCELLOR_H_A * (-1 * c0 * c1 * c2)) as i64),
        (c[0].1, (-2 * CHANCELLOR_H * c0 * same(c[1].0, c[2].0)) as i64),
        (c[1].1, (-2 * CHANCELLOR_H * c1 * same(c[0].0, c[2].0)) as i64),
        (c[2].1, (-2 * CHANCELLOR_H * c2 * same(c[0].0, c[1].0)) as i64),
    ]
}

/// Appends the Ising terms of a 3-clause, with a new ancilla at index
/// `problem_size`, and returns the new problem size with the terms.
pub fn implement_clause(
    problem_size: usize,
    triplets: Vec<Triplet>,
    biases: Vec<(usize, QuboType)>,
    clause: &[SatVariable],
) -> (r: (usize, Vec<Triplet>, Vec<(usize, QuboType)>))
    requires
        clause@.len() == 3,
        problem_size < usize::MAX,
    ensures
        r.0 == problem_size + 1,
        r.1@ == triplets@ + chancellor_couplings(clause@, problem_size),
        r.2@ == biases@ + chancellor_biases(clause@, problem_size),
{
    let mut triplets = triplets;
    let mut biases = biases;
    let var_a = problem_size;
    let SatVariable(t0, v0) = clause[0];
    let SatVariable(t1, v1) = clause[1];
    let SatVariable(t2, v2) = clause[2];
    let c0 = spin_of(t0);
    let c1 = spin_of(t1);
    let c2 = spin_of(t2);
    let ghost before_t = triplets@;
    let ghost before_b = biases@;
    triplets.push((v0, v1, CHANCELLOR_J + CHANCELLOR_H * c0 * c1));
    triplets.push((v0, v2, CHANCELLOR_J + CHANCELLOR_H * c0 * c2));
    triplets.push((v0, var_a, CHANCELLOR_J_A));
    triplets.push((v1, v2, CHANCELLOR_J + CHANCELLOR_H * c1 * c2));
    triplets.push((v1, var_a, CHANCELLOR_J_A));
    triplets.push((v2, var_a, CHANCELLOR_J_A));
    let c_a = -1 * c0 * c1 * c2;
    let s12: QuboType = if t1 == t2 { 1 } else { 0 };
    let s02: QuboType = if t0 == t2 { 1 } else { 0 };
    let s01: QuboType = if t0 == t1 { 1 } else { 0 };
    biases.push((var_a, CHANCELLOR_H_A * c_a));
    biases.push((v0, -2 * CHANCELLOR_H * c0 * s12));
    biases.push((v1, -2 * CHANCELLOR_H * c1 * s02));
    biases.push((v2, -2 * CHANCELLOR_H * c2 * s01));
    assert(triplets@ =~= before_t + chancellor_couplings(clause@, problem_size));
    assert(biases@ =~= before_b + chancellor_biases(clause@, problem_size));
    (problem_size + 1, triplets, biases)
}

/// Every clause has exactly `k` literals.
pub open spec fn all_clauses_of_len(clauses: Seq<Vec<SatVariable>>, k: int) -> bool {
    forall|i: int| 0 <= i < clauses.len() ==> (#[trigger] clauses[i])@.len() == k
}

/// The Ising couplings of the first `m` clauses; clause `i` has ancilla `nb_vars + i`.
pub open spec fn chancellor_all_couplings(
    clauses: Seq<Vec<SatVariable>>,
    nb_vars: int,
    m: int,
) -> Seq<Triplet>
    decreases m,
{
    if m <= 0 {
        Seq::empty()
    } else {
        chancellor_all_couplings(clauses, nb_vars, m - 1) + chancellor_couplings(
            clauses[m - 1]@,
            (nb_vars + m - 1) as usize,
        )
    }
}

/// The Ising biases of the first `m` clauses; clause `i` has ancilla `nb_vars + i`.
pub open spec fn chancellor_all_biases(clauses: Seq<Vec<SatVariable>>, nb_vars: int, m: int) -> Seq<
    (usize, QuboType),
>
    decreases m,
{
    if m <= 0 {
        Seq::empty()
    } else {
        chancellor_all_biases(clauses, nb_vars, m - 1) + chancellor_biases(
            clauses[m - 1]@,
            (nb_vars + m - 1) as usize,
        )
    }
}

/// What the QUBO of an Ising model of size `n` turns out to be: the matrix of
/// its triplets, or the error that building it meets.
pub open spec fn ising_outcome(
    n: int,
    js: Seq<Triplet>,
    hs: Seq<(usize, QuboType)>,
) -> Result<Seq<Seq<int>>, QuboError> {
    if !ising_small(js, hs) {
        Err(QuboError::TooLarge)
    } else {
        triplets_outcome(n, ising_triplets(js, hs))
    }
}

/// Chancellor's encoding: one ancilla per 3-clause; the first `nb_vars` bits
/// are the assignment.
pub struct Chancellor {
    pub nb_vars: usize,
}

impl Chancellor {
    /// The QUBO of Chancellor's Ising terms over `nb_vars + m` spins for `m`
    /// clauses. Every clause must have three literals.
    pub fn reduce(sat_problem: &KSatProblem) -> (r: Result<(QuboProblem, Chancellor), ReductionError>)
        ensures
            !all_clauses_of_len(sat_problem.clause_list@, 3) ==> r == Err::<
                (QuboProblem, Chancellor),
                ReductionError,
            >(ReductionError::InvalidClause),
            all_clauses_of_len(sat_problem.clause_list@, 3) ==> ({
                let m = sat_problem.clause_list@.len() as int;
                let n = sat_problem.nb_vars + m;
                let outcome = ising_outcome(
                    n,
                    chancellor_all_couplings(sat_problem.clause_list@, sat_problem.nb_vars as int, m),
                    chancellor_all_biases(sat_problem.clause_list@, sat_problem.nb_vars as int, m),
                );
                match r {
                    Ok((p, c)) => p.wf() && c.nb_vars == sat_problem.nb_vars && p@.len() == n && outcome == Ok::<
                        Seq<Seq<int>>,
                        QuboError,
                    >(p@),
                    Err(e) => (n > MAX_SIZE && e == ReductionError::Matrix(QuboError::TooLarge)) || (
                    n <= MAX_SIZE && (outcome matches Err(oe) && e == ReductionError::Matrix(oe))),
                }
            }),
    {
        let nb_vars = sat_problem.nb_vars;
        let clauses = &sat_problem.clause_list;
        let mut i: usize = 0;
        while i < clauses.len()
            invariant
                clauses == &sat_problem.clause_list,
                i <= clauses@.len(),
                forall|a: int| 0 <= a < i ==> (#[trigger] clauses@[a])@.len() == 3,
            decreases clauses@.len() - i,
        {
            if clauses[i].len() != 3 {
                assert(!all_clauses_of_len(clauses@, 3));
                return Err(ReductionError::InvalidClause);
            }
            i += 1;
        }
        if nb_vars > MAX_SIZE || clauses.len() > MAX_SIZE - nb_vars {
            return Err(ReductionError::Matrix(QuboError::TooLarge));
        }
        let mut problem_size = nb_vars;
        let mut j_triplets: Vec<Triplet> = Vec::new();
        let mut j_biases: Vec<(usize, QuboType)> = Vec::new();
        let mut i: usize = 0;
        while i < clauses.len()
            invariant
                nb_vars == sat_problem.nb_vars,
                clauses == &sat_problem.clause_list,
                nb_vars + clauses@.len() <= MAX_SIZE,
                all_clauses_of_len(clauses@, 3),
                i <= clauses@.len(),
                problem_size == nb_vars + i,
                j_triplets@ == chancellor_all_couplings(clauses@, nb_vars as int, i as int),
                j_biases@ == chancellor_all_biases(clauses@, nb_vars as int, i as int),
            decreases clauses@.len() - i,
        {
            let (ps, jt, jb) = implement_clause(problem_size, j_triplets, j_biases, clauses[i].as_slice());
            problem_size = ps;
            j_triplets = jt;
            j_biases = jb;
            i += 1;
        }
        match QuboProblem::try_from_ising_triplets(problem_size, j_triplets, j_biases) {
            Ok((q_matrix, _)) => Ok((q_matrix, Chancellor { nb_vars })),
            Err(e) => Err(ReductionError::Matrix(e)),
        }
    }

    /// The assignment read from the first `nb_vars` bits.
    pub fn up_model(&self, qubo_solution: &QuboSolution) -> (r: SatSolution)
        requires
            qubo_solution@.len() >= self.nb_vars,
        ensures
            r matches SatSolution::Sat(v) && v@ == first_bits(qubo_solution@, self.nb_vars as int),
    {
        SatSolution::Sat(read_first_bits(qubo_solution, self.nb_vars))
    }
}

/// The first `n` bits as booleans: a bit is true when it is nonzero.
pub open spec fn first_bits(x: Seq<int>, n: int) -> Seq<bool> {
    Seq::new(n as nat, |i: int| x[i] != 0)
}

/// The first `n` bits of `x` as booleans.
pub fn read_first_bits(x: &QuboSolution, n: usize) -> (r: Vec<bool>)
    requires
        n <= x@.len(),
    ensures
        r@ == first_bits(x@, n as int),
{
    let mut r: Vec<bool> = Vec::new();
    let mut i: usize = 0;
    while i < n
        invariant
            n <= x@.len(),
            i <= n,
            r@ == first_bits(x@, i as int),
        decreases n - i,
    {
        assert(x@[i as int] == x.0@[i as int] as int);
        r.push(x.0[i] != 0);
        i += 1;
        assert(r@ =~= first_bits(x@, i as int));
    }
    r
}

/// The penalty terms of the 2023 encoding for one 3-clause with ancilla `q`,
/// by the polarities of its literals (in any order); `None` for another shape.
/// Off-diagonal terms count twice under symmetric storage, so the diagonal
/// terms of the published table are doubled here: the energy is twice the
/// published penalty, whose least value over the ancilla is a constant of the
/// pattern, plus 1 when the clause is violated (see the penalty lemmas below).
pub open spec fn nusslein23_clause(c: Seq<SatVariable>, q: usize) -> Option<Seq<Triplet>> {
    if c.len() != 3 {
        None
    } else {
        let (pol0, pol1, pol2) = (c[0].0, c[1].0, c[2].0);
        let (v0, v1, v2) = (c[0].1, c[1].1, c[2].1);
        if pol0 && pol1 && pol2 {
            Some(all_positive_terms(v0, v1, v2, q))
        } else if pol0 && pol1 && !pol2 {
            Some(one_negative_terms(v0, v1, v2, q))
        } else if pol0 && !pol1 && pol2 {
            Some(one_negative_terms(v0, v2, v1, q))
        } else if !pol0 && pol1 && pol2 {
            Some(one_negative_terms(v1, v2, v0, q))
        } else if pol0 && !pol1 && !pol2 {
            Some(one_positive_terms(v0, v1, v2, q))
        } else if !pol0 && pol1 && !pol2 {
            Some(one_positive_terms(v1, v0, v2, q))
        } else if !pol0 && !pol1 && pol2 {
            Some(one_positive_terms(v2, v0, v1, q))
        } else {
            Some(all_negative_terms(v0, v1, v2, q))
        }
    }
}

/// `(a ∨ b ∨ c)`.
pub open spec fn all_positive_terms(a: usize, b: usize, c: usize, q: usize) -> Seq<Triplet> {
    seq![(a, b, 2i64), (c, c, -2i64), (q, a, -2i64), (q, b, -2i64), (q, c, 1i64), (q, q, 2i64)]
}

/// `(a ∨ b ∨ ¬c)`.
pub open spec fn one_negative_terms(a: usize, b: usize, c: usize, q: usize) -> Seq<Triplet> {
    seq![(a, b, 2i64), (c, c, 2i64), (q, a, -2i64), (q, b, -2i64), (q, c, -1i64), (q, q, 4i64)]
}

/// `(a ∨ ¬b ∨ ¬c)`.
pub open spec fn one_positive_terms(a: usize, b: usize, c: usize, q: usize) -> Seq<Triplet> {
    seq![(a, a, 4i64), (a, b, -2i64), (c, c, 2i64), (q, a, -2i64), (q, b, 2i64), (q, c, -1i64)]
}

/// `(¬a ∨ ¬b ∨ ¬c)`.
pub open spec fn all_negative_terms(a: usize, b: usize, c: usize, q: usize) -> Seq<Triplet> {
    seq![
        (a, a, -2i64),
        (a, b, 1i64),
        (a, c, 1i64),
        (b, b, -2i64),
        (b, c, 1i64),
        (c, c, -2i64),
        (q, a, 1i64),
        (q, b, 1i64),
        (q, c, 1i64),
        (q, q, -2i64),
    ]
}

/// The clause has a shape that the 2023 encoding implements.
pub open spec fn nusslein23_supported(c: Seq<SatVariable>) -> bool {
    nusslein23_clause(c, 0) is Some
}

/// The terms of the first `m` clauses; clause `i` has ancilla `nb_vars + i`.
pub open spec fn nusslein23_all(clauses: Seq<Vec<SatVariable>>, nb_vars: int, m: int) -> Seq<
    Triplet,
>
    decreases m,
{
    if m <= 0 {
        Seq::empty()
    } else {
        nusslein23_all(clauses, nb_vars, m - 1) + nusslein23_clause(
            clauses[m - 1]@,
            (nb_vars + m - 1) as usize,
        ).unwrap()
    }
}

/// Appends the 2023 penalty terms of a 3-clause with ancilla `q`.
pub(crate) fn nusslein23_push_clause(triplets: &mut Vec<Triplet>, clause: &Vec<SatVariable>, q: usize)
    requires
        clause@.len() == 3,
    ensures
        final(triplets)@ == old(triplets)@ + nusslein23_clause(clause@, q).unwrap(),
{
    let ghost before = triplets@;
    let SatVariable(pol0, v0) = clause[0];
    let SatVariable(pol1, v1) = clause[1];
    let SatVariable(pol2, v2) = clause[2];
    let (a, b, c, shape): (usize, usize, usize, u8) = if pol0 && pol1 && pol2 {
        (v0, v1, v2, 0)
    } else if pol0 && pol1 && !pol2 {
        (v0, v1, v2, 1)
    } else if pol0 && !pol1 && pol2 {
        (v0, v2, v1, 1)
    } else if !pol0 && pol1 && pol2 {
        (v1, v2, v0, 1)
    } else if pol0 && !pol1 && !pol2 {
        (v0, v1, v2, 2)
    } else if !pol0 && pol1 && !pol2 {
        (v1, v0, v2, 2)
    } else if !pol0 && !pol1 && pol2 {
        (v2, v0, v1, 2)
    } else {
        (v0, v1, v2, 3)
    };
    if shape == 0 {
        triplets.push((a, b, 2));
        triplets.push((c, c, -2));
        triplets.push((q, a, -2));
        triplets.push((q, b, -2));
        triplets.push((q, c, 1));
        triplets.push((q, q, 2));
        assert(triplets@ =~= before + all_positive_terms(a, b, c, q));
    } else if shape == 1 {
        triplets.push((a, b, 2));
        triplets.push((c, c, 2));
        triplets.push((q, a, -2));
        triplets.push((q, b, -2));
        triplets.push((q, c, -1));
        triplets.push((q, q, 4));
        assert(triplets@ =~= before + one_negative_terms(a, b, c, q));
    } else if shape == 2 {
        triplets.push((a, a, 4));
        triplets.push((a, b, -2));
        triplets.push((c, c, 2));
        triplets.push((q, a, -2));
        triplets.push((q, b, 2));
        triplets.push((q, c, -1));
        assert(triplets@ =~= before + one_positive_terms(a, b, c, q));
    } else {
        triplets.push((a, a, -2));
        triplets.push((a, b, 1));
        triplets.push((a, c, 1));
        triplets.push((b, b, -2));
        triplets.push((b, c, 1));
        triplets.push((c, c, -2));
        triplets.push((q, a, 1));
        triplets.push((q, b, 1));
        triplets.push((q, c, 1));
        triplets.push((q, q, -2));
        assert(triplets@ =~= before + all_negative_terms(a, b, c, q));
    }
}

/// Nüsslein's 2023 encoding: one ancilla per 3-clause, with an explicit
/// penalty table for each polarity pattern; the first `nb_vars` bits are the assignment.
pub struct Nusslein23 {
    pub nb_vars: usize,
}

impl Nusslein23 {
    /// The QUBO of the 2023 penalty terms over `nb_vars + m` bits for `m`
    /// clauses. Every clause must have three literals.
    pub fn reduce(sat_problem: &KSatProblem) -> (r: Result<(QuboProblem, Nusslein23), ReductionError>)
        ensures
            !all_clauses_of_len(sat_problem.clause_list@, 3) ==> r == Err::<
                (QuboProblem, Nusslein23),
                ReductionError,
            >(ReductionError::InvalidClause),
            all_clauses_of_len(sat_problem.clause_list@, 3) ==> ({
                let m = sat_problem.clause_list@.len() as int;
                let n = sat_problem.nb_vars + m;
                let outcome = triplets_outcome(
                    n,
                    nusslein23_all(sat_problem.clause_list@, sat_problem.nb_vars as int, m),
                );
                match r {
                    Ok((p, c)) => p.wf() && c.nb_vars == sat_problem.nb_vars && p@.len() == n && outcome == Ok::<
                        Seq<Seq<int>>,
                        QuboError,
                    >(p@),
                    Err(e) => (n > MAX_SIZE && e == ReductionError::Matrix(QuboError::TooLarge)) || (
                    n <= MAX_SIZE && (outcome matches Err(oe) && e == ReductionError::Matrix(oe))),
                }
            }),
    {
        let nb_vars = sat_problem.nb_vars;
        let clauses = &sat_problem.clause_list;
        let mut i: usize = 0;
        while i < clauses.len()
            invariant
                clauses == &sat_problem.clause_list,
                i <= clauses@.len(),
                forall|a: int| 0 <= a < i ==> (#[trigger] clauses@[a])@.len() == 3,
            decreases clauses@.len() - i,
        {
            if clauses[i].len() != 3 {
                assert(!all_clauses_of_len(clauses@, 3));
                return Err(ReductionError::InvalidClause);
            }
            i += 1;
        }
        if nb_vars > MAX_SIZE || clauses.len() > MAX_SIZE - nb_vars {
            return Err(ReductionError::Matrix(QuboError::TooLarge));
        }
        let mut triplets: Vec<Triplet> = Vec::new();
        let mut i: usize = 0;
        while i < clauses.len()
            invariant
                nb_vars == sat_problem.nb_vars,
                clauses == &sat_problem.clause_list,
                nb_vars + clauses@.len() <= MAX_SIZE,
                all_clauses_of_len(clauses@, 3),
                i <= clauses@.len(),
                triplets@ == nusslein23_all(clauses@, nb_vars as int, i as int),
            decreases clauses@.len() - i,
        {
            assert(clauses@[i as int]@.len() == 3);
            nusslein23_push_clause(&mut triplets, &clauses[i], nb_vars + i);
            i += 1;
        }
        match QuboProblem::try_from_triplets(nb_vars + clauses.len(), triplets) {
            Ok(q_matrix) => Ok((q_matrix, Nusslein23 { nb_vars })),
            Err(e) => Err(ReductionError::Matrix(e)),
        }
    }

    /// The assignment read from the first `nb_vars` bits.
    pub fn up_model(&self, qubo_solution: &QuboSolution) -> (r: SatSolution)
        requires
            qubo_solution@.len() >= self.nb_vars,
        ensures
            r matches SatSolution::Sat(v) && v@ == first_bits(qubo_solution@, self.nb_vars as int),
    {
        SatSolution::Sat(read_first_bits(qubo_solution, self.nb_vars))
    }
}

/// Choi's reward for selecting a literal node.
pub const CHOI_VERTEX_WEIGHT: QuboType = -1;

/// Choi's default extra penalty on an edge, on top of twice the vertex reward.
pub const CHOI_EDGE_PENALTY: QuboType = 2;

/// Choi's edge weight `2·|vertex weight| + penalty`.
pub open spec fn choi_edge_weight(penalty: int) -> int {
    2 * (-CHOI_VERTEX_WEIGHT) + penalty
}

/// The literals of all clauses, clause after clause.
pub open spec fn flat_literals(cs: Seq<Vec<SatVariable>>) -> Seq<SatVariable>
    decreases cs.len(),
{
    if cs.len() == 0 {
        Seq::empty()
    } else {
        flat_literals(cs.drop_last()) + cs.last()@
    }
}

/// For each literal of `flat_literals(cs)`, the index of its clause.
pub open spec fn flat_owners(cs: Seq<Vec<SatVariable>>) -> Seq<int>
    decreases cs.len(),
{
    if cs.len() == 0 {
        Seq::empty()
    } else {
        flat_owners(cs.drop_last()) + Seq::new(cs.last()@.len(), |k: int| cs.len() - 1)
    }
}

/// Choi's upper-triangular matrix on literal nodes: the vertex weight on the
/// diagonal; above it, the edge weight once for two literals of one clause and
/// once for two literals of one variable with opposite polarities.
pub open spec fn choi_upper(lits: Seq<SatVariable>, owners: Seq<int>, edge_weight: int) -> Seq<
    Seq<int>,
> {
    Seq::new(
        lits.len(),
        |i: int|
            Seq::new(
                lits.len(),
                |j: int|
                    if i == j {
                        CHOI_VERTEX_WEIGHT as int
                    } else if i < j {
                        (if owners[i] == owners[j] {
                            edge_weight
                        } else {
                            0
                        }) + (if lits[i].1 == lits[j].1 && lits[i].0 != lits[j].0 {
                            edge_weight
                        } else {
                            0
                        })
                    } else {
                        0
                    },
            ),
    )
}

/// The nodes, in increasing order, whose literal is `SatVariable(pol, v)`,
/// among the first `m`.
pub open spec fn positions(lits: Seq<SatVariable>, pol: bool, v: int, m: int) -> Seq<usize>
    decreases m,
{
    if m <= 0 {
        Seq::empty()
    } else {
        positions(lits, pol, v, m - 1) + (if lits[m - 1].0 == pol && lits[m - 1].1 == v {
            seq![(m - 1) as usize]
        } else {
            Seq::empty()
        })
    }
}

proof fn lemma_flat_step(cs: Seq<Vec<SatVariable>>, c: int)
    requires
        0 <= c < cs.len(),
    ensures
        flat_literals(cs.take(c + 1)) == flat_literals(cs.take(c)) + cs[c]@,
        flat_owners(cs.take(c + 1)) == flat_owners(cs.take(c)) + Seq::new(cs[c]@.len(), |k: int| c),
{
    assert(cs.take(c + 1).drop_last() =~= cs.take(c));
}

proof fn lemma_positions_bound(lits: Seq<SatVariable>, pol: bool, v: int, m: int)
    requires
        0 <= m <= lits.len(),
    ensures
        forall|k: int| 0 <= k < positions(lits, pol, v, m).len() ==> #[trigger] positions(lits, pol, v, m)[k] < m,
    decreases m,
{
    if m > 0 {
        lemma_positions_bound(lits, pol, v, m - 1);
        let prev = positions(lits, pol, v, m - 1);
        assert forall|k: int| 0 <= k < positions(lits, pol, v, m).len() implies #[trigger] positions(lits, pol, v, m)[k] < m by {
            if k < prev.len() {
                assert(positions(lits, pol, v, m)[k] == prev[k]);
            }
        }
    }
}

/// All literals with the clause index of each.
fn flatten(clauses: &Vec<Vec<SatVariable>>) -> (r: (Vec<SatVariable>, Vec<usize>))
    ensures
        r.0@ == flat_literals(clauses@),
        r.1@.len() == r.0@.len(),
        forall|k: int| 0 <= k < r.1@.len() ==> #[trigger] r.1@[k] as int == flat_owners(clauses@)[k],
        flat_owners(clauses@).len() == r.0@.len(),
{
    let ghost cs = clauses@;
    let mut lits: Vec<SatVariable> = Vec::new();
    let mut owners: Vec<usize> = Vec::new();
    let mut c: usize = 0;
    while c < clauses.len()
        invariant
            cs == clauses@,
            c <= cs.len(),
            lits@ == flat_literals(cs.take(c as int)),
            owners@.len() == lits@.len(),
            flat_owners(cs.take(c as int)).len() == lits@.len(),
            forall|k: int| 0 <= k < owners@.len() ==> #[trigger] owners@[k] as int == flat_owners(cs.take(c as int))[k],
        decreases cs.len() - c,
    {
        let clause = &clauses[c];
        let ghost base = lits@;
        let ghost base_o = flat_owners(cs.take(c as int));
        let mut j: usize = 0;
        while j < clause.len()
            invariant
                cs == clauses@,
                c < cs.len(),
                clause@ == cs[c as int]@,
                j <= clause@.len(),
                lits@ == base + clause@.take(j as int),
                owners@.len() == lits@.len(),
                base_o.len() == base.len(),
                forall|k: int| 0 <= k < base.len() ==> #[trigger] owners@[k] as int == base_o[k],
                forall|k: int| base.len() <= k < owners@.len() ==> #[trigger] owners@[k] == c,
            decreases clause@.len() - j,
        {
            lits.push(clause[j]);
            owners.push(c);
            j += 1;
            assert(lits@ =~= base + clause@.take(j as int));
        }
        proof {
            lemma_flat_step(cs, c as int);
            assert(clause@.take(clause@.len() as int) =~= clause@);
            let fo = flat_owners(cs.take(c as int + 1));
            assert forall|k: int| 0 <= k < owners@.len() implies #[trigger] owners@[k] as int == fo[k] by {
                if k >= base.len() {
                    assert(fo[k] == c);
                }
            }
        }
        c += 1;
    }
    assert(cs.take(cs.len() as int) =~= cs);
    (lits, owners)
}

/// Choi's encoding through maximum independent set: one node per literal
/// occurrence; the assignment is read from the selected nodes.
pub struct Choi {
    size: usize,
    trues: Vec<Vec<usize>>,
    falses: Vec<Vec<usize>>,
}

impl Choi {
    /// The number of variables of the reduced problem.
    pub closed spec fn nb_vars(&self) -> int {
        self.trues@.len() as int
    }

    /// The number of nodes of the QUBO problem.
    pub closed spec fn size(&self) -> int {
        self.size as int
    }

    /// The nodes that assert variable `v` positively.
    pub closed spec fn true_nodes(&self, v: int) -> Seq<usize> {
        self.trues@[v]@
    }

    /// The nodes that assert variable `v` negatively.
    pub closed spec fn false_nodes(&self, v: int) -> Seq<usize> {
        self.falses@[v]@
    }

    /// Each node list names nodes of the problem.
    pub closed spec fn wf(&self) -> bool {
        &&& self.falses@.len() == self.trues@.len()
        &&& forall|v: int, k: int|
            0 <= v < self.trues@.len() && 0 <= k < self.trues@[v]@.len() ==> #[trigger] self.trues@[v]@[k]
                < self.size
        &&& forall|v: int, k: int|
            0 <= v < self.falses@.len() && 0 <= k < self.falses@[v]@.len() ==> #[trigger] self.falses@[v]@[k]
                < self.size
    }

    /// The QUBO of Choi's graph on the literal occurrences of the problem, with
    /// the default edge penalty.
    pub fn reduce(sat_problem: &KSatProblem) -> (r: Result<(QuboProblem, Choi), ReductionError>)
        requires
            sat_problem.wf(),
        ensures
            ({
                let lits = flat_literals(sat_problem.clause_list@);
                let outcome = crate::qubo::matrix_outcome(
                    choi_upper(
                        lits,
                        flat_owners(sat_problem.clause_list@),
                        choi_edge_weight(CHOI_EDGE_PENALTY as int),
                    ),
                );
                match r {
                    Ok((p, c)) => p.wf() && outcome == Ok::<Seq<Seq<int>>, QuboError>(p@) && c.wf() && p@.len() == c.size()
                        && c.nb_vars() == sat_problem.nb_vars && c.size() == lits.len()
                        && forall|v: int|
                        0 <= v < sat_problem.nb_vars ==> #[trigger] c.true_nodes(v) == positions(
                            lits,
                            true,
                            v,
                            lits.len() as int,
                        ) && c.false_nodes(v) == positions(lits, false, v, lits.len() as int),
                    Err(e) => outcome matches Err(oe) && e == ReductionError::Matrix(oe),
                }
            }),
    {
        Self::reduce_with_penalty(sat_problem, CHOI_EDGE_PENALTY)
    }

    /// The QUBO of Choi's graph on the literal occurrences of the problem, with
    /// edge weight `2·|vertex weight| + penalty`; a penalty of at least 2 keeps
    /// adjacent nodes from being selected together.
    pub fn reduce_with_penalty(sat_problem: &KSatProblem, penalty: QuboType) -> (r: Result<
        (QuboProblem, Choi),
        ReductionError,
    >)
        requires
            sat_problem.wf(),
            2 <= penalty <= crate::qubo::MAX_COEFF,
        ensures
            ({
                let lits = flat_literals(sat_problem.clause_list@);
                let outcome = crate::qubo::matrix_outcome(
                    choi_upper(lits, flat_owners(sat_problem.clause_list@), choi_edge_weight(penalty as int)),
                );
                match r {
                    Ok((p, c)) => p.wf() && outcome == Ok::<Seq<Seq<int>>, QuboError>(p@) && c.wf() && p@.len() == c.size()
                        && c.nb_vars() == sat_problem.nb_vars && c.size() == lits.len()
                        && forall|v: int|
                        0 <= v < sat_problem.nb_vars ==> #[trigger] c.true_nodes(v) == positions(
                            lits,
                            true,
                            v,
                            lits.len() as int,
                        ) && c.false_nodes(v) == positions(lits, false, v, lits.len() as int),
                    Err(e) => outcome matches Err(oe) && e == ReductionError::Matrix(oe),
                }
            }),
    {
        let edge_weight: QuboType = 2 * (-CHOI_VERTEX_WEIGHT) + penalty;
        let (lits, owners) = flatten(&sat_problem.clause_list);
        let n = lits.len();
        let ghost lv = lits@;
        let ghost upper = choi_upper(lits@, flat_owners(sat_problem.clause_list@), choi_edge_weight(penalty as int));
        proof {
            assert forall|k: int| 0 <= k < lv.len() implies (#[trigger] lv[k]).1 < sat_problem.nb_vars by {
                lemma_flat_member(sat_problem, k);
            }
        }
        let mut u: Vec<Vec<QuboType>> = Vec::new();
        let mut i: usize = 0;
        while i < n
            invariant
                edge_weight == choi_edge_weight(penalty as int),
                2 <= penalty <= crate::qubo::MAX_COEFF,
                n == lits@.len(),
                lv == lits@,
                owners@.len() == n,
                forall|k: int| 0 <= k < n ==> #[trigger] owners@[k] as int == flat_owners(sat_problem.clause_list@)[k],
                upper == choi_upper(lits@, flat_owners(sat_problem.clause_list@), choi_edge_weight(penalty as int)),
                i <= n,
                u@.len() == i,
                forall|a: int| 0 <= a < i ==> #[trigger] crate::qubo::ints(u@[a]@) == upper[a],
            decreases n - i,
        {
            let mut row: Vec<QuboType> = Vec::new();
            let mut j: usize = 0;
            while j < n
                invariant
                    edge_weight == choi_edge_weight(penalty as int),
                    2 <= penalty <= crate::qubo::MAX_COEFF,
                    n == lits@.len(),
                    owners@.len() == n,
                    forall|k: int| 0 <= k < n ==> #[trigger] owners@[k] as int == flat_owners(sat_problem.clause_list@)[k],
                    upper == choi_upper(lits@, flat_owners(sat_problem.clause_list@), choi_edge_weight(penalty as int)),
                    i < n,
                    j <= n,
                    row@.len() == j,
                    forall|b: int| 0 <= b < j ==> #[trigger] row@[b] as int == upper[i as int][b],
                decreases n - j,
            {
                let v = if i == j {
                    CHOI_VERTEX_WEIGHT
                } else if i < j {
                    let same_clause: QuboType = if owners[i] == owners[j] { edge_weight } else { 0 };
                    let SatVariable(pi, vi) = lits[i];
                    let SatVariable(pj, vj) = lits[j];
                    let conflict: QuboType = if vi == vj && pi != pj { edge_weight } else { 0 };
                    same_clause + conflict
                } else {
                    0
                };
                row.push(v);
                j += 1;
            }
            assert(crate::qubo::ints(row@) =~= upper[i as int]);
            u.push(row);
            i += 1;
        }
        proof {
            assert forall|a: int| 0 <= a < n implies #[trigger] crate::qubo::rows_view(u@)[a] == upper[a] by {
                crate::qubo::lemma_rows_view(u@, a);
            }
            assert(crate::qubo::rows_view(u@) =~= upper);
        }
        let q = QuboProblem::try_from_q_matrix(u);
        match q {
            Ok(p) => {
                let (trues, falses) = node_lists(&lits, sat_problem.nb_vars);
                let choi = Choi { size: n, trues, falses };
                proof {
                    lemma_positions_bound(lv, true, 0, n as int);
                    assert forall|v: int, k: int|
                        0 <= v < choi.trues@.len() && 0 <= k < choi.trues@[v]@.len() implies #[trigger] choi.trues@[v]@[k]
                            < choi.size by {
                        lemma_positions_bound(lv, true, v, n as int);
                    }
                    assert forall|v: int, k: int|
                        0 <= v < choi.falses@.len() && 0 <= k < choi.falses@[v]@.len() implies #[trigger] choi.falses@[v]@[k]
                            < choi.size by {
                        lemma_positions_bound(lv, false, v, n as int);
                    }
                }
                Ok((p, choi))
            },
            Err(e) => Err(ReductionError::Matrix(e)),
        }
    }
}

proof fn lemma_flat_member(p: &KSatProblem, k: int)
    requires
        p.wf(),
        0 <= k < flat_literals(p.clause_list@).len(),
    ensures
        flat_literals(p.clause_list@)[k].1 < p.nb_vars,
{
    lemma_flat_member_rec(p.clause_list@, p.nb_vars, k);
}

proof fn lemma_flat_member_rec(cs: Seq<Vec<SatVariable>>, nb: usize, k: int)
    requires
        forall|i: int, j: int|
            0 <= i < cs.len() && 0 <= j < cs[i]@.len() ==> (#[trigger] cs[i]@[j]).1 < nb,
        0 <= k < flat_literals(cs).len(),
    ensures
        flat_literals(cs)[k].1 < nb,
    decreases cs.len(),
{
    if cs.len() > 0 {
        let init = cs.drop_last();
        if k < flat_literals(init).len() {
            assert forall|i: int, j: int|
                0 <= i < init.len() && 0 <= j < init[i]@.len() implies (#[trigger] init[i]@[j]).1 < nb by {
                assert(init[i] == cs[i]);
            }
            lemma_flat_member_rec(init, nb, k);
        } else {
            let j = k - flat_literals(init).len();
            assert(cs.last()@[j] == cs[cs.len() - 1]@[j]);
        }
    }
}

/// For each variable below `nb_vars`, the nodes that assert it positively and
/// those that assert it negatively, in increasing order.
#[verifier::spinoff_prover]
fn node_lists(lits: &Vec<SatVariable>, nb_vars: usize) -> (r: (Vec<Vec<usize>>, Vec<Vec<usize>>))
    requires
        forall|k: int| 0 <= k < lits@.len() ==> (#[trigger] lits@[k]).1 < nb_vars,
    ensures
        r.0@.len() == nb_vars,
        r.1@.len() == nb_vars,
        forall|v: int|
            0 <= v < nb_vars ==> #[trigger] r.0@[v]@ == positions(lits@, true, v, lits@.len() as int),
        forall|v: int|
            0 <= v < nb_vars ==> #[trigger] r.1@[v]@ == positions(lits@, false, v, lits@.len() as int),
{
    let mut trues: Vec<Vec<usize>> = Vec::new();
    let mut falses: Vec<Vec<usize>> = Vec::new();
    let mut v: usize = 0;
    while v < nb_vars
        invariant
            v <= nb_vars,
            trues@.len() == v,
            falses@.len() == v,
            forall|a: int| 0 <= a < v ==> (#[trigger] trues@[a])@.len() == 0 && falses@[a]@.len() == 0,
        decreases nb_vars - v,
    {
        trues.push(Vec::new());
        falses.push(Vec::new());
        v += 1;
    }
    assert forall|a: int| 0 <= a < nb_vars implies #[trigger] trues@[a]@ == positions(lits@, true, a, 0)
        && falses@[a]@ == positions(lits@, false, a, 0) by {
        assert(trues@[a]@ =~= positions(lits@, true, a, 0));
        assert(falses@[a]@ =~= positions(lits@, false, a, 0));
    }
    let mut i: usize = 0;
    while i < lits.len()
        invariant
            forall|k: int| 0 <= k < lits@.len() ==> (#[trigger] lits@[k]).1 < nb_vars,
            i <= lits@.len(),
            trues@.len() == nb_vars,
            falses@.len() == nb_vars,
            forall|a: int|
                0 <= a < nb_vars ==> #[trigger] trues@[a]@ == positions(lits@, true, a, i as int)
                    && falses@[a]@ == positions(lits@, false, a, i as int),
        decreases lits@.len() - i,
    {
        let SatVariable(pol, var) = lits[i];
        assert(var < nb_vars);
        let ghost old_t = trues@;
        let ghost old_f = falses@;
        if pol {
            let mut list = trues[var].clone();
            assert(list@ == trues@[var as int]@);
            list.push(i);
            trues.set(var, list);
        } else {
            let mut list = falses[var].clone();
            assert(list@ == falses@[var as int]@);
            list.push(i);
            falses.set(var, list);
        }
        proof {
            assert forall|a: int| 0 <= a < nb_vars implies #[trigger] trues@[a]@ == positions(lits@, true, a, i + 1)
                && falses@[a]@ == positions(lits@, false, a, i + 1) by {
                let pt = positions(lits@, true, a, i as int);
                let pf = positions(lits@, false, a, i as int);
                assert(old_t[a]@ == pt);
                assert(old_f[a]@ == pf);
                if a == var {
                    if pol {
                        assert(positions(lits@, true, a, i + 1) =~= pt.push(i));
                        assert(positions(lits@, false, a, i + 1) =~= pf);
                    } else {
                        assert(positions(lits@, true, a, i + 1) =~= pt);
                        assert(positions(lits@, false, a, i + 1) =~= pf.push(i));
                    }
                } else {
                    assert(positions(lits@, true, a, i + 1) =~= pt);
                    assert(positions(lits@, false, a, i + 1) =~= pf);
                }
            }
        }
        i += 1;
    }
    assert forall|v: int| 0 <= v < nb_vars implies #[trigger] falses@[v]@ == positions(
        lits@,
        false,
        v,
        lits@.len() as int,
    ) by {
        assert(trues@[v]@ == positions(lits@, true, v, lits@.len() as int));
    }
    (trues, falses)
}

/// Some node of the list is selected (its bit is nonzero).
pub open spec fn any_selected(nodes: Seq<usize>, x: Seq<int>) -> bool {
    exists|k: int| 0 <= k < nodes.len() && x[(#[trigger] nodes[k]) as int] != 0
}

/// The value of a variable read from the nodes `t` that assert it and the
/// nodes `f` that deny it; `None` on a conflict (both selected).
pub open spec fn choi_value(t: Seq<usize>, f: Seq<usize>, x: Seq<int>) -> Option<bool> {
    if t.len() == 0 {
        Some(!any_selected(f, x))
    } else if f.len() == 0 {
        Some(any_selected(t, x))
    } else if any_selected(t, x) && any_selected(f, x) {
        None
    } else {
        Some(any_selected(t, x))
    }
}

/// Whether some node of the list is selected.
fn any_selected_exec(nodes: &Vec<usize>, x: &QuboSolution) -> (r: bool)
    requires
        forall|k: int| 0 <= k < nodes@.len() ==> #[trigger] nodes@[k] < x@.len(),
    ensures
        r == any_selected(nodes@, x@),
{
    let mut k: usize = 0;
    while k < nodes.len()
        invariant
            forall|a: int| 0 <= a < nodes@.len() ==> #[trigger] nodes@[a] < x@.len(),
            k <= nodes@.len(),
            forall|a: int| 0 <= a < k ==> x@[(#[trigger] nodes@[a]) as int] == 0,
        decreases nodes@.len() - k,
    {
        let node = nodes[k];
        assert(x@[node as int] == x.0@[node as int] as int);
        if x.0[node] != 0 {
            return true;
        }
        k += 1;
    }
    false
}

impl Choi {
    /// The value of variable `v` read from `x`, or `None` on a conflict.
    pub open spec fn value_of(&self, v: int, x: Seq<int>) -> Option<bool> {
        choi_value(self.true_nodes(v), self.false_nodes(v), x)
    }

    /// Reads an assignment from the selected literal nodes; `Unsat` when some
    /// variable is both asserted and denied.
    pub fn up_model(&self, qubo_solution: &QuboSolution) -> (r: SatSolution)
        requires
            self.wf(),
            qubo_solution@.len() == self.size(),
        ensures
            (exists|v: int| 0 <= v < self.nb_vars() && #[trigger] self.value_of(v, qubo_solution@) is None)
                ==> r == SatSolution::Unsat,
            (forall|v: int| 0 <= v < self.nb_vars() ==> #[trigger] self.value_of(v, qubo_solution@) is Some)
                ==> (r matches SatSolution::Sat(a) && a@.len() == self.nb_vars() && forall|v: int|
                0 <= v < self.nb_vars() ==> #[trigger] a@[v] == self.value_of(v, qubo_solution@).unwrap()),
    {
        let n_vars = self.trues.len();
        let ghost x = qubo_solution@;
        let mut output: Vec<bool> = Vec::new();
        let mut i: usize = 0;
        while i < n_vars
            invariant
                self.wf(),
                n_vars == self.nb_vars(),
                x == qubo_solution@,
                x.len() == self.size(),
                i <= n_vars,
                output@.len() == i,
                forall|v: int| 0 <= v < i ==> #[trigger] self.value_of(v, x) is Some,
                forall|v: int| 0 <= v < i ==> #[trigger] output@[v] == self.value_of(v, x).unwrap(),
            decreases n_vars - i,
        {
            let t = &self.trues[i];
            let f = &self.falses[i];
            let t_sel = any_selected_exec(t, qubo_solution);
            let f_sel = any_selected_exec(f, qubo_solution);
            let v_i = if t.len() == 0 {
                !f_sel
            } else if f.len() == 0 {
                t_sel
            } else if t_sel && f_sel {
                assert(self.value_of(i as int, x) is None);
                return SatSolution::Unsat;
            } else {
                t_sel
            };
            output.push(v_i);
            i += 1;
        }
        SatSolution::Sat(output)
    }
}

/// The least energy over the ancilla `q` of the terms `ts`: `q` cleared or set.
pub open spec fn min_over_ancilla(ts: Seq<Triplet>, x: Seq<int>, q: usize) -> int {
    let e0 = triplets_energy(ts, x.update(q as int, 0), ts.len() as int);
    let e1 = triplets_energy(ts, x.update(q as int, 1), ts.len() as int);
    if e0 <= e1 {
        e0
    } else {
        e1
    }
}

/// Four distinct indices of a bit vector.
pub open spec fn distinct_in(x: Seq<int>, a: usize, b: usize, c: usize, q: usize) -> bool {
    &&& a < x.len() && b < x.len() && c < x.len() && q < x.len()
    &&& a != b && a != c && a != q && b != c && b != q && c != q
}

/// The penalty of (a ∨ b ∨ c): least energy over the ancilla `−2`, plus `2` when violated.
#[verifier::spinoff_prover]
pub proof fn lemma_all_positive_penalty(a: usize, b: usize, c: usize, q: usize, x: Seq<int>)
    requires
        distinct_in(x, a, b, c, q),
        is_binary(x),
    ensures
        min_over_ancilla(all_positive_terms(a, b, c, q), x, q) == -2 + (if x[a as int] == 0 && x[b as int] == 0 && x[c as int] == 0 {
            2int
        } else {
            0
        }),
{
    reveal_with_fuel(triplets_energy, 11);
    let x0 = x.update(q as int, 0);
    let x1 = x.update(q as int, 1);
    assert(x[a as int] == 0 || x[a as int] == 1);
    assert(x[b as int] == 0 || x[b as int] == 1);
    assert(x[c as int] == 0 || x[c as int] == 1);
    assert(x0[a as int] == x[a as int] && x0[b as int] == x[b as int] && x0[c as int] == x[c as int]);
    assert(x1[a as int] == x[a as int] && x1[b as int] == x[b as int] && x1[c as int] == x[c as int]);
    assert(x0[q as int] == 0 && x1[q as int] == 1);
}

/// The penalty of (a ∨ b ∨ ¬c): least energy over the ancilla `0`, plus `2` when violated.
#[verifier::spinoff_prover]
pub proof fn lemma_one_negative_penalty(a: usize, b: usize, c: usize, q: usize, x: Seq<int>)
    requires
        distinct_in(x, a, b, c, q),
        is_binary(x),
    ensures
        min_over_ancilla(one_negative_terms(a, b, c, q), x, q) == (if x[a as int] == 0 && x[b as int] == 0 && x[c as int] == 1 {
            2int
        } else {
            0
        }),
{
    reveal_with_fuel(triplets_energy, 11);
    let x0 = x.update(q as int, 0);
    let x1 = x.update(q as int, 1);
    assert(x[a as int] == 0 || x[a as int] == 1);
    assert(x[b as int] == 0 || x[b as int] == 1);
    assert(x[c as int] == 0 || x[c as int] == 1);
    assert(x0[a as int] == x[a as int] && x0[b as int] == x[b as int] && x0[c as int] == x[c as int]);
    assert(x1[a as int] == x[a as int] && x1[b as int] == x[b as int] && x1[c as int] == x[c as int]);
    assert(x0[q as int] == 0 && x1[q as int] == 1);
}

/// The penalty of (a ∨ ¬b ∨ ¬c): least energy over the ancilla `0`, plus `2` when violated.
#[verifier::spinoff_prover]
pub proof fn lemma_one_positive_penalty(a: usize, b: usize, c: usize, q: usize, x: Seq<int>)
    requires
        distinct_in(x, a, b, c, q),
        is_binary(x),
    ensures
        min_over_ancilla(one_positive_terms(a, b, c, q), x, q) == (if x[a as int] == 0 && x[b as int] == 1 && x[c as int] == 1 {
            2int
        } else {
            0
        }),
{
    reveal_with_fuel(triplets_energy, 11);
    let x0 = x.update(q as int, 0);
    let x1 = x.update(q as int, 1);
    assert(x[a as int] == 0 || x[a as int] == 1);
    assert(x[b as int] == 0 || x[b as int] == 1);
    assert(x[c as int] == 0 || x[c as int] == 1);
    assert(x0[a as int] == x[a as int] && x0[b as int] == x[b as int] && x0[c as int] == x[c as int]);
    assert(x1[a as int] == x[a as int] && x1[b as int] == x[b as int] && x1[c as int] == x[c as int]);
    assert(x0[q as int] == 0 && x1[q as int] == 1);
}

/// The penalty of (¬a ∨ ¬b ∨ ¬c): least energy over the ancilla `−2`, plus `2` when violated.
#[verifier::spinoff_prover]
pub proof fn lemma_all_negative_penalty(a: usize, b: usize, c: usize, q: usize, x: Seq<int>)
    requires
        distinct_in(x, a, b, c, q),
        is_binary(x),
    ensures
        min_over_ancilla(all_negative_terms(a, b, c, q), x, q) == -2 + (if x[a as int] == 1 && x[b as int] == 1 && x[c as int] == 1 {
            2int
        } else {
            0
        }),
{
    reveal_with_fuel(triplets_energy, 11);
    let x0 = x.update(q as int, 0);
    let x1 = x.update(q as int, 1);
    assert(x[a as int] == 0 || x[a as int] == 1);
    assert(x[b as int] == 0 || x[b as int] == 1);
    assert(x[c as int] == 0 || x[c as int] == 1);
    assert(x0[a as int] == x[a as int] && x0[b as int] == x[b as int] && x0[c as int] == x[c as int]);
    assert(x1[a as int] == x[a as int] && x1[b as int] == x[b as int] && x1[c as int] == x[c as int]);
    assert(x0[q as int] == 0 && x1[q as int] == 1);
}

/// The bit vector `x` violates the clause `c`: no literal holds.
pub open spec fn violates(c: Seq<SatVariable>, x: Seq<int>) -> bool {
    forall|j: int| 0 <= j < c.len() ==> x[(#[trigger] c[j]).1 as int] != (if c[j].0 {
        1int
    } else {
        0
    })
}

/// The penalty of a 3-clause in the 2023 encoding: over its ancilla, the least
/// energy of its terms is a constant of its polarity pattern (`−2` when all
/// literals share a polarity, else `0`), plus `2` exactly when `x` violates it.
#[verifier::spinoff_prover]
pub proof fn lemma_nusslein23_clause_penalty(c: Seq<SatVariable>, q: usize, x: Seq<int>)
    requires
        c.len() == 3,
        distinct_in(x, c[0].1, c[1].1, c[2].1, q),
        is_binary(x),
    ensures
        min_over_ancilla(nusslein23_clause(c, q).unwrap(), x, q) == (if c[0].0 == c[1].0 && c[1].0
            == c[2].0 {
            -2int
        } else {
            0
        }) + (if violates(c, x) {
            2int
        } else {
            0
        }),
{
    let (p0, p1, p2) = (c[0].0, c[1].0, c[2].0);
    let (v0, v1, v2) = (c[0].1, c[1].1, c[2].1);
    assert(violates(c, x) == (x[v0 as int] != (if p0 { 1int } else { 0 }) && x[v1 as int] != (if p1 {
        1int
    } else {
        0
    }) && x[v2 as int] != (if p2 { 1int } else { 0 }))) by {
        if !violates(c, x) {
            let j = choose|j: int| 0 <= j < 3 && !(x[(#[trigger] c[j]).1 as int] != (if c[j].0 {
                1int
            } else {
                0
            }));
            assert(j == 0 || j == 1 || j == 2);
        }
    }
    assert(x[v0 as int] == 0 || x[v0 as int] == 1);
    assert(x[v1 as int] == 0 || x[v1 as int] == 1);
    assert(x[v2 as int] == 0 || x[v2 as int] == 1);
    if p0 && p1 && p2 {
        lemma_all_positive_penalty(v0, v1, v2, q, x);
    } else if p0 && p1 && !p2 {
        lemma_one_negative_penalty(v0, v1, v2, q, x);
    } else if p0 && !p1 && p2 {
        lemma_one_negative_penalty(v0, v2, v1, q, x);
    } else if !p0 && p1 && p2 {
        lemma_one_negative_penalty(v1, v2, v0, q, x);
    } else if p0 && !p1 && !p2 {
        lemma_one_positive_penalty(v0, v1, v2, q, x);
    } else if !p0 && p1 && !p2 {
        lemma_one_positive_penalty(v1, v0, v2, q, x);
    } else if !p0 && !p1 && p2 {
        lemma_one_positive_penalty(v2, v0, v1, q, x);
    } else {
        lemma_all_negative_penalty(v0, v1, v2, q, x);
    }
}

} // verus!

//! k-SAT problems in conjunctive normal form, and their solutions.
use vstd::prelude::*;

verus! {

/// A literal: its polarity (`true` for a positive literal) and the index of its variable.
#[derive(Clone, Copy, Debug, PartialEq, Eq, Structural)]
pub struct SatVariable(pub bool, pub usize);

/// The answer to a SAT problem.
#[derive(Clone, Debug, PartialEq, Eq)]
pub enum SatSolution {
    /// A satisfying assignment, one value per variable.
    Sat(Vec<bool>),
    Unsat,
    Unknown,
}

/// A k-SAT problem: `nb_vars` variables and a conjunction of clauses, each a
/// disjunction of literals.
#[derive(Clone, Debug)]
pub struct KSatProblem {
    pub nb_vars: usize,
    pub clause_list: Vec<Vec<SatVariable>>,
}

/// Why a DIMACS CNF text could not become a `KSatProblem`.
#[derive(Clone, Copy, Debug, PartialEq, Eq, Structural)]
pub enum KSatProblemError {
    /// The header is not `p cnf <nb_vars> <nb_clauses>`.
    InvalidHeader,
    /// A clause names a variable outside `1..=nb_vars`.
    InvalidVariable,
    /// A clause line is empty, holds a 0 before its end, or does not end with 0.
    InvalidClause,
}

/// The literal `l` holds under the assignment `a`.
pub open spec fn literal_holds(l: SatVariable, a: Seq<bool>) -> bool {
    l.1 < a.len() && a[l.1 as int] == l.0
}

/// Some literal of the clause holds under `a`.
pub open spec fn clause_holds(c: Seq<SatVariable>, a: Seq<bool>) -> bool {
    exists|j: int| 0 <= j < c.len() && literal_holds(#[trigger] c[j], a)
}

/// Every clause holds under `a`.
pub open spec fn satisfies(clauses: Seq<Vec<SatVariable>>, a: Seq<bool>) -> bool {
    forall|i: int| 0 <= i < clauses.len() ==> clause_holds(#[trigger] clauses[i]@, a)
}

impl KSatProblem {
    /// Every literal names a variable below `nb_vars`.
    pub open spec fn wf(&self) -> bool {
        forall|i: int, j: int|
            0 <= i < self.clause_list@.len() && 0 <= j < self.clause_list@[i]@.len()
                ==> (#[trigger] self.clause_list@[i]@[j]).1 < self.nb_vars
    }

    /// Whether `solution` satisfies the problem. `Unsat` and `Unknown` make no
    /// claim and are accepted.
    pub fn evaluate(&self, solution: &SatSolution) -> (r: bool)
        requires
            solution matches SatSolution::Sat(v) ==> v@.len() == self.nb_vars,
        ensures
            r == match solution {
                SatSolution::Sat(v) => satisfies(self.clause_list@, v@),
                _ => true,
            },
    {
        match solution {
            SatSolution::Sat(v) => all_clauses_hold(&self.clause_list, v),
            _ => true,
        }
    }
}

/// Whether every clause holds under `assignment`.
pub fn all_clauses_hold(clauses: &Vec<Vec<SatVariable>>, assignment: &Vec<bool>) -> (r: bool)
    ensures
        r == satisfies(clauses@, assignment@),
{
    let mut i: usize = 0;
    while i < clauses.len()
        invariant
            i <= clauses@.len(),
            forall|a: int| 0 <= a < i ==> clause_holds(#[trigger] clauses@[a]@, assignment@),
        decreases clauses@.len() - i,
    {
        if !clause_holds_exec(&clauses[i], assignment) {
            return false;
        }
        i += 1;
    }
    true
}

/// Whether some literal of `clause` holds under `assignment`.
pub fn clause_holds_exec(clause: &Vec<SatVariable>, assignment: &Vec<bool>) -> (r: bool)
    ensures
        r == clause_holds(clause@, assignment@),
{
    let mut j: usize = 0;
    while j < clause.len()
        invariant
            j <= clause@.len(),
            forall|a: int| 0 <= a < j ==> !literal_holds(#[trigger] clause@[a], assignment@),
        decreases clause@.len() - j,
    {
        let SatVariable(is_pos, number) = clause[j];
        if number < assignment.len() && assignment[number] == is_pos {
            assert(literal_holds(clause@[j as int], assignment@));
            return true;
        }
        j += 1;
    }
    false
}

/// The literal that a nonzero DIMACS integer denotes: its sign is the polarity,
/// its absolute value the 1-based variable index.
pub open spec fn literal_of(x: int) -> SatVariable {
    if x > 0 {
        SatVariable(true, (x - 1) as usize)
    } else {
        SatVariable(false, (-x - 1) as usize)
    }
}

/// A well-formed DIMACS clause line: nonempty, ending with its only 0.
pub open spec fn clause_line_ok(tokens: Seq<i64>) -> bool {
    tokens.len() > 0 && tokens[tokens.len() - 1] == 0 && forall|j: int|
        0 <= j < tokens.len() - 1 ==> #[trigger] tokens[j] != 0
}

/// Every literal of the line names one of the variables `1..=nb_vars`.
pub open spec fn clause_line_in_range(tokens: Seq<i64>, nb_vars: int) -> bool {
    forall|j: int|
        0 <= j < tokens.len() - 1 ==> -nb_vars <= #[trigger] tokens[j] <= nb_vars
}

/// Reads one DIMACS clause line, given as its integers: the literals, then 0.
pub fn parse_clause(tokens: &Vec<i64>, nb_vars: usize) -> (r: Result<
    Vec<SatVariable>,
    KSatProblemError,
>)
    ensures
        !clause_line_ok(tokens@) ==> r == Err::<Vec<SatVariable>, KSatProblemError>(
            KSatProblemError::InvalidClause,
        ),
        clause_line_ok(tokens@) && !clause_line_in_range(tokens@, nb_vars as int) ==> r == Err::<
            Vec<SatVariable>,
            KSatProblemError,
        >(KSatProblemError::InvalidVariable),
        clause_line_ok(tokens@) && clause_line_in_range(tokens@, nb_vars as int) ==> match r {
            Ok(c) => c@.len() == tokens@.len() - 1 && forall|j: int|
                0 <= j < c@.len() ==> #[trigger] c@[j] == literal_of(tokens@[j] as int) && c@[j].1
                    < nb_vars,
            Err(_) => false,
        },
{
    let len = tokens.len();
    if len == 0 || tokens[len - 1] != 0 {
        return Err(KSatProblemError::InvalidClause);
    }
    let mut j: usize = 0;
    while j < len - 1
        invariant
            len == tokens@.len(),
            len > 0,
            tokens@[len - 1] == 0,
            j <= len - 1,
            forall|a: int| 0 <= a < j ==> #[trigger] tokens@[a] != 0,
        decreases len - 1 - j,
    {
        if tokens[j] == 0 {
            return Err(KSatProblemError::InvalidClause);
        }
        j += 1;
    }
    let mut clause: Vec<SatVariable> = Vec::new();
    let mut j: usize = 0;
    while j < len - 1
        invariant
            len == tokens@.len(),
            clause_line_ok(tokens@),
            j <= len - 1,
            clause@.len() == j,
            forall|a: int| 0 <= a < j ==> -nb_vars <= #[trigger] tokens@[a] <= nb_vars,
            forall|a: int|
                0 <= a < j ==> #[trigger] clause@[a] == literal_of(tokens@[a] as int) && clause@[a].1
                    < nb_vars,
        decreases len - 1 - j,
    {
        let x = tokens[j];
        assert(x != 0);
        let xi = x as i128;
        let nv = nb_vars as i128;
        if xi > nv || xi < -nv {
            assert(!clause_line_in_range(tokens@, nb_vars as int));
            return Err(KSatProblemError::InvalidVariable);
        }
        if x > 0 {
            clause.push(SatVariable(true, (xi - 1) as usize));
        } else {
            clause.push(SatVariable(false, (-xi - 1) as usize));
        }
        j += 1;
    }
    Ok(clause)
}

} // verus!

//! Widening k-SAT to 3-SAT with fresh variables, and reading 3-SAT
//! assignments back.
use vstd::prelude::*;
use crate::sat::{KSatProblem, SatSolution, SatVariable};

verus! {

/// A 3-SAT problem: `nbvars` variables and clauses of exactly three literals.
#[derive(Clone, Debug)]
pub struct ThreeSatProblem {
    pub nbvars: usize,
    pub clauses: Vec<[SatVariable; 3]>,
}

/// The clauses as sequences of literals.
pub open spec fn clause_seqs(cs: Seq<[SatVariable; 3]>) -> Seq<Seq<SatVariable>> {
    cs.map_values(|c: [SatVariable; 3]| c@)
}

/// A positive literal of variable `v`.
pub open spec fn pos(v: int) -> SatVariable {
    SatVariable(true, v as usize)
}

/// A negative literal of variable `v`.
pub open spec fn neg(v: int) -> SatVariable {
    SatVariable(false, v as usize)
}

/// The 3-clauses of clause `c` with fresh variables from `z`: a unit clause
/// becomes four clauses over two fresh variables, a 2-clause two clauses over
/// one, a 3-clause stays, and a clause `l₀ … l_{k−1}` of `k > 3` literals
/// becomes the chain `(l₀ l₁ z₀) (l₂ ¬z₀ z₁) … (l_{k−2} l_{k−1} ¬z_{k−4})`.
pub open spec fn widen_clause(c: Seq<SatVariable>, z: int) -> Seq<Seq<SatVariable>> {
    let k = c.len() as int;
    if k == 1 {
        seq![
            seq![c[0], pos(z), pos(z + 1)],
            seq![c[0], neg(z), pos(z + 1)],
            seq![c[0], pos(z), neg(z + 1)],
            seq![c[0], neg(z), neg(z + 1)],
        ]
    } else if k == 2 {
        seq![seq![c[0], c[1], pos(z)], seq![c[0], c[1], neg(z)]]
    } else if k == 3 {
        seq![c]
    } else {
        seq![seq![c[0], c[1], pos(z)]] + Seq::new(
            (k - 4) as nat,
            |i: int| seq![c[i + 2], neg(z + i), pos(z + i + 1)],
        ) + seq![seq![c[k - 2], c[k - 1], neg(z + k - 4)]]
    }
}

/// The number of fresh variables that clause `c` needs.
pub open spec fn fresh_count(c: Seq<SatVariable>) -> int {
    if c.len() == 1 {
        2
    } else if c.len() == 2 {
        1
    } else if c.len() == 3 {
        0
    } else {
        c.len() - 3
    }
}

/// The variable count and the 3-clauses after the first `m` clauses.
pub open spec fn widen_all(cs: Seq<Vec<SatVariable>>, nb_vars: int, m: int) -> (int, Seq<
    Seq<SatVariable>,
>)
    decreases m,
{
    if m <= 0 {
        (nb_vars, Seq::empty())
    } else {
        let prev = widen_all(cs, nb_vars, m - 1);
        (prev.0 + fresh_count(cs[m - 1]@), prev.1 + widen_clause(cs[m - 1]@, prev.0))
    }
}

/// Widening k-SAT to 3-SAT.
pub struct KSatToThreeSatReduction;

/// Reads a 3-SAT assignment back: its first `og_size` values.
pub struct KSatToThreeSatSolutionReductionReverser(pub usize);

/// Appends a 3-clause.
fn push3(out: &mut Vec<[SatVariable; 3]>, a: SatVariable, b: SatVariable, c: SatVariable)
    ensures
        clause_seqs(final(out)@) == clause_seqs(old(out)@).push(seq![a, b, c]),
{
    let ghost before = out@;
    out.push([a, b, c]);
    assert(clause_seqs(out@) =~= clause_seqs(before).push(seq![a, b, c]));
}

/// Appends the 3-clauses of one nonempty clause with fresh variables from `z`.
fn widen_one(out: &mut Vec<[SatVariable; 3]>, c: &Vec<SatVariable>, z: usize)
    requires
        c@.len() >= 1,
        z + c@.len() + 2 <= usize::MAX,
    ensures
        clause_seqs(final(out)@) == clause_seqs(old(out)@) + widen_clause(c@, z as int),
{
    let ghost before = clause_seqs(out@);
    let k = c.len();
    if k == 1 {
        let l = c[0];
        push3(out, l, SatVariable(true, z), SatVariable(true, z + 1));
        push3(out, l, SatVariable(false, z), SatVariable(true, z + 1));
        push3(out, l, SatVariable(true, z), SatVariable(false, z + 1));
        push3(out, l, SatVariable(false, z), SatVariable(false, z + 1));
        assert(clause_seqs(out@) =~= before + widen_clause(c@, z as int));
    } else if k == 2 {
        push3(out, c[0], c[1], SatVariable(true, z));
        push3(out, c[0], c[1], SatVariable(false, z));
        assert(clause_seqs(out@) =~= before + widen_clause(c@, z as int));
    } else if k == 3 {
        push3(out, c[0], c[1], c[2]);
        assert(c@ =~= seq![c@[0], c@[1], c@[2]]);
        assert(clause_seqs(out@) =~= before + widen_clause(c@, z as int));
    } else {
        push3(out, c[0], c[1], SatVariable(true, z));
        let ghost first = clause_seqs(out@);
        let mut i: usize = 0;
        while i < k - 4
            invariant
                k == c@.len(),
                k > 3,
                z + k + 2 <= usize::MAX,
                i <= k - 4,
                clause_seqs(out@) == first + Seq::new(
                    i as nat,
                    |j: int| seq![c@[j + 2], neg(z + j), pos(z + j + 1)],
                ),
            decreases k - 4 - i,
        {
            push3(out, c[i + 2], SatVariable(false, z + i), SatVariable(true, z + i + 1));
            i += 1;
            assert(clause_seqs(out@) =~= first + Seq::new(
                i as nat,
                |j: int| seq![c@[j + 2], neg(z + j), pos(z + j + 1)],
            ));
        }
        push3(out, c[k - 2], c[k - 1], SatVariable(false, z + k - 4));
        assert(clause_seqs(out@) =~= before + widen_clause(c@, z as int));
    }
}

impl KSatToThreeSatReduction {
    /// The 3-SAT problem with the same satisfiable variables: each clause is
    /// widened in turn, its fresh variables numbered after all earlier ones,
    /// and the reader of its assignments.
    pub fn reduce_problem(&self, problem: KSatProblem) -> (r: (
        ThreeSatProblem,
        KSatToThreeSatSolutionReductionReverser,
    ))
        requires
            forall|i: int|
                0 <= i < problem.clause_list@.len() ==> (#[trigger] problem.clause_list@[i])@.len()
                    >= 1,
            problem.nb_vars + 3 * crate::nusslein::total_len(
                problem.clause_list@,
                problem.clause_list@.len() as int,
            ) <= usize::MAX,
        ensures
            ({
                let w = widen_all(
                    problem.clause_list@,
                    problem.nb_vars as int,
                    problem.clause_list@.len() as int,
                );
                &&& r.0.nbvars == w.0
                &&& clause_seqs(r.0.clauses@) == w.1
                &&& r.1.0 == problem.nb_vars
            }),
    {
        let cs = &problem.clause_list;
        let ghost total = crate::nusslein::total_len(cs@, cs@.len() as int);
        let mut nbvars = problem.nb_vars;
        let mut clauses: Vec<[SatVariable; 3]> = Vec::new();
        let mut i: usize = 0;
        while i < cs.len()
            invariant
                cs == &problem.clause_list,
                total == crate::nusslein::total_len(cs@, cs@.len() as int),
                problem.nb_vars + 3 * total <= usize::MAX,
                forall|a: int| 0 <= a < cs@.len() ==> (#[trigger] cs@[a])@.len() >= 1,
                i <= cs@.len(),
                (nbvars as int, clause_seqs(clauses@)) == widen_all(cs@, problem.nb_vars as int, i as int),
                nbvars <= problem.nb_vars + 2 * crate::nusslein::total_len(cs@, i as int),
            decreases cs@.len() - i,
        {
            proof {
                lemma_total_len_step(cs@, i as int);
                crate::nusslein::lemma_total_len_mono(cs@, 0, i as int);
            }
            let c = &cs[i];
            assert(c@.len() >= 1);
            widen_one(&mut clauses, c, nbvars);
            let k = c.len();
            nbvars = if k == 1 {
                nbvars + 2
            } else if k == 2 {
                nbvars + 1
            } else if k == 3 {
                nbvars
            } else {
                nbvars + (k - 3)
            };
            i += 1;
        }
        let og = problem.nb_vars;
        (ThreeSatProblem { nbvars, clauses }, KSatToThreeSatSolutionReductionReverser(og))
    }
}

proof fn lemma_total_len_step(cs: Seq<Vec<SatVariable>>, i: int)
    requires
        0 <= i < cs.len(),
    ensures
        crate::nusslein::total_len(cs, i + 1) <= crate::nusslein::total_len(cs, cs.len() as int),
        crate::nusslein::total_len(cs, i + 1) == crate::nusslein::total_len(cs, i) + cs[i]@.len(),
    decreases cs.len() - i,
{
    if i + 1 < cs.len() {
        lemma_total_len_step(cs, i + 1);
    }
}

impl KSatToThreeSatSolutionReductionReverser {
    /// The first `og_size` values of an assignment; `Unsat` and `Unknown` pass through.
    pub fn reverse_reduce_solution(&self, solution: SatSolution) -> (r: SatSolution)
        requires
            solution matches SatSolution::Sat(sv) ==> sv@.len() >= self.0,
        ensures
            match solution {
                SatSolution::Sat(sv) => r matches SatSolution::Sat(o) && o@ == sv@.take(self.0 as int),
                _ => r == solution,
            },
    {
        match solution {
            SatSolution::Sat(sv) => {
                let mut out: Vec<bool> = Vec::new();
                let mut j: usize = 0;
                while j < self.0
                    invariant
                        j <= self.0,
                        sv@.len() >= self.0,
                        out@ == sv@.take(j as int),
                    decreases self.0 - j,
                {
                    out.push(sv[j]);
                    j += 1;
                    assert(out@ =~= sv@.take(j as int));
                }
                SatSolution::Sat(out)
            },
            other => other,
        }
    }
}

impl ThreeSatProblem {
    /// The same problem as a k-SAT problem.
    pub fn to_ksat(&self) -> (r: KSatProblem)
        ensures
            r.nb_vars == self.nbvars,
            r.clause_list@.len() == self.clauses@.len(),
            forall|i: int| 0 <= i < self.clauses@.len() ==> (#[trigger] r.clause_list@[i])@ == self.clauses@[i]@,
    {
        let mut clause_list: Vec<Vec<SatVariable>> = Vec::new();
        let mut i: usize = 0;
        while i < self.clauses.len()
            invariant
                i <= self.clauses@.len(),
                clause_list@.len() == i,
                forall|a: int| 0 <= a < i ==> (#[trigger] clause_list@[a])@ == self.clauses@[a]@,
            decreases self.clauses@.len() - i,
        {
            let c = self.clauses[i];
            let mut v: Vec<SatVariable> = Vec::new();
            v.push(c[0]);
            v.push(c[1]);
            v.push(c[2]);
            assert(v@ =~= c@);
            clause_list.push(v);
            i += 1;
        }
        KSatProblem { nb_vars: self.nbvars, clause_list }
    }
}

} // verus!

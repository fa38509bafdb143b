//! Nüsslein's 2022 encoding: penalty tables for clauses of one and two literals,
//! the one-ancilla 2023 table for three, and a logarithmic widening for longer
//! clauses.
use vstd::prelude::*;
use crate::ising::triplets_energy;
use crate::qubo::{
    is_binary,
    triplets_outcome,
    QuboError,
    QuboProblem,
    QuboSolution,
    QuboType,
    MAX_SIZE,
    MAX_TRIPLETS,
};
use crate::widening::{
    distinct_below,
    lemma_widening_energy,
    lemma_widening_penalty,
    true_count,
    widening_form,
    neg_count,
    push_square_terms,
    widening_constant,
    widening_terms,
    widening_weights,
    widening_weights_exec,
    WEIGHT_LIMIT,
};
use crate::reducers::{
    first_bits,
    nusslein23_clause,
    nusslein23_push_clause,
    read_first_bits,
    spin,
    ReductionError,
    Triplet,
};
use crate::sat::{KSatProblem, SatSolution, SatVariable};

verus! {

/// The number of binary digits of `x`: the least `h` with `x < 2^h`.
pub open spec fn bit_length(x: nat) -> nat
    decreases x,
{
    if x == 0 {
        0
    } else {
        1 + bit_length(x / 2)
    }
}

/// `2^e`.
pub open spec fn pow2(e: nat) -> nat
    decreases e,
{
    if e == 0 {
        1
    } else {
        2 * pow2((e - 1) as nat)
    }
}

proof fn lemma_bit_length_shrinks(x: nat)
    requires
        x >= 3,
    ensures
        bit_length(x) < x,
    decreases x,
{
    if x / 2 >= 3 {
        lemma_bit_length_shrinks(x / 2);
    } else {
        assert(bit_length(x / 2) <= 2) by {
            if x / 2 == 1 {
                assert(bit_length(0) == 0);
            } else if x / 2 == 2 {
                assert(bit_length(1) == 1) by {
                    assert(bit_length(0) == 0);
                }
            }
        }
    }
}

proof fn lemma_bit_length_upper(x: nat)
    ensures
        x < pow2(bit_length(x)),
    decreases x,
{
    if x > 0 {
        lemma_bit_length_upper(x / 2);
    }
}

proof fn lemma_bit_length_below(x: nat, k: nat)
    requires
        x < pow2(k),
    ensures
        bit_length(x) <= k,
    decreases k,
{
    if x > 0 && k > 0 {
        lemma_bit_length_below(x / 2, (k - 1) as nat);
    }
}

/// `⌈log₂(x + 1)⌉`: the number of binary digits of `x`.
pub fn fast_ceil_log2(x: usize) -> (r: u32)
    ensures
        r == bit_length(x as nat),
{
    proof {
        reveal_with_fuel(pow2, 65);
        assert(pow2(64) == 18446744073709551616);
        lemma_bit_length_below(x as nat, 64);
    }
    let mut h: u32 = 0;
    let mut y: usize = x;
    while y > 0
        invariant
            bit_length(x as nat) == h + bit_length(y as nat),
            bit_length(x as nat) <= 64,
        decreases y,
    {
        y = y / 2;
        h = h + 1;
    }
    h
}

/// The unit penalty of the encoding.
pub const UNIT_PENALTY: QuboType = 1;

/// A coefficient placed in the upper triangle.
pub open spec fn ordered(a: usize, b: usize, v: int) -> Triplet {
    if a < b {
        (a, b, v as i64)
    } else {
        (b, a, v as i64)
    }
}

/// The penalty of a clause of two literals (after Glover et al.), with the
/// constant it adds.
pub open spec fn two_sat_terms(c: Seq<SatVariable>) -> (Seq<Triplet>, int) {
    let (v0, v1) = (c[0].1, c[1].1);
    if c[0].0 && c[1].0 {
        (seq![(v0, v0, -2i64), (v1, v1, -2i64), ordered(v0, v1, 1)], 2)
    } else if c[0].0 && !c[1].0 {
        (seq![(v1, v1, 2i64), ordered(v0, v1, -1)], 0)
    } else if !c[0].0 && c[1].0 {
        (seq![(v0, v0, 2i64), ordered(v0, v1, -1)], 0)
    } else {
        (seq![ordered(v0, v1, 1)], 0)
    }
}

/// The encoding of one clause with new ancillas from `ps`: the next free
/// index, the terms, and the constant they add. A clause of more than three
/// literals gets `h = ⌈log₂(k + 1)⌉` counting ancillas and the widening terms.
pub open spec fn nusslein_clause(ps: int, c: Seq<SatVariable>) -> (int, Seq<Triplet>, int) {
    if c.len() == 1 {
        (ps, seq![(c[0].1, c[0].1, (-2 * spin(c[0].0)) as i64)], 0)
    } else if c.len() == 2 {
        (ps, two_sat_terms(c).0, two_sat_terms(c).1)
    } else if c.len() == 3 {
        (ps + 1, nusslein23_clause(c, ps as usize).unwrap(), 0)
    } else if c.len() > 3 {
        let h = bit_length(c.len()) as int;
        (ps + h, widening_terms(c, ps, h), 2 * widening_constant(c) * widening_constant(c))
    } else {
        (ps, Seq::empty(), 0)
    }
}

/// The penalty of a long clause: with the constant added back, its energy is
/// at least 2 when no literal holds, and some setting of the counting ancillas
/// alone brings it to exactly 0 when some literal holds and 2 when none does.
pub proof fn lemma_long_clause_penalty(c: Seq<SatVariable>, ps: int, x: Seq<int>)
    requires
        4 <= c.len() <= MAX_CLAUSE_LEN,
        0 <= ps,
        ps + bit_length(c.len()) <= x.len(),
        ps + bit_length(c.len()) <= usize::MAX,
        distinct_below(c, ps),
        is_binary(x),
    ensures
        ({
            let e = nusslein_clause(ps, c);
            let h = bit_length(c.len()) as int;
            let none = true_count(c, x, c.len() as int) == 0;
            &&& triplets_energy(e.1, x, e.1.len() as int) + e.2 >= (if none {
                2int
            } else {
                0
            })
            &&& exists|y: Seq<int>|
                #![trigger triplets_energy(e.1, y, e.1.len() as int)]
                is_binary(y) && y.len() == x.len() && (forall|i: int|
                    0 <= i < x.len() && !(ps <= i < ps + h) ==> y[i] == x[i]) && triplets_energy(
                    e.1,
                    y,
                    e.1.len() as int,
                ) + e.2 == (if none {
                    2int
                } else {
                    0
                })
        }),
{
    let h = bit_length(c.len()) as int;
    reveal_with_fuel(pow2, 13);
    assert(pow2(12) == 4096);
    lemma_bit_length_below(c.len(), 12);
    lemma_bit_length_upper(c.len());
    lemma_widening_energy(c, ps, h, x);
    lemma_widening_penalty(c, ps, h, x);
    let none = true_count(c, x, c.len() as int) == 0;
    let fx = widening_form(c, ps, h, x);
    assert(2 * fx * fx >= 2 * (if none { 1int } else { 0 })) by (nonlinear_arith)
        requires
            fx * fx >= (if none { 1int } else { 0 }),
    ;
    let y = choose|y: Seq<int>|
        #![trigger widening_form(c, ps, h, y)]
        is_binary(y) && y.len() == x.len() && (forall|i: int|
            0 <= i < x.len() && !(ps <= i < ps + h) ==> y[i] == x[i]) && widening_form(c, ps, h, y)
            * widening_form(c, ps, h, y) == (if none { 1int } else { 0 });
    lemma_widening_energy(c, ps, h, y);
    let fy = widening_form(c, ps, h, y);
    assert(2 * fy * fy == 2 * (fy * fy)) by (nonlinear_arith);
    let e = nusslein_clause(ps, c);
    assert(triplets_energy(e.1, y, e.1.len() as int) + e.2 == (if none { 2int } else { 0 }));
}

/// Longest clause that the encoding takes.
pub const MAX_CLAUSE_LEN: usize = 4095;

/// Appends the penalty of a clause of two literals; returns the constant it adds.
fn push_two_sat(triplets: &mut Vec<Triplet>, clause: &Vec<SatVariable>) -> (r: QuboType)
    requires
        clause@.len() == 2,
    ensures
        final(triplets)@ == old(triplets)@ + two_sat_terms(clause@).0,
        r == two_sat_terms(clause@).1,
{
    let ghost before = triplets@;
    let SatVariable(pol0, v0) = clause[0];
    let SatVariable(pol1, v1) = clause[1];
    let (lo, hi) = if v0 < v1 {
        (v0, v1)
    } else {
        (v1, v0)
    };
    if pol0 && pol1 {
        triplets.push((v0, v0, -2 * UNIT_PENALTY));
        triplets.push((v1, v1, -2 * UNIT_PENALTY));
        triplets.push((lo, hi, UNIT_PENALTY));
        assert(triplets@ =~= before + two_sat_terms(clause@).0);
        2
    } else if pol0 && !pol1 {
        triplets.push((v1, v1, 2 * UNIT_PENALTY));
        triplets.push((lo, hi, -UNIT_PENALTY));
        assert(triplets@ =~= before + two_sat_terms(clause@).0);
        0
    } else if !pol0 && pol1 {
        triplets.push((v0, v0, 2 * UNIT_PENALTY));
        triplets.push((lo, hi, -UNIT_PENALTY));
        assert(triplets@ =~= before + two_sat_terms(clause@).0);
        0
    } else {
        triplets.push((lo, hi, UNIT_PENALTY));
        assert(triplets@ =~= before + two_sat_terms(clause@).0);
        0
    }
}

/// The number of negative literals of a clause.
fn count_negatives(clause: &Vec<SatVariable>) -> (r: QuboType)
    requires
        clause@.len() <= MAX_CLAUSE_LEN,
    ensures
        r == neg_count(clause@, clause@.len() as int),
        0 <= r <= clause@.len(),
{
    let mut nc: QuboType = 0;
    let mut l: usize = 0;
    while l < clause.len()
        invariant
            clause@.len() <= MAX_CLAUSE_LEN,
            l <= clause@.len(),
            nc == neg_count(clause@, l as int),
            0 <= nc <= l,
        decreases clause@.len() - l,
    {
        if !clause[l].0 {
            nc = nc + 1;
        }
        l += 1;
    }
    nc
}

/// Appends the terms of one nonempty clause with ancillas from `problem_size`,
/// and returns the next free index, the new constant and the terms.
fn implement_clause(
    problem_size: usize,
    triplets: Vec<Triplet>,
    constant_factor: QuboType,
    clause: &Vec<SatVariable>,
) -> (r: (usize, QuboType, Vec<Triplet>))
    requires
        1 <= clause@.len() <= MAX_CLAUSE_LEN,
        problem_size + 3 * clause@.len() <= MAX_SIZE,
        0 <= constant_factor,
        constant_factor + 8192 * clause@.len() <= MAX_TRIPLETS,
    ensures
        ({
            let e = nusslein_clause(problem_size as int, clause@);
            &&& r.0 == e.0
            &&& r.2@ == triplets@ + e.1
            &&& r.1 == constant_factor + e.2
            &&& problem_size <= r.0 <= problem_size + 3 * clause@.len()
            &&& constant_factor <= r.1 <= constant_factor + 8192 * clause@.len()
        }),
    decreases clause@.len(),
{
    let mut triplets = triplets;
    let ghost before = triplets@;
    let len = clause.len();
    if len == 1 {
        let SatVariable(is_true, var_i) = clause[0];
        let s: QuboType = if is_true { 1 } else { -1 };
        triplets.push((var_i, var_i, -2 * s * UNIT_PENALTY));
        assert(triplets@ =~= before + nusslein_clause(problem_size as int, clause@).1);
        (problem_size, constant_factor, triplets)
    } else if len == 2 {
        let k = push_two_sat(&mut triplets, clause);
        (problem_size, constant_factor + k, triplets)
    } else if len == 3 {
        nusslein23_push_clause(&mut triplets, clause, problem_size);
        (problem_size + 1, constant_factor, triplets)
    } else {
        let h = fast_ceil_log2(len);
        proof {
            lemma_bit_length_shrinks(len as nat);
            lemma_bit_length_upper(len as nat);
            reveal_with_fuel(pow2, 13);
            assert(pow2(12) == 4096);
            lemma_bit_length_below(len as nat, 12);
        }
        let hu = h as usize;
        let ws = widening_weights_exec(clause, problem_size, hu);
        let nc = count_negatives(clause);
        let c = nc - 1;
        let ghost wv = ws@.map_values(|p: (usize, i64)| (p.0, p.1 as int));
        proof {
            assert(wv =~= widening_weights(clause@, problem_size as int, hu as int));
            assert forall|k: int| 0 <= k < ws@.len() implies -WEIGHT_LIMIT <= (#[trigger] ws@[k]).1
                <= WEIGHT_LIMIT by {
                assert(ws@[k].1 as int == widening_weights(clause@, problem_size as int, hu as int)[k].1);
                lemma_weight_bound(clause@, problem_size as int, hu as int, k);
            }
            assert((c as int) * (c as int) <= 4095 * len) by (nonlinear_arith)
                requires
                    -1 <= c < len,
                    len <= 4095,
                    len >= 4,
            ;
            assert(2 * c * c <= 8190 * len) by (nonlinear_arith)
                requires
                    c * c <= 4095 * len,
            ;
            assert(0 <= 2 * c * c) by (nonlinear_arith);
            assert(c == widening_constant(clause@));
        }
        push_square_terms(&mut triplets, &ws, c);
        assert(triplets@ == before + nusslein_clause(problem_size as int, clause@).1);
        (problem_size + hu, constant_factor + 2 * c * c, triplets)
    }
}

proof fn lemma_weight_bound(c: Seq<SatVariable>, ps: int, h: int, k: int)
    requires
        0 <= h <= 12,
        0 <= k < c.len() + h,
    ensures
        -WEIGHT_LIMIT <= widening_weights(c, ps, h)[k].1 <= WEIGHT_LIMIT,
{
    if k >= c.len() {
        lemma_pow2_mono((k - c.len()) as nat, 12);
        reveal_with_fuel(pow2, 13);
    }
}

proof fn lemma_pow2_mono(a: nat, b: nat)
    requires
        a <= b,
    ensures
        pow2(a) <= pow2(b),
    decreases b,
{
    if a < b {
        lemma_pow2_mono(a, (b - 1) as nat);
    }
}

/// `Σ_{i < m}` of the clause lengths.
pub open spec fn total_len(cs: Seq<Vec<SatVariable>>, m: int) -> int
    decreases m,
{
    if m <= 0 {
        0
    } else {
        total_len(cs, m - 1) + cs[m - 1]@.len()
    }
}

/// Clause lengths add up to more over a longer prefix.
pub proof fn lemma_total_len_mono(cs: Seq<Vec<SatVariable>>, a: int, b: int)
    requires
        0 <= a <= b,
    ensures
        total_len(cs, a) <= total_len(cs, b),
    decreases b,
{
    if a < b {
        lemma_total_len_mono(cs, a, b - 1);
    }
}

/// The encoding of the first `m` clauses from `nb_vars` on: the problem size,
/// the terms and the constant.
pub open spec fn nusslein_all(cs: Seq<Vec<SatVariable>>, nb_vars: int, m: int) -> (int, Seq<Triplet>, int)
    decreases m,
{
    if m <= 0 {
        (nb_vars, Seq::empty(), 0)
    } else {
        let prev = nusslein_all(cs, nb_vars, m - 1);
        let e = nusslein_clause(prev.0, cs[m - 1]@);
        (e.0, prev.1 + e.1, prev.2 + e.2)
    }
}

/// On a 3-SAT problem the encoding takes one ancilla per clause, `nb_vars + m`
/// bits, and its terms are those of the 2023 encoding, so the soundness of the
/// latter carries over.
pub proof fn lemma_nusslein_three_sat_size(cs: Seq<Vec<SatVariable>>, nb_vars: int, m: int)
    requires
        0 <= m <= cs.len(),
        forall|i: int| 0 <= i < cs.len() ==> (#[trigger] cs[i])@.len() == 3,
    ensures
        nusslein_all(cs, nb_vars, m).0 == nb_vars + m,
        nusslein_all(cs, nb_vars, m).1 == crate::reducers::nusslein23_all(cs, nb_vars, m),
        nusslein_all(cs, nb_vars, m).2 == 0,
    decreases m,
{
    if m > 0 {
        lemma_nusslein_three_sat_size(cs, nb_vars, m - 1);
        assert(cs[m - 1]@.len() == 3);
    }
}

/// Nüsslein's 2022 encoding; the first `nb_vars` bits are the assignment.
pub struct Nusslein {
    /// The constant that the penalties leave out of the energy, on the same
    /// doubled scale as the energy.
    pub constant_factor: QuboType,
    /// The number of variables of the SAT problem.
    pub og_vars: usize,
}

impl Nusslein {
    /// The QUBO of the penalties of all clauses. Every clause must be nonempty.
    pub fn reduce(sat_problem: &KSatProblem) -> (r: Result<(QuboProblem, Nusslein), ReductionError>)
        ensures
            ({
                let cs = sat_problem.clause_list@;
                let m = cs.len() as int;
                let enc = nusslein_all(cs, sat_problem.nb_vars as int, m);
                if exists|i: int| 0 <= i < m && (#[trigger] cs[i])@.len() == 0 {
                    r == Err::<(QuboProblem, Nusslein), ReductionError>(ReductionError::InvalidClause)
                } else if (exists|i: int| 0 <= i < m && (#[trigger] cs[i])@.len() > MAX_CLAUSE_LEN)
                    || sat_problem.nb_vars + 4 * total_len(cs, m) > MAX_SIZE {
                    r == Err::<(QuboProblem, Nusslein), ReductionError>(
                        ReductionError::Matrix(QuboError::TooLarge),
                    )
                } else {
                    match r {
                        Ok((p, n)) => p.wf() && n.og_vars == sat_problem.nb_vars && p@.len() >= n.og_vars && n.constant_factor
                            == enc.2 && triplets_outcome(enc.0, enc.1) == Ok::<
                            Seq<Seq<int>>,
                            QuboError,
                        >(p@),
                        Err(e) => triplets_outcome(enc.0, enc.1) matches Err(oe) && e
                            == ReductionError::Matrix(oe),
                    }
                }
            }),
    {
        let nb_vars = sat_problem.nb_vars;
        let clauses = &sat_problem.clause_list;
        let ghost cs = clauses@;
        let mut i: usize = 0;
        while i < clauses.len()
            invariant
                clauses == &sat_problem.clause_list,
                cs == clauses@,
                i <= cs.len(),
                forall|a: int| 0 <= a < i ==> (#[trigger] cs[a])@.len() != 0,
            decreases cs.len() - i,
        {
            if clauses[i].len() == 0 {
                return Err(ReductionError::InvalidClause);
            }
            i += 1;
        }
        if nb_vars > MAX_SIZE {
            proof {
                lemma_total_len_mono(cs, 0, cs.len() as int);
            }
            return Err(ReductionError::Matrix(QuboError::TooLarge));
        }
        let mut total: usize = 0;
        let mut i: usize = 0;
        while i < clauses.len()
            invariant
                clauses == &sat_problem.clause_list,
                cs == clauses@,
                nb_vars == sat_problem.nb_vars,
                nb_vars <= MAX_SIZE,
                i <= cs.len(),
                forall|a: int| 0 <= a < cs.len() ==> (#[trigger] cs[a])@.len() != 0,
                forall|a: int| 0 <= a < i ==> (#[trigger] cs[a])@.len() <= MAX_CLAUSE_LEN,
                total == total_len(cs, i as int),
                nb_vars + 4 * total <= MAX_SIZE,
            decreases cs.len() - i,
        {
            let len = clauses[i].len();
            if len > MAX_CLAUSE_LEN || len > (MAX_SIZE - nb_vars) / 4 - total {
                proof {
                    if len <= MAX_CLAUSE_LEN {
                        lemma_total_len_mono(cs, i as int + 1, cs.len() as int);
                    }
                }
                return Err(ReductionError::Matrix(QuboError::TooLarge));
            }
            total = total + len;
            i += 1;
        }
        let mut problem_size = nb_vars;
        let mut triplets: Vec<Triplet> = Vec::new();
        let mut constant_factor: QuboType = 0;
        let mut i: usize = 0;
        while i < clauses.len()
            invariant
                clauses == &sat_problem.clause_list,
                cs == clauses@,
                nb_vars == sat_problem.nb_vars,
                i <= cs.len(),
                forall|a: int| 0 <= a < cs.len() ==> (#[trigger] cs[a])@.len() != 0,
                forall|a: int| 0 <= a < cs.len() ==> (#[trigger] cs[a])@.len() <= MAX_CLAUSE_LEN,
                nb_vars + 4 * total_len(cs, cs.len() as int) <= MAX_SIZE,
                (problem_size as int, triplets@, constant_factor as int) == nusslein_all(cs, nb_vars as int, i as int),
                problem_size <= nb_vars + 3 * total_len(cs, i as int),
                nb_vars <= problem_size,
                0 <= constant_factor <= 8192 * total_len(cs, i as int),
            decreases cs.len() - i,
        {
            proof {
                lemma_total_len_mono(cs, i as int + 1, cs.len() as int);
            }
            let (ps, cf, ts) = implement_clause(problem_size, triplets, constant_factor, &clauses[i]);
            problem_size = ps;
            constant_factor = cf;
            triplets = ts;
            i += 1;
        }
        match QuboProblem::try_from_triplets(problem_size, triplets) {
            Ok(q_matrix) => Ok((q_matrix, Nusslein { constant_factor, og_vars: nb_vars })),
            Err(e) => Err(ReductionError::Matrix(e)),
        }
    }

    /// The assignment read from the first `og_vars` bits.
    pub fn up_model(&self, qubo_solution: &QuboSolution) -> (r: SatSolution)
        requires
            qubo_solution@.len() >= self.og_vars,
        ensures
            r matches SatSolution::Sat(v) && v@ == first_bits(qubo_solution@, self.og_vars as int),
    {
        SatSolution::Sat(read_first_bits(qubo_solution, self.og_vars))
    }
}

} // verus!

//! Soundness of the 2023 encoding: on a satisfiable 3-SAT problem, every
//! minimizer of its QUBO reads back as a satisfying assignment.
use vstd::prelude::*;
use crate::es::is_candidate;
use crate::ising::{
    lemma_triplets_energy,
    lemma_triplets_energy_concat,
    triplets_energy,
};
use crate::qubo::{energy, is_binary, symmetrize, triplets_upper};
use crate::reducers::{
    all_clauses_of_len,
    distinct_in,
    first_bits,
    lemma_nusslein23_clause_penalty,
    min_over_ancilla,
    nusslein23_all,
    nusslein23_clause,
    violates,
    Triplet,
};
use crate::sat::{satisfies, SatVariable};

verus! {

/// The terms of clause `i`, with ancilla `nb_vars + i`.
pub open spec fn clause_terms(cs: Seq<Vec<SatVariable>>, nb_vars: int, i: int) -> Seq<Triplet> {
    nusslein23_clause(cs[i]@, (nb_vars + i) as usize).unwrap()
}

/// The energy contribution of clause `i`.
pub open spec fn clause_energy(cs: Seq<Vec<SatVariable>>, nb_vars: int, i: int, x: Seq<int>) -> int {
    triplets_energy(clause_terms(cs, nb_vars, i), x, clause_terms(cs, nb_vars, i).len() as int)
}

/// `Σ_{i < m}` of the clause energies.
pub open spec fn clauses_energy(cs: Seq<Vec<SatVariable>>, nb_vars: int, x: Seq<int>, m: int) -> int
    decreases m,
{
    if m <= 0 {
        0
    } else {
        clauses_energy(cs, nb_vars, x, m - 1) + clause_energy(cs, nb_vars, m - 1, x)
    }
}

/// The least energy of clause `i` over its ancilla, given the variables of `x`.
pub open spec fn clause_floor(cs: Seq<Vec<SatVariable>>, nb_vars: int, i: int, x: Seq<int>) -> int {
    min_over_ancilla(clause_terms(cs, nb_vars, i), x, (nb_vars + i) as usize)
}

/// `Σ_{i < m}` of the pattern constants: `−2` for a clause whose literals share a
/// polarity, else `0`.
pub open spec fn base_sum(cs: Seq<Vec<SatVariable>>, m: int) -> int
    decreases m,
{
    if m <= 0 {
        0
    } else {
        base_sum(cs, m - 1) + (if cs[m - 1]@[0].0 == cs[m - 1]@[1].0 && cs[m - 1]@[1].0
            == cs[m - 1]@[2].0 {
            -2int
        } else {
            0
        })
    }
}

/// Every clause has three distinct variables below `nb_vars`, and the QUBO
/// indices fit in `usize`.
pub open spec fn simple_three_sat(cs: Seq<Vec<SatVariable>>, nb_vars: int) -> bool {
    &&& nb_vars + cs.len() <= usize::MAX
    &&& all_clauses_of_len(cs, 3)
    &&& forall|i: int|
        0 <= i < cs.len() ==> {
            let c = (#[trigger] cs[i])@;
            c[0].1 < nb_vars && c[1].1 < nb_vars && c[2].1 < nb_vars && c[0].1 != c[1].1 && c[0].1
                != c[2].1 && c[1].1 != c[2].1
        }
}

proof fn lemma_clause_distinct(cs: Seq<Vec<SatVariable>>, nb_vars: int, i: int, x: Seq<int>)
    requires
        simple_three_sat(cs, nb_vars),
        nb_vars >= 0,
        0 <= i < cs.len(),
        x.len() == nb_vars + cs.len(),
    ensures
        cs[i]@.len() == 3,
        distinct_in(x, cs[i]@[0].1, cs[i]@[1].1, cs[i]@[2].1, (nb_vars + i) as usize),
{
    let c = cs[i]@;
    assert(c.len() == 3);
    assert(c[0].1 < nb_vars && c[1].1 < nb_vars && c[2].1 < nb_vars && c[0].1 != c[1].1 && c[0].1
        != c[2].1 && c[1].1 != c[2].1);
}

proof fn lemma_all_is_concat(cs: Seq<Vec<SatVariable>>, nb_vars: int, x: Seq<int>, m: int)
    requires
        0 <= m <= cs.len(),
        all_clauses_of_len(cs, 3),
    ensures
        triplets_energy(nusslein23_all(cs, nb_vars, m), x, nusslein23_all(cs, nb_vars, m).len() as int)
            == clauses_energy(cs, nb_vars, x, m),
    decreases m,
{
    if m > 0 {
        lemma_all_is_concat(cs, nb_vars, x, m - 1);
        let prev = nusslein23_all(cs, nb_vars, m - 1);
        let t = clause_terms(cs, nb_vars, m - 1);
        assert(cs[m - 1]@.len() == 3);
        lemma_triplets_energy_concat(prev, t, x, t.len() as int);
    }
}

proof fn lemma_clause_local(c: Seq<SatVariable>, q: usize, x: Seq<int>, y: Seq<int>)
    requires
        c.len() == 3,
        distinct_in(x, c[0].1, c[1].1, c[2].1, q),
        x.len() == y.len(),
        x[c[0].1 as int] == y[c[0].1 as int],
        x[c[1].1 as int] == y[c[1].1 as int],
        x[c[2].1 as int] == y[c[2].1 as int],
        x[q as int] == y[q as int],
    ensures
        triplets_energy(nusslein23_clause(c, q).unwrap(), x, nusslein23_clause(c, q).unwrap().len() as int)
            == triplets_energy(nusslein23_clause(c, q).unwrap(), y, nusslein23_clause(c, q).unwrap().len() as int),
{
    reveal_with_fuel(triplets_energy, 11);
}

proof fn lemma_clause_above_floor(cs: Seq<Vec<SatVariable>>, nb_vars: int, i: int, x: Seq<int>)
    requires
        simple_three_sat(cs, nb_vars),
        0 <= i < cs.len(),
        is_binary(x),
        x.len() == nb_vars + cs.len(),
        nb_vars >= 0,
    ensures
        clause_energy(cs, nb_vars, i, x) >= clause_floor(cs, nb_vars, i, x),
{
    let q = (nb_vars + i) as usize;
    assert(x[q as int] == 0 || x[q as int] == 1);
    if x[q as int] == 0 {
        assert(x.update(q as int, 0) =~= x);
    } else {
        assert(x.update(q as int, 1) =~= x);
    }
}

/// A satisfying assignment as a bit vector, with each ancilla at its better value.
pub open spec fn witness(cs: Seq<Vec<SatVariable>>, nb_vars: int, s: Seq<bool>) -> Seq<int> {
    let base = Seq::new((nb_vars + cs.len()) as nat, |k: int| if k < nb_vars && s[k] { 1int } else { 0 });
    Seq::new(
        (nb_vars + cs.len()) as nat,
        |k: int|
            if k < nb_vars {
                base[k]
            } else {
                let t = clause_terms(cs, nb_vars, k - nb_vars);
                if triplets_energy(t, base.update(k, 0), t.len() as int) <= triplets_energy(
                    t,
                    base.update(k, 1),
                    t.len() as int,
                ) {
                    0
                } else {
                    1
                }
            },
    )
}

proof fn lemma_witness_clause(cs: Seq<Vec<SatVariable>>, nb_vars: int, s: Seq<bool>, i: int)
    requires
        simple_three_sat(cs, nb_vars),
        nb_vars >= 0,
        s.len() == nb_vars,
        0 <= i < cs.len(),
    ensures
        clause_energy(cs, nb_vars, i, witness(cs, nb_vars, s)) == clause_floor(
            cs,
            nb_vars,
            i,
            witness(cs, nb_vars, s),
        ),
{
    let n = nb_vars + cs.len();
    let base = Seq::new(n as nat, |k: int| if k < nb_vars && s[k] { 1int } else { 0 });
    let y = witness(cs, nb_vars, s);
    let q = (nb_vars + i) as usize;
    let c = cs[i]@;
    lemma_clause_distinct(cs, nb_vars, i, base);
    let b0 = base.update(q as int, 0);
    let b1 = base.update(q as int, 1);
    let y0 = y.update(q as int, 0);
    let y1 = y.update(q as int, 1);
    assert(b0.len() == n && y0.len() == n);
    assert(b0[c[0].1 as int] == y0[c[0].1 as int]);
    assert(b0[c[1].1 as int] == y0[c[1].1 as int]);
    assert(b0[c[2].1 as int] == y0[c[2].1 as int]);
    assert(b1[c[0].1 as int] == y1[c[0].1 as int]);
    assert(b1[c[1].1 as int] == y1[c[1].1 as int]);
    assert(b1[c[2].1 as int] == y1[c[2].1 as int]);
    lemma_clause_local(c, q, base.update(q as int, 0), y.update(q as int, 0));
    lemma_clause_local(c, q, base.update(q as int, 1), y.update(q as int, 1));
    if y[q as int] == 0 {
        assert(y.update(q as int, 0) =~= y);
    } else {
        assert(y.update(q as int, 1) =~= y);
    }
}

proof fn lemma_sums(cs: Seq<Vec<SatVariable>>, nb_vars: int, x: Seq<int>, y: Seq<int>, m: int)
    requires
        simple_three_sat(cs, nb_vars),
        nb_vars >= 0,
        0 <= m <= cs.len(),
        is_binary(x),
        x.len() == nb_vars + cs.len(),
        y.len() == nb_vars + cs.len(),
        forall|i: int| 0 <= i < cs.len() ==> #[trigger] clause_energy(cs, nb_vars, i, y) == clause_floor(cs, nb_vars, i, y),
        forall|i: int| 0 <= i < cs.len() ==> !violates(#[trigger] cs[i]@, y),
        is_binary(y),
    ensures
        clauses_energy(cs, nb_vars, y, m) == base_sum(cs, m),
        clauses_energy(cs, nb_vars, x, m) >= base_sum(cs, m),
        (exists|i: int| 0 <= i < m && violates(#[trigger] cs[i]@, x)) ==> clauses_energy(cs, nb_vars, x, m)
            >= base_sum(cs, m) + 2,
    decreases m,
{
    if m > 0 {
        lemma_sums(cs, nb_vars, x, y, m - 1);
        let i = m - 1;
        let c = cs[i]@;
        lemma_clause_distinct(cs, nb_vars, i, x);
        lemma_clause_distinct(cs, nb_vars, i, y);
        let q = (nb_vars + i) as usize;
        lemma_nusslein23_clause_penalty(c, q, x);
        lemma_nusslein23_clause_penalty(c, q, y);
        lemma_clause_above_floor(cs, nb_vars, i, x);
        assert(clause_energy(cs, nb_vars, i, y) == clause_floor(cs, nb_vars, i, y));
        assert(!violates(cs[i]@, y));
        if exists|j: int| 0 <= j < m && violates(#[trigger] cs[j]@, x) {
            let j = choose|j: int| 0 <= j < m && violates(#[trigger] cs[j]@, x);
            if j == i {
            } else {
                assert(exists|k: int| 0 <= k < m - 1 && violates(#[trigger] cs[k]@, x));
            }
        }
    }
}

/// Soundness of the 2023 encoding: for a 3-SAT problem whose clauses have three
/// distinct variables, if some assignment `s` satisfies it, then every bit
/// vector `x` of least energy in its QUBO reads back, from its first `nb_vars`
/// bits, as an assignment that satisfies it too.
pub proof fn lemma_nusslein23_sound(
    cs: Seq<Vec<SatVariable>>,
    nb_vars: int,
    s: Seq<bool>,
    x: Seq<int>,
)
    requires
        simple_three_sat(cs, nb_vars),
        nb_vars >= 0,
        s.len() == nb_vars,
        satisfies(cs, s),
        ({
            let n = nb_vars + cs.len();
            let m = symmetrize(triplets_upper(n, nusslein23_all(cs, nb_vars, cs.len() as int)), n);
            &&& is_candidate(m, x)
            &&& forall|y: Seq<int>| #[trigger] is_candidate(m, y) ==> energy(m, x) <= energy(m, y)
        }),
    ensures
        satisfies(cs, first_bits(x, nb_vars)),
{
    let n = nb_vars + cs.len();
    let ts = nusslein23_all(cs, nb_vars, cs.len() as int);
    let mat = symmetrize(triplets_upper(n, ts), n);
    let y = witness(cs, nb_vars, s);
    assert(mat.len() == n);
    assert(is_binary(y));
    assert(is_candidate(mat, y));
    lemma_terms_in_range(cs, nb_vars, cs.len() as int);
    lemma_triplets_energy(n, ts, x, ts.len() as int);
    lemma_triplets_energy(n, ts, y, ts.len() as int);
    assert(ts.take(ts.len() as int) =~= ts);
    lemma_all_is_concat(cs, nb_vars, x, cs.len() as int);
    lemma_all_is_concat(cs, nb_vars, y, cs.len() as int);
    assert forall|i: int| 0 <= i < cs.len() implies #[trigger] clause_energy(cs, nb_vars, i, y) == clause_floor(cs, nb_vars, i, y) by {
        lemma_witness_clause(cs, nb_vars, s, i);
    }
    assert forall|i: int| 0 <= i < cs.len() implies !violates(#[trigger] cs[i]@, y) by {
        let c = cs[i]@;
        assert(crate::sat::clause_holds(c, s));
        let j = choose|j: int| 0 <= j < c.len() && crate::sat::literal_holds(#[trigger] c[j], s);
        assert(y[c[j].1 as int] == (if s[c[j].1 as int] { 1int } else { 0 }));
    }
    lemma_sums(cs, nb_vars, x, y, cs.len() as int);
    assert forall|i: int| 0 <= i < cs.len() implies crate::sat::clause_holds(#[trigger] cs[i]@, first_bits(x, nb_vars)) by {
        let c = cs[i]@;
        assert(!violates(c, x));
        let j = choose|j: int| 0 <= j < c.len() && !(x[(#[trigger] c[j]).1 as int] != (if c[j].0 {
            1int
        } else {
            0
        }));
        assert(x[c[j].1 as int] == 0 || x[c[j].1 as int] == 1);
        assert(crate::sat::literal_holds(c[j], first_bits(x, nb_vars)));
    }
}

proof fn lemma_terms_in_range(cs: Seq<Vec<SatVariable>>, nb_vars: int, m: int)
    requires
        simple_three_sat(cs, nb_vars),
        nb_vars >= 0,
        0 <= m <= cs.len(),
    ensures
        forall|t: int|
            0 <= t < nusslein23_all(cs, nb_vars, m).len() ==> (#[trigger] nusslein23_all(cs, nb_vars, m)[t]).0
                < nb_vars + cs.len() && nusslein23_all(cs, nb_vars, m)[t].1 < nb_vars + cs.len(),
    decreases m,
{
    if m > 0 {
        lemma_terms_in_range(cs, nb_vars, m - 1);
        let prev = nusslein23_all(cs, nb_vars, m - 1);
        let t = clause_terms(cs, nb_vars, m - 1);
        let cur = nusslein23_all(cs, nb_vars, m);
        let c = cs[m - 1]@;
        assert(c.len() == 3);
        assert(c[0].1 < nb_vars && c[1].1 < nb_vars && c[2].1 < nb_vars);
        assert forall|k: int| 0 <= k < t.len() implies (#[trigger] t[k]).0 < nb_vars + cs.len() && t[k].1
            < nb_vars + cs.len() by {
            assert(k < 10);
        }
        assert forall|k: int| 0 <= k < cur.len() implies (#[trigger] cur[k]).0 < nb_vars + cs.len()
            && cur[k].1 < nb_vars + cs.len() by {
            if k < prev.len() {
                assert(cur[k] == prev[k]);
            } else {
                assert(cur[k] == t[k - prev.len()]);
            }
        }
    }
}

} // verus!

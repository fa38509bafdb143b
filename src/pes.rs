//! Two-phase exhaustive search: expand the first `β` levels of the search tree
//! into `2^β` independent prefixes, then search the subtree below each prefix.
use vstd::prelude::*;
use rayon::iter::{IndexedParallelIterator, IntoParallelRefIterator, ParallelIterator};
use crate::es::{
    agrees_from,
    better_of,
    exhaustive_search_helper,
    initial_state,
    calculate_deltas_i,
    ints_of,
    is_candidate,
    no_worse,
    search_state,
};
use crate::nusslein::pow2;
use vstd::arithmetic::div_mod::{
    lemma_div_denominator,
    lemma_div_pos_is_pos,
    lemma_fundamental_div_mod,
    lemma_multiply_divide_lt,
};
use crate::qubo::{delta, energy, flip, lemma_delta_bounds, lemma_energy_bounds, QuboProblem, QuboSolution, QuboType};

verus! {

/// A prefix of the search: a bit vector, its delta vector and its energy.
pub type SearchState = (QuboSolution, Vec<QuboType>, QuboType);

/// Every entry is a search state at depth `i`.
pub open spec fn all_states(s: Seq<Seq<int>>, list: Seq<SearchState>, i: int) -> bool {
    forall|t: int|
        0 <= t < list.len() ==> search_state(
            s,
            (#[trigger] list[t]).0@,
            ints_of(list[t].1@),
            list[t].2 as int,
            i,
        )
}

/// Every candidate agrees from bit `i` on with some entry.
pub open spec fn covers(s: Seq<Seq<int>>, list: Seq<SearchState>, i: int) -> bool {
    forall|y: Seq<int>|
        #[trigger] is_candidate(s, y) ==> exists|t: int|
            0 <= t < list.len() && agrees_from(y, (#[trigger] list[t]).0@, i)
}

/// An exhaustive minimizer that splits the search into `2^β` independent subtrees.
pub struct ParallelExhaustiveSearch {
    beta: usize,
}

impl ParallelExhaustiveSearch {
    pub fn new(beta: usize) -> (r: ParallelExhaustiveSearch)
        ensures
            r.beta() == beta,
    {
        ParallelExhaustiveSearch { beta }
    }

    /// The splitting depth `β`.
    pub closed spec fn beta(&self) -> usize {
        self.beta
    }

    /// The minimizer of `xᵀ·S·x` over all bit vectors; among minimizers, the one
    /// with the most ones, and among those the smallest binary number.
    #[verifier::spinoff_prover]
    pub fn solve(&mut self, qubo_problem: &QuboProblem) -> (r: QuboSolution)
        requires
            qubo_problem.wf(),
        ensures
            is_candidate(qubo_problem@, r@),
            forall|y: Seq<int>| #[trigger]
                is_candidate(qubo_problem@, y) ==> no_worse(qubo_problem@, r@, y),
    {
        let n = qubo_problem.get_size();
        let beta = if self.beta > n {
            n
        } else {
            self.beta
        };
        let sub_tree_size = n - beta;
        let (start, deltas) = initial_state(qubo_problem);
        let mut solution_list: Vec<SearchState> = Vec::new();
        solution_list.push((start, deltas, 0));
        proof {
            lemma_root_covers(qubo_problem@, solution_list@);
        }
        let prefixes = generate_prefixes(qubo_problem, solution_list, sub_tree_size, n);
        search_prefixes(qubo_problem, &prefixes, sub_tree_size)
    }
}

proof fn lemma_root_covers(s: Seq<Seq<int>>, list: Seq<SearchState>)
    requires
        list.len() == 1,
        list[0].0@.len() == s.len(),
    ensures
        covers(s, list, s.len() as int),
{
    assert forall|y: Seq<int>| #[trigger] is_candidate(s, y) implies exists|t: int|
        0 <= t < list.len() && agrees_from(y, (#[trigger] list[t]).0@, s.len() as int) by {
        assert(agrees_from(y, list[0].0@, s.len() as int));
    }
}

/// The two children at depth `i − 1` of a state at depth `i`: bit `i − 1` kept,
/// and bit `i − 1` flipped.
fn expand_entry(problem: &QuboProblem, entry: &SearchState, i: usize) -> (r: (
    SearchState,
    SearchState,
))
    requires
        problem.wf(),
        0 < i,
        search_state(problem@, entry.0@, ints_of(entry.1@), entry.2 as int, i as int),
    ensures
        search_state(problem@, r.0.0@, ints_of(r.0.1@), r.0.2 as int, i - 1),
        search_state(problem@, r.1.0@, ints_of(r.1.1@), r.1.2 as int, i - 1),
        r.0.0@ == entry.0@,
        r.1.0@ == flip(entry.0@, i - 1),
{
    let ghost s = problem@;
    let sol = &entry.0;
    let deltas = &entry.1;
    let eval = entry.2;
    proof {
        assert(ints_of(deltas@)[i - 1] == deltas@[i - 1] as int);
        lemma_delta_bounds(s, sol@, i - 1);
        lemma_energy_bounds(s, sol@);
    }
    let mut deltas_i = calculate_deltas_i(problem, sol, deltas, i);
    let eval_i = eval + deltas[i - 1];
    let sol_i = sol.flip(i - 1);
    let mut keep = deltas.clone();
    assert(keep@ == deltas@);
    keep.truncate(i - 1);
    deltas_i.truncate(i - 1);
    let same = QuboSolution(sol.0.clone());
    assert(same.0@ == sol.0@);
    proof {
        assert forall|j: int| 0 <= j < i - 1 implies #[trigger] ints_of(keep@)[j] == delta(
            s,
            same@,
            j,
        ) by {
            assert(ints_of(deltas@)[j] == deltas@[j] as int);
        }
        assert forall|j: int| 0 <= j < i - 1 implies #[trigger] ints_of(deltas_i@)[j] == delta(
            s,
            sol_i@,
            j,
        ) by {}
    }
    ((same, keep, eval), (sol_i, deltas_i, eval_i))
}

#[verifier::spinoff_prover]
#[verifier::rlimit(30)]
proof fn lemma_children_cover(s: Seq<Seq<int>>, list: Seq<SearchState>, next: Seq<SearchState>, i: int)
    requires
        0 < i,
        all_states(s, list, i),
        covers(s, list, i),
        next.len() == 2 * list.len(),
        forall|u: int|
            0 <= u < list.len() ==> next[2 * u].0@ == (#[trigger] list[u]).0@ && next[2 * u
                + 1].0@ == flip(list[u].0@, i - 1),
    ensures
        covers(s, next, i - 1),
{
    assert forall|y: Seq<int>| #[trigger] is_candidate(s, y) implies exists|u: int|
        0 <= u < next.len() && agrees_from(y, (#[trigger] next[u]).0@, i - 1) by {
        let t0 = choose|t0: int| 0 <= t0 < list.len() && agrees_from(y, (#[trigger] list[t0]).0@, i);
        let x = list[t0].0@;
        assert(search_state(s, x, ints_of(list[t0].1@), list[t0].2 as int, i));
        if y[i - 1] == x[i - 1] {
            assert(next[2 * t0].0@ == x);
            assert(agrees_from(y, next[2 * t0].0@, i - 1));
        } else {
            assert(y[i - 1] == 1 - x[i - 1]);
            assert(next[2 * t0 + 1].0@ == flip(x, i - 1));
            assert(agrees_from(y, next[2 * t0 + 1].0@, i - 1));
        }
    }
}

/// Expands every state at depth `i` into its two children at depth `i − 1`.
fn expand_once(problem: &QuboProblem, list: &Vec<SearchState>, i: usize) -> (r: Vec<SearchState>)
    requires
        problem.wf(),
        0 < i,
        all_states(problem@, list@, i as int),
        covers(problem@, list@, i as int),
    ensures
        all_states(problem@, r@, i - 1),
        covers(problem@, r@, i - 1),
        r@.len() == 2 * list@.len(),
        forall|t: int|
            0 <= t < list@.len() ==> r@[2 * t].0@ == (#[trigger] list@[t]).0@ && r@[2 * t + 1].0@
                == flip(list@[t].0@, i - 1),
{
    let ghost s = problem@;
    let mut next: Vec<SearchState> = Vec::new();
    let mut t: usize = 0;
    while t < list.len()
        invariant
            problem.wf(),
            s == problem@,
            0 < i,
            all_states(s, list@, i as int),
            t <= list@.len(),
            next@.len() == 2 * t,
            all_states(s, next@, i - 1),
            forall|u: int|
                0 <= u < t ==> next@[2 * u].0@ == (#[trigger] list@[u]).0@ && next@[2 * u
                    + 1].0@ == flip(list@[u].0@, i - 1),
        decreases list@.len() - t,
    {
        let entry = &list[t];
        assert(search_state(s, entry.0@, ints_of(entry.1@), entry.2 as int, i as int));
        let (a, b) = expand_entry(problem, entry, i);
        let ghost before = next@;
        next.push(a);
        next.push(b);
        proof {
            assert forall|u: int| 0 <= u < next@.len() implies search_state(
                s,
                (#[trigger] next@[u]).0@,
                ints_of(next@[u].1@),
                next@[u].2 as int,
                i - 1,
            ) by {
                if u < before.len() {
                    assert(next@[u] == before[u]);
                }
            }
            assert forall|u: int| 0 <= u < t + 1 implies next@[2 * u].0@ == (#[trigger] list@[u]).0@
                && next@[2 * u + 1].0@ == flip(list@[u].0@, i - 1) by {
                if u < t {
                    assert(next@[2 * u] == before[2 * u]);
                    assert(next@[2 * u + 1] == before[2 * u + 1]);
                }
            }
        }
        t += 1;
    }
    proof {
        lemma_children_cover(s, list@, next@, i as int);
    }
    next
}

/// `a` and `b` have the same length and agree outside the bits `lo .. hi`.
pub open spec fn agrees_outside(a: Seq<int>, b: Seq<int>, lo: int, hi: int) -> bool {
    a.len() == b.len() && forall|j: int| 0 <= j < a.len() && (j < lo || hi <= j) ==> #[trigger] a[j] == b[j]
}

#[verifier::spinoff_prover]
proof fn lemma_parents(
    list: Seq<SearchState>,
    next: Seq<SearchState>,
    r: Seq<SearchState>,
    min_i: int,
    i: int,
)
    requires
        0 <= min_i < i,
        next.len() == 2 * list.len(),
        forall|t: int| 0 <= t < list.len() ==> (#[trigger] list[t]).0@.len() >= i,
        forall|t: int|
            0 <= t < list.len() ==> next[2 * t].0@ == (#[trigger] list[t]).0@ && next[2 * t + 1].0@
                == flip(list[t].0@, i - 1),
        r.len() == next.len() * pow2((i - 1 - min_i) as nat),
        forall|u: int|
            0 <= u < r.len() ==> agrees_outside(
                (#[trigger] r[u]).0@,
                next[u / (pow2((i - 1 - min_i) as nat) as int)].0@,
                min_i,
                i - 1,
            ),
    ensures
        forall|u: int|
            0 <= u < r.len() ==> agrees_outside(
                (#[trigger] r[u]).0@,
                list[u / (pow2((i - min_i) as nat) as int)].0@,
                min_i,
                i,
            ),
{
    let p1 = pow2((i - 1 - min_i) as nat) as int;
    crate::widening::lemma_pow2_positive((i - 1 - min_i) as nat);
    assert(pow2((i - min_i) as nat) == 2 * pow2((i - 1 - min_i) as nat));
    assert forall|u: int| 0 <= u < r.len() implies agrees_outside(
        (#[trigger] r[u]).0@,
        list[u / (pow2((i - min_i) as nat) as int)].0@,
        min_i,
        i,
    ) by {
        let w = u / p1;
        lemma_multiply_divide_lt(u, p1, next.len() as int);
        lemma_div_pos_is_pos(u, p1);
        lemma_div_denominator(u, p1, 2);
        assert(p1 * 2 == pow2((i - min_i) as nat) as int);
        let t = w / 2;
        lemma_fundamental_div_mod(w, 2);
        assert(0 <= t < list.len());
        assert(agrees_outside(r[u].0@, next[w].0@, min_i, i - 1));
        let x = list[t].0@;
        assert(next[2 * t].0@ == x && next[2 * t + 1].0@ == flip(x, i - 1));
        assert(w == 2 * t || w == 2 * t + 1);
    }
}

/// Expands the states at depth `i` down to depth `min_i`: `2^(i − min_i)` times as many.
#[verifier::spinoff_prover]
fn generate_prefixes(
    problem: &QuboProblem,
    solution_list: Vec<SearchState>,
    min_i: usize,
    i: usize,
) -> (r: Vec<SearchState>)
    requires
        problem.wf(),
        min_i <= i,
        all_states(problem@, solution_list@, i as int),
        covers(problem@, solution_list@, i as int),
    ensures
        all_states(problem@, r@, min_i as int),
        covers(problem@, r@, min_i as int),
        r@.len() == solution_list@.len() * pow2((i - min_i) as nat),
        forall|u: int|
            0 <= u < r@.len() ==> agrees_outside(
                (#[trigger] r@[u]).0@,
                solution_list@[u / (pow2((i - min_i) as nat) as int)].0@,
                min_i as int,
                i as int,
            ),
    decreases i,
{
    if i <= min_i {
        assert(i == min_i);
        assert(pow2(0) == 1);
        assert(((i - min_i) as nat) == 0);
        assert forall|u: int| 0 <= u < solution_list@.len() implies agrees_outside(
            (#[trigger] solution_list@[u]).0@,
            solution_list@[u / (pow2((i - min_i) as nat) as int)].0@,
            min_i as int,
            i as int,
        ) by {
            assert(u / 1 == u);
        }
        return solution_list;
    }
    let new_solutions = expand_once(problem, &solution_list, i);
    let r = generate_prefixes(problem, new_solutions, min_i, i - 1);
    proof {
        let e = (i - min_i) as nat;
        assert(pow2(e) == 2 * pow2((e - 1) as nat));
        let l = solution_list@.len() as int;
        assert((2 * l) * pow2((e - 1) as nat) == l * pow2(e)) by (nonlinear_arith)
            requires pow2(e) == 2 * pow2((e - 1) as nat);
        assert forall|t: int| 0 <= t < solution_list@.len() implies (#[trigger] solution_list@[t]).0@.len() >= i by {
            assert(search_state(
                problem@,
                solution_list@[t].0@,
                ints_of(solution_list@[t].1@),
                solution_list@[t].2 as int,
                i as int,
            ));
        }
        lemma_parents(solution_list@, new_solutions@, r@, min_i as int, i as int);
    }
    r
}

/// `r` is the best vector, with its energy, among those that agree with `x`
/// from bit `level` on.
pub open spec fn subtree_result(
    s: Seq<Seq<int>>,
    x: Seq<int>,
    level: int,
    r: (QuboSolution, QuboType),
) -> bool {
    &&& is_candidate(s, r.0@)
    &&& agrees_from(r.0@, x, level)
    &&& r.1 == energy(s, r.0@)
    &&& forall|y: Seq<int>|
        is_candidate(s, y) && agrees_from(y, x, level) ==> #[trigger] no_worse(s, r.0@, y)
}

/// Searches the subtree below one prefix.
pub fn search_subtree(problem: &QuboProblem, prefix: &SearchState, level: usize) -> (r: (
    QuboSolution,
    QuboType,
))
    requires
        problem.wf(),
        search_state(problem@, prefix.0@, ints_of(prefix.1@), prefix.2 as int, level as int),
    ensures
        subtree_result(problem@, prefix.0@, level as int, r),
{
    let sol = QuboSolution(prefix.0.0.clone());
    assert(sol@ == prefix.0@);
    exhaustive_search_helper(problem, sol, &prefix.1, prefix.2, level)
}

/// Relies on rayon's `IndexedParallelIterator::collect_into_vec` over
/// `par_iter().map(..)`: the result has one entry per prefix, in the order of
/// the prefixes, and entry `t` is `search_subtree` of prefix `t`. The subtrees
/// are searched in parallel.
#[verifier::external_body]
fn search_subtrees(problem: &QuboProblem, prefixes: &Vec<SearchState>, level: usize) -> (r: Vec<
    (QuboSolution, QuboType),
>)
    requires
        problem.wf(),
        all_states(problem@, prefixes@, level as int),
    ensures
        r@.len() == prefixes@.len(),
        forall|t: int|
            0 <= t < r@.len() ==> #[trigger] subtree_result(
                problem@,
                prefixes@[t].0@,
                level as int,
                r@[t],
            ),
{
    let mut out = Vec::with_capacity(prefixes.len());
    prefixes.par_iter().map(|p| search_subtree(problem, p, level)).collect_into_vec(&mut out);
    out
}

/// Searches the subtrees below all prefixes, in parallel, and returns the best
/// vector found.
fn search_prefixes(problem: &QuboProblem, prefixes: &Vec<SearchState>, level: usize) -> (r:
    QuboSolution)
    requires
        problem.wf(),
        all_states(problem@, prefixes@, level as int),
        covers(problem@, prefixes@, level as int),
    ensures
        is_candidate(problem@, r@),
        forall|y: Seq<int>| #[trigger] is_candidate(problem@, y) ==> no_worse(problem@, r@, y),
{
    let ghost s = problem@;
    let results = search_subtrees(problem, prefixes, level);
    let (start, _) = initial_state(problem);
    proof {
        crate::qubo::lemma_energy_zero(s, start@, s.len() as int);
    }
    let mut best: (QuboSolution, QuboType) = (start, 0);
    let mut t: usize = 0;
    while t < results.len()
        invariant
            problem.wf(),
            s == problem@,
            results@.len() == prefixes@.len(),
            forall|u: int|
                0 <= u < results@.len() ==> #[trigger] subtree_result(
                    s,
                    prefixes@[u].0@,
                    level as int,
                    results@[u],
                ),
            t <= results@.len(),
            is_candidate(s, best.0@),
            best.1 == energy(s, best.0@),
            forall|y: Seq<int>|
                is_candidate(s, y) && (exists|u: int|
                    0 <= u < t && agrees_from(y, (#[trigger] prefixes@[u]).0@, level as int))
                    ==> #[trigger] no_worse(s, best.0@, y),
        decreases results@.len() - t,
    {
        let found = (QuboSolution(results[t].0.0.clone()), results[t].1);
        assert(subtree_result(s, prefixes@[t as int].0@, level as int, results@[t as int]));
        assert(found.0@ == results@[t as int].0@);
        let ghost old_best = best.0@;
        let ghost f = found.0@;
        best = if t > 0 {
            better_of(problem, best, found)
        } else {
            found
        };
        proof {
            assert forall|y: Seq<int>|
                is_candidate(s, y) && (exists|u: int|
                    0 <= u < t + 1 && agrees_from(y, (#[trigger] prefixes@[u]).0@, level as int))
                    implies #[trigger] no_worse(s, best.0@, y) by {
                let u = choose|u: int|
                    0 <= u < t + 1 && agrees_from(y, (#[trigger] prefixes@[u]).0@, level as int);
                if u < t {
                    assert(no_worse(s, old_best, y));
                } else {
                    assert(subtree_result(s, prefixes@[u].0@, level as int, results@[u]));
                    assert(no_worse(s, f, y));
                }
            }
        }
        t += 1;
    }
    proof {
        assert forall|y: Seq<int>| #[trigger] is_candidate(s, y) implies no_worse(s, best.0@, y) by {
            let u = choose|u: int| 0 <= u < prefixes@.len() && agrees_from(y, (#[trigger] prefixes@[u]).0@, level as int);
            assert(exists|u: int|
                0 <= u < t && agrees_from(y, (#[trigger] prefixes@[u]).0@, level as int));
        }
    }
    best.0
}

} // verus!

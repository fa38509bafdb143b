//! Exhaustive search: a walk over all `2ⁿ` bit vectors that keeps the vector of
//! single-flip deltas up to date, so that each leaf costs O(1).
use vstd::prelude::*;
use crate::nusslein::pow2;
use crate::qubo::{
    delta,
    energy,
    flip,
    is_binary,
    is_qubo_matrix,
    lemma_delta_bounds,
    lemma_energy_zero,
    popcount,
    QuboProblem,
    QuboSolution,
    QuboType,
};

verus! {

/// `Σ_{j < m} a[j]·2^j`: the vector read as a binary number, bit 0 lowest.
pub open spec fn bin_value(a: Seq<int>, m: int) -> int
    decreases m,
{
    if m <= 0 {
        0
    } else {
        bin_value(a, m - 1) + a[m - 1] * pow2((m - 1) as nat)
    }
}

/// `a` is at least as good as `b`: lower energy; on equal energy more ones; on
/// equal energy and ones the smaller binary number.
pub open spec fn no_worse(s: Seq<Seq<int>>, a: Seq<int>, b: Seq<int>) -> bool {
    energy(s, a) < energy(s, b) || (energy(s, a) == energy(s, b) && (popcount(a, a.len() as int)
        > popcount(b, b.len() as int) || (popcount(a, a.len() as int) == popcount(
        b,
        b.len() as int,
    ) && bin_value(a, a.len() as int) <= bin_value(b, b.len() as int))))
}

proof fn lemma_bin_value_bounds(a: Seq<int>, m: int)
    requires
        is_binary(a),
        0 <= m <= a.len(),
    ensures
        0 <= bin_value(a, m) < pow2(m as nat),
    decreases m,
{
    if m > 0 {
        lemma_bin_value_bounds(a, m - 1);
        assert(pow2(m as nat) == 2 * pow2((m - 1) as nat));
        assert(a[m - 1] == 0 || a[m - 1] == 1);
    }
}

proof fn lemma_bin_value_tail(a: Seq<int>, b: Seq<int>, k: int, m: int)
    requires
        0 <= k <= m,
        forall|j: int| k <= j < m ==> #[trigger] a[j] == b[j],
    ensures
        bin_value(a, m) - bin_value(b, m) == bin_value(a, k) - bin_value(b, k),
    decreases m,
{
    if m > k {
        lemma_bin_value_tail(a, b, k, m - 1);
    }
}

/// Different candidates have different binary values, so `no_worse` both ways
/// means equal vectors.
pub proof fn lemma_bin_value_injective(a: Seq<int>, b: Seq<int>, m: int)
    requires
        is_binary(a),
        is_binary(b),
        0 <= m <= a.len(),
        m <= b.len(),
        bin_value(a, m) == bin_value(b, m),
    ensures
        a.take(m) =~= b.take(m),
    decreases m,
{
    if m > 0 {
        lemma_bin_value_bounds(a, m - 1);
        lemma_bin_value_bounds(b, m - 1);
        assert(a[m - 1] == 0 || a[m - 1] == 1);
        assert(b[m - 1] == 0 || b[m - 1] == 1);
        assert(a[m - 1] == b[m - 1]);
        lemma_bin_value_injective(a, b, m - 1);
        assert forall|j: int| 0 <= j < m implies a.take(m)[j] == b.take(m)[j] by {
            if j < m - 1 {
                assert(a.take(m - 1)[j] == b.take(m - 1)[j]);
            }
        }
    }
}

/// Whether `a` is at most `b` as binary numbers (bit 0 lowest).
fn bin_value_le(a: &QuboSolution, b: &QuboSolution) -> (r: bool)
    requires
        is_binary(a@),
        is_binary(b@),
        a@.len() == b@.len(),
    ensures
        r == (bin_value(a@, a@.len() as int) <= bin_value(b@, b@.len() as int)),
{
    let n = a.0.len();
    let mut j: usize = n;
    while j > 0
        invariant
            n == a@.len(),
            n == b@.len(),
            is_binary(a@),
            is_binary(b@),
            j <= n,
            forall|i: int| j <= i < n ==> #[trigger] a@[i] == b@[i],
        decreases j,
    {
        let k = j - 1;
        assert(a@[k as int] == a.0@[k as int] as int && b@[k as int] == b.0@[k as int] as int);
        if a.0[k] != b.0[k] {
            proof {
                lemma_bin_value_tail(a@, b@, k + 1, n as int);
                lemma_bin_value_bounds(a@, k as int);
                lemma_bin_value_bounds(b@, k as int);
                assert(a@[k as int] == 0 || a@[k as int] == 1);
                assert(b@[k as int] == 0 || b@[k as int] == 1);
            }
            return a.0[k] < b.0[k];
        }
        j = k;
    }
    proof {
        lemma_bin_value_tail(a@, b@, 0, n as int);
    }
    true
}

/// Two candidates that are each no worse than the other are equal.
pub proof fn lemma_no_worse_antisymmetric(s: Seq<Seq<int>>, a: Seq<int>, b: Seq<int>)
    requires
        is_candidate(s, a),
        is_candidate(s, b),
        no_worse(s, a, b),
        no_worse(s, b, a),
    ensures
        a == b,
{
    lemma_bin_value_injective(a, b, a.len() as int);
    assert(a.take(a.len() as int) =~= a);
    assert(b.take(b.len() as int) =~= b);
}

/// `a` and `b` have the same length and agree on every index from `i` on.
pub open spec fn agrees_from(a: Seq<int>, b: Seq<int>, i: int) -> bool {
    a.len() == b.len() && forall|j: int| i <= j < a.len() ==> #[trigger] a[j] == b[j]
}

/// A bit vector of the problem's size.
pub open spec fn is_candidate(s: Seq<Seq<int>>, y: Seq<int>) -> bool {
    is_binary(y) && y.len() == s.len()
}

/// The search state at depth `i`: `x` is a candidate, `energy` is its energy, and
/// `deltas` holds the single-flip delta of each of the bits still to decide.
pub open spec fn search_state(
    s: Seq<Seq<int>>,
    x: Seq<int>,
    deltas: Seq<int>,
    e: int,
    i: int,
) -> bool {
    &&& is_qubo_matrix(s)
    &&& is_candidate(s, x)
    &&& 0 <= i <= x.len()
    &&& deltas.len() >= i
    &&& e == energy(s, x)
    &&& forall|j: int| 0 <= j < i ==> #[trigger] deltas[j] == delta(s, x, j)
}

/// Two vectors that are each no worse than every candidate are the same vector:
/// the optimum under (energy, then more ones, then smaller binary number) is
/// unique, so the serial and the parallel exhaustive searches return the same
/// vector, a function of the problem alone.
pub proof fn lemma_optima_agree(s: Seq<Seq<int>>, a: Seq<int>, b: Seq<int>)
    requires
        is_candidate(s, a),
        is_candidate(s, b),
        forall|y: Seq<int>| #[trigger] is_candidate(s, y) ==> no_worse(s, a, y),
        forall|y: Seq<int>| #[trigger] is_candidate(s, y) ==> no_worse(s, b, y),
    ensures
        energy(s, a) == energy(s, b),
        popcount(a, a.len() as int) == popcount(b, b.len() as int),
        a == b,
{
    assert(no_worse(s, a, b));
    assert(no_worse(s, b, a));
    lemma_no_worse_antisymmetric(s, a, b);
}

/// An exhaustive minimizer; it always finds an optimum.
pub struct ExhaustiveSearch {}

impl ExhaustiveSearch {
    pub fn new() -> (r: ExhaustiveSearch) {
        ExhaustiveSearch {  }
    }

    /// The minimizer of `xᵀ·S·x` over all bit vectors; among minimizers, the one
    /// with the most ones, and among those the smallest binary number.
    pub fn solve(&mut self, qubo_problem: &QuboProblem) -> (r: QuboSolution)
        requires
            qubo_problem.wf(),
        ensures
            is_candidate(qubo_problem@, r@),
            forall|y: Seq<int>| #[trigger]
                is_candidate(qubo_problem@, y) ==> no_worse(qubo_problem@, r@, y),
    {
        let n = qubo_problem.get_size();
        let (start, deltas) = initial_state(qubo_problem);
        let (best, _) = exhaustive_search_helper(qubo_problem, start, &deltas, 0, n);
        proof {
            assert forall|y: Seq<int>| #[trigger] is_candidate(qubo_problem@, y) implies no_worse(
                qubo_problem@,
                best@,
                y,
            ) by {
                assert(agrees_from(y, start@, n as int));
            }
        }
        best
    }
}

/// The all-zero vector with its delta vector.
pub fn initial_state(problem: &QuboProblem) -> (r: (QuboSolution, Vec<QuboType>))
    requires
        problem.wf(),
    ensures
        search_state(problem@, r.0@, ints_of(r.1@), 0, problem@.len() as int),
        forall|j: int| 0 <= j < problem@.len() ==> #[trigger] r.0@[j] == 0,
        r.1@.len() == problem@.len(),
{
    let n = problem.get_size();
    let start = QuboSolution::zeros(n);
    assert(is_binary(start@));
    let mut deltas: Vec<QuboType> = Vec::new();
    let mut k: usize = 0;
    while k < n
        invariant
            problem.wf(),
            n == problem@.len(),
            start@ == Seq::new(n as nat, |i: int| 0int),
            is_binary(start@),
            k <= n,
            deltas@.len() == k,
            forall|j: int| 0 <= j < k ==> #[trigger] deltas@[j] == delta(problem@, start@, j),
        decreases n - k,
    {
        let d = problem.delta_evaluate_k(&start, k);
        deltas.push(d);
        k += 1;
    }
    proof {
        lemma_energy_zero(problem@, start@, n as int);
    }
    (start, deltas)
}

/// A delta vector as mathematical integers.
pub open spec fn ints_of(v: Seq<QuboType>) -> Seq<int> {
    v.map_values(|a: QuboType| a as int)
}

/// The deltas of bits `0..i` once bit `i − 1` of `solution` has been flipped,
/// from the deltas `old_deltas` of `solution`.
pub fn calculate_deltas_i(
    problem: &QuboProblem,
    solution: &QuboSolution,
    old_deltas: &Vec<QuboType>,
    i: usize,
) -> (r: Vec<QuboType>)
    requires
        problem.wf(),
        0 < i,
        search_state(problem@, solution@, ints_of(old_deltas@), energy(problem@, solution@), i as int),
    ensures
        r@.len() == i,
        forall|j: int| 0 <= j < i ==> #[trigger] r@[j] == delta(problem@, flip(solution@, i - 1), j),
{
    let mut r: Vec<QuboType> = Vec::new();
    let mut j: usize = 0;
    while j < i
        invariant
            problem.wf(),
            0 < i,
            search_state(problem@, solution@, ints_of(old_deltas@), energy(problem@, solution@), i as int),
            j <= i,
            r@.len() == j,
            forall|a: int| 0 <= a < j ==> #[trigger] r@[a] == delta(problem@, flip(solution@, i - 1), a),
        decreases i - j,
    {
        let d_j = old_deltas[j];
        assert(ints_of(old_deltas@)[j as int] == d_j as int);
        let d = problem.flip_j_and_delta_evaluate_k(solution, d_j, i - 1, j);
        r.push(d);
        j += 1;
    }
    r
}

/// Of two candidates with their energies, the one that is no worse: lower
/// energy, then more ones, then the smaller binary number.
pub fn better_of(
    problem: &QuboProblem,
    a: (QuboSolution, QuboType),
    b: (QuboSolution, QuboType),
) -> (r: (QuboSolution, QuboType))
    requires
        is_candidate(problem@, a.0@),
        is_candidate(problem@, b.0@),
        a.1 == energy(problem@, a.0@),
        b.1 == energy(problem@, b.0@),
    ensures
        r == a || r == b,
        no_worse(problem@, r.0@, a.0@),
        no_worse(problem@, r.0@, b.0@),
{
    if a.1 < b.1 {
        a
    } else if b.1 < a.1 {
        b
    } else {
        let ca = a.0.count_ones();
        let cb = b.0.count_ones();
        if ca > cb {
            a
        } else if cb > ca {
            b
        } else if bin_value_le(&a.0, &b.0) {
            a
        } else {
            b
        }
    }
}

/// Searches every vector that agrees with `solution` from bit `i` on, and returns
/// the best of them with its energy. This walk is `O(n·2ⁱ)`.
pub fn exhaustive_search_helper(
    problem: &QuboProblem,
    solution: QuboSolution,
    deltas: &Vec<QuboType>,
    curr_eval: QuboType,
    i: usize,
) -> (r: (QuboSolution, QuboType))
    requires
        problem.wf(),
        search_state(problem@, solution@, ints_of(deltas@), curr_eval as int, i as int),
    ensures
        is_candidate(problem@, r.0@),
        agrees_from(r.0@, solution@, i as int),
        r.1 == energy(problem@, r.0@),
        forall|y: Seq<int>|
            is_candidate(problem@, y) && agrees_from(y, solution@, i as int) ==> #[trigger] no_worse(
                problem@,
                r.0@,
                y,
            ),
    decreases i,
{
    if i == 0 {
        proof {
            assert forall|y: Seq<int>|
                is_candidate(problem@, y) && agrees_from(y, solution@, 0) implies #[trigger] no_worse(
                problem@,
                solution@,
                y,
            ) by {
                assert(y =~= solution@);
            }
        }
        return (solution, curr_eval);
    }
    let ghost s = problem@;
    let ghost x = solution@;
    proof {
        assert(ints_of(deltas@)[i - 1] == deltas@[i - 1] as int);
        lemma_delta_bounds(s, x, i - 1);
        crate::qubo::lemma_energy_bounds(s, x);
    }
    let solution_i = solution.flip(i - 1);
    let eval_i = curr_eval + deltas[i - 1];
    let new_deltas = calculate_deltas_i(problem, &solution, deltas, i);
    proof {
        assert(ints_of(new_deltas@).len() == i);
        assert forall|j: int| 0 <= j < i - 1 implies #[trigger] ints_of(new_deltas@)[j] == delta(
            s,
            solution_i@,
            j,
        ) by {
            assert(new_deltas@[j] == delta(s, flip(x, i - 1), j));
        }
        assert forall|j: int| 0 <= j < i - 1 implies #[trigger] ints_of(deltas@)[j] == delta(
            s,
            x,
            j,
        ) by {}
    }
    let left = exhaustive_search_helper(problem, solution, deltas, curr_eval, i - 1);
    let right = exhaustive_search_helper(problem, solution_i, &new_deltas, eval_i, i - 1);
    let ghost l = left.0@;
    let ghost rr = right.0@;
    let best = better_of(problem, left, right);
    proof {
        assert forall|y: Seq<int>|
            is_candidate(s, y) && agrees_from(y, x, i as int) implies #[trigger] no_worse(
            s,
            best.0@,
            y,
        ) by {
            if y[i - 1] == x[i - 1] {
                assert(agrees_from(y, x, i - 1));
                assert(no_worse(s, l, y));
            } else {
                assert(y[i - 1] == 1 - x[i - 1]);
                assert(agrees_from(y, solution_i@, i - 1));
                assert(no_worse(s, rr, y));
            }
        }
    }
    best
}

} // verus!

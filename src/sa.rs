//! The decisions of the simulated annealer: a Metropolis walk over bit vectors
//! that keeps its delta vector up to date and remembers the best vector seen.
//! The caller draws the random numbers and the acceptance threshold.
use vstd::prelude::*;
use crate::es::is_candidate;
use crate::qubo::{delta, energy, flip, lemma_delta_bounds, lemma_energy_bounds, QuboProblem, QuboSolution, QuboType};

verus! {

/// A simulated annealer that runs `max_iterations` steps.
pub struct SimulatedAnnealer {
    pub max_iterations: usize,
}

impl SimulatedAnnealer {
    pub fn new(max_iterations: usize) -> (r: SimulatedAnnealer)
        ensures
            r.max_iterations == max_iterations,
    {
        SimulatedAnnealer { max_iterations }
    }
}

/// The state of one annealing walk.
pub struct AnnealState {
    pub solution: QuboSolution,
    pub deltas: Vec<QuboType>,
    pub evaluation: QuboType,
    pub best_solution: QuboSolution,
    pub best_evaluation: QuboType,
}

impl AnnealState {
    /// The current vector, its energy and its deltas agree, and so do the best
    /// vector and its energy.
    pub open spec fn wf(&self, s: Seq<Seq<int>>) -> bool {
        &&& crate::qubo::is_qubo_matrix(s)
        &&& is_candidate(s, self.solution@)
        &&& is_candidate(s, self.best_solution@)
        &&& self.evaluation == energy(s, self.solution@)
        &&& self.best_evaluation == energy(s, self.best_solution@)
        &&& self.deltas@.len() == s.len()
        &&& forall|j: int| 0 <= j < s.len() ==> #[trigger] self.deltas@[j] == delta(s, self.solution@, j)
    }

    /// The walk from `start`, which is also the best vector so far.
    pub fn new(problem: &QuboProblem, start: QuboSolution) -> (r: AnnealState)
        requires
            problem.wf(),
            is_candidate(problem@, start@),
        ensures
            r.wf(problem@),
            r.solution@ == start@,
            r.best_solution@ == start@,
    {
        let n = problem.get_size();
        let evaluation = problem.evaluate(&start);
        let mut deltas: Vec<QuboType> = Vec::new();
        let mut k: usize = 0;
        while k < n
            invariant
                problem.wf(),
                n == problem@.len(),
                is_candidate(problem@, start@),
                k <= n,
                deltas@.len() == k,
                forall|j: int| 0 <= j < k ==> #[trigger] deltas@[j] == delta(problem@, start@, j),
            decreases n - k,
        {
            let d = problem.delta_evaluate_k(&start, k);
            deltas.push(d);
            k += 1;
        }
        let best_solution = QuboSolution(start.0.clone());
        AnnealState { solution: start, deltas, evaluation, best_solution, best_evaluation: evaluation }
    }

    /// The first index of a least delta and the first index of a greatest delta.
    pub fn min_max_deltas(&self) -> (r: (usize, usize))
        requires
            self.deltas@.len() > 0,
        ensures
            r.0 < self.deltas@.len(),
            r.1 < self.deltas@.len(),
            forall|j: int| 0 <= j < self.deltas@.len() ==> self.deltas@[r.0 as int] <= #[trigger] self.deltas@[j],
            forall|j: int| 0 <= j < self.deltas@.len() ==> #[trigger] self.deltas@[j] <= self.deltas@[r.1 as int],
            forall|j: int| 0 <= j < r.0 ==> self.deltas@[r.0 as int] < #[trigger] self.deltas@[j],
            forall|j: int| 0 <= j < r.1 ==> #[trigger] self.deltas@[j] < self.deltas@[r.1 as int],
    {
        let mut lo: usize = 0;
        let mut hi: usize = 0;
        let mut j: usize = 1;
        while j < self.deltas.len()
            invariant
                1 <= j <= self.deltas@.len(),
                lo < j,
                hi < j,
                forall|a: int| 0 <= a < j ==> self.deltas@[lo as int] <= #[trigger] self.deltas@[a],
                forall|a: int| 0 <= a < j ==> #[trigger] self.deltas@[a] <= self.deltas@[hi as int],
                forall|a: int| 0 <= a < lo ==> self.deltas@[lo as int] < #[trigger] self.deltas@[a],
                forall|a: int| 0 <= a < hi ==> #[trigger] self.deltas@[a] < self.deltas@[hi as int],
            decreases self.deltas@.len() - j,
        {
            if self.deltas[j] < self.deltas[lo] {
                lo = j;
            }
            if self.deltas[j] > self.deltas[hi] {
                hi = j;
            }
            j += 1;
        }
        (lo, hi)
    }

    /// The indices whose delta is at most `threshold`, in increasing order.
    pub fn candidates(&self, threshold: QuboType) -> (r: Vec<usize>)
        ensures
            forall|a: int, b: int| 0 <= a < b < r@.len() ==> #[trigger] r@[a] < #[trigger] r@[b],
            forall|k: int| 0 <= k < r@.len() ==> #[trigger] r@[k] < self.deltas@.len() && self.deltas@[r@[k] as int] <= threshold,
            forall|j: int| 0 <= j < self.deltas@.len() && self.deltas@[j] <= threshold ==> #[trigger] r@.contains(j as usize),
    {
        let mut r: Vec<usize> = Vec::new();
        let mut j: usize = 0;
        while j < self.deltas.len()
            invariant
                j <= self.deltas@.len(),
                forall|a: int, b: int| 0 <= a < b < r@.len() ==> #[trigger] r@[a] < #[trigger] r@[b],
                forall|k: int| 0 <= k < r@.len() ==> #[trigger] r@[k] < j,
                forall|k: int| 0 <= k < r@.len() ==> #[trigger] r@[k] < self.deltas@.len() && self.deltas@[r@[k] as int] <= threshold,
                forall|a: int| 0 <= a < j && self.deltas@[a] <= threshold ==> #[trigger] r@.contains(a as usize),
            decreases self.deltas@.len() - j,
        {
            if self.deltas[j] <= threshold {
                let ghost before = r@;
                r.push(j);
                proof {
                    assert(r@[before.len() as int] == j);
                    assert forall|a: int| 0 <= a < j + 1 && self.deltas@[a] <= threshold implies #[trigger] r@.contains(a as usize) by {
                        if a < j {
                            assert(before.contains(a as usize));
                            let k = choose|k: int| 0 <= k < before.len() && before[k] == a as usize;
                            assert(r@[k] == a as usize);
                        } else {
                            assert(r@[before.len() as int] == a as usize);
                        }
                    }
                }
            }
            j += 1;
        }
        r
    }

    /// One step: first remember the neighbour through `min_i` if it beats the
    /// best energy so far, then move to the neighbour through `chosen`.
    pub fn step(&mut self, problem: &QuboProblem, min_i: usize, chosen: usize)
        requires
            problem.wf(),
            old(self).wf(problem@),
            min_i < problem@.len(),
            chosen < problem@.len(),
        ensures
            final(self).wf(problem@),
            final(self).solution@ == flip(old(self).solution@, chosen as int),
            energy(problem@, flip(old(self).solution@, min_i as int)) < old(self).best_evaluation ==> (
            final(self).best_solution@ == flip(old(self).solution@, min_i as int)),
            energy(problem@, flip(old(self).solution@, min_i as int)) >= old(self).best_evaluation ==> (
            final(self).best_solution@ == old(self).best_solution@),
    {
        let ghost s = problem@;
        let ghost x = self.solution@;
        proof {
            lemma_delta_bounds(s, x, min_i as int);
            lemma_delta_bounds(s, x, chosen as int);
            lemma_energy_bounds(s, x);
        }
        let min_evaluation = self.evaluation + self.deltas[min_i];
        if min_evaluation < self.best_evaluation {
            self.best_solution = self.solution.flip(min_i);
            self.best_evaluation = min_evaluation;
        }
        let n = problem.get_size();
        let mut new_deltas: Vec<QuboType> = Vec::new();
        let mut j: usize = 0;
        while j < n
            invariant
                problem.wf(),
                s == problem@,
                n == s.len(),
                x == self.solution@,
                self.deltas@.len() == n,
                is_candidate(s, x),
                forall|a: int| 0 <= a < n ==> #[trigger] self.deltas@[a] == delta(s, x, a),
                chosen < n,
                j <= n,
                new_deltas@.len() == j,
                forall|a: int| 0 <= a < j ==> #[trigger] new_deltas@[a] == delta(s, flip(x, chosen as int), a),
            decreases n - j,
        {
            let d = problem.flip_j_and_delta_evaluate_k(&self.solution, self.deltas[j], chosen, j);
            new_deltas.push(d);
            j += 1;
        }
        self.evaluation = self.evaluation + self.deltas[chosen];
        self.deltas = new_deltas;
        self.solution = self.solution.flip(chosen);
    }
}

} // verus!

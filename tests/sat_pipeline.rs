use qubo_sat::error::{Error, ErrorKind};
use qubo_sat::es::ExhaustiveSearch;
use qubo_sat::matrix::SparseMatrix;
use qubo_sat::threesat::KSatToThreeSatReduction;
use qubo_sat::nusslein::{fast_ceil_log2, Nusslein};
use qubo_sat::pes::ParallelExhaustiveSearch;
use qubo_sat::pipeline::QuboMinimizer;
use qubo_sat::problem::Problem;
use qubo_sat::qubo::{QuboError, QuboProblem, QuboSolution};
use qubo_sat::record::EnergyRecord;
use qubo_sat::reducers::{implement_clause, Chancellor, Choi, Nusslein23, ReductionError};
use qubo_sat::reduction::{KSatToQuboReduction, KSatToQuboSolutionReductionReverser};
use qubo_sat::sa::{AnnealState, SimulatedAnnealer};
use qubo_sat::sat::{parse_clause, KSatProblem, KSatProblemError, SatSolution, SatVariable};
use rand::rngs::StdRng;
use rand::seq::SliceRandom;
use rand::{Rng, SeedableRng};

fn problem(nb_vars: usize, clauses: Vec<Vec<(bool, usize)>>) -> KSatProblem {
    KSatProblem {
        nb_vars,
        clause_list: clauses
            .into_iter()
            .map(|c| c.into_iter().map(|(p, v)| SatVariable(p, v)).collect())
            .collect(),
    }
}

fn random_three_sat(rng: &mut StdRng, nb_vars: usize, nb_clauses: usize) -> KSatProblem {
    let vars: Vec<usize> = (0..nb_vars).collect();
    let clauses = (0..nb_clauses)
        .map(|_| {
            vars.choose_multiple(rng, 3)
                .map(|v| (rng.gen_bool(0.5), *v))
                .collect()
        })
        .collect();
    problem(nb_vars, clauses)
}

fn brute_force_min(p: &QuboProblem) -> i64 {
    let n = p.get_size();
    (0..(1u64 << n))
        .map(|m| {
            let x = QuboSolution((0..n).map(|i| ((m >> i) & 1) as i64).collect());
            p.evaluate(&x)
        })
        .min()
        .unwrap()
}

#[test]
fn choi_on_a_trivial_sat() {
    let p = problem(2, vec![vec![(true, 0), (true, 1)]]);
    let (q, choi) = Choi::reduce(&p).unwrap();
    assert_eq!(q.get_size(), 2);
    let dense = q.get_dense();
    assert_eq!(dense[0][0], -1);
    assert_eq!(dense[1][1], -1);
    assert!(dense[0][1] > 0);
    let x = ExhaustiveSearch::new().solve(&q);
    assert_eq!(q.evaluate(&x), -1);
    assert_eq!(x.count_ones(), 1);
    let answer = choi.up_model(&x);
    match &answer {
        SatSolution::Sat(a) => assert_eq!(a.iter().filter(|b| **b).count(), 1),
        other => panic!("expected an assignment, got {:?}", other),
    }
    assert!(p.evaluate(&answer));
    assert!(p.validate_solution(&answer));
}

#[test]
fn contradictory_unit_clauses_give_no_assignment() {
    let p = problem(1, vec![vec![(true, 0)], vec![(false, 0)]]);
    let (q, _) = Nusslein::reduce(&p).unwrap();
    let x = ExhaustiveSearch::new().solve(&q);
    assert_eq!(q.evaluate(&x), 0);
    let answer = p
        .find_solution(KSatToQuboReduction::Nuesslein2022, QuboMinimizer::ExhaustiveSearch)
        .unwrap();
    assert!(matches!(answer, SatSolution::Unknown | SatSolution::Unsat));
}

#[test]
fn parallel_and_serial_search_agree() {
    let mut rng = StdRng::seed_from_u64(7);
    let p = random_three_sat(&mut rng, 10, 5);
    let (q, _) = p.reduce(KSatToQuboReduction::Nuesslein2023).unwrap();
    let serial = ExhaustiveSearch::new().solve(&q);
    let parallel = ParallelExhaustiveSearch::new(3).solve(&q);
    assert_eq!(q.evaluate(&serial), q.evaluate(&parallel));
    assert_eq!(serial, parallel);
    assert_eq!(q.evaluate(&serial), brute_force_min(&q));
}

#[test]
fn exhaustive_search_finds_the_minimum() {
    let mut rng = StdRng::seed_from_u64(11);
    for _ in 0..5 {
        let n = 8;
        let upper: Vec<Vec<i64>> = (0..n)
            .map(|i| (0..n).map(|j| if i <= j { rng.gen_range(-20..20) } else { 0 }).collect())
            .collect();
        let q = QuboProblem::try_from_q_matrix(upper).unwrap();
        let x = ExhaustiveSearch::new().solve(&q);
        assert_eq!(q.evaluate(&x), brute_force_min(&q));
        for beta in [0, 1, 3, 8, 12] {
            let y = ParallelExhaustiveSearch::new(beta).solve(&q);
            assert_eq!(q.evaluate(&y), q.evaluate(&x));
        }
    }
}

fn anneal(q: &QuboProblem, rng: &mut StdRng, max_iterations: usize) -> i64 {
    let n = q.get_size();
    let start = QuboSolution((0..n).map(|_| rng.gen_range(0..=1)).collect());
    let mut state = AnnealState::new(q, start);
    for k in 1..=max_iterations {
        let t = f64::exp(-5.0 * k as f64 / max_iterations as f64);
        let (lo, hi) = state.min_max_deltas();
        let p: f64 = rng.gen_range(0.0..t);
        let threshold =
            ((1.0 - p) * state.deltas[lo] as f64 + p * state.deltas[hi] as f64).ceil() as i64;
        let choices = state.candidates(threshold);
        let chosen = *choices.choose(rng).unwrap();
        state.step(q, lo, chosen);
    }
    state.best_evaluation
}

#[test]
fn simulated_annealer_stays_close_to_the_optimum() {
    let mut rng = StdRng::seed_from_u64(3);
    let n = 12;
    let upper: Vec<Vec<i64>> = (0..n)
        .map(|i| (0..n).map(|j| if i <= j { rng.gen_range(-10..10) } else { 0 }).collect())
        .collect();
    let q = QuboProblem::try_from_q_matrix(upper).unwrap();
    let optimum = q.evaluate(&ExhaustiveSearch::new().solve(&q));
    let annealer = SimulatedAnnealer::new(10_000);
    let best = (0..8).map(|_| anneal(&q, &mut rng, annealer.max_iterations)).min().unwrap();
    assert!(best >= optimum);
    assert!(best <= optimum + 5, "annealer reached {} against optimum {}", best, optimum);
}

#[test]
fn annealing_step_tracks_energy_and_best() {
    let q = QuboProblem::try_from_q_matrix(vec![vec![1, -4], vec![0, 1]]).unwrap();
    let mut state = AnnealState::new(&q, QuboSolution(vec![0, 0]));
    assert_eq!(state.deltas, vec![1, 1]);
    assert_eq!(state.min_max_deltas(), (0, 0));
    assert_eq!(state.candidates(1), vec![0, 1]);
    assert_eq!(state.candidates(0), Vec::<usize>::new());
    state.step(&q, 0, 0);
    assert_eq!(state.solution, QuboSolution(vec![1, 0]));
    assert_eq!(state.evaluation, 1);
    assert_eq!(state.best_evaluation, 0);
    assert_eq!(state.deltas, vec![-1, -7]);
    state.step(&q, 1, 1);
    assert_eq!(state.evaluation, -6);
    assert_eq!(state.best_evaluation, -6);
    assert_eq!(state.best_solution, QuboSolution(vec![1, 1]));
}

#[test]
fn chancellor_clause_terms() {
    let clause = [SatVariable(true, 0), SatVariable(false, 1), SatVariable(true, 2)];
    let (size, triplets, biases) = implement_clause(3, Vec::new(), Vec::new(), &clause);
    assert_eq!(size, 4);
    assert_eq!(
        triplets,
        vec![(0, 1, 4), (0, 2, 6), (0, 3, 10), (1, 2, 4), (1, 3, 10), (2, 3, 10)]
    );
    assert_eq!(biases, vec![(3, 2), (0, 0), (1, 2), (2, 0)]);
}

#[test]
fn chancellor_rejects_short_clauses() {
    let p = problem(2, vec![vec![(true, 0), (true, 1)]]);
    assert_eq!(Chancellor::reduce(&p).err(), Some(ReductionError::InvalidClause));
    let e = p
        .find_solution(KSatToQuboReduction::Chancellor, QuboMinimizer::ExhaustiveSearch)
        .unwrap_err();
    assert_eq!(*e.kind(), ErrorKind::InvalidReduction);
}

#[test]
fn chancellor_reduction_size_and_readback() {
    let p = problem(3, vec![vec![(true, 0), (true, 1), (false, 2)]]);
    let (q, c) = Chancellor::reduce(&p).unwrap();
    assert_eq!(q.get_size(), 4);
    let answer = c.up_model(&QuboSolution(vec![1, 0, 1, 1]));
    assert_eq!(answer, SatSolution::Sat(vec![true, false, true]));
}

#[test]
fn nusslein23_clause_tables() {
    let p = problem(3, vec![vec![(true, 0), (true, 1), (true, 2)]]);
    let (q, n) = Nusslein23::reduce(&p).unwrap();
    assert_eq!(
        q.get_dense(),
        vec![vec![0, 2, 0, -2], vec![2, 0, 0, -2], vec![0, 0, -2, 1], vec![-2, -2, 1, 2]]
    );
    assert_eq!(n.up_model(&QuboSolution(vec![0, 1, 1, 0])), SatSolution::Sat(vec![false, true, true]));
    let bad = problem(3, vec![vec![(true, 0), (true, 1)]]);
    assert_eq!(Nusslein23::reduce(&bad).err(), Some(ReductionError::InvalidClause));
}

#[test]
fn nusslein_unit_and_two_clauses() {
    let p = problem(2, vec![vec![(true, 0)], vec![(true, 0), (true, 1)]]);
    let (q, n) = Nusslein::reduce(&p).unwrap();
    assert_eq!(n.constant_factor, 2);
    assert_eq!(q.get_dense(), vec![vec![-4, 1], vec![1, -2]]);
    let empty = problem(1, vec![vec![]]);
    assert_eq!(Nusslein::reduce(&empty).err(), Some(ReductionError::InvalidClause));
}

#[test]
fn nusslein_widens_long_clauses() {
    let p = problem(5, vec![vec![(true, 0), (false, 1), (true, 2), (true, 3), (true, 4)]]);
    let (q, n) = Nusslein::reduce(&p).unwrap();
    assert_eq!(q.get_size(), 5 + 3);
    assert_eq!(n.constant_factor, 0);
    assert_eq!(n.og_vars, 5);
}

fn satisfiable(p: &KSatProblem) -> bool {
    (0..(1u32 << p.nb_vars)).any(|m| {
        let a: Vec<bool> = (0..p.nb_vars).map(|i| (m >> i) & 1 == 1).collect();
        p.validate_solution(&SatSolution::Sat(a))
    })
}

#[test]
fn every_reducer_answers_satisfiable_instances() {
    let mut rng = StdRng::seed_from_u64(5);
    let mut seen_satisfiable = 0;
    for _ in 0..8 {
        let p = random_three_sat(&mut rng, 4, 3);
        let sat = satisfiable(&p);
        if sat {
            seen_satisfiable += 1;
        }
        for red in [
            KSatToQuboReduction::Choi,
            KSatToQuboReduction::Chancellor,
            KSatToQuboReduction::Nuesslein2022,
            KSatToQuboReduction::Nuesslein2023,
        ] {
            let answer = p.find_solution(red, QuboMinimizer::ParallelExhaustiveSearch(2)).unwrap();
            if sat {
                assert!(matches!(answer, SatSolution::Sat(_)), "{:?} on {:?} gave {:?}", red, p, answer);
            } else {
                assert!(!matches!(answer, SatSolution::Sat(_)));
            }
        }
    }
    assert!(seen_satisfiable > 0);
}

#[test]
fn chancellor_single_clause_has_satisfying_ground_states() {
    let p = problem(3, vec![vec![(true, 0), (true, 1), (true, 2)]]);
    let answer = p
        .find_solution(KSatToQuboReduction::Chancellor, QuboMinimizer::ExhaustiveSearch)
        .unwrap();
    assert!(matches!(answer, SatSolution::Sat(_)));
    assert!(p.validate_solution(&answer));
}

#[test]
fn nusslein_three_sat_takes_one_ancilla_per_clause() {
    let p = problem(3, vec![vec![(true, 0), (true, 1), (true, 2)], vec![(false, 0), (true, 1), (false, 2)]]);
    let (q, _) = Nusslein::reduce(&p).unwrap();
    assert_eq!(q.get_size(), 3 + 2);
}

#[test]
fn choi_conflict_gives_unsat() {
    let p = problem(1, vec![vec![(true, 0)], vec![(false, 0)]]);
    let (q, rev) = p.reduce(KSatToQuboReduction::Choi).unwrap();
    assert_eq!(q.get_size(), 2);
    assert!(matches!(rev, KSatToQuboSolutionReductionReverser::Choi(_)));
    assert_eq!(rev.reverse_reduce_solution(&QuboSolution(vec![1, 1])), SatSolution::Unsat);
    assert_eq!(rev.reverse_reduce_solution(&QuboSolution(vec![1, 0])), SatSolution::Sat(vec![true]));
}

#[test]
fn evaluate_accepts_non_assignments() {
    let p = problem(1, vec![vec![(true, 0)]]);
    assert!(p.evaluate(&SatSolution::Unknown));
    assert!(!p.validate_solution(&SatSolution::Unknown));
    assert!(!p.evaluate(&SatSolution::Sat(vec![false])));
}

#[test]
fn dimacs_clause_lines() {
    assert_eq!(
        parse_clause(&vec![1, -3, 0], 3),
        Ok(vec![SatVariable(true, 0), SatVariable(false, 2)])
    );
    assert_eq!(parse_clause(&vec![1, 3], 3), Err(KSatProblemError::InvalidClause));
    assert_eq!(parse_clause(&vec![1, 0, 2, 0], 3), Err(KSatProblemError::InvalidClause));
    assert_eq!(parse_clause(&vec![], 3), Err(KSatProblemError::InvalidClause));
    assert_eq!(parse_clause(&vec![4, 0], 3), Err(KSatProblemError::InvalidVariable));
    assert_eq!(parse_clause(&vec![-4, 0], 3), Err(KSatProblemError::InvalidVariable));
}

#[test]
fn ceil_log2_counts_binary_digits() {
    assert_eq!(fast_ceil_log2(0), 0);
    assert_eq!(fast_ceil_log2(1), 1);
    assert_eq!(fast_ceil_log2(4), 3);
    assert_eq!(fast_ceil_log2(7), 3);
    assert_eq!(fast_ceil_log2(8), 4);
    assert_eq!(fast_ceil_log2(usize::MAX), usize::BITS);
}

#[test]
fn energy_records() {
    let r = EnergyRecord::create(100, 350, 4, -7);
    assert_eq!(r, EnergyRecord::create_with_time(250, 4, -7));
    assert_eq!(r.time_stamp, 250);
}

#[test]
fn errors_report_their_kind() {
    let e = Error { kind: ErrorKind::MatrixShape(QuboError::TooLarge) };
    assert_eq!(*e.kind(), ErrorKind::MatrixShape(QuboError::TooLarge));
    let e = Error::from_reduction(ReductionError::InvalidClause);
    assert_eq!(*e.kind(), ErrorKind::InvalidReduction);
}

fn solution_of<P: Problem>(_: &P, s: P::Solution) -> P::Solution {
    s
}

#[test]
fn problems_name_their_solutions() {
    let p = problem(1, vec![vec![(true, 0)]]);
    assert_eq!(solution_of(&p, SatSolution::Unsat), SatSolution::Unsat);
}

#[test]
fn oversized_reduction_is_rejected() {
    let p = problem(qubo_sat::qubo::MAX_SIZE, vec![vec![(true, 0), (true, 1), (true, 2)]]);
    assert_eq!(
        Chancellor::reduce(&p).err(),
        Some(ReductionError::Matrix(QuboError::TooLarge))
    );
    let e = p
        .find_solution(KSatToQuboReduction::Nuesslein2023, QuboMinimizer::ExhaustiveSearch)
        .unwrap_err();
    assert_eq!(*e.kind(), ErrorKind::MatrixShape(QuboError::TooLarge));
}

#[test]
fn widening_to_three_sat() {
    let p = problem(
        5,
        vec![vec![(true, 0)], vec![(true, 0), (false, 1)], vec![(true, 0), (true, 1), (true, 2), (false, 3), (true, 4)]],
    );
    let (three, reverser) = KSatToThreeSatReduction.reduce_problem(p);
    assert_eq!(three.nbvars, 5 + 2 + 1 + 2);
    let clauses: Vec<Vec<(bool, usize)>> =
        three.clauses.iter().map(|c| c.iter().map(|l| (l.0, l.1)).collect()).collect();
    assert_eq!(
        clauses,
        vec![
            vec![(true, 0), (true, 5), (true, 6)],
            vec![(true, 0), (false, 5), (true, 6)],
            vec![(true, 0), (true, 5), (false, 6)],
            vec![(true, 0), (false, 5), (false, 6)],
            vec![(true, 0), (false, 1), (true, 7)],
            vec![(true, 0), (false, 1), (false, 7)],
            vec![(true, 0), (true, 1), (true, 8)],
            vec![(true, 2), (false, 8), (true, 9)],
            vec![(false, 3), (true, 4), (false, 9)],
        ]
    );
    assert_eq!(three.to_ksat().clause_list.len(), 9);
    let back = reverser.reverse_reduce_solution(SatSolution::Sat(vec![true; 10]));
    assert_eq!(back, SatSolution::Sat(vec![true; 5]));
    assert_eq!(reverser.reverse_reduce_solution(SatSolution::Unknown), SatSolution::Unknown);
}

#[test]
fn sparse_matrix_entries() {
    let mut m = SparseMatrix::new((3, 3));
    assert_eq!(m.get((1, 2)), 0);
    m.set((1, 2), 5);
    m.set((0, 0), 0);
    m.set((1, 2), 7);
    assert_eq!(m.get((1, 2)), 7);
    assert_eq!(m.values().len(), 2);
    m.purge();
    assert_eq!(m.values().len(), 1);
    assert_eq!(m.remove((1, 2)), Some(7));
    assert_eq!(m.remove((1, 2)), None);
    let d = SparseMatrix::new_with_default((2, 2), 9);
    assert_eq!(d.get((1, 1)), 9);
}

#[test]
fn nusslein23_clause_penalty_by_enumeration() {
    for pattern in 0..8u32 {
        let pols: Vec<bool> = (0..3).map(|i| (pattern >> i) & 1 == 1).collect();
        let p = problem(3, vec![(0..3).map(|i| (pols[i], i)).collect()]);
        let (q, _) = Nusslein23::reduce(&p).unwrap();
        let base = if pols[0] == pols[1] && pols[1] == pols[2] { -2 } else { 0 };
        for m in 0..8u32 {
            let bits: Vec<i64> = (0..3).map(|i| ((m >> i) & 1) as i64).collect();
            let violated = (0..3).all(|i| (bits[i] == 1) != pols[i]);
            let e0 = q.evaluate(&QuboSolution(vec![bits[0], bits[1], bits[2], 0]));
            let e1 = q.evaluate(&QuboSolution(vec![bits[0], bits[1], bits[2], 1]));
            assert_eq!(e0.min(e1), base + if violated { 2 } else { 0 });
        }
    }
}

#[test]
fn exhaustive_search_breaks_ties_by_binary_value() {
    let q = QuboProblem::try_from_q_matrix(vec![vec![-1, 4], vec![0, -1]]).unwrap();
    assert_eq!(ExhaustiveSearch::new().solve(&q), QuboSolution(vec![1, 0]));
    assert_eq!(ParallelExhaustiveSearch::new(1).solve(&q), QuboSolution(vec![1, 0]));
}

#[test]
fn nusslein_long_clause_is_satisfied_by_minimizers() {
    let p = problem(4, vec![vec![(true, 0), (true, 1), (true, 2), (true, 3)]]);
    let answer = p
        .find_solution(KSatToQuboReduction::Nuesslein2022, QuboMinimizer::ExhaustiveSearch)
        .unwrap();
    assert!(matches!(answer, SatSolution::Sat(_)));
    assert!(p.validate_solution(&answer));
}

#[test]
fn nusslein_long_clause_penalty_by_enumeration() {
    for pattern in 0..32u32 {
        let pols: Vec<bool> = (0..5).map(|i| (pattern >> i) & 1 == 1).collect();
        let p = problem(5, vec![(0..5).map(|i| (pols[i], i)).collect()]);
        let (q, n) = Nusslein::reduce(&p).unwrap();
        assert_eq!(q.get_size(), 8);
        for m in 0..32u32 {
            let bits: Vec<i64> = (0..5).map(|i| ((m >> i) & 1) as i64).collect();
            let violated = (0..5).all(|i| (bits[i] == 1) != pols[i]);
            let best = (0..8u32)
                .map(|a| {
                    let mut x = bits.clone();
                    x.extend((0..3).map(|j| ((a >> j) & 1) as i64));
                    q.evaluate(&QuboSolution(x))
                })
                .min()
                .unwrap();
            assert_eq!(best + n.constant_factor, if violated { 2 } else { 0 });
        }
    }
}

#[test]
fn mixed_length_instances_get_satisfying_answers() {
    let mut rng = StdRng::seed_from_u64(17);
    for _ in 0..6 {
        let vars: Vec<usize> = (0..5).collect();
        let clauses: Vec<Vec<(bool, usize)>> = (0..2)
            .map(|_| {
                let k = rng.gen_range(1..=5);
                vars.choose_multiple(&mut rng, k).map(|v| (rng.gen_bool(0.5), *v)).collect()
            })
            .collect();
        let p = problem(5, clauses);
        let answer = p
            .find_solution(KSatToQuboReduction::Nuesslein2022, QuboMinimizer::ParallelExhaustiveSearch(2))
            .unwrap();
        if satisfiable(&p) {
            assert!(matches!(answer, SatSolution::Sat(_)), "{:?} gave {:?}", p, answer);
        }
    }
}

#[test]
fn choi_edge_penalty_is_a_parameter() {
    let p = problem(2, vec![vec![(true, 0), (true, 1)]]);
    let (q, _) = Choi::reduce_with_penalty(&p, 6).unwrap();
    assert_eq!(q.get_dense(), vec![vec![-1, 8], vec![8, -1]]);
    let (d, _) = Choi::reduce(&p).unwrap();
    assert_eq!(d.get_dense(), vec![vec![-1, 4], vec![4, -1]]);
}

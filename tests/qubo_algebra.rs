use qubo_sat::qubo::{QuboError, QuboProblem, QuboSolution, QuboType};
use rand::{thread_rng, Rng};

const PROBLEM_SIZE: usize = 100;

fn random_upper(rng: &mut impl Rng, lo: QuboType, hi: QuboType) -> Vec<Vec<QuboType>> {
    (0..PROBLEM_SIZE)
        .map(|i| {
            (0..PROBLEM_SIZE)
                .map(|j| if i <= j { rng.gen_range(lo..hi) } else { 0 })
                .collect()
        })
        .collect()
}

fn random_solution(rng: &mut impl Rng, n: usize) -> QuboSolution {
    QuboSolution((0..n).map(|_| rng.gen_range(0..=1)).collect())
}

#[test]
fn test_check_evaluation() {
    let sut = QuboProblem::try_from_q_matrix(vec![vec![1, 1, 1], vec![0, 1, 1], vec![0, 0, 1]])
        .expect("Matrix is supposedly valid");
    let sut_solution = QuboSolution(vec![1, 1, 1]);

    assert_eq!(9, sut.evaluate(&sut_solution));
}

#[test]
fn test_check_delta_evaluation_jk() {
    let mut rng = thread_rng();
    let sut = QuboProblem::try_from_q_matrix(random_upper(&mut rng, 0, 128))
        .expect("Matrix is supposedly valid");
    let sut_solution = random_solution(&mut rng, PROBLEM_SIZE);

    let eval = sut.evaluate(&sut_solution);

    for j in 0..PROBLEM_SIZE {
        for k in 0..PROBLEM_SIZE {
            let sut_solution_k = sut_solution.flip(k);
            let eval_k = sut.evaluate(&sut_solution_k);
            let delta_k = eval_k - eval;

            let delta_eval_k_and_eval_j = sut.flip_j_and_delta_evaluate_k(&sut_solution, delta_k, j, k);

            let delta_kj_k =
                sut.evaluate(&sut_solution_k.flip(j)) - sut.evaluate(&sut_solution.flip(j));

            assert_eq!(delta_kj_k, delta_eval_k_and_eval_j);
        }
    }
}

#[test]
fn test_check_delta_evaluation_k() {
    let mut rng = thread_rng();
    let sut = QuboProblem::try_from_q_matrix(random_upper(&mut rng, 0, 128))
        .expect("Matrix is supposedly valid");
    println!("Generated problem: {:?}", sut.get_dense());
    let sut_solution = random_solution(&mut rng, PROBLEM_SIZE);

    let eval = sut.evaluate(&sut_solution);

    for k in 0..PROBLEM_SIZE {
        let sut_solution_k = sut_solution.flip(k);
        let eval_k = sut.evaluate(&sut_solution_k);
        let delta_k = sut.delta_evaluate_k(&sut_solution, k);

        assert_eq!(eval_k - eval, delta_k);

        let delta_k_neg = sut.delta_evaluate_k(&sut_solution_k, k);

        assert_eq!(0, delta_k_neg + delta_k);
    }
}

#[test]
fn check_ising() {
    let mut rng = thread_rng();
    let upper = random_upper(&mut rng, -128, 128);

    let h: Vec<(usize, QuboType)> = (0..PROBLEM_SIZE).map(|i| (i, upper[i][i])).collect();
    let mut j: Vec<(usize, usize, QuboType)> = Vec::new();
    for a in 0..PROBLEM_SIZE {
        for b in (a + 1)..PROBLEM_SIZE {
            if upper[a][b] != 0 {
                j.push((a, b, upper[a][b]));
            }
        }
    }

    let (yy, _) = QuboProblem::try_from_ising_triplets(PROBLEM_SIZE, j.clone(), h.clone()).unwrap();

    let (h_t, mut j_t, _) = yy.get_ising();
    for i in 0..PROBLEM_SIZE {
        j_t[i][i] = h_t[i];
    }
    for a in 0..PROBLEM_SIZE {
        for b in 0..PROBLEM_SIZE {
            assert_eq!(upper[a][b], j_t[a][b] / 4);
        }
    }
}

#[test]
fn evaluation_of_zero_vector_is_zero() {
    let mut rng = thread_rng();
    let sut = QuboProblem::try_from_q_matrix(random_upper(&mut rng, -128, 128)).unwrap();
    assert_eq!(0, sut.evaluate(&QuboSolution::zeros(PROBLEM_SIZE)));
}

#[test]
fn symmetric_storage_doubles_off_diagonal() {
    let sut = QuboProblem::try_from_q_matrix(vec![vec![3, 5], vec![0, -2]]).unwrap();
    assert_eq!(sut.get_dense(), vec![vec![3, 5], vec![5, -2]]);
    assert_eq!(sut.evaluate(&QuboSolution(vec![1, 1])), 3 + 10 - 2);
    assert_eq!(sut.delta_evaluate_k(&QuboSolution(vec![0, 0]), 0), 3);
    assert_eq!(sut.delta_evaluate_k(&QuboSolution(vec![0, 1]), 0), 13);
    assert_eq!(sut.flip_j_and_delta_evaluate_k(&QuboSolution(vec![0, 0]), 3, 1, 0), 13);
    assert_eq!(sut.flip_j_and_delta_evaluate_k(&QuboSolution(vec![0, 0]), 3, 0, 0), -3);
}

#[test]
fn triplets_add_up_at_the_same_position() {
    let sut = QuboProblem::try_from_triplets(2, vec![(0, 1, 2), (0, 1, 3), (1, 0, 1), (1, 1, 4)])
        .unwrap();
    assert_eq!(sut.get_dense(), vec![vec![0, 6], vec![6, 4]]);
    assert_eq!(sut.get_size(), 2);
}

#[test]
fn non_square_matrix_is_rejected() {
    let r = QuboProblem::try_from_q_matrix(vec![vec![1, 2, 3], vec![0, 1, 2]]);
    assert_eq!(r.err(), Some(QuboError::IncorrectSize));
}

#[test]
fn triplet_out_of_range_is_rejected() {
    let r = QuboProblem::try_from_triplets(2, vec![(0, 2, 1)]);
    assert_eq!(r.err(), Some(QuboError::InvalidTriplets));
}

#[test]
fn oversized_coefficient_is_rejected() {
    let r = QuboProblem::try_from_triplets(2, vec![(0, 1, 2_000_000)]);
    assert_eq!(r.err(), Some(QuboError::TooLarge));
    let r = QuboProblem::try_from_q_matrix(vec![vec![0, 600_000], vec![600_000, 0]]);
    assert_eq!(r.err(), Some(QuboError::TooLarge));
}

#[test]
fn ising_offset_and_matrix() {
    let (p, offset) =
        QuboProblem::try_from_ising_triplets(2, vec![(0, 1, 3), (0, 1, 0)], vec![(0, 2), (1, -1)]).unwrap();
    assert_eq!(offset, 3 - (2 - 1));
    assert_eq!(p.get_dense(), vec![vec![4 - 6, 6], vec![6, -2 - 6]]);
    let (h, j, off) = p.get_ising();
    assert_eq!(h, vec![4 * 2, 4 * -1]);
    assert_eq!(j, vec![vec![0, 4 * 3], vec![0, 0]]);
    assert_eq!(off, (4 - 6) + 6 + (-2 - 6));
}

#[test]
fn ising_energy_matches_the_hamiltonian() {
    let mut rng = thread_rng();
    let n = 6;
    let mut js: Vec<(usize, usize, QuboType)> = Vec::new();
    for _ in 0..10 {
        js.push((rng.gen_range(0..n), rng.gen_range(0..n), rng.gen_range(-5..5)));
    }
    let hs: Vec<(usize, QuboType)> = (0..n).map(|i| (i, rng.gen_range(-5..5))).collect();
    let (p, offset) = QuboProblem::try_from_ising_triplets(n, js.clone(), hs.clone()).unwrap();
    for m in 0..(1u32 << n) {
        let x: Vec<QuboType> = (0..n).map(|i| ((m >> i) & 1) as QuboType).collect();
        let sigma: Vec<QuboType> = x.iter().map(|b| 2 * b - 1).collect();
        let h: QuboType = hs.iter().map(|(i, v)| v * sigma[*i]).sum::<QuboType>()
            + js.iter().map(|(i, j, v)| v * sigma[*i] * sigma[*j]).sum::<QuboType>();
        assert_eq!(p.evaluate(&QuboSolution(x)) + offset, h);
    }
}

#[test]
fn flip_changes_one_bit() {
    let x = QuboSolution(vec![0, 1, 0]);
    assert_eq!(x.flip(1), QuboSolution(vec![0, 0, 0]));
    assert_eq!(x.flip(2), QuboSolution(vec![0, 1, 1]));
    assert_eq!(x.count_ones(), 1);
}

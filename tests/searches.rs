use quadratic_assignment_problem::solver::random_walk::walk_step;
use quadratic_assignment_problem::solver::random_search::keep_cheaper;
use quadratic_assignment_problem::solver::simulated_annealing::delta_size;
use quadratic_assignment_problem::get_random_permutation;
use quadratic_assignment_problem::instance::Instance;
use quadratic_assignment_problem::solver::local_search::greedy::GreedySolver;
use quadratic_assignment_problem::solver::local_search::local_search;
use quadratic_assignment_problem::solver::local_search::steepest::SteepestSolver;
use quadratic_assignment_problem::solver::random_search::RandomSearchSolver;
use quadratic_assignment_problem::solver::random_walk::{random_walk, RandomWalkSolver};
use quadratic_assignment_problem::solver::simulated_annealing::{sample_delta_total, AnnealingState};
use quadratic_assignment_problem::solver::tabu_search::TabuSearchAlgorithm;
use quadratic_assignment_problem::solver::{eval_diff, Solver};

fn random_instance(n: usize) -> Instance {
    let mut a = Vec::new();
    let mut b = Vec::new();
    for _ in 0..n {
        a.push((0..n).map(|_| rand::random::<usize>() % 10).collect::<Vec<usize>>());
        b.push((0..n).map(|_| rand::random::<usize>() % 10).collect::<Vec<usize>>());
    }
    Instance::new(a, b, 0, Vec::new())
}

fn is_permutation(p: &[usize], n: usize) -> bool {
    let mut sorted = p.to_vec();
    sorted.sort();
    sorted == (0..n).collect::<Vec<usize>>()
}

fn is_local_optimum(instance: &Instance, p: &[usize]) -> bool {
    let n = p.len();
    (0..n * (n - 1) / 2).all(|k| eval_diff(instance, p, k) <= 0)
}

#[test]
fn greedy_never_worsens_and_ends_in_local_optimum() {
    for n in 2..=8usize {
        for _ in 0..10 {
            let instance = random_instance(n);
            let start = get_random_permutation(n);
            let mut solver = GreedySolver::new(&instance, u128::MAX);
            let solution = solver.solve(start.clone()).unwrap();
            assert!(is_permutation(&solution.permutation, n));
            assert!(instance.evaluate(&solution.permutation) <= instance.evaluate(&start));
            assert!(is_local_optimum(&instance, &solution.permutation));
            assert!(solution.evaluations >= n * (n - 1) / 2);
        }
    }
}

#[test]
fn steepest_never_worsens_and_ends_in_local_optimum() {
    for n in 2..=8usize {
        for _ in 0..10 {
            let instance = random_instance(n);
            let start = get_random_permutation(n);
            let mut solver = SteepestSolver::new(&instance, u128::MAX);
            let solution = solver.solve(start.clone()).unwrap();
            assert!(is_permutation(&solution.permutation, n));
            assert!(instance.evaluate(&solution.permutation) <= instance.evaluate(&start));
            assert!(is_local_optimum(&instance, &solution.permutation));
        }
    }
}

#[test]
fn steepest_stops_on_flat_instance() {
    let instance = Instance::new(vec![vec![1; 4]; 4], vec![vec![2; 4]; 4], 0, Vec::new());
    let mut solver = SteepestSolver::new(&instance, u128::MAX);
    let solution = solver.solve(vec![0, 1, 2, 3]).unwrap();
    // Every move keeps the cost: ten plateau moves, then the search stops.
    assert_eq!(solution.solution_changes, 10);
    assert_eq!(solution.evaluations, 60);
    assert_eq!(instance.evaluate(&solution.permutation), 32);
}

#[test]
fn zero_time_limit_returns_start() {
    let instance = random_instance(6);
    let start = get_random_permutation(6);
    let mut greedy = GreedySolver::new(&instance, 0);
    assert!(is_permutation(&greedy.solve(start.clone()).unwrap().permutation, 6));
    let mut walk = RandomWalkSolver::new(&instance, 1000, 0);
    let solution = walk.solve(start.clone()).unwrap();
    assert_eq!(solution.permutation, start);
    assert_eq!(solution.evaluations, 0);
}

#[test]
fn time_limits_are_kept() {
    let instance = random_instance(5);
    let mut solver = GreedySolver::new(&instance, 7);
    assert_eq!(solver.get_time_limit(), 7);
    solver.set_time_limit(11);
    assert_eq!(solver.get_time_limit(), 11);
    assert_eq!(solver.get_name(), "GreedySolver");
    let mut steepest = SteepestSolver::new(&instance, 3);
    steepest.set_time_limit(4);
    assert_eq!(steepest.get_time_limit(), 4);
    assert_eq!(steepest.get_name(), "SteepestSolver");
    assert_eq!(steepest.get_instance().get_size(), 5);
}

#[test]
fn random_search_keeps_cheapest_draw() {
    let instance = random_instance(6);
    let mut solver = RandomSearchSolver::new(&instance, 500, u128::MAX);
    let solution = solver.solve(vec![0, 1, 2, 3, 4, 5]).unwrap();
    assert!(is_permutation(&solution.permutation, 6));
    assert_eq!(solution.evaluations, 501);
    assert!(solution.solution_changes <= 500);
    assert_eq!(solver.get_name(), "RandomSearchSolver");
}

#[test]
fn random_walk_returns_permutations() {
    let instance = random_instance(7);
    let start = get_random_permutation(7);
    let mut solver = RandomWalkSolver::new(&instance, 300, u128::MAX);
    let solution = solver.solve(start.clone()).unwrap();
    assert!(is_permutation(&solution.permutation, 7));
    assert_eq!(solution.evaluations, 300);
    assert!(is_permutation(&random_walk(&instance, start, 300), 7));
    assert_eq!(solver.get_name(), "RandomWalkSolver");
}

#[test]
fn local_search_reaches_local_optimum() {
    for n in 2..=7usize {
        let instance = random_instance(n);
        let start = get_random_permutation(n);
        let result = local_search(&instance, start.clone());
        assert!(is_permutation(&result, n));
        assert!(instance.evaluate(&result) <= instance.evaluate(&start));
        assert!(is_local_optimum(&instance, &result));
    }
}

#[test]
fn tabu_search_never_worsens() {
    for n in 2..=8usize {
        for _ in 0..5 {
            let instance = random_instance(n);
            let start = get_random_permutation(n);
            let result = TabuSearchAlgorithm::new(&instance, start.clone()).solve();
            assert!(is_permutation(&result, n));
            assert!(instance.evaluate(&result) <= instance.evaluate(&start));
        }
    }
}

#[test]
fn tabu_search_improves_known_start() {
    let instance = Instance::new(
        vec![vec![0, 5, 0], vec![5, 0, 1], vec![0, 1, 0]],
        vec![vec![0, 1, 9], vec![1, 0, 2], vec![9, 2, 0]],
        0,
        Vec::new(),
    );
    let start = vec![0, 2, 1];
    assert_eq!(instance.evaluate(&start), 2 * (5 * 9 + 1 * 2));
    let result = TabuSearchAlgorithm::new(&instance, start).solve();
    assert!(instance.evaluate(&result) < 94);
}

#[test]
fn annealing_step_follows_decision() {
    let instance = Instance::new(
        vec![vec![1, 0], vec![0, 0]],
        vec![vec![0, 0], vec![0, 7]],
        0,
        Vec::new(),
    );
    let mut state = AnnealingState::new(vec![0, 1]);
    // Move 0 on [0, 1] raises the cost from 0 to 7.
    state.step(&instance, 0, -7, false);
    assert_eq!(state.permutation, vec![0, 1]);
    assert_eq!(state.no_improvement_iterations, 1);
    state.step(&instance, 0, -7, true);
    assert_eq!(state.permutation, vec![1, 0]);
    assert_eq!(state.no_improvement_iterations, 2);
    assert_eq!(state.solution_changes, 1);
    let (k, delta) = state.propose(&instance);
    assert_eq!((k, delta), (0, 7));
    state.step(&instance, k, delta, false);
    assert_eq!(state.permutation, vec![0, 1]);
    assert_eq!(state.no_improvement_iterations, 0);
    assert_eq!(state.evaluations, 3);
    assert!(!state.is_finished());
}

#[test]
fn annealing_sample_total_is_bounded() {
    let flat = Instance::new(vec![vec![3; 5]; 5], vec![vec![4; 5]; 5], 0, Vec::new());
    assert_eq!(sample_delta_total(&flat), 0);
    let instance = random_instance(5);
    assert!(sample_delta_total(&instance) <= 100 * 2 * 25 * 81);
}

#[test]
fn annealing_run_ends_with_permutation() {
    let instance = random_instance(6);
    let mut state = AnnealingState::new(get_random_permutation(6));
    let mut temperature = sample_delta_total(&instance) as f64 / 100.0 / -(0.9f64.ln()) + 1.0;
    while !state.is_finished() {
        for _ in 0..1000 {
            let (k, delta) = state.propose(&instance);
            let accept = delta <= 0 && (delta as f64 / temperature).exp() > rand::random::<f64>();
            state.step(&instance, k, delta, accept);
        }
        temperature *= 0.95;
    }
    assert!(is_permutation(&state.permutation, 6));
    assert!(state.no_improvement_iterations >= 200_000);
}

#[test]
fn short_time_limit_stops_search() {
    let instance = random_instance(60);
    let start = get_random_permutation(60);
    let began = std::time::Instant::now();
    let mut solver = SteepestSolver::new(&instance, 1_000_000);
    let solution = solver.solve(start).unwrap();
    assert!(is_permutation(&solution.permutation, 60));
    assert!(began.elapsed().as_millis() < 2_000);
}

#[test]
fn walk_step_records_only_improvements() {
    let instance = Instance::new(
        vec![vec![1, 0], vec![0, 0]],
        vec![vec![0, 0], vec![0, 7]],
        0,
        Vec::new(),
    );
    let mut current = vec![0, 1];
    let mut best = vec![0, 1];
    // [0, 1] costs 0 and [1, 0] costs 7.
    assert!(!walk_step(&instance, &mut current, &mut best, 0));
    assert_eq!(current, vec![1, 0]);
    assert_eq!(best, vec![0, 1]);
    assert!(walk_step(&instance, &mut current, &mut best, 0));
    assert_eq!(current, vec![0, 1]);
    assert_eq!(best, vec![0, 1]);
}

#[test]
fn keep_cheaper_keeps_strictly_cheaper_draws() {
    let mut best = vec![0, 1, 2];
    let mut best_cost = 10;
    assert!(!keep_cheaper(&mut best, &mut best_cost, vec![2, 1, 0], 10));
    assert_eq!((best.clone(), best_cost), (vec![0, 1, 2], 10));
    assert!(keep_cheaper(&mut best, &mut best_cost, vec![1, 0, 2], 4));
    assert_eq!((best, best_cost), (vec![1, 0, 2], 4));
}

#[test]
fn delta_size_is_absolute_change() {
    let instance = Instance::new(
        vec![vec![1, 0], vec![0, 0]],
        vec![vec![0, 0], vec![0, 7]],
        0,
        Vec::new(),
    );
    assert_eq!(delta_size(&instance, &vec![0, 1], 0), 7);
    assert_eq!(delta_size(&instance, &vec![1, 0], 0), 7);
}

#[test]
fn greedy_counters_match_cost_drop() {
    for n in 2..=7usize {
        let instance = random_instance(n);
        let start = get_random_permutation(n);
        let mut solver = GreedySolver::new(&instance, u128::MAX);
        let solution = solver.solve(start.clone()).unwrap();
        let moves = n * (n - 1) / 2;
        assert!(instance.evaluate(&solution.permutation) + solution.solution_changes <= instance.evaluate(&start));
        assert!(solution.solution_changes <= solution.evaluations);
        assert!(solution.evaluations <= (solution.solution_changes + 1) * moves);
        if solution.solution_changes == 0 {
            assert_eq!(solution.permutation, start);
        }
    }
}

#[test]
fn steepest_counts_one_sweep_per_move() {
    for n in 2..=7usize {
        let instance = random_instance(n);
        let start = get_random_permutation(n);
        let mut solver = SteepestSolver::new(&instance, u128::MAX);
        let solution = solver.solve(start.clone()).unwrap();
        let moves = n * (n - 1) / 2;
        assert_eq!(solution.evaluations, solution.solution_changes * moves);
        let drop = instance.evaluate(&start) - instance.evaluate(&solution.permutation);
        assert!(solution.solution_changes <= 11 * drop + 10);
    }
}

#[test]
fn tabu_search_takes_improving_first_move() {
    let instance = Instance::new(
        vec![vec![0, 5, 0], vec![5, 0, 1], vec![0, 1, 0]],
        vec![vec![0, 1, 9], vec![1, 0, 2], vec![9, 2, 0]],
        0,
        Vec::new(),
    );
    // From [0, 2, 1] (cost 94) the cheapest reachable by one move is 14.
    let result = TabuSearchAlgorithm::new(&instance, vec![0, 2, 1]).solve();
    assert_eq!(instance.evaluate(&result), 14);
}

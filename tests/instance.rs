use quadratic_assignment_problem::argsort;
use quadratic_assignment_problem::instance::{Instance, Solver};
use quadratic_assignment_problem::solver::heuristic_solver::HeuristicSolver;
use quadratic_assignment_problem::solver::Solver as SearchSolver;

fn small_instance() -> Instance {
    Instance::new(
        vec![
            vec![1, 1, 0, 0],
            vec![0, 1, 1, 1],
            vec![1, 0, 1, 1],
            vec![0, 0, 1, 0],
        ],
        vec![
            vec![0, 1, 0, 0],
            vec![1, 1, 1, 1],
            vec![0, 0, 1, 1],
            vec![0, 1, 0, 0],
        ],
        0,
        vec![3, 2, 0, 1],
    )
}

#[test]
fn permutation_correct() {
    let sums_a = [2, 4, 5, 1];
    let sums_b = [1, 7, 2, 3];
    let instance = small_instance();
    let solver = Solver::new(&instance);
    let permutation = solver.greedy_mapping(&sums_a, &sums_b);

    assert_eq!([3, 2, 0, 1], *permutation);
}

#[test]
fn heuristic_matches_row_sums_end_to_end() {
    let instance = small_instance();
    let mut solver = HeuristicSolver::new(&instance);
    let solution = solver.solve(vec![0, 1, 2, 3]).unwrap();
    // Row sums A = [2, 3, 3, 1], B = [1, 4, 2, 1]; equal sums keep index order.
    assert_eq!(solution.permutation, vec![2, 0, 3, 1]);
    assert_eq!(instance.evaluate(&solution.permutation), 4);
    assert_eq!(solution.evaluations, 0);
    assert_eq!(solution.solution_changes, 0);
}

#[test]
fn evaluate_sums_all_terms() {
    let instance = small_instance();
    assert_eq!(instance.evaluate(&[0, 1, 2, 3]), 6);
    assert_eq!(instance.evaluate(&[3, 2, 0, 1]), 3);
    assert_eq!(instance.evaluate(&[2, 0, 3, 1]), 4);
}

#[test]
fn instance_getters() {
    let instance = small_instance();
    assert_eq!(instance.get_size(), 4);
    assert_eq!(instance.get_matrix_a()[1], vec![0, 1, 1, 1]);
    assert_eq!(instance.get_matrix_b()[2], vec![0, 0, 1, 1]);
    assert_eq!(instance.optimal_cost, 0);
}

#[test]
fn solutions_distance_counts_differences() {
    let instance = small_instance();
    assert_eq!(instance.get_solutions_distance(&vec![3, 2, 0, 1]), 0);
    assert_eq!(instance.get_solutions_distance(&vec![3, 2, 1, 0]), 2);
    assert_eq!(instance.get_solutions_distance(&vec![0, 1, 2, 3]), 4);
    assert_eq!(instance.get_solutions_distance(&vec![0, 2]), 1);
}

#[test]
fn argsort_keeps_index_order_on_ties() {
    assert_eq!(argsort(&[5, 1, 5, 0, 1], true), vec![3, 1, 4, 0, 2]);
    assert_eq!(argsort(&[5, 1, 5, 0, 1], false), vec![0, 2, 1, 4, 3]);
    assert_eq!(argsort(&[], true), Vec::<usize>::new());
}

#[test]
fn column_sums_and_split_cost() {
    let instance = small_instance();
    let solver = Solver::new(&instance);
    assert_eq!(solver.get_columns_sum(&instance.matrix_a), vec![2, 2, 3, 2]);
    assert_eq!(solver.get_columns_sum(&instance.matrix_b), vec![1, 3, 2, 2]);
    assert_eq!(
        solver.compute_cost(&[0, 1, 2, 3], &[0, 1, 2, 3], &instance.matrix_a, &instance.matrix_b),
        6
    );
    let (rows, columns, cost) = solver.solve();
    assert_eq!(rows, vec![2, 0, 3, 1]);
    assert_eq!(columns, vec![1, 2, 0, 3]);
    assert_eq!(cost, 3);
}

#[test]
fn well_formed_instances() {
    assert!(small_instance().is_well_formed());
    let ragged = Instance::new(vec![vec![1, 2], vec![3]], vec![vec![0, 0], vec![0, 0]], 0, Vec::new());
    assert!(!ragged.is_well_formed());
    let mismatched = Instance::new(vec![vec![1, 2], vec![3, 4]], vec![vec![0, 0]], 0, Vec::new());
    assert!(!mismatched.is_well_formed());
    let huge = Instance::new(
        vec![vec![usize::MAX, 0], vec![0, 0]],
        vec![vec![1, 0], vec![0, 0]],
        0,
        Vec::new(),
    );
    assert!(!huge.is_well_formed());
    let products = Instance::new(
        vec![vec![1 << 31, 0], vec![0, 0]],
        vec![vec![1 << 31, 0], vec![0, 0]],
        0,
        Vec::new(),
    );
    assert!(!products.is_well_formed());
    let empty = Instance::new(Vec::new(), Vec::new(), 0, Vec::new());
    assert!(empty.is_well_formed());
}

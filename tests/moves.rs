use quadratic_assignment_problem::solver::calculate_swap_indices;
use quadratic_assignment_problem::instance::Instance;
use quadratic_assignment_problem::solver::{
    dot_product_permuted, dot_product_permuted_with_swap, eval_diff, move_to_neighbour,
};
use quadratic_assignment_problem::{get_random_pair, get_random_permutation};

fn random_instance(n: usize) -> Instance {
    let mut a = Vec::new();
    let mut b = Vec::new();
    for _ in 0..n {
        a.push((0..n).map(|_| rand::random::<usize>() % 10).collect::<Vec<usize>>());
        b.push((0..n).map(|_| rand::random::<usize>() % 10).collect::<Vec<usize>>());
    }
    Instance::new(a, b, 0, Vec::new())
}

fn is_permutation(p: &[usize], n: usize) -> bool {
    let mut seen = vec![false; n];
    p.len() == n
        && p.iter().all(|&x| {
            if x >= n || seen[x] {
                false
            } else {
                seen[x] = true;
                true
            }
        })
}

/// Positions swapped by move k on a permutation of size n.
fn swapped_pair(n: usize, k: usize) -> (usize, usize) {
    let identity: Vec<usize> = (0..n).collect();
    let moved = move_to_neighbour(identity, k);
    let diff: Vec<usize> = (0..n).filter(|&i| moved[i] != i).collect();
    assert_eq!(diff.len(), 2);
    assert_eq!(moved[diff[0]], diff[1]);
    assert_eq!(moved[diff[1]], diff[0]);
    (diff[0], diff[1])
}

#[test]
fn move_numbering_round_trip() {
    for n in 2..=9usize {
        let mut k = 0;
        for i in 0..n {
            for j in i + 1..n {
                assert_eq!(swapped_pair(n, k), (i, j));
                k += 1;
            }
        }
        assert_eq!(k, n * (n - 1) / 2);
    }
}

#[test]
fn move_numbering_first_and_last() {
    assert_eq!(swapped_pair(2, 0), (0, 1));
    assert_eq!(swapped_pair(5, 0), (0, 1));
    assert_eq!(swapped_pair(5, 3), (0, 4));
    assert_eq!(swapped_pair(5, 4), (1, 2));
    assert_eq!(swapped_pair(5, 9), (3, 4));
    assert_eq!(swapped_pair(200, 199 * 100 - 1), (198, 199));
}

#[test]
fn move_to_neighbour_swaps_two_entries() {
    assert_eq!(move_to_neighbour(vec![3, 2, 0, 1], 0), vec![2, 3, 0, 1]);
    assert_eq!(move_to_neighbour(vec![3, 2, 0, 1], 5), vec![3, 2, 1, 0]);
}

#[test]
fn delta_matches_full_evaluation() {
    for n in 2..=8usize {
        for _ in 0..20 {
            let instance = random_instance(n);
            let perm = get_random_permutation(n);
            for k in 0..n * (n - 1) / 2 {
                let before = instance.evaluate(&perm) as isize;
                let after = instance.evaluate(&move_to_neighbour(perm.clone(), k)) as isize;
                assert_eq!(eval_diff(&instance, &perm, k), before - after);
            }
        }
    }
}

#[test]
fn delta_sign_on_small_instance() {
    let instance = Instance::new(
        vec![vec![0, 5], vec![5, 0]],
        vec![vec![0, 1], vec![3, 0]],
        0,
        Vec::new(),
    );
    assert_eq!(instance.evaluate(&[0, 1]), 20);
    assert_eq!(instance.evaluate(&[1, 0]), 20);
    assert_eq!(eval_diff(&instance, &[0, 1], 0), 0);
    let lopsided = Instance::new(
        vec![vec![1, 0], vec![0, 0]],
        vec![vec![0, 0], vec![0, 7]],
        0,
        Vec::new(),
    );
    assert_eq!(eval_diff(&lopsided, &[0, 1], 0), -7);
    assert_eq!(eval_diff(&lopsided, &[1, 0], 0), 7);
}

#[test]
fn moves_keep_permutations() {
    for n in 2..=10usize {
        let mut perm = get_random_permutation(n);
        for _ in 0..200 {
            let k = rand::random::<usize>() % (n * (n - 1) / 2);
            perm = move_to_neighbour(perm, k);
            assert!(is_permutation(&perm, n));
        }
    }
}

#[test]
fn random_permutations_are_permutations() {
    for n in 1..=20usize {
        for _ in 0..20 {
            assert!(is_permutation(&get_random_permutation(n), n));
        }
    }
}

#[test]
fn random_pairs_are_distinct() {
    for n in 2..=6usize {
        for _ in 0..100 {
            let (x, y) = get_random_pair(n);
            assert!(x < n && y < n && x != y);
        }
    }
}

#[test]
fn dot_products() {
    let row_a = [1, 2, 3];
    let row_b = [10, 20, 30];
    assert_eq!(dot_product_permuted(&row_a, &row_b, &[2, 0, 1]), 30 + 20 + 60);
    assert_eq!(dot_product_permuted_with_swap(&row_a, &row_b, &[2, 0, 1], 0, 2), 20 + 20 + 90);
    assert_eq!(dot_product_permuted_with_swap(&row_a, &row_b, &[2, 0, 1], 1, 1), 110);
}

#[test]
fn swap_indices_invert_numbering() {
    for n in 2..=30usize {
        let mut k = 0;
        for i in 0..n {
            for j in i + 1..n {
                assert_eq!(calculate_swap_indices(n, k), (i, j));
                k += 1;
            }
        }
    }
}

//! Best-improvement descent without a time limit.
use vstd::prelude::*;

pub use super::greedy;
pub use super::steepest;

use crate::instance::{is_permutation, Instance};
use crate::solver::{
    apply_move, compute_num_neighbours, eval_diff, is_local_optimum, lemma_move_preserves_permutation,
    move_to_neighbour, num_moves,
};

verus! {

/// Steepest descent from `starting_perm`: each sweep evaluates every move and takes
/// one, drawn at random, among those that lower the cost most; stops at the first
/// sweep in which no move lowers the cost.
pub fn local_search(instance: &Instance, starting_perm: Vec<usize>) -> (r: Vec<usize>)
    requires
        instance.wf(),
        instance.size >= 2,
        is_permutation(starting_perm@, instance.size as int),
    ensures
        is_permutation(r@, instance.size as int),
        instance.cost(r@) <= instance.cost(starting_perm@),
        is_local_optimum(*instance, r@),
{
    let n = starting_perm.len();
    let ghost initial = starting_perm@;
    let mut perm = starting_perm;
    let num_neighbours = compute_num_neighbours(n);
    let mut best_neighbours: Vec<usize> = vec![0; num_neighbours];
    proof {
        crate::instance::lemma_cost_bounds(instance, perm@);
    }
    loop
        invariant
            instance.wf(),
            n == instance.size,
            n >= 2,
            num_neighbours == num_moves(n as int),
            best_neighbours@.len() == num_neighbours,
            is_permutation(perm@, n as int),
            instance.cost(perm@) <= instance.cost(initial),
            0 <= instance.cost(perm@),
        ensures
            is_permutation(perm@, n as int),
            instance.cost(perm@) <= instance.cost(initial),
            is_local_optimum(*instance, perm@),
        decreases instance.cost(perm@),
    {
        let ghost p = perm@;
        let mut best_neighbours_num: usize = 0;
        let mut best_neighbour_diff: isize = 0;
        let mut neighbour_idx: usize = 0;
        while neighbour_idx < num_neighbours
            invariant
                instance.wf(),
                n == instance.size,
                n >= 2,
                num_neighbours == num_moves(n as int),
                best_neighbours@.len() == num_neighbours,
                p == perm@,
                is_permutation(p, n as int),
                neighbour_idx <= num_neighbours,
                best_neighbours_num <= neighbour_idx,
                best_neighbour_diff >= 0,
                best_neighbour_diff > 0 ==> best_neighbours_num >= 1,
                forall|k: int|
                    0 <= k < neighbour_idx ==> instance.cost(p) - instance.cost(
                        #[trigger] apply_move(p, k),
                    ) <= best_neighbour_diff,
                forall|x: int|
                    0 <= x < best_neighbours_num ==> #[trigger] best_neighbours@[x]
                        < num_neighbours && instance.cost(p) - instance.cost(
                        apply_move(p, best_neighbours@[x] as int),
                    ) == best_neighbour_diff,
            decreases num_neighbours - neighbour_idx,
        {
            let diff = eval_diff(instance, perm.as_slice(), neighbour_idx);
            if diff == best_neighbour_diff {
                best_neighbours.set(best_neighbours_num, neighbour_idx);
                best_neighbours_num = best_neighbours_num + 1;
            } else if diff > best_neighbour_diff {
                best_neighbour_diff = diff;
                best_neighbours.set(0, neighbour_idx);
                best_neighbours_num = 1;
            }
            neighbour_idx = neighbour_idx + 1;
        }
        if best_neighbour_diff == 0 {
            break;
        }
        let pick = rand::random::<usize>() % best_neighbours_num;
        let chosen = best_neighbours[pick];
        proof {
            lemma_move_preserves_permutation(p, chosen as int);
            crate::instance::lemma_cost_bounds(instance, apply_move(p, chosen as int));
        }
        perm = move_to_neighbour(perm, chosen);
    }
    perm
}

} // verus!

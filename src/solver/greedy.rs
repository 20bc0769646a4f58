//! First-improvement descent.
use vstd::prelude::*;

use crate::{get_random_permutation, holds_value, lemma_permutation_covers};
use crate::instance::{is_permutation, Instance};
use crate::solver::{
    apply_move, compute_num_neighbours, descent_path, descent_step, elapsed_nanos, eval_diff,
    is_local_optimum, lemma_descent_path_extend, lemma_descent_path_start,
    lemma_move_preserves_permutation, move_to_neighbour, num_moves, Solution, Solver, SolvingError,
};

verus! {

/// Greedy descent: sweeps the moves in a fresh random order and takes the first
/// one that lowers the cost; stops when a whole sweep finds none, or when the
/// time limit has passed.
pub struct GreedySolver<'a> {
    instance: &'a Instance,
    max_time: u128,
}

impl<'a> GreedySolver<'a> {
    pub fn new(instance: &'a Instance, max_time: u128) -> (r: GreedySolver<'a>)
        ensures
            r.instance_view() == *instance,
            r.time_limit_view() == max_time,
    {
        GreedySolver { instance, max_time }
    }
}

impl<'a> Solver for GreedySolver<'a> {
    closed spec fn instance_view(&self) -> Instance {
        *self.instance
    }

    closed spec fn time_limit_view(&self) -> u128 {
        self.max_time
    }

    /// The result comes from the start by `solution_changes` moves, each lowering
    /// the cost (so by at least one); each sweep evaluates at most every move once;
    /// without a time limit the result is a local optimum.
    open spec fn promises(&self, initial: Seq<usize>, solution: Solution) -> bool {
        let inst = self.instance_view();
        let result = solution.permutation@;
        &&& inst.cost(result) + solution.solution_changes <= inst.cost(initial)
        &&& descent_path(inst, initial, result, solution.solution_changes as nat, false)
        &&& solution.solution_changes <= solution.evaluations
        &&& solution.evaluations <= (solution.solution_changes + 1) * num_moves(inst.size as int)
        &&& self.time_limit_view() == u128::MAX ==> is_local_optimum(inst, result)
    }

    fn solve(&mut self, initial_solution: Vec<usize>) -> (r: Result<Solution, SolvingError>) {
        let n = initial_solution.len();
        let ghost initial = initial_solution@;
        let ghost inst = *self.instance;
        let mut starting_perm = initial_solution;
        let num_neighbours = compute_num_neighbours(n);
        let mut solutions_evaluated: usize = 0;
        let mut solutions_changes: usize = 0;
        let start = std::time::Instant::now();
        proof {
            crate::instance::lemma_cost_bounds(self.instance, starting_perm@);
            assert(0 * num_neighbours == 0);
            lemma_descent_path_start(inst, initial, false);
        }
        loop
            invariant_except_break
                solutions_evaluated <= solutions_changes * num_neighbours,
            invariant
                self.instance.wf(),
                inst == *self.instance,
                n == self.instance.size,
                n >= 2,
                num_neighbours == num_moves(n as int),
                num_neighbours >= 1,
                is_permutation(starting_perm@, n as int),
                self.instance.cost(starting_perm@) + solutions_changes <= self.instance.cost(initial),
                self.instance.cost(initial) <= isize::MAX,
                0 <= self.instance.cost(starting_perm@),
                solutions_changes <= solutions_evaluated,
                descent_path(inst, initial, starting_perm@, solutions_changes as nat, false),
            ensures
                solutions_evaluated <= (solutions_changes + 1) * num_neighbours,
                self.max_time == u128::MAX ==> is_local_optimum(*self.instance, starting_perm@),
            decreases self.instance.cost(starting_perm@),
        {
            let mut found_improvement = false;
            let mut best_neighbour_idx: usize = 0;
            let order = get_random_permutation(num_neighbours);
            let mut t: usize = 0;
            while t < order.len()
                invariant_except_break
                    !found_improvement,
                    solutions_evaluated <= solutions_changes * num_neighbours + t,
                invariant
                    self.instance.wf(),
                    n == self.instance.size,
                    n >= 2,
                    num_neighbours == num_moves(n as int),
                    is_permutation(starting_perm@, n as int),
                    is_permutation(order@, num_neighbours as int),
                    t <= order@.len(),
                    solutions_changes <= solutions_evaluated,
                    solutions_changes <= isize::MAX,
                    forall|x: int|
                        0 <= x < t ==> self.instance.cost(starting_perm@) <= self.instance.cost(
                            #[trigger] apply_move(starting_perm@, order@[x] as int),
                        ),
                ensures
                    solutions_evaluated <= solutions_changes * num_neighbours + num_neighbours,
                    found_improvement ==> best_neighbour_idx < num_neighbours
                        && self.instance.cost(apply_move(starting_perm@, best_neighbour_idx as int))
                        < self.instance.cost(starting_perm@)
                        && solutions_changes + 1 <= solutions_evaluated,
                    !found_improvement && self.max_time == u128::MAX ==> forall|x: int|
                        0 <= x < order@.len() ==> self.instance.cost(starting_perm@)
                            <= self.instance.cost(
                            #[trigger] apply_move(starting_perm@, order@[x] as int),
                        ),
                decreases order.len() - t,
            {
                let neighbour_idx = order[t];
                let diff = eval_diff(self.instance, starting_perm.as_slice(), neighbour_idx);
                solutions_evaluated = solutions_evaluated.saturating_add(1);
                if diff > 0 {
                    best_neighbour_idx = neighbour_idx;
                    found_improvement = true;
                    break;
                }
                if elapsed_nanos(&start) > self.max_time {
                    break;
                }
                t = t + 1;
            }
            proof {
                assert(solutions_changes * num_neighbours + num_neighbours == (solutions_changes + 1)
                    * num_neighbours) by (nonlinear_arith);
            }
            if !found_improvement || elapsed_nanos(&start) > self.max_time {
                proof {
                    if !found_improvement && self.max_time == u128::MAX {
                        lemma_permutation_covers(order@, num_neighbours as int);
                        assert forall|k: int| 0 <= k < num_moves(n as int) implies self.instance.cost(
                            starting_perm@,
                        ) <= self.instance.cost(#[trigger] apply_move(starting_perm@, k)) by {
                            assert(holds_value(order@, k));
                            let x = choose|x: int| 0 <= x < order@.len() && order@[x] == k;
                            assert(self.instance.cost(starting_perm@) <= self.instance.cost(
                                apply_move(starting_perm@, order@[x] as int),
                            ));
                        }
                    }
                }
                break;
            }
            let ghost before = starting_perm@;
            proof {
                lemma_move_preserves_permutation(starting_perm@, best_neighbour_idx as int);
                crate::instance::lemma_cost_bounds(
                    self.instance,
                    apply_move(starting_perm@, best_neighbour_idx as int),
                );
            }
            starting_perm = move_to_neighbour(starting_perm, best_neighbour_idx);
            proof {
                assert(descent_step(inst, before, starting_perm@, false)) by {
                    assert(apply_move(before, best_neighbour_idx as int) == starting_perm@);
                }
                lemma_descent_path_extend(
                    inst,
                    initial,
                    before,
                    starting_perm@,
                    solutions_changes as nat,
                    false,
                );
            }
            solutions_changes = solutions_changes + 1;
        }
        Ok(Solution {
            permutation: starting_perm,
            evaluations: solutions_evaluated,
            solution_changes: solutions_changes,
        })
    }

    open spec fn min_size(&self) -> nat {
        2
    }

    open spec fn name_view(&self) -> Seq<char> {
        "GreedySolver"@
    }

    fn get_name(&self) -> (r: String) {
        "GreedySolver".to_owned()
    }

    fn get_instance(&self) -> (r: &Instance) {
        self.instance
    }

    fn set_time_limit(&mut self, time_limit: u128) {
        self.max_time = time_limit;
    }

    fn get_time_limit(&self) -> (r: u128) {
        self.max_time
    }
}

} // verus!

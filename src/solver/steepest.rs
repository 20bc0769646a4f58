//! Best-improvement descent with a bounded number of plateau moves.
use vstd::prelude::*;

use crate::instance::{is_permutation, Instance};
use crate::solver::{
    apply_move, compute_num_neighbours, descent_path, descent_step, elapsed_nanos, eval_diff,
    is_local_optimum, lemma_descent_path_extend, lemma_descent_path_start,
    lemma_move_preserves_permutation, move_to_neighbour, num_moves, Solution, Solver, SolvingError,
};

verus! {

/// Consecutive sweeps whose best move leaves the cost unchanged after which the
/// search stops.
pub const MAX_PLATEAU_MOVES: usize = 10;

/// Steepest descent: each sweep evaluates every move and takes the one that lowers
/// the cost most (the first found, among equals). When no move lowers the cost,
/// one of the moves that keep it is taken at random, at most `MAX_PLATEAU_MOVES`
/// sweeps in a row. Stops when no move keeps or lowers the cost, or when the time
/// limit has passed.
pub struct SteepestSolver<'a> {
    instance: &'a Instance,
    max_time: u128,
}

impl<'a> SteepestSolver<'a> {
    pub fn new(instance: &'a Instance, max_time: u128) -> (r: SteepestSolver<'a>)
        ensures
            r.instance_view() == *instance,
            r.time_limit_view() == max_time,
    {
        SteepestSolver { instance, max_time }
    }
}

impl<'a> Solver for SteepestSolver<'a> {
    closed spec fn instance_view(&self) -> Instance {
        *self.instance
    }

    closed spec fn time_limit_view(&self) -> u128 {
        self.max_time
    }

    /// The result comes from the start by `solution_changes` moves that never raise
    /// the cost; without a time limit each is a best move of its sweep and the result
    /// is a local optimum. At most `MAX_PLATEAU_MOVES` moves in a row keep the cost,
    /// which bounds the moves by the cost they remove. Each move counts one full
    /// sweep of evaluations.
    open spec fn promises(&self, initial: Seq<usize>, solution: Solution) -> bool {
        let inst = self.instance_view();
        let result = solution.permutation@;
        let sweeps = solution.solution_changes * num_moves(inst.size as int);
        &&& inst.cost(result) <= inst.cost(initial)
        &&& descent_path(
            inst,
            initial,
            result,
            solution.solution_changes as nat,
            self.time_limit_view() == u128::MAX,
        )
        &&& solution.solution_changes <= (MAX_PLATEAU_MOVES + 1) * (inst.cost(initial) - inst.cost(
            result,
        )) + MAX_PLATEAU_MOVES
        &&& solution.evaluations == if sweeps <= usize::MAX {
            sweeps
        } else {
            usize::MAX as int
        }
        &&& self.time_limit_view() == u128::MAX && solution.solution_changes < usize::MAX
            ==> is_local_optimum(inst, result)
    }

    fn solve(&mut self, initial_solution: Vec<usize>) -> (r: Result<Solution, SolvingError>) {
        let n = initial_solution.len();
        let ghost initial = initial_solution@;
        let mut starting_perm = initial_solution;
        let num_neighbours = compute_num_neighbours(n);
        let mut solutions_evaluated: usize = 0;
        let mut solutions_changes: usize = 0;
        let mut best_neighbours: Vec<usize> = vec![0; num_neighbours];
        let start = std::time::Instant::now();
        let mut plateau_moves: usize = 0;
        let ghost inst = *self.instance;
        let ghost best_only = self.max_time == u128::MAX;
        proof {
            crate::instance::lemma_cost_bounds(self.instance, starting_perm@);
            assert(0 * num_neighbours == 0);
            lemma_descent_path_start(inst, initial, best_only);
        }
        loop
            invariant_except_break
                solutions_changes <= (MAX_PLATEAU_MOVES + 1) * (self.instance.cost(initial)
                    - self.instance.cost(starting_perm@)) + plateau_moves,
            invariant
                inst == *self.instance,
                best_only == (self.max_time == u128::MAX),
                descent_path(inst, initial, starting_perm@, solutions_changes as nat, best_only),
                solutions_evaluated == if solutions_changes * num_neighbours <= usize::MAX {
                    solutions_changes * num_neighbours
                } else {
                    usize::MAX as int
                },
                self.instance.cost(initial) <= isize::MAX,
                self.instance.wf(),
                n == self.instance.size,
                n >= 2,
                num_neighbours == num_moves(n as int),
                best_neighbours@.len() == num_neighbours,
                is_permutation(starting_perm@, n as int),
                self.instance.cost(starting_perm@) <= self.instance.cost(initial),
                0 <= self.instance.cost(starting_perm@),
                plateau_moves <= MAX_PLATEAU_MOVES,
            ensures
                solutions_changes <= (MAX_PLATEAU_MOVES + 1) * (self.instance.cost(initial)
                    - self.instance.cost(starting_perm@)) + MAX_PLATEAU_MOVES,
                self.max_time == u128::MAX && solutions_changes < usize::MAX ==> is_local_optimum(
                    *self.instance,
                    starting_perm@,
                ),
            decreases self.instance.cost(starting_perm@), MAX_PLATEAU_MOVES - plateau_moves,
        {
            let ghost p = starting_perm@;
            let ghost plateau_before = plateau_moves;
            let mut best_neighbours_num: usize = 0;
            let mut best_neighbour_diff: isize = 0;
            let mut neighbour_idx: usize = 0;
            while neighbour_idx < num_neighbours
                invariant_except_break
                    best_neighbours_num <= neighbour_idx,
                invariant
                    best_neighbours_num <= num_neighbours,
                    neighbour_idx <= num_neighbours,
                    self.instance.wf(),
                    n == self.instance.size,
                    n >= 2,
                    num_neighbours == num_moves(n as int),
                    best_neighbours@.len() == num_neighbours,
                    p == starting_perm@,
                    is_permutation(p, n as int),
                    neighbour_idx <= num_neighbours,
                    best_neighbour_diff >= 0,
                    best_neighbour_diff == 0 ==> plateau_moves == plateau_before,
                    best_neighbour_diff > 0 ==> plateau_moves == 0,
                    plateau_moves <= plateau_before,
                    forall|k: int|
                        0 <= k < neighbour_idx ==> self.instance.cost(p) - self.instance.cost(
                            #[trigger] apply_move(p, k),
                        ) <= best_neighbour_diff,
                    best_neighbours_num == 0 ==> best_neighbour_diff == 0 && forall|k: int|
                        0 <= k < neighbour_idx ==> self.instance.cost(p) - self.instance.cost(
                            #[trigger] apply_move(p, k),
                        ) < 0,
                    forall|x: int|
                        0 <= x < best_neighbours_num ==> #[trigger] best_neighbours@[x]
                            < num_neighbours && self.instance.cost(p) - self.instance.cost(
                            apply_move(p, best_neighbours@[x] as int),
                        ) == best_neighbour_diff,
                ensures
                    self.max_time == u128::MAX ==> neighbour_idx == num_neighbours,
                decreases num_neighbours - neighbour_idx,
            {
                let diff = eval_diff(self.instance, starting_perm.as_slice(), neighbour_idx);
                if diff == best_neighbour_diff && best_neighbour_diff == 0 {
                    best_neighbours.set(best_neighbours_num, neighbour_idx);
                    best_neighbours_num = best_neighbours_num + 1;
                } else if diff > best_neighbour_diff {
                    best_neighbour_diff = diff;
                    best_neighbours.set(0, neighbour_idx);
                    best_neighbours_num = 1;
                    plateau_moves = 0;
                }
                if elapsed_nanos(&start) > self.max_time {
                    break;
                }
                neighbour_idx = neighbour_idx + 1;
            }
            if best_neighbours_num == 0 || plateau_moves >= MAX_PLATEAU_MOVES || elapsed_nanos(
                &start,
            ) > self.max_time || solutions_changes == usize::MAX {
                break;
            }
            let ghost plateau_at_move = plateau_moves;
            if best_neighbour_diff == 0 {
                plateau_moves = plateau_moves + 1;
            }
            let pick = rand::random::<usize>() % best_neighbours_num;
            let chosen = best_neighbours[pick];
            proof {
                assert(solutions_changes * num_neighbours + num_neighbours == (solutions_changes + 1)
                    * num_neighbours) by (nonlinear_arith);
            }
            solutions_evaluated = solutions_evaluated.saturating_add(num_neighbours);
            proof {
                lemma_move_preserves_permutation(starting_perm@, chosen as int);
                crate::instance::lemma_cost_bounds(self.instance, apply_move(p, chosen as int));
            }
            starting_perm = move_to_neighbour(starting_perm, chosen);
            proof {
                assert(apply_move(p, chosen as int) == starting_perm@);
                assert(self.instance.cost(starting_perm@) == self.instance.cost(p) - best_neighbour_diff);
                if best_neighbour_diff > 0 {
                    assert(plateau_at_move == 0);
                    assert(plateau_before <= 10);
                    assert(solutions_changes <= 11 * (self.instance.cost(initial) - self.instance.cost(p))
                        + plateau_before);
                    let c0 = self.instance.cost(initial);
                    let cp = self.instance.cost(p);
                    let cn = self.instance.cost(starting_perm@);
                    assert(cn <= cp - 1);
                    assert(solutions_changes + 1 <= 11 * (c0 - cn)) by (nonlinear_arith)
                        requires
                            solutions_changes <= 11 * (c0 - cp) + plateau_before,
                            plateau_before <= 10,
                            cn <= cp - 1,
                    ;
                } else {
                    assert(plateau_moves == plateau_before + 1);
                }
                if best_only {
                    assert forall|j: int| 0 <= j < num_moves(p.len() as int) implies inst.cost(
                        starting_perm@,
                    ) <= inst.cost(#[trigger] apply_move(p, j)) by {
                        assert(self.instance.cost(p) - self.instance.cost(apply_move(p, j))
                            <= best_neighbour_diff);
                    }
                }
                assert(descent_step(inst, p, starting_perm@, best_only));
                lemma_descent_path_extend(
                    inst,
                    initial,
                    p,
                    starting_perm@,
                    solutions_changes as nat,
                    best_only,
                );
            }
            solutions_changes = solutions_changes + 1;
        }
        Ok(Solution {
            permutation: starting_perm,
            evaluations: solutions_evaluated,
            solution_changes: solutions_changes,
        })
    }

    open spec fn min_size(&self) -> nat {
        2
    }

    open spec fn name_view(&self) -> Seq<char> {
        "SteepestSolver"@
    }

    fn get_name(&self) -> (r: String) {
        "SteepestSolver".to_owned()
    }

    fn get_instance(&self) -> (r: &Instance) {
        self.instance
    }

    fn set_time_limit(&mut self, time_limit: u128) {
        self.max_time = time_limit;
    }

    fn get_time_limit(&self) -> (r: u128) {
        self.max_time
    }
}

} // verus!

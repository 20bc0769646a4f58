//! Pure random restarts.
use vstd::prelude::*;

use crate::get_random_permutation;
use crate::instance::{is_permutation, Instance};
use crate::solver::{elapsed_nanos, Solution, Solver, SolvingError};

verus! {

/// Random search: draws uniformly random permutations, evaluates each in full and
/// keeps the cheapest, for at most `max_iterations` draws and the time limit.
pub struct RandomSearchSolver<'a> {
    instance: &'a Instance,
    max_iterations: usize,
    max_time: u128,
}

impl<'a> RandomSearchSolver<'a> {
    pub fn new(instance: &'a Instance, max_iterations: usize, max_time: u128) -> (r:
        RandomSearchSolver<'a>)
        ensures
            r.instance_view() == *instance,
            r.time_limit_view() == max_time,
            r.max_iterations_view() == max_iterations,
    {
        RandomSearchSolver { instance, max_iterations, max_time }
    }

    /// The number of draws after the first one.
    pub closed spec fn max_iterations_view(&self) -> usize {
        self.max_iterations
    }
}

impl<'a> Solver for RandomSearchSolver<'a> {
    closed spec fn instance_view(&self) -> Instance {
        *self.instance
    }

    closed spec fn time_limit_view(&self) -> u128 {
        self.max_time
    }

    /// A random search evaluates its first draw and at most `max_iterations` more,
    /// and keeps fewer of them than it evaluates.
    open spec fn promises(&self, initial: Seq<usize>, solution: Solution) -> bool {
        &&& 1 <= solution.evaluations <= self.max_iterations_view() + 1
        &&& solution.solution_changes < solution.evaluations
    }

    fn solve(&mut self, _initial_solution: Vec<usize>) -> (r: Result<Solution, SolvingError>) {
        let n = self.instance.size;
        let mut best_permutation = get_random_permutation(n);
        let mut best_cost = self.instance.evaluate(best_permutation.as_slice());
        let ghost first_cost = best_cost;
        let mut solution_changes: usize = 0;
        let mut iteration: usize = 0;
        let start = std::time::Instant::now();
        proof {
            crate::instance::lemma_cost_bounds(self.instance, best_permutation@);
        }
        while iteration < self.max_iterations
            invariant
                self.instance.wf(),
                n == self.instance.size,
                n >= 2,
                is_permutation(best_permutation@, n as int),
                best_cost == self.instance.cost(best_permutation@),
                first_cost <= isize::MAX,
                solution_changes + best_cost <= first_cost,
                iteration <= self.max_iterations,
                solution_changes <= iteration,
            decreases self.max_iterations - iteration,
        {
            if elapsed_nanos(&start) >= self.max_time {
                break;
            }
            let permutation = get_random_permutation(n);
            let cost = self.instance.evaluate(permutation.as_slice());
            if keep_cheaper(&mut best_permutation, &mut best_cost, permutation, cost) {
                solution_changes = solution_changes + 1;
            }
            iteration = iteration + 1;
        }
        Ok(Solution {
            permutation: best_permutation,
            evaluations: iteration.saturating_add(1),
            solution_changes,
        })
    }

    open spec fn min_size(&self) -> nat {
        2
    }

    open spec fn name_view(&self) -> Seq<char> {
        "RandomSearchSolver"@
    }

    fn get_name(&self) -> (r: String) {
        "RandomSearchSolver".to_owned()
    }

    fn get_instance(&self) -> (r: &Instance) {
        self.instance
    }

    fn set_time_limit(&mut self, time_limit: u128) {
        self.max_time = time_limit;
    }

    fn get_time_limit(&self) -> (r: u128) {
        self.max_time
    }
}

/// Keeps the draw `draw` of cost `cost` as the best so far exactly when it is cheaper
/// than the best so far; returns whether it did.
pub fn keep_cheaper(best: &mut Vec<usize>, best_cost: &mut usize, draw: Vec<usize>, cost: usize) -> (r:
    bool)
    ensures
        r == (cost < *old(best_cost)),
        final(best)@ == if r {
            draw@
        } else {
            old(best)@
        },
        *final(best_cost) == if r {
            cost
        } else {
            *old(best_cost)
        },
{
    if cost < *best_cost {
        *best_cost = cost;
        *best = draw;
        true
    } else {
        false
    }
}

} // verus!

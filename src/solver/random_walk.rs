//! A walk of random moves that records where it improved.
use vstd::prelude::*;

use crate::instance::{is_permutation, Instance};
use crate::solver::{
    compute_num_neighbours, elapsed_nanos, eval_diff, lemma_move_preserves_permutation,
    move_to_neighbour, Solution, Solver, SolvingError,
};

verus! {

/// Random walk: applies a uniformly drawn move at every step, whatever it does to
/// the cost, and records the permutation reached whenever the step lowered the
/// cost. Runs for at most `max_iterations` steps and the time limit.
pub struct RandomWalkSolver<'a> {
    instance: &'a Instance,
    max_iterations: usize,
    max_time: u128,
    best_solution: Vec<usize>,
}

impl<'a> RandomWalkSolver<'a> {
    pub fn new(instance: &'a Instance, max_iterations: usize, max_time: u128) -> (r:
        RandomWalkSolver<'a>)
        ensures
            r.instance_view() == *instance,
            r.time_limit_view() == max_time,
            r.max_iterations_view() == max_iterations,
    {
        RandomWalkSolver { instance, max_iterations, max_time, best_solution: Vec::new() }
    }

    /// The number of steps of a walk.
    pub closed spec fn max_iterations_view(&self) -> usize {
        self.max_iterations
    }
}

impl<'a> Solver for RandomWalkSolver<'a> {
    closed spec fn instance_view(&self) -> Instance {
        *self.instance
    }

    closed spec fn time_limit_view(&self) -> u128 {
        self.max_time
    }

    /// A walk takes at most `max_iterations` steps, evaluating one move each; it
    /// records fewer permutations than it evaluates moves, and when it never lowered
    /// the cost it returns its start.
    open spec fn promises(&self, initial: Seq<usize>, solution: Solution) -> bool {
        &&& solution.evaluations <= self.max_iterations_view()
        &&& solution.solution_changes <= solution.evaluations
        &&& solution.solution_changes == 0 ==> solution.permutation@ == initial
    }

    fn solve(&mut self, initial_solution: Vec<usize>) -> (r: Result<Solution, SolvingError>) {
        let n = self.instance.size;
        let num_neighbours = compute_num_neighbours(n);
        let ghost initial = initial_solution@;
        let mut current = initial_solution;
        let mut evaluations: usize = 0;
        let mut solution_changes: usize = 0;
        let mut iteration: usize = 0;
        self.best_solution = current.clone();
        assert(self.best_solution@ =~= current@);
        let start = std::time::Instant::now();
        while iteration < self.max_iterations
            invariant
                self.instance.wf(),
                n == self.instance.size,
                n >= 2,
                num_neighbours == crate::solver::num_moves(n as int),
                num_neighbours >= 1,
                is_permutation(current@, n as int),
                is_permutation(self.best_solution@, n as int),
                self.instance == old(self).instance,
                self.max_time == old(self).max_time,
                self.max_iterations == old(self).max_iterations,
                iteration <= self.max_iterations,
                evaluations == iteration,
                solution_changes <= iteration,
                solution_changes == 0 ==> self.best_solution@ == initial,
            decreases self.max_iterations - iteration,
        {
            if elapsed_nanos(&start) >= self.max_time {
                break;
            }
            let random_neighbour_idx = rand::random::<usize>() % num_neighbours;
            let improved = walk_step(
                self.instance,
                &mut current,
                &mut self.best_solution,
                random_neighbour_idx,
            );
            evaluations = evaluations + 1;
            if improved {
                solution_changes = solution_changes + 1;
            }
            iteration = iteration + 1;
        }
        let permutation = self.best_solution.clone();
        assert(permutation@ =~= self.best_solution@);
        Ok(Solution { permutation, evaluations, solution_changes })
    }

    open spec fn min_size(&self) -> nat {
        2
    }

    open spec fn name_view(&self) -> Seq<char> {
        "RandomWalkSolver"@
    }

    fn get_name(&self) -> (r: String) {
        "RandomWalkSolver".to_owned()
    }

    fn get_instance(&self) -> (r: &Instance) {
        self.instance
    }

    fn set_time_limit(&mut self, time_limit: u128) {
        self.max_time = time_limit;
    }

    fn get_time_limit(&self) -> (r: u128) {
        self.max_time
    }
}

/// One step of a walk: makes move `k` on `current`, and records the permutation
/// reached in `best` exactly when the move lowered the cost. Returns whether it did.
pub fn walk_step(instance: &Instance, current: &mut Vec<usize>, best: &mut Vec<usize>, k: usize) -> (improved:
    bool)
    requires
        instance.wf(),
        instance.size >= 2,
        is_permutation(old(current)@, instance.size as int),
        k < crate::solver::num_moves(instance.size as int),
    ensures
        final(current)@ == crate::solver::apply_move(old(current)@, k as int),
        is_permutation(final(current)@, instance.size as int),
        improved == (instance.cost(final(current)@) < instance.cost(old(current)@)),
        final(best)@ == if improved {
            final(current)@
        } else {
            old(best)@
        },
{
    let diff = eval_diff(instance, current.as_slice(), k);
    proof {
        lemma_move_preserves_permutation(current@, k as int);
    }
    let mut taken: Vec<usize> = Vec::new();
    std::mem::swap(&mut taken, current);
    *current = move_to_neighbour(taken, k);
    if diff > 0 {
        *best = current.clone();
        assert(best@ =~= current@);
        true
    } else {
        false
    }
}

/// A walk of `max_iterations` uniformly drawn moves from `initial_solution`; returns
/// the last permutation reached by a step that lowered the cost, or the starting
/// permutation when no step did.
pub fn random_walk(instance: &Instance, initial_solution: Vec<usize>, max_iterations: usize) -> (r:
    Vec<usize>)
    requires
        instance.wf(),
        instance.size >= 2,
        is_permutation(initial_solution@, instance.size as int),
    ensures
        is_permutation(r@, instance.size as int),
        max_iterations == 0 ==> r@ == initial_solution@,
{
    let n = instance.size;
    let num_neighbours = compute_num_neighbours(n);
    let ghost initial = initial_solution@;
    let mut current = initial_solution;
    let mut best_solution = current.clone();
    assert(best_solution@ =~= current@);
    let mut iteration: usize = 0;
    while iteration < max_iterations
        invariant
            instance.wf(),
            n == instance.size,
            n >= 2,
            num_neighbours == crate::solver::num_moves(n as int),
            num_neighbours >= 1,
            is_permutation(current@, n as int),
            is_permutation(best_solution@, n as int),
            iteration <= max_iterations,
            iteration == 0 ==> best_solution@ == initial,
        decreases max_iterations - iteration,
    {
        let random_neighbour_idx = rand::random::<usize>() % num_neighbours;
        walk_step(instance, &mut current, &mut best_solution, random_neighbour_idx);
        iteration = iteration + 1;
    }
    best_solution
}

} // verus!

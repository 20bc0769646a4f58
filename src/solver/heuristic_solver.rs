//! The row-sum constructor as a strategy.
use vstd::prelude::*;

use crate::instance::{get_rows_sum, matches_ranks, row_sum, Instance, Solver as SumsSolver};
use crate::solver::{Solution, Solver, SolvingError};

verus! {

/// Builds one permutation without searching: the row of A with the k-th smallest
/// sum goes to the row of B with the k-th largest sum (equal sums in index order).
pub struct HeuristicSolver<'a> {
    instance: &'a Instance,
    max_time: u128,
}

impl<'a> HeuristicSolver<'a> {
    pub fn new(instance: &'a Instance) -> (r: HeuristicSolver<'a>)
        ensures
            r.instance_view() == *instance,
            r.time_limit_view() == u128::MAX,
    {
        HeuristicSolver { instance, max_time: u128::MAX }
    }
}

impl<'a> Solver for HeuristicSolver<'a> {
    closed spec fn instance_view(&self) -> Instance {
        *self.instance
    }

    closed spec fn time_limit_view(&self) -> u128 {
        self.max_time
    }

    /// Rows matched by their sums, lightest of A to heaviest of B, with no search.
    open spec fn promises(&self, initial: Seq<usize>, solution: Solution) -> bool {
        &&& solution.evaluations == 0
        &&& solution.solution_changes == 0
        &&& matches_ranks(
            Seq::new(self.instance_view().size as nat, |i: int| row_sum(self.instance_view().a(), i) as usize),
            Seq::new(self.instance_view().size as nat, |i: int| row_sum(self.instance_view().b(), i) as usize),
            solution.permutation@,
        )
    }

    fn solve(&mut self, _initial_solution: Vec<usize>) -> (r: Result<Solution, SolvingError>) {
        let a_rows_sums = get_rows_sum(&self.instance.matrix_a, self.instance.size);
        let b_rows_sums = get_rows_sum(&self.instance.matrix_b, self.instance.size);
        let permutation = SumsSolver::new(self.instance).greedy_mapping(
            a_rows_sums.as_slice(),
            b_rows_sums.as_slice(),
        );
        assert(a_rows_sums@ =~= Seq::new(
            self.instance.size as nat,
            |i: int| row_sum(self.instance.a(), i) as usize,
        ));
        assert(b_rows_sums@ =~= Seq::new(
            self.instance.size as nat,
            |i: int| row_sum(self.instance.b(), i) as usize,
        ));
        Ok(Solution { permutation, evaluations: 0, solution_changes: 0 })
    }

    open spec fn min_size(&self) -> nat {
        0
    }

    open spec fn name_view(&self) -> Seq<char> {
        "HeuristicSolver"@
    }

    fn get_name(&self) -> (r: String) {
        "HeuristicSolver".to_owned()
    }

    fn get_instance(&self) -> (r: &Instance) {
        self.instance
    }

    fn set_time_limit(&mut self, time_limit: u128) {
        self.max_time = time_limit;
    }

    fn get_time_limit(&self) -> (r: u128) {
        self.max_time
    }
}

} // verus!

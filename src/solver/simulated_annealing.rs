//! The decisions of simulated annealing. The temperature and the acceptance
//! probability are floating point and stay with the caller, who runs the loop:
//! it asks for a proposal, decides whether a worsening move passes, and hands that
//! decision back.
use vstd::prelude::*;

use crate::get_random_permutation;
use crate::instance::{is_permutation, Instance};
use crate::solver::{
    apply_move, compute_num_neighbours, eval_diff, lemma_move_preserves_permutation,
    move_to_neighbour, num_moves,
};

verus! {

/// Random permutations sampled to set the starting temperature.
pub const NUM_INITIAL_TEMPERATURE_SAMPLES: usize = 100;

/// Consecutive proposals without an improving move after which annealing stops.
pub const MAX_NO_IMPROVEMENT_ITERATIONS: usize = 200_000;

/// Proposals made at one temperature before it is lowered.
pub const ITERATIONS_PER_TEMPERATURE: usize = 1000;

/// An annealing run apart from its temperature: the current permutation and the
/// counters.
pub struct AnnealingState {
    pub permutation: Vec<usize>,
    pub no_improvement_iterations: usize,
    pub evaluations: usize,
    pub solution_changes: usize,
}

impl AnnealingState {
    pub fn new(starting_solution: Vec<usize>) -> (r: AnnealingState)
        ensures
            r.permutation == starting_solution,
            r.no_improvement_iterations == 0,
            r.evaluations == 0,
            r.solution_changes == 0,
    {
        AnnealingState {
            permutation: starting_solution,
            no_improvement_iterations: 0,
            evaluations: 0,
            solution_changes: 0,
        }
    }

    /// Whether the run is over: too many proposals in a row without improvement.
    pub fn is_finished(&self) -> (r: bool)
        ensures
            r == (self.no_improvement_iterations >= MAX_NO_IMPROVEMENT_ITERATIONS),
    {
        self.no_improvement_iterations >= MAX_NO_IMPROVEMENT_ITERATIONS
    }

    /// A uniformly drawn move and how much it lowers the cost of the current
    /// permutation.
    pub fn propose(&self, instance: &Instance) -> (r: (usize, isize))
        requires
            instance.wf(),
            instance.size >= 2,
            is_permutation(self.permutation@, instance.size as int),
        ensures
            r.0 < num_moves(instance.size as int),
            r.1 == instance.cost(self.permutation@) - instance.cost(
                apply_move(self.permutation@, r.0 as int),
            ),
    {
        let num_neighbours = compute_num_neighbours(instance.size);
        let neighbour_idx = rand::random::<usize>() % num_neighbours;
        let delta = eval_diff(instance, self.permutation.as_slice(), neighbour_idx);
        (neighbour_idx, delta)
    }

    /// Takes the outcome of proposal (`neighbour_idx`, `delta`): a move that lowers
    /// the cost is made and clears the count of proposals without improvement; any
    /// other move is made only when `accept_worse`, and adds one to that count
    /// either way.
    pub fn step(&mut self, instance: &Instance, neighbour_idx: usize, delta: isize, accept_worse: bool)
        requires
            instance.wf(),
            instance.size >= 2,
            is_permutation(old(self).permutation@, instance.size as int),
            neighbour_idx < num_moves(instance.size as int),
            delta == instance.cost(old(self).permutation@) - instance.cost(
                apply_move(old(self).permutation@, neighbour_idx as int),
            ),
        ensures
            is_permutation(final(self).permutation@, instance.size as int),
            final(self).permutation@ == if delta > 0 || accept_worse {
                apply_move(old(self).permutation@, neighbour_idx as int)
            } else {
                old(self).permutation@
            },
            final(self).no_improvement_iterations == if delta > 0 {
                0
            } else if old(self).no_improvement_iterations < usize::MAX {
                old(self).no_improvement_iterations + 1
            } else {
                usize::MAX as int
            },
            final(self).evaluations == old(self).evaluations + 1 || old(self).evaluations == usize::MAX,
    {
        proof {
            lemma_move_preserves_permutation(self.permutation@, neighbour_idx as int);
        }
        self.evaluations = self.evaluations.saturating_add(1);
        if delta > 0 {
            self.no_improvement_iterations = 0;
        } else {
            self.no_improvement_iterations = self.no_improvement_iterations.saturating_add(1);
        }
        if delta > 0 || accept_worse {
            let mut taken: Vec<usize> = Vec::new();
            std::mem::swap(&mut taken, &mut self.permutation);
            self.permutation = move_to_neighbour(taken, neighbour_idx);
            self.solution_changes = self.solution_changes.saturating_add(1);
        }
    }
}

/// How far move k moves the cost of `p`, up or down.
pub open spec fn change_size(inst: Instance, p: Seq<usize>, k: int) -> int {
    let d = inst.cost(p) - inst.cost(apply_move(p, k));
    if d < 0 {
        -d
    } else {
        d
    }
}

/// Each sample is a permutation of the instance's size with a move on it.
pub open spec fn valid_samples(inst: Instance, samples: Seq<(Seq<usize>, int)>) -> bool {
    forall|i: int|
        0 <= i < samples.len() ==> is_permutation((#[trigger] samples[i]).0, inst.size as int) && 0
            <= samples[i].1 < num_moves(inst.size as int)
}

/// The sum of `change_size` over the samples.
pub open spec fn samples_total(inst: Instance, samples: Seq<(Seq<usize>, int)>) -> int {
    crate::sums::sum_to(|i: int| change_size(inst, samples[i].0, samples[i].1), samples.len() as int)
}

/// How far move `idx` moves the cost of `perm`.
pub fn delta_size(instance: &Instance, perm: &Vec<usize>, idx: usize) -> (r: u128)
    requires
        instance.wf(),
        instance.size >= 2,
        is_permutation(perm@, instance.size as int),
        idx < num_moves(instance.size as int),
    ensures
        r == change_size(*instance, perm@, idx as int),
        r <= isize::MAX,
{
    proof {
        lemma_move_preserves_permutation(perm@, idx as int);
        crate::instance::lemma_cost_bounds(instance, perm@);
        crate::instance::lemma_cost_bounds(instance, apply_move(perm@, idx as int));
    }
    let delta = eval_diff(instance, perm.as_slice(), idx);
    if delta < 0 {
        (-delta) as u128
    } else {
        delta as u128
    }
}

/// The sum, over `NUM_INITIAL_TEMPERATURE_SAMPLES` random permutations, of how far
/// one random move on each moves the cost: the caller averages it to set the
/// starting temperature.
pub fn sample_delta_total(instance: &Instance) -> (r: u128)
    requires
        instance.wf(),
        instance.size >= 2,
    ensures
        exists|samples: Seq<(Seq<usize>, int)>|
            #[trigger] valid_samples(*instance, samples) && samples.len()
                == NUM_INITIAL_TEMPERATURE_SAMPLES && r == samples_total(*instance, samples),
{
    let n = instance.size;
    let num_neighbours = compute_num_neighbours(n);
    let mut total: u128 = 0;
    let mut sample: usize = 0;
    let ghost mut samples: Seq<(Seq<usize>, int)> = Seq::empty();
    while sample < NUM_INITIAL_TEMPERATURE_SAMPLES
        invariant
            instance.wf(),
            n == instance.size,
            n >= 2,
            num_neighbours == num_moves(n as int),
            num_neighbours >= 1,
            sample <= NUM_INITIAL_TEMPERATURE_SAMPLES,
            samples.len() == sample,
            valid_samples(*instance, samples),
            total == samples_total(*instance, samples),
            total <= sample * isize::MAX,
        decreases NUM_INITIAL_TEMPERATURE_SAMPLES - sample,
    {
        let perm = get_random_permutation(n);
        let idx = rand::random::<usize>() % num_neighbours;
        let size = delta_size(instance, &perm, idx);
        let ghost before = samples;
        proof {
            samples = samples.push((perm@, idx as int));
            let f = |i: int| change_size(*instance, samples[i].0, samples[i].1);
            let g = |i: int| change_size(*instance, before[i].0, before[i].1);
            crate::sums::lemma_sum_ext(f, g, sample as int);
        }
        total = total + size;
        sample = sample + 1;
    }
    total
}

} // verus!

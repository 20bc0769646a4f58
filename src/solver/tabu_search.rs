//! Tabu search over a bounded list of candidate moves.
use vstd::prelude::*;

use crate::instance::{is_permutation, Instance};
use crate::solver::{
    apply_move, calculate_swap_indices, compute_num_neighbours, decode_move, eval_diff,
    lemma_decode_move, lemma_move_preserves_permutation, move_to_neighbour, num_moves,
};

verus! {

/// Consecutive iterations without a new best cost after which the search stops.
pub const MAX_ITERATIONS_WITHOUT_IMPROVEMENT: usize = 100;

/// Number of moves the candidate list holds.
const CANDIDATE_LIST_SIZE: usize = 10;

/// Number of iterations during which a swap of the same two positions is refused
/// after it was made.
pub const TABU_TENURE: usize = 5;

/// How much move k raises the cost of `p` (negative when it lowers it).
pub open spec fn move_change(inst: Instance, p: Seq<usize>, k: int) -> int {
    inst.cost(apply_move(p, k)) - inst.cost(p)
}

/// A remaining tenure after one more iteration.
pub open spec fn decayed(v: int) -> int {
    if v > 0 {
        v - 1
    } else {
        0
    }
}

/// A remaining tenure v after s more iterations.
pub open spec fn tenure_after(v: int, s: nat) -> int
    decreases s,
{
    if s == 0 {
        v
    } else {
        decayed(tenure_after(v, (s - 1) as nat))
    }
}

/// A swap marked tabu stays refused for exactly `TABU_TENURE` iterations: at the
/// s-th selection after it was made, s counted from 0, its tenure is still
/// positive precisely when s < TABU_TENURE.
pub proof fn lemma_tabu_tenure(s: nat)
    ensures
        tenure_after(TABU_TENURE as int, s) > 0 <==> s < TABU_TENURE,
        tenure_after(TABU_TENURE as int, s) == if s < TABU_TENURE {
            TABU_TENURE - s
        } else {
            0
        },
    decreases s,
{
    if s > 0 {
        lemma_tabu_tenure((s - 1) as nat);
    }
}

/// The remaining tenure, in `grid`, of the pair of positions of move k.
pub open spec fn tenure_in(grid: Seq<Seq<usize>>, n: int, k: int) -> int {
    grid[decode_move(n, k).0][decode_move(n, k).1] as int
}

/// `list` holds moves no dearer than any move left out of it, on `p`.
pub open spec fn keeps_cheapest(inst: Instance, p: Seq<usize>, list: Seq<(usize, isize)>) -> bool {
    &&& list.len() >= 1
    &&& forall|k: int, x: int|
        #![trigger lists_move(list, k), list[x]]
        0 <= k < num_moves(inst.size as int) && !lists_move(list, k) && 0 <= x < list.len()
            ==> list[x].1 <= move_change(inst, p, k)
}

/// `r` is `q` after one move.
pub open spec fn move_step(q: Seq<usize>, r: Seq<usize>) -> bool {
    exists|k: int| 0 <= k < num_moves(q.len() as int) && #[trigger] apply_move(q, k) == r
}

/// Each permutation of `path` is the one before it after one move.
pub open spec fn is_walk(path: Seq<Seq<usize>>) -> bool {
    forall|i: int| 0 <= i < path.len() - 1 ==> move_step(#[trigger] path[i], path[i + 1])
}

/// Some move lowers the cost of `p`.
pub open spec fn can_improve(inst: Instance, p: Seq<usize>) -> bool {
    exists|k: int| 0 <= k < num_moves(inst.size as int) && #[trigger] move_change(inst, p, k) < 0
}

/// Move k stands in `list`.
pub open spec fn lists_move(list: Seq<(usize, isize)>, k: int) -> bool {
    exists|x: int| 0 <= x < list.len() && list[x].0 == k
}

/// Tabu search: from the current permutation, takes the candidate move with the
/// lowest cost change among those whose pair of positions is not tabu, even when
/// it raises the cost, marks that pair tabu, and keeps the best permutation seen.
/// The candidate list holds the moves that were cheapest when it was built, with
/// their cost changes kept up to date; it is rebuilt from all moves when every
/// candidate is tabu, and the search stops when even the rebuilt list holds no
/// admissible move. It also stops after `MAX_ITERATIONS_WITHOUT_IMPROVEMENT`
/// iterations in a row without a new best cost.
pub struct TabuSearchAlgorithm<'a> {
    instance: &'a Instance,
    current_solution: Vec<usize>,
    best_solution: Vec<usize>,
    current_cost: usize,
    best_cost: usize,
    tabu_list: Vec<Vec<usize>>,
    iterations_without_improvement: usize,
    iteration: usize,
    candidate_list: Vec<(usize, isize)>,
}

impl<'a> TabuSearchAlgorithm<'a> {
    /// The instance searched.
    pub closed spec fn instance_view(&self) -> Instance {
        *self.instance
    }

    /// The best permutation found so far.
    pub closed spec fn best_view(&self) -> Seq<usize> {
        self.best_solution@
    }

    /// The permutation the search stands on.
    pub closed spec fn current_view(&self) -> Seq<usize> {
        self.current_solution@
    }

    /// The remaining tenures, by pair of positions.
    pub closed spec fn tabu_view(&self) -> Seq<Seq<usize>> {
        self.tabu_list.deep_view()
    }

    /// The candidate moves with their cost changes.
    pub closed spec fn candidates_view(&self) -> Seq<(usize, isize)> {
        self.candidate_list@
    }

    /// Iterations since the last new best cost.
    pub closed spec fn stall_view(&self) -> usize {
        self.iterations_without_improvement
    }

    /// Iterations made.
    pub closed spec fn iteration_view(&self) -> usize {
        self.iteration
    }

    /// A search that has not started: it stands on its best permutation, nothing is
    /// tabu, no candidate is listed and no iteration has been made.
    pub open spec fn is_fresh(&self) -> bool {
        let n = self.instance_view().size as int;
        &&& self.current_view() == self.best_view()
        &&& self.tabu_view().len() == n
        &&& forall|i: int, j: int| 0 <= i < n && 0 <= j < n ==> #[trigger] self.tabu_view()[i][j] == 0
        &&& self.candidates_view().len() == 0
        &&& self.stall_view() == 0
        &&& self.iteration_view() == 0
    }

    /// The state of a search: permutations of the instance's size with their
    /// costs, a size-by-size tabu grid, and candidates whose cost changes are
    /// those of the current permutation.
    pub closed spec fn wf(&self) -> bool {
        let n = self.instance.size as int;
        &&& self.instance.wf()
        &&& n >= 2
        &&& is_permutation(self.current_solution@, n)
        &&& is_permutation(self.best_solution@, n)
        &&& self.current_cost == self.instance.cost(self.current_solution@)
        &&& self.best_cost == self.instance.cost(self.best_solution@)
        &&& self.best_cost <= self.current_cost
        &&& self.tabu_list@.len() == n
        &&& forall|i: int| 0 <= i < n ==> (#[trigger] self.tabu_list@[i])@.len() == n
        &&& self.candidates_exact()
    }

    /// Each candidate is a move with its cost change on the current permutation.
    pub closed spec fn candidates_exact(&self) -> bool {
        &&& self.candidate_list@.len() <= CANDIDATE_LIST_SIZE
        &&& forall|x: int|
            0 <= x < self.candidate_list@.len() ==> (#[trigger] self.candidate_list@[x]).0
                < num_moves(self.instance.size as int) && self.candidate_list@[x].1 == move_change(
                *self.instance,
                self.current_solution@,
                self.candidate_list@[x].0 as int,
            )
    }

    pub fn new(instance: &'a Instance, initial_solution: Vec<usize>) -> (r: TabuSearchAlgorithm<'a>)
        requires
            instance.wf(),
            instance.size >= 2,
            is_permutation(initial_solution@, instance.size as int),
        ensures
            r.wf(),
            r.is_fresh(),
            r.instance_view() == *instance,
            r.best_view() == initial_solution@,
            r.current_view() == initial_solution@,
    {
        let n = instance.size;
        let mut tabu_list: Vec<Vec<usize>> = Vec::new();
        let mut i: usize = 0;
        while i < n
            invariant
                i <= n,
                tabu_list@.len() == i,
                forall|x: int| 0 <= x < i ==> (#[trigger] tabu_list@[x])@.len() == n,
                forall|x: int, y: int| 0 <= x < i && 0 <= y < n ==> #[trigger] tabu_list@[x]@[y] == 0,
            decreases n - i,
        {
            let mut row: Vec<usize> = Vec::new();
            let mut j: usize = 0;
            while j < n
                invariant
                    j <= n,
                    row@.len() == j,
                    forall|y: int| 0 <= y < j ==> #[trigger] row@[y] == 0,
                decreases n - j,
            {
                row.push(0);
                j = j + 1;
            }
            tabu_list.push(row);
            i = i + 1;
        }
        assert forall|x: int, y: int| 0 <= x < n && 0 <= y < n implies #[trigger] tabu_list.deep_view()[x][y]
            == 0 by {
            assert(tabu_list.deep_view()[x] == tabu_list@[x]@);
        }
        let candidate_list: Vec<(usize, isize)> = Vec::new();
        let current_cost = instance.evaluate(initial_solution.as_slice());
        let best_solution = initial_solution.clone();
        assert(best_solution@ =~= initial_solution@);
        TabuSearchAlgorithm {
            instance,
            current_solution: initial_solution,
            best_solution,
            current_cost,
            best_cost: current_cost,
            tabu_list,
            iterations_without_improvement: 0,
            iteration: 0,
            candidate_list,
        }
    }

    /// Runs the search from a fresh state and returns the cheapest permutation of
    /// the walk it made, which ends at most `MAX_ITERATIONS_WITHOUT_IMPROVEMENT`
    /// moves after that permutation: the search stops when that many iterations in
    /// a row brought no new best cost, or earlier when every move of a rebuilt
    /// candidate list is tabu. When some move lowers the starting cost, the first
    /// iteration takes the cheapest move, so the result costs strictly less than the
    /// start.
    pub fn solve(self) -> (r: Vec<usize>)
        requires
            self.wf(),
            self.is_fresh(),
        ensures
            is_permutation(r@, self.instance_view().size as int),
            self.instance_view().cost(r@) <= self.instance_view().cost(self.best_view()),
            can_improve(self.instance_view(), self.best_view()) ==> self.instance_view().cost(r@)
                < self.instance_view().cost(self.best_view()),
            exists|path: Seq<Seq<usize>>, j: int|
                #[trigger] is_walk(path) && path.len() >= 1 && path[0] == self.current_view() && 0
                    <= j < path.len() && #[trigger] path[j] == r@ && path.len() - 1 - j
                    <= MAX_ITERATIONS_WITHOUT_IMPROVEMENT && forall|i: int|
                    0 <= i < path.len() ==> self.instance_view().cost(r@)
                        <= self.instance_view().cost(#[trigger] path[i]),
    {
        let ghost inst = *self.instance;
        let ghost start = self.current_solution@;
        let ghost improvable = can_improve(inst, start);
        let n = self.current_solution.len();
        let mut search = self;
        let ghost start_cost = search.best_cost;
        search.generate_candidate_list();
        let ghost mut path: Seq<Seq<usize>> = seq![start];
        let ghost mut best_index: int = 0;
        proof {
            crate::instance::lemma_cost_bounds(search.instance, search.current_solution@);
        }
        while search.iterations_without_improvement < MAX_ITERATIONS_WITHOUT_IMPROVEMENT
            invariant
                search.wf(),
                *search.instance == inst,
                n == inst.size,
                start_cost == inst.cost(start),
                search.best_cost <= start_cost,
                path.len() >= 1,
                path[0] == start,
                path[path.len() - 1] == search.current_solution@,
                is_walk(path),
                0 <= best_index < path.len(),
                path[best_index] == search.best_solution@,
                search.iterations_without_improvement == path.len() - 1 - best_index,
                search.iterations_without_improvement <= MAX_ITERATIONS_WITHOUT_IMPROVEMENT,
                forall|i: int| 0 <= i < path.len() ==> search.best_cost <= inst.cost(#[trigger] path[i]),
                improvable == can_improve(inst, start),
                improvable && path.len() > 1 ==> search.best_cost < start_cost,
                path.len() == 1 ==> search.iterations_without_improvement == 0 && keeps_cheapest(
                    inst,
                    search.current_solution@,
                    search.candidate_list@,
                ) && forall|i: int, j: int|
                    0 <= i < n && 0 <= j < n ==> #[trigger] search.tabu_list.deep_view()[i][j] == 0,
            ensures
                path.len() > 1,
            decreases search.best_cost, MAX_ITERATIONS_WITHOUT_IMPROVEMENT
                - search.iterations_without_improvement,
        {
            let ghost first = path.len() == 1;
            let chosen = search.choose_from_candidate_list();
            match chosen {
                None => {
                    proof {
                        if first {
                            let list = search.candidate_list@;
                            let d = decode_move(n as int, list[0].0 as int);
                            assert(tenure_in(search.tabu_list.deep_view(), n as int, list[0].0 as int)
                                > 0);
                            lemma_decode_move(n as int, list[0].0 as int);
                            assert(search.tabu_list.deep_view()[d.0][d.1] == 0);
                        }
                    }
                    break;
                },
                Some(candidate) => {
                    let (neighbour_idx, cost_change) = candidate;
                    let ghost before = search.current_solution@;
                    proof {
                        lemma_move_preserves_permutation(before, neighbour_idx as int);
                        crate::instance::lemma_cost_bounds(search.instance, before);
                        crate::instance::lemma_cost_bounds(
                            search.instance,
                            apply_move(before, neighbour_idx as int),
                        );
                        if first && improvable {
                            let list = search.candidate_list@;
                            let k = choose|k: int|
                                0 <= k < num_moves(inst.size as int) && #[trigger] move_change(
                                    inst,
                                    start,
                                    k,
                                ) < 0;
                            let x = choose|x: int| 0 <= x < list.len() && #[trigger] list[x] == (
                                neighbour_idx,
                                cost_change,
                            );
                            if lists_move(list, k) {
                                let y = choose|y: int| 0 <= y < list.len() && list[y].0 == k;
                                lemma_decode_move(n as int, k);
                                assert(tenure_in(search.tabu_list.deep_view(), n as int, list[y].0 as int)
                                    == 0);
                                assert(cost_change <= list[y].1);
                            } else {
                                assert(list[x].1 <= move_change(inst, start, k));
                            }
                            assert(cost_change < 0);
                        }
                    }
                    let mut taken: Vec<usize> = Vec::new();
                    std::mem::swap(&mut taken, &mut search.current_solution);
                    search.current_solution = move_to_neighbour(taken, neighbour_idx);
                    search.current_cost = (search.current_cost as isize + cost_change) as usize;
                    search.update_tabu_list(neighbour_idx);
                    search.refresh_candidates(neighbour_idx);
                    proof {
                        let old_path = path;
                        path = path.push(search.current_solution@);
                        assert forall|i: int| 0 <= i < path.len() - 1 implies move_step(
                            #[trigger] path[i],
                            path[i + 1],
                        ) by {
                            if i < old_path.len() - 1 {
                                assert(path[i] == old_path[i] && path[i + 1] == old_path[i + 1]);
                            } else {
                                assert(apply_move(path[i], neighbour_idx as int) == path[i + 1]);
                            }
                        }
                        assert(path[best_index] == old_path[best_index]);
                        assert forall|i: int| 0 <= i < old_path.len() implies path[i] == old_path[i] by {}
                    }
                    if search.current_cost < search.best_cost {
                        search.best_solution = search.current_solution.clone();
                        assert(search.best_solution@ =~= search.current_solution@);
                        search.best_cost = search.current_cost;
                        search.iterations_without_improvement = 0;
                        proof {
                            best_index = path.len() - 1;
                        }
                    } else {
                        search.iterations_without_improvement = search.iterations_without_improvement
                            + 1;
                    }
                    search.iteration = search.iteration.saturating_add(1);
                },
            }
        }
        let result = search.best_solution;
        proof {
            assert(path[best_index] == result@);
            assert(is_walk(path));
        }
        result
    }

    /// Index in `candidate_list` of a candidate with the largest cost change.
    fn worst_candidate(candidate_list: &Vec<(usize, isize)>) -> (r: usize)
        requires
            candidate_list@.len() > 0,
        ensures
            r < candidate_list@.len(),
            forall|x: int|
                0 <= x < candidate_list@.len() ==> (#[trigger] candidate_list@[x]).1
                    <= candidate_list@[r as int].1,
    {
        let mut worst: usize = 0;
        let mut x: usize = 1;
        while x < candidate_list.len()
            invariant
                1 <= x <= candidate_list@.len(),
                worst < candidate_list@.len(),
                forall|y: int| 0 <= y < x ==> (#[trigger] candidate_list@[y]).1
                    <= candidate_list@[worst as int].1,
            decreases candidate_list@.len() - x,
        {
            if candidate_list[x].1 > candidate_list[worst].1 {
                worst = x;
            }
            x = x + 1;
        }
        worst
    }

    /// Rebuilds the candidate list from all moves: it then holds the
    /// `CANDIDATE_LIST_SIZE` moves (all of them, if fewer) that raise the cost of the
    /// current permutation least.
    fn generate_candidate_list(&mut self)
        requires
            old(self).wf(),
        ensures
            final(self).wf(),
            final(self).instance == old(self).instance,
            final(self).current_solution == old(self).current_solution,
            final(self).best_solution == old(self).best_solution,
            final(self).best_cost == old(self).best_cost,
            final(self).current_cost == old(self).current_cost,
            final(self).tabu_list == old(self).tabu_list,
            final(self).iterations_without_improvement == old(self).iterations_without_improvement,
            final(self).iteration == old(self).iteration,
            final(self).candidate_list@.len() == if num_moves(final(self).instance.size as int)
                < CANDIDATE_LIST_SIZE {
                num_moves(final(self).instance.size as int)
            } else {
                CANDIDATE_LIST_SIZE as int
            },
            forall|x: int, y: int|
                0 <= x < y < final(self).candidate_list@.len() ==> final(self).candidate_list@[x].0
                    != final(self).candidate_list@[y].0,
            forall|k: int, x: int|
                #![trigger lists_move(final(self).candidate_list@, k), final(self).candidate_list@[x]]
                0 <= k < num_moves(final(self).instance.size as int) && !lists_move(
                    final(self).candidate_list@,
                    k,
                ) && 0 <= x < final(self).candidate_list@.len() ==> final(self).candidate_list@[x].1
                    <= move_change(*final(self).instance, final(self).current_solution@, k),
            keeps_cheapest(*final(self).instance, final(self).current_solution@, final(self).candidate_list@),
    {
        let n = self.current_solution.len();
        let num_neighbours = compute_num_neighbours(n);
        let mut candidate_list: Vec<(usize, isize)> = Vec::new();
        let ghost p = self.current_solution@;
        let ghost inst = *self.instance;
        let mut neighbour_idx: usize = 0;
        while neighbour_idx < num_neighbours
            invariant
                self.instance.wf(),
                inst == *self.instance,
                n == self.instance.size,
                n >= 2,
                p == self.current_solution@,
                num_neighbours == num_moves(n as int),
                neighbour_idx <= num_neighbours,
                candidate_list@.len() == if neighbour_idx < CANDIDATE_LIST_SIZE {
                    neighbour_idx as int
                } else {
                    CANDIDATE_LIST_SIZE as int
                },
                forall|x: int|
                    0 <= x < candidate_list@.len() ==> (#[trigger] candidate_list@[x]).0
                        < neighbour_idx && candidate_list@[x].1 == move_change(
                        inst,
                        p,
                        candidate_list@[x].0 as int,
                    ),
                forall|x: int, y: int|
                    0 <= x < y < candidate_list@.len() ==> candidate_list@[x].0
                        != candidate_list@[y].0,
                neighbour_idx <= CANDIDATE_LIST_SIZE ==> forall|x: int|
                    0 <= x < candidate_list@.len() ==> (#[trigger] candidate_list@[x]).0 == x,
                forall|k: int, x: int|
                    #![trigger lists_move(candidate_list@, k), candidate_list@[x]]
                    0 <= k < neighbour_idx && !lists_move(candidate_list@, k) && 0 <= x
                        < candidate_list@.len() ==> candidate_list@[x].1 <= move_change(
                        inst,
                        p,
                        k,
                    ),
                is_permutation(self.current_solution@, n as int),
            decreases num_neighbours - neighbour_idx,
        {
            proof {
                lemma_move_preserves_permutation(p, neighbour_idx as int);
                crate::instance::lemma_cost_bounds(self.instance, p);
                crate::instance::lemma_cost_bounds(self.instance, apply_move(p, neighbour_idx as int));
            }
            let diff = eval_diff(self.instance, self.current_solution.as_slice(), neighbour_idx);
            let change: isize = -diff;
            let ghost old_list = candidate_list@;
            if candidate_list.len() < CANDIDATE_LIST_SIZE {
                candidate_list.push((neighbour_idx, change));
                proof {
                    let nl = candidate_list@;
                    assert forall|k: int, x: int|
                        #![trigger lists_move(nl, k), nl[x]]
                        0 <= k < neighbour_idx + 1 && !lists_move(nl, k) && 0 <= x < nl.len()
                            implies nl[x].1 <= move_change(inst, p, k) by {
                        assert(nl[k].0 == k);
                        assert(lists_move(nl, k));
                        if x < old_list.len() {
                            assert(nl[x] == old_list[x]);
                            if lists_move(old_list, k) {
                                let w = choose|w: int| 0 <= w < old_list.len() && old_list[w].0 == k;
                                assert(nl[w].0 == k);
                            }
                        }
                    }
                }
            } else {
                let worst = Self::worst_candidate(&candidate_list);
                if change < candidate_list[worst].1 {
                    let ghost evicted = old_list[worst as int];
                    candidate_list.set(worst, (neighbour_idx, change));
                    proof {
                        let nl = candidate_list@;
                        assert forall|k: int, x: int|
                            #![trigger lists_move(nl, k), nl[x]]
                            0 <= k < neighbour_idx + 1 && !lists_move(nl, k) && 0 <= x < nl.len()
                                implies nl[x].1 <= move_change(inst, p, k) by {
                            if k == neighbour_idx {
                                assert(nl[worst as int].0 == k);
                            }
                            if k == evicted.0 {
                                assert(old_list[x].1 <= evicted.1);
                            } else {
                                if lists_move(old_list, k) {
                                    let w = choose|w: int|
                                        0 <= w < old_list.len() && old_list[w].0 == k;
                                    assert(w != worst);
                                    assert(nl[w].0 == k);
                                }
                                assert(old_list[worst as int].1 <= move_change(inst, p, k));
                            }
                        }
                        assert forall|x: int, y: int| 0 <= x < y < nl.len() implies nl[x].0
                            != nl[y].0 by {
                            assert(old_list[x].0 < neighbour_idx);
                            assert(old_list[y].0 < neighbour_idx);
                        }
                    }
                } else {
                    proof {
                        let nl = candidate_list@;
                        assert forall|k: int, x: int|
                            #![trigger lists_move(nl, k), nl[x]]
                            0 <= k < neighbour_idx + 1 && !lists_move(nl, k) && 0 <= x < nl.len()
                                implies nl[x].1 <= move_change(inst, p, k) by {
                            assert(nl[x].1 <= nl[worst as int].1);
                        }
                    }
                }
            }
            neighbour_idx = neighbour_idx + 1;
        }
        self.candidate_list = candidate_list;
    }

    /// The candidate with the lowest cost change among those whose pair of positions
    /// is not tabu. When every candidate is tabu, the list is rebuilt from all moves
    /// and searched once more; `None` when even the rebuilt list holds only tabu
    /// moves.
    fn choose_from_candidate_list(&mut self) -> (r: Option<(usize, isize)>)
        requires
            old(self).wf(),
        ensures
            final(self).wf(),
            final(self).instance == old(self).instance,
            final(self).current_solution == old(self).current_solution,
            final(self).best_solution == old(self).best_solution,
            final(self).best_cost == old(self).best_cost,
            final(self).current_cost == old(self).current_cost,
            final(self).tabu_list == old(self).tabu_list,
            final(self).iterations_without_improvement == old(self).iterations_without_improvement,
            final(self).iteration == old(self).iteration,
            final(self).candidate_list@ == old(self).candidate_list@ || keeps_cheapest(
                *final(self).instance,
                final(self).current_solution@,
                final(self).candidate_list@,
            ),
            r is Some ==> ({
                let (k, c) = r->Some_0;
                let list = final(self).candidate_list@;
                let n = final(self).instance.size as int;
                &&& k < num_moves(n)
                &&& c == move_change(*final(self).instance, final(self).current_solution@, k as int)
                &&& tenure_in(final(self).tabu_list.deep_view(), n, k as int) == 0
                &&& exists|x: int| 0 <= x < list.len() && #[trigger] list[x] == (k, c)
                &&& forall|x: int|
                    0 <= x < list.len() && tenure_in(
                        final(self).tabu_list.deep_view(),
                        n,
                        (#[trigger] list[x]).0 as int,
                    ) == 0 ==> c <= list[x].1
            }),
            r is None ==> keeps_cheapest(
                *final(self).instance,
                final(self).current_solution@,
                final(self).candidate_list@,
            ) && forall|x: int|
                0 <= x < final(self).candidate_list@.len() ==> tenure_in(
                    final(self).tabu_list.deep_view(),
                    final(self).instance.size as int,
                    (#[trigger] final(self).candidate_list@[x]).0 as int,
                ) > 0,
    {
        let n = self.current_solution.len();
        let mut rebuilt = false;
        loop
            invariant
                self.wf(),
                n == self.instance.size,
                self.instance == old(self).instance,
                self.current_solution == old(self).current_solution,
                self.best_solution == old(self).best_solution,
                self.best_cost == old(self).best_cost,
                self.current_cost == old(self).current_cost,
                self.tabu_list == old(self).tabu_list,
                self.iterations_without_improvement == old(self).iterations_without_improvement,
                self.iteration == old(self).iteration,
                !rebuilt ==> self.candidate_list@ == old(self).candidate_list@,
                rebuilt ==> keeps_cheapest(*self.instance, self.current_solution@, self.candidate_list@),
            decreases (if rebuilt {
                0int
            } else {
                1int
            }),
        {
            let ghost grid = self.tabu_list.deep_view();
            let ghost list = self.candidate_list@;
            let mut found = false;
            let mut best_idx: usize = 0;
            let mut best_change: isize = 0;
            let mut x: usize = 0;
            while x < self.candidate_list.len()
                invariant
                    self.wf(),
                    n == self.instance.size,
                    grid == self.tabu_list.deep_view(),
                    list == self.candidate_list@,
                    x <= list.len(),
                    found ==> best_idx < num_moves(n as int) && best_change == move_change(
                        *self.instance,
                        self.current_solution@,
                        best_idx as int,
                    ) && tenure_in(grid, n as int, best_idx as int) == 0 && exists|y: int|
                        0 <= y < x && #[trigger] list[y] == (best_idx, best_change),
                    found ==> forall|y: int|
                        0 <= y < x && tenure_in(grid, n as int, (#[trigger] list[y]).0 as int) == 0
                            ==> best_change <= list[y].1,
                    !found ==> forall|y: int|
                        0 <= y < x ==> tenure_in(grid, n as int, (#[trigger] list[y]).0 as int) > 0,
                decreases list.len() - x,
            {
                let (idx, change) = self.candidate_list[x];
                proof {
                    lemma_decode_move(n as int, idx as int);
                }
                let (i, j) = calculate_swap_indices(n, idx);
                assert(self.tabu_list@[i as int]@ == grid[i as int]);
                if self.tabu_list[i][j] == 0 && (!found || change < best_change) {
                    found = true;
                    best_idx = idx;
                    best_change = change;
                    assert(list[x as int] == (best_idx, best_change));
                }
                x = x + 1;
            }
            if found {
                return Some((best_idx, best_change));
            }
            if rebuilt {
                return None;
            }
            self.generate_candidate_list();
            rebuilt = true;
        }
    }

    /// Lets every tenure run down by one iteration and marks the pair of positions
    /// of move `neighbour_idx` tabu for `TABU_TENURE` iterations.
    fn update_tabu_list(&mut self, neighbour_idx: usize)
        requires
            old(self).tabu_list@.len() == old(self).instance.size,
            forall|i: int|
                0 <= i < old(self).instance.size ==> (#[trigger] old(self).tabu_list@[i])@.len()
                    == old(self).instance.size,
            old(self).instance.size >= 2,
            crate::solver::size_fits(old(self).instance.size as int),
            neighbour_idx < num_moves(old(self).instance.size as int),
        ensures
            final(self).tabu_list@.len() == old(self).tabu_list@.len(),
            forall|i: int|
                0 <= i < old(self).instance.size ==> (#[trigger] final(self).tabu_list@[i])@.len()
                    == old(self).instance.size,
            forall|i: int, j: int|
                0 <= i < old(self).instance.size && 0 <= j < old(self).instance.size ==> (#[trigger] final(self).tabu_list@[i]@[j]) == if (i, j) == decode_move(
                    old(self).instance.size as int,
                    neighbour_idx as int,
                ) {
                    TABU_TENURE as int
                } else {
                    decayed(old(self).tabu_list@[i]@[j] as int)
                },
            final(self).instance == old(self).instance,
            final(self).current_solution == old(self).current_solution,
            final(self).best_solution == old(self).best_solution,
            final(self).best_cost == old(self).best_cost,
            final(self).current_cost == old(self).current_cost,
            final(self).candidate_list == old(self).candidate_list,
            final(self).iterations_without_improvement == old(self).iterations_without_improvement,
    {
        let n = self.instance.size;
        let ghost old_grid = self.tabu_list@;
        let mut i: usize = 0;
        while i < n
            invariant
                n == self.instance.size,
                self.instance == old(self).instance,
                self.current_solution == old(self).current_solution,
                self.best_solution == old(self).best_solution,
                self.best_cost == old(self).best_cost,
                self.current_cost == old(self).current_cost,
                self.candidate_list == old(self).candidate_list,
                self.iterations_without_improvement == old(self).iterations_without_improvement,
                old_grid == old(self).tabu_list@,
                self.tabu_list@.len() == n,
                i <= n,
                forall|r: int| 0 <= r < n ==> (#[trigger] self.tabu_list@[r])@.len() == n,
                forall|r: int, c: int|
                    0 <= r < n && 0 <= c < n ==> (#[trigger] self.tabu_list@[r]@[c]) == if r < i {
                        decayed(old_grid[r]@[c] as int)
                    } else {
                        old_grid[r]@[c] as int
                    },
            decreases n - i,
        {
            let mut row: Vec<usize> = Vec::new();
            self.tabu_list.set_and_swap(i, &mut row);
            let ghost old_row = row@;
            let mut j: usize = 0;
            while j < n
                invariant
                    row@.len() == n,
                    old_row.len() == n,
                    j <= n,
                    forall|c: int|
                        0 <= c < n ==> (#[trigger] row@[c]) == if c < j {
                            decayed(old_row[c] as int)
                        } else {
                            old_row[c] as int
                        },
                decreases n - j,
            {
                if row[j] > 0 {
                    row.set(j, row[j] - 1);
                }
                j = j + 1;
            }
            self.tabu_list.set(i, row);
            i = i + 1;
        }
        let (a, b) = calculate_swap_indices(n, neighbour_idx);
        let mut row: Vec<usize> = Vec::new();
        self.tabu_list.set_and_swap(a, &mut row);
        row.set(b, TABU_TENURE);
        self.tabu_list.set(a, row);
    }

    /// After move `applied` was made: drops it from the candidate list and brings the
    /// cost changes of the other candidates up to date.
    fn refresh_candidates(&mut self, applied: usize)
        requires
            old(self).instance.wf(),
            old(self).instance.size >= 2,
            is_permutation(old(self).current_solution@, old(self).instance.size as int),
            old(self).candidate_list@.len() <= CANDIDATE_LIST_SIZE,
            forall|x: int|
                0 <= x < old(self).candidate_list@.len() ==> (#[trigger] old(self).candidate_list@[x]).0
                    < num_moves(old(self).instance.size as int),
        ensures
            final(self).candidates_exact(),
            final(self).instance == old(self).instance,
            final(self).current_solution == old(self).current_solution,
            final(self).best_solution == old(self).best_solution,
            final(self).best_cost == old(self).best_cost,
            final(self).current_cost == old(self).current_cost,
            final(self).tabu_list == old(self).tabu_list,
            final(self).iterations_without_improvement == old(self).iterations_without_improvement,
    {
        let mut old_list: Vec<(usize, isize)> = Vec::new();
        std::mem::swap(&mut old_list, &mut self.candidate_list);
        let mut refreshed: Vec<(usize, isize)> = Vec::new();
        let mut x: usize = 0;
        while x < old_list.len()
            invariant
                self.instance.wf(),
                self.instance.size >= 2,
                is_permutation(self.current_solution@, self.instance.size as int),
                old_list@.len() <= CANDIDATE_LIST_SIZE,
                forall|y: int|
                    0 <= y < old_list@.len() ==> (#[trigger] old_list@[y]).0 < num_moves(
                        self.instance.size as int,
                    ),
                x <= old_list@.len(),
                refreshed@.len() <= x,
                forall|y: int|
                    0 <= y < refreshed@.len() ==> (#[trigger] refreshed@[y]).0 < num_moves(
                        self.instance.size as int,
                    ) && refreshed@[y].1 == move_change(
                        *self.instance,
                        self.current_solution@,
                        refreshed@[y].0 as int,
                    ),
            decreases old_list@.len() - x,
        {
            let idx = old_list[x].0;
            if idx != applied {
                proof {
                    lemma_move_preserves_permutation(self.current_solution@, idx as int);
                    crate::instance::lemma_cost_bounds(self.instance, self.current_solution@);
                    crate::instance::lemma_cost_bounds(
                        self.instance,
                        apply_move(self.current_solution@, idx as int),
                    );
                }
                let diff = eval_diff(self.instance, self.current_solution.as_slice(), idx);
                refreshed.push((idx, -diff));
            }
            x = x + 1;
        }
        self.candidate_list = refreshed;
    }
}

} // verus!

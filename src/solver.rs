//! Swap moves on permutations: their dense numbering, how to apply one, and
//! the incremental evaluation of the cost change one causes.
use vstd::prelude::*;

use crate::instance::{
    dot_permuted, dot_terms, is_assignment, is_permutation, lemma_cost_bounds, qap_cost, row_cost,
    row_costs, Instance,
};
use crate::sums::{
    lemma_sum_bounded, lemma_sum_ext, lemma_sum_monotone, lemma_sum_sub, lemma_sum_two_points,
    sum_to,
};

pub mod greedy;
pub mod heuristic_solver;
pub mod local_search;
pub mod random_search;
pub mod random_walk;
pub mod simulated_annealing;
pub mod steepest;
pub mod tabu_search;

verus! {

/// Why a search could not go on.
#[derive(Debug)]
pub struct SolvingError {
    pub message: String,
}

/// What a search hands back: the permutation it settled on, how many candidate
/// solutions it evaluated and how many moves it accepted.
pub struct Solution {
    pub permutation: Vec<usize>,
    pub evaluations: usize,
    pub solution_changes: usize,
}

/// A search strategy over the permutations of one instance.
pub trait Solver {
    /// The instance searched.
    spec fn instance_view(&self) -> Instance;

    /// The time limit of a search, in nanoseconds.
    spec fn time_limit_view(&self) -> u128;

    /// The smallest instance the strategy can search: move-based strategies need two
    /// positions.
    spec fn min_size(&self) -> nat;

    /// What the strategy promises of the solution it returns from `initial`,
    /// beyond its permutation being a permutation.
    spec fn promises(&self, initial: Seq<usize>, solution: Solution) -> bool;

    /// Searches from `initial_solution` until the strategy stops or its time limit
    /// has passed, and returns the best permutation it knows.
    fn solve(&mut self, initial_solution: Vec<usize>) -> (r: Result<Solution, SolvingError>)
        requires
            old(self).instance_view().wf(),
            old(self).instance_view().size >= old(self).min_size(),
            is_permutation(initial_solution@, old(self).instance_view().size as int),
        ensures
            final(self).instance_view() == old(self).instance_view(),
            final(self).time_limit_view() == old(self).time_limit_view(),
            r is Ok,
            r is Ok ==> is_permutation(
                r->Ok_0.permutation@,
                old(self).instance_view().size as int,
            ),
            r is Ok ==> old(self).promises(initial_solution@, r->Ok_0),
    ;

    /// The strategy's name.
    spec fn name_view(&self) -> Seq<char>;

    fn get_name(&self) -> (r: String)
        ensures
            r@ == self.name_view(),
    ;

    fn get_instance(&self) -> (r: &Instance)
        ensures
            *r == self.instance_view(),
    ;

    fn set_time_limit(&mut self, time_limit: u128)
        ensures
            final(self).time_limit_view() == time_limit,
            final(self).instance_view() == old(self).instance_view(),
    ;

    fn get_time_limit(&self) -> (r: u128)
        ensures
            r == self.time_limit_view(),
    ;
}

/// Nanoseconds since `start`.
pub(crate) fn elapsed_nanos(start: &std::time::Instant) -> u128 {
    start.elapsed().as_nanos()
}

/// An n-by-n matrix of machine words fits in the address space. This bounds the
/// size of every instance, and keeps the move numbering within a machine word.
pub open spec fn size_fits(n: int) -> bool {
    n * n <= (usize::MAX as int) / 8
}

/// Number of swap moves on a permutation of size n: one per unordered pair of positions.
pub open spec fn num_moves(n: int) -> int {
    n * (n - 1) / 2
}

/// A swap move of positions i and j, written with i < j.
pub open spec fn is_move(n: int, i: int, j: int) -> bool {
    0 <= i < j < n
}

/// Number of moves whose first position is below i.
pub open spec fn moves_before_row(n: int, i: int) -> int {
    i * (2 * n - i - 1) / 2
}

/// Index of the move (i, j): moves are numbered by first position, then by second.
pub open spec fn encode_move(n: int, i: int, j: int) -> int {
    moves_before_row(n, i) + (j - i - 1)
}

/// The pair of positions that move `k` swaps.
pub open spec fn decode_move(n: int, k: int) -> (int, int) {
    choose|p: (int, int)| is_move(n, p.0, p.1) && encode_move(n, p.0, p.1) == k
}

/// `p` with the entries at positions i and j exchanged.
pub open spec fn swap_positions(p: Seq<usize>, i: int, j: int) -> Seq<usize> {
    p.update(i, p[j]).update(j, p[i])
}

/// `p` after move `k`.
pub open spec fn apply_move(p: Seq<usize>, k: int) -> Seq<usize> {
    swap_positions(p, decode_move(p.len() as int, k).0, decode_move(p.len() as int, k).1)
}

/// The smaller of two lengths.
pub open spec fn shorter(a: nat, b: nat) -> int {
    if a < b {
        a as int
    } else {
        b as int
    }
}

/// `r` is `q` after one move that does not raise the cost; with `best_only`, after
/// a move that lowers the cost at least as much as any other.
pub open spec fn descent_step(inst: Instance, q: Seq<usize>, r: Seq<usize>, best_only: bool) -> bool {
    exists|k: int|
        0 <= k < num_moves(q.len() as int) && #[trigger] apply_move(q, k) == r && inst.cost(r)
            <= inst.cost(q) && (best_only ==> forall|j: int|
            0 <= j < num_moves(q.len() as int) ==> inst.cost(r) <= inst.cost(
                #[trigger] apply_move(q, j),
            ))
}

/// Each permutation of `path` comes from the one before by `descent_step`.
pub open spec fn is_descent(inst: Instance, path: Seq<Seq<usize>>, best_only: bool) -> bool {
    forall|i: int|
        0 <= i < path.len() - 1 ==> descent_step(inst, #[trigger] path[i], path[i + 1], best_only)
}

/// `r` is reached from `p` by m steps of `descent_step`.
pub open spec fn descent_path(inst: Instance, p: Seq<usize>, r: Seq<usize>, m: nat, best_only: bool) -> bool {
    exists|path: Seq<Seq<usize>>|
        #[trigger] is_descent(inst, path, best_only) && path.len() == m + 1 && path[0] == p
            && path[m as int] == r
}

/// The path of no steps.
pub proof fn lemma_descent_path_start(inst: Instance, p: Seq<usize>, best_only: bool)
    ensures
        descent_path(inst, p, p, 0, best_only),
{
    let path = seq![p];
    assert(is_descent(inst, path, best_only));
}

/// A descent path extends by one step.
pub proof fn lemma_descent_path_extend(
    inst: Instance,
    p: Seq<usize>,
    q: Seq<usize>,
    r: Seq<usize>,
    m: nat,
    best_only: bool,
)
    requires
        descent_path(inst, p, q, m, best_only),
        descent_step(inst, q, r, best_only),
    ensures
        descent_path(inst, p, r, m + 1, best_only),
{
    let path = choose|path: Seq<Seq<usize>>|
        #[trigger] is_descent(inst, path, best_only) && path.len() == m + 1 && path[0] == p
            && path[m as int] == q;
    let longer = path.push(r);
    assert forall|i: int| 0 <= i < longer.len() - 1 implies descent_step(
        inst,
        #[trigger] longer[i],
        longer[i + 1],
        best_only,
    ) by {
        if i < m {
            assert(longer[i] == path[i] && longer[i + 1] == path[i + 1]);
        } else {
            assert(longer[i] == q && longer[i + 1] == r);
        }
    }
    assert(is_descent(inst, longer, best_only));
}

/// No single move lowers the cost of `p`.
pub open spec fn is_local_optimum(inst: Instance, p: Seq<usize>) -> bool {
    forall|k: int|
        0 <= k < num_moves(p.len() as int) ==> inst.cost(p) <= inst.cost(#[trigger] apply_move(p, k))
}

/// `r` is the integer square root of `x`.
pub open spec fn is_isqrt(x: int, r: int) -> bool {
    0 <= r && r * r <= x < (r + 1) * (r + 1)
}

/// Integer square root, by bisection.
fn isqrt(x: u64) -> (r: u64)
    ensures
        is_isqrt(x as int, r as int),
{
    let mut lo: u64 = 0;
    let mut hi: u64 = 0x1_0000_0000;
    assert(hi * hi > u64::MAX) by (nonlinear_arith)
        requires hi == 0x1_0000_0000u64;
    while hi - lo > 1
        invariant
            lo < hi <= 0x1_0000_0000,
            lo * lo <= x,
            x < hi * hi,
        decreases hi - lo,
    {
        let mid: u64 = lo + (hi - lo) / 2;
        assert(mid * mid <= u64::MAX) by (nonlinear_arith)
            requires mid < 0x1_0000_0000;
        if mid * mid <= x {
            lo = mid;
        } else {
            hi = mid;
        }
    }
    lo
}

proof fn lemma_consecutive_product_even(n: int)
    ensures
        n * (n - 1) == 2 * (n * (n - 1) / 2),
{
    let a = n / 2;
    if n % 2 == 0 {
        assert(n * (n - 1) == 2 * (a * (n - 1))) by (nonlinear_arith)
            requires
                n == 2 * a,
        ;
    } else {
        assert(n * (n - 1) == 2 * (a * n)) by (nonlinear_arith)
            requires
                n == 2 * a + 1,
        ;
    }
}

proof fn lemma_moves_before_row(n: int, x: int)
    ensures
        2 * moves_before_row(n, x) == x * (2 * n - x - 1),
{
    lemma_consecutive_product_even(x + 1);
    assert(x * (2 * n - x - 1) == 2 * (n * x) - (x + 1) * x) by (nonlinear_arith);
}

/// The numbering of moves is a bijection from the swaps of a permutation of size
/// n onto the integers 0 .. n(n-1)/2: every move gets an index in that range, and
/// two moves with the same index are the same move.
pub proof fn lemma_move_numbering_bijective(n: int, i: int, j: int, i2: int, j2: int)
    requires
        is_move(n, i, j),
        is_move(n, i2, j2),
    ensures
        0 <= encode_move(n, i, j) < num_moves(n),
        encode_move(n, i, j) == encode_move(n, i2, j2) ==> i == i2 && j == j2,
{
    lemma_row_codes_below(n, i, j);
    lemma_row_codes_below(n, i2, j2);
    if encode_move(n, i, j) == encode_move(n, i2, j2) && i != i2 {
        if i < i2 {
            lemma_later_row_codes_above(n, i, j, i2, j2);
        } else {
            lemma_later_row_codes_above(n, i2, j2, i, j);
        }
    }
}

proof fn lemma_row_codes_below(n: int, i: int, j: int)
    requires
        is_move(n, i, j),
    ensures
        0 <= encode_move(n, i, j) < num_moves(n),
{
    lemma_moves_before_row(n, i);
    lemma_moves_before_row(n, i + 1);
    lemma_moves_before_row(n, n - 1);
    lemma_consecutive_product_even(n);
    assert(i * (2 * n - i - 1) >= 0) by (nonlinear_arith)
        requires
            0 <= i < n,
    ;
    assert((i + 1) * (2 * n - i - 2) == i * (2 * n - i - 1) + 2 * n - 2 * i - 2)
        by (nonlinear_arith);
    assert((n - 1 - (i + 1)) * (2 * n - (n - 1) - (i + 1) - 2) >= 0) by (nonlinear_arith)
        requires
            0 <= i < n - 1,
    ;
    assert((n - 1) * (2 * n - (n - 1) - 1) - (i + 1) * (2 * n - (i + 1) - 1) == (n - i - 2) * (n
        - i - 1)) by (nonlinear_arith);
    assert((n - i - 2) * (n - i - 1) >= 0) by (nonlinear_arith)
        requires
            i <= n - 2,
    ;
    assert((n - 1) * (2 * n - (n - 1) - 1) == n * (n - 1)) by (nonlinear_arith);
}

proof fn lemma_later_row_codes_above(n: int, i: int, j: int, i2: int, j2: int)
    requires
        is_move(n, i, j),
        is_move(n, i2, j2),
        i < i2,
    ensures
        encode_move(n, i, j) < encode_move(n, i2, j2),
{
    lemma_moves_before_row(n, i);
    lemma_moves_before_row(n, i2);
    assert(i2 * (2 * n - i2 - 1) - (i + 1) * (2 * n - (i + 1) - 1) == (i2 - i - 1) * (2 * n
        - i2 - i - 2)) by (nonlinear_arith);
    assert((i2 - i - 1) * (2 * n - i2 - i - 2) >= 0) by (nonlinear_arith)
        requires
            i + 1 <= i2 < n,
            0 <= i,
    ;
    assert((i + 1) * (2 * n - i - 2) == i * (2 * n - i - 1) + 2 * n - 2 * i - 2)
        by (nonlinear_arith);
}

/// The pair of positions that move `k` swaps: the inverse of `encode_move`, by a
/// closed-form inversion of the triangular numbers.
pub fn calculate_swap_indices(n: usize, k: usize) -> (r: (usize, usize))
    requires
        2 <= n,
        size_fits(n as int),
        0 <= k < num_moves(n as int),
    ensures
        is_move(n as int, r.0 as int, r.1 as int),
        encode_move(n as int, r.0 as int, r.1 as int) == k,
        (r.0 as int, r.1 as int) == decode_move(n as int, k as int),
{
    let nn: u64 = n as u64;
    let kk: u64 = k as u64;
    proof {
        lemma_consecutive_product_even(n as int);
        assert(nn * (nn - 1) <= 0x2000_0000_0000_0000) by (nonlinear_arith)
            requires
                2 <= nn,
                nn * nn <= 0x2000_0000_0000_0000,
        ;
    }
    let total: u64 = nn * (nn - 1) / 2;
    let numerator: u64 = 4 * (nn * (nn - 1)) - 8 * kk - 7;
    let root: u64 = isqrt(numerator);
    let ghost kr: int = total - 1 - kk;
    assert(numerator == 8 * kr + 1);
    assert(root >= 1) by {
        if root == 0 {
            assert((root + 1) * (root + 1) == 1) by (nonlinear_arith)
                requires
                    root == 0,
            ;
        }
    }
    let t: u64 = (root - 1) / 2;
    proof {
        let ti = t as int;
        let ri = root as int;
        assert(2 * ti + 1 <= ri <= 2 * ti + 2);
        assert((2 * ti + 1) * (2 * ti + 1) <= ri * ri) by (nonlinear_arith)
            requires
                0 <= 2 * ti + 1 <= ri,
        ;
        assert((ri + 1) * (ri + 1) <= (2 * ti + 3) * (2 * ti + 3)) by (nonlinear_arith)
            requires
                0 <= ri + 1 <= 2 * ti + 3,
        ;
        assert(ti * (ti + 1) <= 2 * kr) by (nonlinear_arith)
            requires
                (2 * ti + 1) * (2 * ti + 1) <= 8 * kr + 1,
        ;
        assert(2 * kr < (ti + 1) * (ti + 2)) by (nonlinear_arith)
            requires
                8 * kr + 1 < (2 * ti + 3) * (2 * ti + 3),
        ;
        let ni = n as int;
        if ti >= ni - 1 {
            assert(ti * (ti + 1) >= (ni - 1) * ni) by (nonlinear_arith)
                requires
                    ti >= ni - 1,
                    ni >= 2,
            ;
            assert((ni - 1) * ni == ni * (ni - 1)) by (nonlinear_arith);
        }
    }
    let i: u64 = nn - 2 - t;
    proof {
        let ni = n as int;
        let ii = i as int;
        let ti = t as int;
        assert((ni - ii) * (ni - ii - 1) == (ti + 2) * (ti + 1));
        assert((ni - ii) * (ni - ii - 1) <= ni * ni) by (nonlinear_arith)
            requires
                0 <= ii,
                ni - ii >= 2,
        ;
        assert(ni * ni <= 0x2000_0000_0000_0000);
    }
    let span: u64 = (nn - i) * (nn - i - 1) / 2;
    proof {
        let ni = n as int;
        let ii = i as int;
        let ti = t as int;
        let s = span as int;
        lemma_consecutive_product_even(ti + 2);
        assert((ti + 2) * (ti + 1) == (ti + 1) * (ti + 2)) by (nonlinear_arith);
        assert(2 * s == (ti + 1) * (ti + 2));
        assert(ti * (ti + 1) == (ti + 1) * (ti + 2) - 2 * (ti + 1)) by (nonlinear_arith);
        assert(ni * (ni - 1) - (ni - ii) * (ni - ii - 1) == ii * (2 * ni - ii - 1))
            by (nonlinear_arith);
        assert(moves_before_row(ni, ii) == total - s);
    }
    assert(kk < total <= 0x1000_0000_0000_0000);
    assert(span <= 0x1000_0000_0000_0000);
    assert(i < nn);
    assert(nn <= 0x8000_0000) by (nonlinear_arith)
        requires
            nn * nn <= 0x2000_0000_0000_0000,
    ;
    let j: u64 = kk + i + 1 + span - total;
    proof {
        let ni = n as int;
        let w = (i as int, j as int);
        assert(is_move(ni, w.0, w.1) && encode_move(ni, w.0, w.1) == k as int);
        let d = decode_move(ni, k as int);
        lemma_move_numbering_bijective(ni, i as int, j as int, d.0, d.1);
    }
    (i as usize, j as usize)
}

/// The permuted dot product of two rows: the sum over c of `row_a[c] * row_b[perm[c]]`.
pub fn dot_product_permuted(row_a: &[usize], row_b: &[usize], perm: &[usize]) -> (r: usize)
    requires
        forall|c: int|
            0 <= c < shorter(row_a@.len(), perm@.len()) ==> #[trigger] perm@[c] < row_b@.len(),
        dot_permuted(row_a@, row_b@, perm@, shorter(row_a@.len(), perm@.len())) <= usize::MAX,
    ensures
        r == dot_permuted(row_a@, row_b@, perm@, shorter(row_a@.len(), perm@.len())),
{
    let n = if row_a.len() < perm.len() {
        row_a.len()
    } else {
        perm.len()
    };
    let ghost f = dot_terms(row_a@, row_b@, perm@);
    assert forall|c: int| 0 <= c < n implies #[trigger] f(c) >= 0 by {
        let x = row_a@[c];
        let y = row_b@[perm@[c] as int];
        assert(x * y >= 0) by (nonlinear_arith)
            requires
                x >= 0,
                y >= 0,
        ;
    }
    let mut sum: usize = 0;
    let mut c: usize = 0;
    while c < n
        invariant
            n == shorter(row_a@.len(), perm@.len()),
            n <= row_a@.len(),
            n <= perm@.len(),
            forall|q: int| 0 <= q < n ==> #[trigger] perm@[q] < row_b@.len(),
            f == dot_terms(row_a@, row_b@, perm@),
            forall|q: int| 0 <= q < n ==> #[trigger] f(q) >= 0,
            dot_permuted(row_a@, row_b@, perm@, n as int) <= usize::MAX,
            c <= n,
            sum == dot_permuted(row_a@, row_b@, perm@, c as int),
        decreases n - c,
    {
        proof {
            lemma_sum_monotone(f, c as int + 1, n as int);
            lemma_sum_monotone(f, c as int, n as int);
        }
        sum = sum + row_a[c] * row_b[perm[c]];
        c = c + 1;
    }
    sum
}

/// Number of swap moves on a permutation of size n.
pub(crate) fn compute_num_neighbours(n: usize) -> (r: usize)
    requires
        size_fits(n as int),
    ensures
        r == num_moves(n as int),
        n >= 2 ==> r >= 1,
{
    proof {
        if n >= 2 {
            assert(n * (n - 1) >= 2) by (nonlinear_arith)
                requires
                    n >= 2,
            ;
        }
        assert(n * n <= usize::MAX) by (nonlinear_arith)
            requires
                n * n <= (usize::MAX as int) / 8,
        ;
        if n >= 1 {
            assert(n * (n - 1) <= n * n) by (nonlinear_arith)
                requires
                    n >= 1,
            ;
        }
    }
    if n == 0 {
        0
    } else {
        n * (n - 1) / 2
    }
}

/// Exchanging two entries keeps an assignment an assignment and a permutation
/// a permutation: so does any sequence of moves.
pub proof fn lemma_swap_preserves_permutation(p: Seq<usize>, n: int, i: int, j: int)
    requires
        0 <= i < n,
        0 <= j < n,
    ensures
        is_assignment(p, n) ==> is_assignment(swap_positions(p, i, j), n),
        is_permutation(p, n) ==> is_permutation(swap_positions(p, i, j), n),
{
    let q = swap_positions(p, i, j);
    if is_permutation(p, n) {
        assert forall|x: int, y: int| 0 <= x < y < n implies q[x] != q[y] by {
            let sx = if x == i { j } else if x == j { i } else { x };
            let sy = if y == i { j } else if y == j { i } else { y };
            assert(q[x] == p[sx]);
            assert(q[y] == p[sy]);
            if sx < sy {
                assert(p[sx] != p[sy]);
            } else {
                assert(p[sy] != p[sx]);
            }
        }
    }
}

/// A permutation stays a permutation under every move.
pub proof fn lemma_move_preserves_permutation(p: Seq<usize>, k: int)
    requires
        is_permutation(p, p.len() as int),
        p.len() >= 2,
        0 <= k < num_moves(p.len() as int),
    ensures
        is_permutation(apply_move(p, k), p.len() as int),
{
    let n = p.len() as int;
    lemma_decode_move(n, k);
    let d = decode_move(n, k);
    lemma_swap_preserves_permutation(p, n, d.0, d.1);
}

/// Every index below num_moves(n) decodes to a move.
pub proof fn lemma_decode_move(n: int, k: int)
    requires
        n >= 2,
        0 <= k < num_moves(n),
    ensures
        is_move(n, decode_move(n, k).0, decode_move(n, k).1),
        encode_move(n, decode_move(n, k).0, decode_move(n, k).1) == k,
    decreases k,
{
    if k < n - 1 {
        let w = (0int, k + 1);
        assert(is_move(n, w.0, w.1) && encode_move(n, w.0, w.1) == k);
    } else {
        lemma_consecutive_product_even(n);
        lemma_consecutive_product_even(n - 1);
        assert((n - 1) * (n - 2) == n * (n - 1) - 2 * (n - 1)) by (nonlinear_arith);
        lemma_decode_move(n - 1, k - (n - 1));
        let d = decode_move(n - 1, k - (n - 1));
        let w = (d.0 + 1, d.1 + 1);
        lemma_moves_before_row(n, d.0 + 1);
        lemma_moves_before_row(n - 1, d.0);
        assert((d.0 + 1) * (2 * n - (d.0 + 1) - 1) == d.0 * (2 * (n - 1) - d.0 - 1) + 2 * (n
            - 1)) by (nonlinear_arith);
        assert(is_move(n, w.0, w.1) && encode_move(n, w.0, w.1) == k);
    }
}

/// Applies move `neighbour_idx` to `perm`.
pub fn move_to_neighbour(perm: Vec<usize>, neighbour_idx: usize) -> (r: Vec<usize>)
    requires
        2 <= perm.len(),
        size_fits(perm.len() as int),
        neighbour_idx < num_moves(perm.len() as int),
    ensures
        r@ == apply_move(perm@, neighbour_idx as int),
{
    let mut perm = perm;
    let n = perm.len();
    let (i, j) = calculate_swap_indices(n, neighbour_idx);
    let x = perm[i];
    let y = perm[j];
    perm.set(i, y);
    perm.set(j, x);
    perm
}

/// The permuted dot product of two rows under `perm` with positions s0 and s1
/// exchanged, computed without building that permutation.
pub fn dot_product_permuted_with_swap(
    row_a: &[usize],
    row_b: &[usize],
    perm: &[usize],
    swap_idx_0: usize,
    swap_idx_1: usize,
) -> (r: usize)
    requires
        row_a@.len() == perm@.len(),
        swap_idx_0 < perm@.len(),
        swap_idx_1 < perm@.len(),
        forall|c: int| 0 <= c < perm@.len() ==> #[trigger] perm@[c] < row_b@.len(),
        dot_permuted(
            row_a@,
            row_b@,
            swap_positions(perm@, swap_idx_0 as int, swap_idx_1 as int),
            perm@.len() as int,
        ) <= usize::MAX,
    ensures
        r == dot_permuted(
            row_a@,
            row_b@,
            swap_positions(perm@, swap_idx_0 as int, swap_idx_1 as int),
            perm@.len() as int,
        ),
{
    let n = row_a.len();
    let ghost q = swap_positions(perm@, swap_idx_0 as int, swap_idx_1 as int);
    let ghost f = dot_terms(row_a@, row_b@, q);
    assert forall|c: int| 0 <= c < n implies #[trigger] f(c) >= 0 by {
        let x = row_a@[c];
        let y = row_b@[q[c] as int];
        assert(x * y >= 0) by (nonlinear_arith)
            requires
                x >= 0,
                y >= 0,
        ;
    }
    let mut sum: usize = 0;
    let mut c: usize = 0;
    while c < n
        invariant
            n == perm@.len(),
            row_a@.len() == n,
            swap_idx_0 < n,
            swap_idx_1 < n,
            forall|q: int| 0 <= q < perm@.len() ==> #[trigger] perm@[q] < row_b@.len(),
            q == swap_positions(perm@, swap_idx_0 as int, swap_idx_1 as int),
            f == dot_terms(row_a@, row_b@, q),
            forall|x: int| 0 <= x < n ==> #[trigger] f(x) >= 0,
            dot_permuted(row_a@, row_b@, q, n as int) <= usize::MAX,
            c <= n,
            sum == dot_permuted(row_a@, row_b@, q, c as int),
        decreases n - c,
    {
        proof {
            lemma_sum_monotone(f, c as int + 1, n as int);
            lemma_sum_monotone(f, c as int, n as int);
        }
        let located = if c == swap_idx_0 {
            perm[swap_idx_1]
        } else if c == swap_idx_1 {
            perm[swap_idx_0]
        } else {
            perm[c]
        };
        assert(located == q[c as int]);
        sum = sum + row_a[c] * row_b[located];
        c = c + 1;
    }
    sum
}

/// What row r contributes through columns i0 and i1 to the cost of `p`, for the
/// rows other than i0 and i1.
pub open spec fn column_terms(
    a: Seq<Seq<usize>>,
    b: Seq<Seq<usize>>,
    p: Seq<usize>,
    i0: int,
    i1: int,
) -> spec_fn(int) -> int {
    |r: int|
        if r != i0 && r != i1 {
            a[r][i0] * b[p[r] as int][p[i0] as int] + a[r][i1] * b[p[r] as int][p[i1] as int]
        } else {
            0
        }
}

/// The cost change of a swap splits into the two swapped rows and the two
/// swapped columns of the other rows.
proof fn lemma_swap_delta(a: Seq<Seq<usize>>, b: Seq<Seq<usize>>, p: Seq<usize>, i0: int, i1: int)
    requires
        0 <= i0 < p.len(),
        0 <= i1 < p.len(),
        i0 != i1,
    ensures
        qap_cost(a, b, p) - qap_cost(a, b, swap_positions(p, i0, i1)) == row_cost(a, b, p, i0)
            - row_cost(a, b, swap_positions(p, i0, i1), i0) + row_cost(a, b, p, i1) - row_cost(
            a,
            b,
            swap_positions(p, i0, i1),
            i1,
        ) + sum_to(column_terms(a, b, p, i0, i1), p.len() as int) - sum_to(
            column_terms(a, b, swap_positions(p, i0, i1), i0, i1),
            p.len() as int,
        ),
{
    let n = p.len() as int;
    let q = swap_positions(p, i0, i1);
    let rp = row_costs(a, b, p);
    let rq = row_costs(a, b, q);
    let cp = column_terms(a, b, p, i0, i1);
    let cq = column_terms(a, b, q, i0, i1);
    let d = |r: int| rp(r) - rq(r);
    lemma_sum_sub(rp, rq, n);
    assert forall|r: int| 0 <= r < n && r != i0 && r != i1 implies #[trigger] d(r) == cp(r) - cq(
        r,
    ) by {
        let tp = dot_terms(a[r], b[p[r] as int], p);
        let tq = dot_terms(a[r], b[q[r] as int], q);
        lemma_sum_sub(tp, tq, n);
        let e = |c: int| tp(c) - tq(c);
        assert forall|c: int| 0 <= c < n && c != i0 && c != i1 implies #[trigger] e(c) == 0 by {
            assert(q[c] == p[c]);
        }
        lemma_sum_two_points(e, n, i0, i1);
    }
    let masked = |r: int|
        if r != i0 && r != i1 {
            d(r)
        } else {
            0
        };
    lemma_sum_sub(d, masked, n);
    let rest = |r: int| d(r) - masked(r);
    assert forall|r: int| 0 <= r < n && r != i0 && r != i1 implies #[trigger] rest(r) == 0 by {}
    lemma_sum_two_points(rest, n, i0, i1);
    lemma_sum_sub(cp, cq, n);
    let diff = |r: int| cp(r) - cq(r);
    assert forall|r: int| 0 <= r < n implies #[trigger] masked(r) == diff(r) by {}
    lemma_sum_ext(masked, diff, n);
    assert(sum_to(d, n) == sum_to(|r: int| rp(r) - rq(r), n));
}

/// The cost change of move `neighbour_idx` on `perm`, positive when the move
/// lowers the cost: `cost(perm) - cost(perm after the move)`. Only the two rows and
/// the two columns that the move touches are visited.
pub fn eval_diff(instance: &Instance, perm: &[usize], neighbour_idx: usize) -> (r: isize)
    requires
        instance.wf(),
        is_assignment(perm@, instance.size as int),
        2 <= perm@.len(),
        neighbour_idx < num_moves(perm@.len() as int),
    ensures
        r == instance.cost(perm@) - instance.cost(apply_move(perm@, neighbour_idx as int)),
{
    let n = perm.len();
    let (i0, i1) = calculate_swap_indices(n, neighbour_idx);
    let ghost p = perm@;
    let ghost q = swap_positions(p, i0 as int, i1 as int);
    let ghost a = instance.a();
    let ghost b = instance.b();
    proof {
        lemma_swap_preserves_permutation(p, n as int, i0 as int, i1 as int);
        lemma_cost_bounds(instance, p);
        lemma_cost_bounds(instance, q);
        crate::instance::lemma_term_cap(n as int);
        assert(row_costs(a, b, p)(i0 as int) == row_cost(a, b, p, i0 as int));
        assert(row_costs(a, b, p)(i1 as int) == row_cost(a, b, p, i1 as int));
        assert(row_costs(a, b, q)(i0 as int) == row_cost(a, b, q, i0 as int));
        assert(row_costs(a, b, q)(i1 as int) == row_cost(a, b, q, i1 as int));
        assert(q[i0 as int] == p[i1 as int]);
        assert(q[i1 as int] == p[i0 as int]);
    }
    let row_a0 = instance.matrix_a[i0].as_slice();
    let row_a1 = instance.matrix_a[i1].as_slice();
    assert(row_a0@ == a[i0 as int]);
    assert(row_a1@ == a[i1 as int]);
    assert(instance.matrix_b@[p[i0 as int] as int]@ == b[p[i0 as int] as int]);
    assert(instance.matrix_b@[p[i1 as int] as int]@ == b[p[i1 as int] as int]);
    let mut before_swap: u128 = dot_product_permuted(
        row_a0,
        instance.matrix_b[perm[i0]].as_slice(),
        perm,
    ) as u128 + dot_product_permuted(row_a1, instance.matrix_b[perm[i1]].as_slice(), perm) as u128;
    let mut after_swap: u128 = dot_product_permuted_with_swap(
        row_a0,
        instance.matrix_b[perm[i1]].as_slice(),
        perm,
        i0,
        i1,
    ) as u128 + dot_product_permuted_with_swap(
        row_a1,
        instance.matrix_b[perm[i0]].as_slice(),
        perm,
        i0,
        i1,
    ) as u128;
    let ghost cap = crate::instance::term_cap(n as int);
    let ghost cp = column_terms(a, b, p, i0 as int, i1 as int);
    let ghost cq = column_terms(a, b, q, i0 as int, i1 as int);
    let ghost head_p = row_cost(a, b, p, i0 as int) + row_cost(a, b, p, i1 as int);
    let ghost head_q = row_cost(a, b, q, i0 as int) + row_cost(a, b, q, i1 as int);
    assert(before_swap == head_p);
    assert(after_swap == head_q);
    proof {
        let ni = n as int;
        assert(cap <= ni * cap) by (nonlinear_arith)
            requires
                ni >= 1,
                cap >= 0,
        ;
        assert(ni <= 0x8000_0000) by (nonlinear_arith)
            requires
                ni * ni <= 0x2000_0000_0000_0000,
        ;
    }
    let mut i: usize = 0;
    while i < n
        invariant
            instance.wf(),
            n == perm@.len(),
            n == instance.size,
            p == perm@,
            is_assignment(p, n as int),
            a == instance.a(),
            b == instance.b(),
            i0 < n,
            i1 < n,
            i0 != i1,
            q == swap_positions(p, i0 as int, i1 as int),
            cap == crate::instance::term_cap(n as int),
            0 <= cap <= isize::MAX,
            n <= 0x8000_0000,
            cp == column_terms(a, b, p, i0 as int, i1 as int),
            cq == column_terms(a, b, q, i0 as int, i1 as int),
            0 <= head_p <= 2 * isize::MAX,
            0 <= head_q <= 2 * isize::MAX,
            i <= n,
            before_swap == head_p + sum_to(cp, i as int),
            after_swap == head_q + sum_to(cq, i as int),
            sum_to(cp, i as int) <= i * (2 * cap),
            sum_to(cq, i as int) <= i * (2 * cap),
        decreases n - i,
    {
        if i != i0 && i != i1 {
            let row_a = instance.matrix_a[i].as_slice();
            let row_b = instance.matrix_b[perm[i]].as_slice();
            proof {
                crate::instance::lemma_term_bounds(
                    instance,
                    i as int,
                    i0 as int,
                    p[i as int] as int,
                    p[i0 as int] as int,
                );
                crate::instance::lemma_term_bounds(
                    instance,
                    i as int,
                    i1 as int,
                    p[i as int] as int,
                    p[i1 as int] as int,
                );
                crate::instance::lemma_term_bounds(
                    instance,
                    i as int,
                    i1 as int,
                    p[i as int] as int,
                    p[i0 as int] as int,
                );
                crate::instance::lemma_term_bounds(
                    instance,
                    i as int,
                    i0 as int,
                    p[i as int] as int,
                    p[i1 as int] as int,
                );
                assert(row_a@ == a[i as int]);
                assert(row_b@ == b[p[i as int] as int]);
                assert(q[i as int] == p[i as int]);
            }
            let x0 = row_a[i0] * row_b[perm[i0]];
            let x1 = row_a[i1] * row_b[perm[i1]];
            let y0 = row_a[i1] * row_b[perm[i0]];
            let y1 = row_a[i0] * row_b[perm[i1]];
            proof {
                assert(i * (2 * cap) + 2 * cap == (i + 1) * (2 * cap)) by (nonlinear_arith);
                assert((i + 1) * (2 * cap) <= 0x8000_0001 * (2 * cap)) by (nonlinear_arith)
                    requires
                        i + 1 <= 0x8000_0001,
                        cap >= 0,
                ;
            }
            before_swap = before_swap + x0 as u128 + x1 as u128;
            after_swap = after_swap + y0 as u128 + y1 as u128;
        } else {
            proof {
                assert(i * (2 * cap) + 0 <= (i + 1) * (2 * cap)) by (nonlinear_arith)
                    requires
                        cap >= 0,
                ;
            }
        }
        i = i + 1;
    }
    proof {
        lemma_swap_delta(a, b, p, i0 as int, i1 as int);
        assert(n * (2 * cap) <= 0x8000_0000 * (2 * cap)) by (nonlinear_arith)
            requires
                n <= 0x8000_0000,
                cap >= 0,
        ;
    }
    (before_swap as i128 - after_swap as i128) as isize
}

} // verus!

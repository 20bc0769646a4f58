//! A problem instance: the flow and distance matrices, the cost of an
//! assignment, and a row-sum constructor of starting permutations.
use vstd::prelude::*;

use crate::solver::{dot_product_permuted, size_fits};
use crate::sums::{lemma_sum_bounded, lemma_sum_monotone, sum_to};
use crate::{argsort, holds_value, is_sorted_order, sorts_before};

verus! {

/// `m` is an n-by-n matrix.
pub open spec fn is_square(m: Seq<Seq<usize>>, n: int) -> bool {
    m.len() == n && forall|i: int| 0 <= i < n ==> (#[trigger] m[i]).len() == n
}

/// `p` maps each of the n positions to one of n locations.
pub open spec fn is_assignment(p: Seq<usize>, n: int) -> bool {
    p.len() == n && forall|i: int| 0 <= i < n ==> #[trigger] p[i] < n
}

/// `p` holds each of 0 .. n-1 exactly once.
pub open spec fn is_permutation(p: Seq<usize>, n: int) -> bool {
    &&& is_assignment(p, n)
    &&& forall|i: int, j: int| 0 <= i < j < n ==> p[i] != p[j]
}

/// The largest value one product of matrix entries may take so that n*n of them
/// still sum to at most `isize::MAX`.
pub open spec fn term_cap(n: int) -> int {
    (isize::MAX as int) / (n * n)
}

/// Every entry, and every product of an entry of `a` with one of `b`, is at most
/// `term_cap(n)`: then every cost of the instance fits in a machine word.
pub open spec fn entries_fit(a: Seq<Seq<usize>>, b: Seq<Seq<usize>>, n: int) -> bool {
    &&& forall|i: int, j: int| 0 <= i < n && 0 <= j < n ==> #[trigger] a[i][j] <= term_cap(n)
    &&& forall|i: int, j: int| 0 <= i < n && 0 <= j < n ==> #[trigger] b[i][j] <= term_cap(n)
    &&& forall|i: int, j: int, k: int, l: int|
        #![trigger a[i][j], b[k][l]]
        0 <= i < n && 0 <= j < n && 0 <= k < n && 0 <= l < n ==> a[i][j] * b[k][l] <= term_cap(
            n,
        )
}

/// The terms of the permuted dot product: `row_a[c] * row_b[perm[c]]`.
pub open spec fn dot_terms(row_a: Seq<usize>, row_b: Seq<usize>, perm: Seq<usize>) -> spec_fn(
    int,
) -> int {
    |c: int| row_a[c] * row_b[perm[c] as int]
}

/// The sum of the first m terms of the permuted dot product of two rows.
pub open spec fn dot_permuted(row_a: Seq<usize>, row_b: Seq<usize>, perm: Seq<usize>, m: int) -> int {
    sum_to(dot_terms(row_a, row_b, perm), m)
}

/// What row r of the flow matrix contributes to the cost of `p`.
pub open spec fn row_cost(a: Seq<Seq<usize>>, b: Seq<Seq<usize>>, p: Seq<usize>, r: int) -> int {
    dot_permuted(a[r], b[p[r] as int], p, p.len() as int)
}

pub open spec fn row_costs(a: Seq<Seq<usize>>, b: Seq<Seq<usize>>, p: Seq<usize>) -> spec_fn(
    int,
) -> int {
    |r: int| row_cost(a, b, p, r)
}

/// The cost of assignment `p`: the sum over all i, j of `a[i][j] * b[p[i]][p[j]]`.
pub open spec fn qap_cost(a: Seq<Seq<usize>>, b: Seq<Seq<usize>>, p: Seq<usize>) -> int {
    sum_to(row_costs(a, b, p), p.len() as int)
}

#[derive(Debug)]
pub struct Instance {
    pub matrix_a: Vec<Vec<usize>>,
    pub matrix_b: Vec<Vec<usize>>,
    pub size: usize,
    pub optimal_cost: usize,
    pub optimal_permutation: Vec<usize>,
}

impl Instance {
    /// The flow matrix.
    pub open spec fn a(&self) -> Seq<Seq<usize>> {
        self.matrix_a.deep_view()
    }

    /// The distance matrix.
    pub open spec fn b(&self) -> Seq<Seq<usize>> {
        self.matrix_b.deep_view()
    }

    /// Both matrices are size-by-size, and every cost fits in a machine word.
    pub open spec fn wf(&self) -> bool {
        &&& size_fits(self.size as int)
        &&& is_square(self.a(), self.size as int)
        &&& is_square(self.b(), self.size as int)
        &&& entries_fit(self.a(), self.b(), self.size as int)
    }

    /// The cost of assignment `p` on this instance.
    pub open spec fn cost(&self, p: Seq<usize>) -> int {
        qap_cost(self.a(), self.b(), p)
    }

    pub fn new(
        matrix_a: Vec<Vec<usize>>,
        matrix_b: Vec<Vec<usize>>,
        optimal_cost: usize,
        optimal_permutation: Vec<usize>,
    ) -> (r: Instance)
        ensures
            r.matrix_a == matrix_a,
            r.matrix_b == matrix_b,
            r.size == matrix_a.len(),
            r.optimal_cost == optimal_cost,
            r.optimal_permutation == optimal_permutation,
    {
        let size = matrix_a.len();
        Instance { matrix_a, matrix_b, size, optimal_cost, optimal_permutation }
    }

    /// The number of positions, up to the shorter length, at which `perm` differs
    /// from the known optimal permutation.
    pub fn get_solutions_distance(&self, perm: &Vec<usize>) -> (r: usize)
        ensures
            r == mismatches(
                self.optimal_permutation@,
                perm@,
                if self.optimal_permutation@.len() < perm@.len() {
                    self.optimal_permutation@.len() as int
                } else {
                    perm@.len() as int
                },
            ),
    {
        let m = if self.optimal_permutation.len() < perm.len() {
            self.optimal_permutation.len()
        } else {
            perm.len()
        };
        let mut count: usize = 0;
        let mut i: usize = 0;
        while i < m
            invariant
                m <= self.optimal_permutation@.len(),
                m <= perm@.len(),
                i <= m,
                count == mismatches(self.optimal_permutation@, perm@, i as int),
                count <= i,
            decreases m - i,
        {
            if self.optimal_permutation[i] != perm[i] {
                count = count + 1;
            }
            i = i + 1;
        }
        count
    }

    /// Whether this instance is well-formed (`wf`), which every search asks of it.
    pub fn is_well_formed(&self) -> (r: bool)
        ensures
            r == self.wf(),
    {
        let n = self.size;
        let ghost a = self.a();
        let ghost b = self.b();
        let squared = match n.checked_mul(n) {
            Some(s) => s,
            None => {
                return false;
            },
        };
        if squared > usize::MAX / 8 {
            return false;
        }
        if !is_square_matrix(&self.matrix_a, n) || !is_square_matrix(&self.matrix_b, n) {
            return false;
        }
        if n == 0 {
            return true;
        }
        assert(squared >= 1) by (nonlinear_arith)
            requires
                squared == n * n,
                n >= 1,
        ;
        let cap: usize = (isize::MAX as usize) / squared;
        let max_a = max_entry(&self.matrix_a, n);
        let max_b = max_entry(&self.matrix_b, n);
        assert((max_a as u128) * (max_b as u128) <= u128::MAX) by (nonlinear_arith)
            requires
                max_a <= u64::MAX,
                max_b <= u64::MAX,
        ;
        let fits = max_a <= cap && max_b <= cap && (max_a as u128) * (max_b as u128) <= cap as u128;
        proof {
            assert(cap == term_cap(n as int));
            let (ia, ja) = choose|ia: int, ja: int| 0 <= ia < n && 0 <= ja < n && a[ia][ja] == max_a;
            let (ib, jb) = choose|ib: int, jb: int| 0 <= ib < n && 0 <= jb < n && b[ib][jb] == max_b;
            if fits {
                assert forall|i: int, j: int, k: int, l: int|
                    #![trigger a[i][j], b[k][l]]
                    0 <= i < n && 0 <= j < n && 0 <= k < n && 0 <= l < n implies a[i][j] * b[k][l]
                        <= term_cap(n as int) by {
                    let x = a[i][j];
                    let y = b[k][l];
                    assert(x * y <= max_a * max_b) by (nonlinear_arith)
                        requires
                            0 <= x <= max_a,
                            0 <= y <= max_b,
                    ;
                }
                assert(entries_fit(a, b, n as int));
            } else {
                assert(a[ia][ja] * b[ib][jb] == max_a * max_b);
            }
        }
        fits
    }

    pub fn get_matrix_a(&self) -> (r: &Vec<Vec<usize>>)
        ensures
            r == &self.matrix_a,
    {
        &self.matrix_a
    }

    pub fn get_matrix_b(&self) -> (r: &Vec<Vec<usize>>)
        ensures
            r == &self.matrix_b,
    {
        &self.matrix_b
    }

    pub fn get_size(&self) -> (r: usize)
        ensures
            r == self.size,
    {
        self.size
    }

    /// The cost of `solution`.
    pub fn evaluate(&self, solution: &[usize]) -> (r: usize)
        requires
            self.wf(),
            is_assignment(solution@, self.size as int),
        ensures
            r == self.cost(solution@),
    {
        let n = solution.len();
        proof {
            lemma_cost_bounds(self, solution@);
        }
        let mut total: usize = 0;
        let mut r: usize = 0;
        while r < n
            invariant
                self.wf(),
                is_assignment(solution@, self.size as int),
                n == solution@.len(),
                r <= n,
                total == sum_to(row_costs(self.a(), self.b(), solution@), r as int),
                0 <= self.cost(solution@) <= isize::MAX,
                forall|q: int| 0 <= q < n ==> #[trigger] row_costs(self.a(), self.b(), solution@)(q) >= 0,
            decreases n - r,
        {
            proof {
                lemma_sum_monotone(row_costs(self.a(), self.b(), solution@), r as int + 1, n as int);
            }
            let row_a = &self.matrix_a[r];
            let row_b = &self.matrix_b[solution[r]];
            assert(row_a@ == self.a()[r as int]);
            assert(row_b@ == self.b()[solution@[r as int] as int]);
            let d = dot_product_permuted(row_a.as_slice(), row_b.as_slice(), solution);
            total = total + d;
            r = r + 1;
        }
        total
    }
}

pub(crate) proof fn lemma_term_cap(n: int)
    requires
        n >= 1,
    ensures
        0 <= term_cap(n),
        n * term_cap(n) <= n * n * term_cap(n) <= isize::MAX,
{
    let d = n * n;
    assert(d >= 1) by (nonlinear_arith)
        requires
            n >= 1,
            d == n * n,
    ;
    vstd::arithmetic::div_mod::lemma_fundamental_div_mod(isize::MAX as int, d);
    vstd::arithmetic::div_mod::lemma_div_pos_is_pos(isize::MAX as int, d);
    let t = term_cap(n);
    assert(n * t <= n * n * t) by (nonlinear_arith)
        requires
            n >= 1,
            t >= 0,
    ;
    vstd::arithmetic::div_mod::lemma_mod_bound(isize::MAX as int, d);
}

/// One term of any cost on a well-formed instance lies in 0 .. term_cap(n).
pub(crate) proof fn lemma_term_bounds(inst: &Instance, i: int, j: int, k: int, l: int)
    requires
        inst.wf(),
        0 <= i < inst.size,
        0 <= j < inst.size,
        0 <= k < inst.size,
        0 <= l < inst.size,
    ensures
        0 <= inst.a()[i][j] * inst.b()[k][l] <= term_cap(inst.size as int),
{
    let x = inst.a()[i][j];
    let y = inst.b()[k][l];
    assert(x * y >= 0) by (nonlinear_arith)
        requires
            x >= 0,
            y >= 0,
    ;
}

/// Each row cost of an assignment, and its cost, lie between 0 and `isize::MAX`.
pub(crate) proof fn lemma_cost_bounds(inst: &Instance, p: Seq<usize>)
    requires
        inst.wf(),
        is_assignment(p, inst.size as int),
    ensures
        forall|r: int| 0 <= r < inst.size ==> 0 <= #[trigger] row_costs(inst.a(), inst.b(), p)(r)
            <= inst.size * term_cap(inst.size as int),
        0 <= inst.cost(p) <= inst.size * inst.size * term_cap(inst.size as int),
        inst.cost(p) <= isize::MAX,
{
    let n = inst.size as int;
    if n == 0 {
        return;
    }
    lemma_term_cap(n);
    let cap = term_cap(n);
    assert forall|r: int| 0 <= r < n implies 0 <= #[trigger] row_costs(inst.a(), inst.b(), p)(r)
        <= n * cap by {
        lemma_row_cost_bounds(inst, p, r);
    }
    lemma_sum_bounded(row_costs(inst.a(), inst.b(), p), n, n * cap);
    lemma_sum_monotone(row_costs(inst.a(), inst.b(), p), 0, n);
    assert(n * (n * cap) == n * n * cap) by (nonlinear_arith);
}

/// The partial dot products of one row of an assignment lie between 0 and the row's
/// whole cost, which is at most n * term_cap(n).
pub(crate) proof fn lemma_row_cost_bounds(inst: &Instance, p: Seq<usize>, r: int)
    requires
        inst.wf(),
        is_assignment(p, inst.size as int),
        0 <= r < inst.size,
    ensures
        0 <= row_cost(inst.a(), inst.b(), p, r) <= inst.size * term_cap(inst.size as int),
        forall|m: int|
            0 <= m <= inst.size ==> 0 <= #[trigger] dot_permuted(
                inst.a()[r],
                inst.b()[p[r] as int],
                p,
                m,
            ) <= row_cost(inst.a(), inst.b(), p, r),
{
    let n = inst.size as int;
    let f = dot_terms(inst.a()[r], inst.b()[p[r] as int], p);
    assert forall|c: int| 0 <= c < n implies 0 <= #[trigger] f(c) <= term_cap(n) by {
        lemma_term_bounds(inst, r, c, p[r] as int, p[c] as int);
    }
    lemma_sum_bounded(f, n, term_cap(n));
    assert forall|m: int| 0 <= m <= n implies 0 <= #[trigger] dot_permuted(
        inst.a()[r],
        inst.b()[p[r] as int],
        p,
        m,
    ) <= row_cost(inst.a(), inst.b(), p, r) by {
        lemma_sum_monotone(f, m, n);
    }
}

/// The number of positions below m at which `p` and `q` differ.
pub open spec fn mismatches(p: Seq<usize>, q: Seq<usize>, m: int) -> int {
    sum_to(|i: int| if p[i] != q[i] { 1int } else { 0int }, m)
}

/// The sum of row i of `m`.
pub open spec fn row_sum(m: Seq<Seq<usize>>, i: int) -> int {
    sum_to(|j: int| m[i][j] as int, m.len() as int)
}

/// The sum of column c of `m`.
pub open spec fn column_sum(m: Seq<Seq<usize>>, c: int) -> int {
    sum_to(|r: int| m[r][c] as int, m.len() as int)
}

/// `m` is n-by-n and each of its entries is at most `term_cap(n)`.
pub open spec fn is_bounded_square(m: Seq<Seq<usize>>, n: int) -> bool {
    &&& is_square(m, n)
    &&& forall|i: int, j: int| 0 <= i < n && 0 <= j < n ==> #[trigger] m[i][j] <= term_cap(n)
}

/// `perm` sends the index of `sums_a` with rank t in ascending order to the index of
/// `sums_b` with rank t in descending order (equal sums ranked by index): the
/// lightest rows of one matrix meet the heaviest rows of the other.
pub open spec fn matches_ranks(sums_a: Seq<usize>, sums_b: Seq<usize>, perm: Seq<usize>) -> bool {
    &&& is_permutation(perm, sums_a.len() as int)
    &&& forall|x: int, y: int|
        0 <= x < sums_a.len() && 0 <= y < sums_a.len() && x != y ==> (sorts_before(
            sums_a,
            true,
            x,
            y,
        ) <==> sorts_before(sums_b, false, perm[x] as int, perm[y] as int))
}

/// The cost of placing row i at `row_perm[i]` and column j at `col_perm[j]`: the
/// sum over all i, j of `a[i][j] * b[row_perm[i]][col_perm[j]]`.
pub open spec fn split_cost(
    a: Seq<Seq<usize>>,
    b: Seq<Seq<usize>>,
    row_perm: Seq<usize>,
    col_perm: Seq<usize>,
) -> int {
    sum_to(|i: int| split_row_cost(a, b, row_perm, col_perm, i, row_perm.len() as int), row_perm.len() as int)
}

/// The first m terms of row i of `split_cost`.
pub open spec fn split_row_cost(
    a: Seq<Seq<usize>>,
    b: Seq<Seq<usize>>,
    row_perm: Seq<usize>,
    col_perm: Seq<usize>,
    i: int,
    m: int,
) -> int {
    sum_to(|j: int| a[i][j] * b[row_perm[i] as int][col_perm[j] as int], m)
}

/// In a sorted order, position decides precedence.
proof fn lemma_sorted_order_positions(arr: Seq<usize>, ascending: bool, r: Seq<usize>, s: int, t: int)
    requires
        is_sorted_order(arr, ascending, r),
        0 <= s < r.len(),
        0 <= t < r.len(),
        s != t,
    ensures
        sorts_before(arr, ascending, r[s] as int, r[t] as int) <==> s < t,
{
    if t < s {
        assert(sorts_before(arr, ascending, r[t] as int, r[s] as int));
        assert(r[t] != r[s]);
    }
}

/// Row and column constructors of starting assignments, from the sums of the
/// instance's matrices.
pub struct Solver<'a> {
    instance: &'a Instance,
}

impl<'q> Solver<'q> {
    /// The instance whose sums are used.
    pub closed spec fn instance_spec(&self) -> Instance {
        *self.instance
    }

    pub fn new(instance: &'q Instance) -> (r: Solver<'q>)
        ensures
            r.instance_spec() == *instance,
    {
        Solver { instance }
    }

    /// Row permutation, column permutation and their cost: rows (and columns) of A
    /// with low sums go to rows (and columns) of B with high sums.
    pub fn solve(&self) -> (r: (Vec<usize>, Vec<usize>, usize))
        requires
            self.instance_spec().wf(),
        ensures
            r.0@.len() == self.instance_spec().size,
            matches_ranks(
                Seq::new(self.instance_spec().size as nat, |i: int| row_sum(self.instance_spec().a(), i) as usize),
                Seq::new(self.instance_spec().size as nat, |i: int| row_sum(self.instance_spec().b(), i) as usize),
                r.0@,
            ),
            matches_ranks(
                Seq::new(self.instance_spec().size as nat, |c: int| column_sum(self.instance_spec().a(), c) as usize),
                Seq::new(self.instance_spec().size as nat, |c: int| column_sum(self.instance_spec().b(), c) as usize),
                r.1@,
            ),
            r.2 == split_cost(self.instance_spec().a(), self.instance_spec().b(), r.0@, r.1@),
    {
        let a_rows_sums = get_rows_sum(&self.instance.matrix_a, self.instance.size);
        let b_rows_sums = get_rows_sum(&self.instance.matrix_b, self.instance.size);
        let a_cols_sums = self.get_columns_sum(&self.instance.matrix_a);
        let b_cols_sums = self.get_columns_sum(&self.instance.matrix_b);
        let row_permutation = self.greedy_mapping(a_rows_sums.as_slice(), b_rows_sums.as_slice());
        let col_permutation = self.greedy_mapping(a_cols_sums.as_slice(), b_cols_sums.as_slice());
        assert(a_rows_sums@ =~= Seq::new(self.instance.size as nat, |i: int| row_sum(self.instance.a(), i) as usize));
        assert(b_rows_sums@ =~= Seq::new(self.instance.size as nat, |i: int| row_sum(self.instance.b(), i) as usize));
        assert(a_cols_sums@ =~= Seq::new(self.instance.size as nat, |c: int| column_sum(self.instance.a(), c) as usize));
        assert(b_cols_sums@ =~= Seq::new(self.instance.size as nat, |c: int| column_sum(self.instance.b(), c) as usize));
        let cost = self.compute_cost(
            row_permutation.as_slice(),
            col_permutation.as_slice(),
            &self.instance.matrix_a,
            &self.instance.matrix_b,
        );
        (row_permutation, col_permutation, cost)
    }

    /// The column sums of `matrix`.
    pub fn get_columns_sum(&self, matrix: &Vec<Vec<usize>>) -> (r: Vec<usize>)
        requires
            is_bounded_square(matrix.deep_view(), matrix@.len() as int),
            size_fits(matrix@.len() as int),
        ensures
            r@.len() == matrix@.len(),
            forall|c: int| 0 <= c < r@.len() ==> #[trigger] r@[c] == column_sum(matrix.deep_view(), c),
    {
        let size = matrix.len();
        let ghost m = matrix.deep_view();
        let mut sums: Vec<usize> = Vec::new();
        let mut col: usize = 0;
        while col < size
            invariant
                size == matrix@.len(),
                m == matrix.deep_view(),
                is_bounded_square(m, size as int),
                size_fits(size as int),
                col <= size,
                sums@.len() == col,
                forall|c: int| 0 <= c < col ==> #[trigger] sums@[c] == column_sum(m, c),
            decreases size - col,
        {
            proof {
                lemma_term_cap(size as int);
            }
            let ghost f = |r: int| m[r][col as int] as int;
            let mut total: usize = 0;
            let mut row: usize = 0;
            while row < size
                invariant
                    size == matrix@.len(),
                    m == matrix.deep_view(),
                    is_bounded_square(m, size as int),
                    col < size,
                    row <= size,
                    f == (|r: int| m[r][col as int] as int),
                    0 <= term_cap(size as int),
                    size * term_cap(size as int) <= isize::MAX,
                    total == sum_to(f, row as int),
                    total <= row * term_cap(size as int),
                decreases size - row,
            {
                assert(matrix@[row as int]@ == m[row as int]);
                proof {
                    let cap = term_cap(size as int);
                    assert(row * cap + cap == (row + 1) * cap) by (nonlinear_arith);
                    assert((row + 1) * cap <= size * cap) by (nonlinear_arith)
                        requires
                            row + 1 <= size,
                            cap >= 0,
                    ;
                }
                total = total + matrix[row][col];
                row = row + 1;
            }
            sums.push(total);
            col = col + 1;
        }
        sums
    }

    /// Sends the k-th smallest of `sums_a` to the index of the k-th largest of `sums_b`.
    pub fn greedy_mapping(&self, sums_a: &[usize], sums_b: &[usize]) -> (r: Vec<usize>)
        requires
            sums_a@.len() == sums_b@.len(),
        ensures
            matches_ranks(sums_a@, sums_b@, r@),
    {
        let n = sums_a.len();
        let sorted_indices_a = argsort(sums_a, true);
        let sorted_indices_b = argsort(sums_b, false);
        let ghost ra = sorted_indices_a@;
        let ghost rb = sorted_indices_b@;
        let mut permutation: Vec<usize> = vec![0; n];
        let mut i: usize = 0;
        while i < n
            invariant
                n == sums_a@.len(),
                n == sums_b@.len(),
                ra == sorted_indices_a@,
                rb == sorted_indices_b@,
                is_sorted_order(sums_a@, true, ra),
                is_sorted_order(sums_b@, false, rb),
                permutation@.len() == n,
                i <= n,
                forall|t: int| 0 <= t < i ==> permutation@[#[trigger] ra[t] as int] == rb[t],
            decreases n - i,
        {
            permutation.set(sorted_indices_a[i], sorted_indices_b[i]);
            proof {
                assert forall|t: int| 0 <= t < i + 1 implies permutation@[#[trigger] ra[t] as int] == rb[t] by {
                    if t < i {
                        assert(ra[t] != ra[i as int]);
                    }
                }
            }
            i = i + 1;
        }
        proof {
            let p = permutation@;
            assert forall|x: int| 0 <= x < n implies #[trigger] p[x] < n by {
                assert(holds_value(ra, x));
                let s = choose|s: int| 0 <= s < ra.len() && ra[s] == x;
                assert(p[ra[s] as int] == rb[s]);
            }
            assert forall|x: int, y: int|
                #![trigger p[x], p[y]]
                0 <= x < n && 0 <= y < n && x != y implies p[x] != p[y] && (sorts_before(
                sums_a@,
                true,
                x,
                y,
            ) <==> sorts_before(sums_b@, false, p[x] as int, p[y] as int)) by {
                assert(holds_value(ra, x));
                assert(holds_value(ra, y));
                let s = choose|s: int| 0 <= s < ra.len() && ra[s] == x;
                let t = choose|t: int| 0 <= t < ra.len() && ra[t] == y;
                assert(p[ra[s] as int] == rb[s]);
                assert(p[ra[t] as int] == rb[t]);
                lemma_sorted_order_positions(sums_a@, true, ra, s, t);
                lemma_sorted_order_positions(sums_b@, false, rb, s, t);
                if s < t {
                    assert(rb[s] != rb[t]);
                } else {
                    assert(rb[t] != rb[s]);
                }
            }
            assert forall|x: int, y: int| 0 <= x < y < n implies p[x] != p[y] by {
                assert(p[x] != p[y]);
            }
            assert(is_permutation(p, n as int));
        }
        permutation
    }

    /// The cost of placing row i of `matrix_a` at `row_permutation[i]` and column j at
    /// `col_permutation[j]`.
    pub fn compute_cost(
        &self,
        row_permutation: &[usize],
        col_permutation: &[usize],
        matrix_a: &Vec<Vec<usize>>,
        matrix_b: &Vec<Vec<usize>>,
    ) -> (r: usize)
        requires
            is_square(matrix_a.deep_view(), row_permutation@.len() as int),
            is_square(matrix_b.deep_view(), row_permutation@.len() as int),
            entries_fit(matrix_a.deep_view(), matrix_b.deep_view(), row_permutation@.len() as int),
            is_assignment(row_permutation@, row_permutation@.len() as int),
            is_assignment(col_permutation@, row_permutation@.len() as int),
        ensures
            r == split_cost(matrix_a.deep_view(), matrix_b.deep_view(), row_permutation@, col_permutation@),
    {
        let n = row_permutation.len();
        let ghost a = matrix_a.deep_view();
        let ghost b = matrix_b.deep_view();
        let ghost rp = row_permutation@;
        let ghost cp = col_permutation@;
        let ghost cap = term_cap(n as int);
        let ghost rows = |i: int| split_row_cost(a, b, rp, cp, i, n as int);
        if n == 0 {
            return 0;
        }
        proof {
            lemma_term_cap(n as int);
        }
        let mut cost: usize = 0;
        let mut i: usize = 0;
        while i < n
            invariant
                n == rp.len(),
                n >= 1,
                a == matrix_a.deep_view(),
                b == matrix_b.deep_view(),
                rp == row_permutation@,
                cp == col_permutation@,
                is_square(a, n as int),
                is_square(b, n as int),
                entries_fit(a, b, n as int),
                is_assignment(rp, n as int),
                is_assignment(cp, n as int),
                cap == term_cap(n as int),
                0 <= cap,
                n * cap <= n * n * cap <= isize::MAX,
                rows == (|i: int| split_row_cost(a, b, rp, cp, i, n as int)),
                i <= n,
                cost == sum_to(rows, i as int),
                cost <= i * (n * cap),
            decreases n - i,
        {
            let mut row_cost: usize = 0;
            let mut j: usize = 0;
            while j < n
                invariant
                    n == rp.len(),
                    a == matrix_a.deep_view(),
                    b == matrix_b.deep_view(),
                    rp == row_permutation@,
                    cp == col_permutation@,
                    is_square(a, n as int),
                    is_square(b, n as int),
                    entries_fit(a, b, n as int),
                    is_assignment(rp, n as int),
                    is_assignment(cp, n as int),
                    cap == term_cap(n as int),
                    0 <= cap,
                    n * cap <= isize::MAX,
                    i < n,
                    j <= n,
                    row_cost == split_row_cost(a, b, rp, cp, i as int, j as int),
                    row_cost <= j * cap,
                decreases n - j,
            {
                assert(matrix_a@[i as int]@ == a[i as int]);
                assert(matrix_b@[rp[i as int] as int]@ == b[rp[i as int] as int]);
                proof {
                    assert(a[i as int][j as int] * b[rp[i as int] as int][cp[j as int] as int] <= cap);
                    assert(j * cap + cap == (j + 1) * cap) by (nonlinear_arith);
                    assert((j + 1) * cap <= n * cap) by (nonlinear_arith)
                        requires
                            j + 1 <= n,
                            cap >= 0,
                    ;
                }
                row_cost = row_cost + matrix_a[i][j] * matrix_b[row_permutation[i]][col_permutation[j]];
                j = j + 1;
            }
            proof {
                let nc = n * cap;
                assert(i * nc + nc == (i + 1) * nc) by (nonlinear_arith);
                assert((i + 1) * nc <= n * nc) by (nonlinear_arith)
                    requires
                        i + 1 <= n,
                        nc >= 0,
                ;
                assert(n * nc == n * n * cap) by (nonlinear_arith)
                    requires
                        nc == n * cap,
                ;
            }
            cost = cost + row_cost;
            i = i + 1;
        }
        cost
    }
}

/// Whether `matrix` is n-by-n.
fn is_square_matrix(matrix: &Vec<Vec<usize>>, n: usize) -> (r: bool)
    ensures
        r == is_square(matrix.deep_view(), n as int),
{
    if matrix.len() != n {
        return false;
    }
    let mut i: usize = 0;
    while i < n
        invariant
            matrix@.len() == n,
            i <= n,
            forall|x: int| 0 <= x < i ==> (#[trigger] matrix.deep_view()[x]).len() == n,
        decreases n - i,
    {
        assert(matrix.deep_view()[i as int] == matrix@[i as int]@);
        if matrix[i].len() != n {
            return false;
        }
        i = i + 1;
    }
    true
}

/// The largest entry of a non-empty n-by-n matrix.
fn max_entry(matrix: &Vec<Vec<usize>>, n: usize) -> (r: usize)
    requires
        n >= 1,
        is_square(matrix.deep_view(), n as int),
    ensures
        forall|i: int, j: int| 0 <= i < n && 0 <= j < n ==> #[trigger] matrix.deep_view()[i][j] <= r,
        exists|i: int, j: int| 0 <= i < n && 0 <= j < n && matrix.deep_view()[i][j] == r,
{
    let ghost m = matrix.deep_view();
    assert(matrix@[0]@ == m[0]);
    let mut best: usize = matrix[0][0];
    assert(m[0][0] == best);
    let mut i: usize = 0;
    while i < n
        invariant
            m == matrix.deep_view(),
            is_square(m, n as int),
            n >= 1,
            i <= n,
            forall|x: int, y: int| 0 <= x < i && 0 <= y < n ==> #[trigger] m[x][y] <= best,
            exists|x: int, y: int| 0 <= x < n && 0 <= y < n && m[x][y] == best,
        decreases n - i,
    {
        let mut j: usize = 0;
        while j < n
            invariant
                m == matrix.deep_view(),
                is_square(m, n as int),
                i < n,
                j <= n,
                forall|x: int, y: int|
                    (0 <= x < i && 0 <= y < n) || (x == i && 0 <= y < j) ==> #[trigger] m[x][y]
                        <= best,
                exists|x: int, y: int| 0 <= x < n && 0 <= y < n && m[x][y] == best,
            decreases n - j,
        {
            assert(m[i as int][j as int] == matrix@[i as int]@[j as int]);
            if matrix[i][j] > best {
                best = matrix[i][j];
            }
            j = j + 1;
        }
        i = i + 1;
    }
    best
}

/// The row sums of an n-by-n matrix.
pub(crate) fn get_rows_sum(matrix: &Vec<Vec<usize>>, size: usize) -> (r: Vec<usize>)
    requires
        size == matrix@.len(),
        is_bounded_square(matrix.deep_view(), size as int),
        size_fits(size as int),
    ensures
        r@.len() == size,
        forall|i: int| 0 <= i < size ==> #[trigger] r@[i] == row_sum(matrix.deep_view(), i),
{
    let ghost m = matrix.deep_view();
    let mut sums: Vec<usize> = Vec::new();
    let mut row: usize = 0;
    while row < size
        invariant
            size == matrix@.len(),
            m == matrix.deep_view(),
            is_bounded_square(m, size as int),
            size_fits(size as int),
            row <= size,
            sums@.len() == row,
            forall|i: int| 0 <= i < row ==> #[trigger] sums@[i] == row_sum(m, i),
        decreases size - row,
    {
        proof {
            lemma_term_cap(size as int);
        }
        let ghost f = |j: int| m[row as int][j] as int;
        let mut total: usize = 0;
        let mut col: usize = 0;
        while col < size
            invariant
                size == matrix@.len(),
                m == matrix.deep_view(),
                is_bounded_square(m, size as int),
                row < size,
                col <= size,
                f == (|j: int| m[row as int][j] as int),
                0 <= term_cap(size as int),
                size * term_cap(size as int) <= isize::MAX,
                total == sum_to(f, col as int),
                total <= col * term_cap(size as int),
            decreases size - col,
        {
            assert(matrix@[row as int]@ == m[row as int]);
            proof {
                let cap = term_cap(size as int);
                assert(col * cap + cap == (col + 1) * cap) by (nonlinear_arith);
                assert((col + 1) * cap <= size * cap) by (nonlinear_arith)
                    requires
                        col + 1 <= size,
                        cap >= 0,
                ;
            }
            total = total + matrix[row][col];
            col = col + 1;
        }
        sums.push(total);
        row = row + 1;
    }
    sums
}

} // verus!

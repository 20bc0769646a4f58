//! Finite sums over an integer range and the facts about them that the cost
//! model needs.
use vstd::prelude::*;

verus! {

/// `f(0) + f(1) + ... + f(m - 1)`.
pub open spec fn sum_to(f: spec_fn(int) -> int, m: int) -> int
    decreases m,
{
    if m <= 0 {
        0
    } else {
        sum_to(f, m - 1) + f(m - 1)
    }
}

pub(crate) proof fn lemma_sum_monotone(f: spec_fn(int) -> int, m1: int, m2: int)
    requires
        0 <= m1 <= m2,
        forall|c: int| 0 <= c < m2 ==> #[trigger] f(c) >= 0,
    ensures
        0 <= sum_to(f, m1) <= sum_to(f, m2),
    decreases m2,
{
    if m2 > 0 {
        if m1 < m2 {
            lemma_sum_monotone(f, m1, m2 - 1);
        } else {
            lemma_sum_monotone(f, m1 - 1, m2 - 1);
        }
    }
}

pub(crate) proof fn lemma_sum_bounded(f: spec_fn(int) -> int, m: int, cap: int)
    requires
        0 <= m,
        forall|c: int| 0 <= c < m ==> #[trigger] f(c) <= cap,
    ensures
        sum_to(f, m) <= m * cap,
    decreases m,
{
    if m > 0 {
        lemma_sum_bounded(f, m - 1, cap);
        assert((m - 1) * cap + cap == m * cap) by (nonlinear_arith);
    } else {
        assert(m * cap == 0) by (nonlinear_arith)
            requires
                m == 0,
        ;
    }
}

pub(crate) proof fn lemma_sum_ext(f: spec_fn(int) -> int, g: spec_fn(int) -> int, m: int)
    requires
        forall|c: int| 0 <= c < m ==> #[trigger] f(c) == g(c),
    ensures
        sum_to(f, m) == sum_to(g, m),
    decreases m,
{
    if m > 0 {
        lemma_sum_ext(f, g, m - 1);
    }
}

pub(crate) proof fn lemma_sum_sub(f: spec_fn(int) -> int, g: spec_fn(int) -> int, m: int)
    ensures
        sum_to(f, m) - sum_to(g, m) == sum_to(|c: int| f(c) - g(c), m),
    decreases m,
{
    if m > 0 {
        lemma_sum_sub(f, g, m - 1);
    }
}

/// A sum whose terms vanish off positions a and b.
pub(crate) proof fn lemma_sum_two_points(h: spec_fn(int) -> int, m: int, a: int, b: int)
    requires
        0 <= a < m,
        0 <= b < m,
        a != b,
        forall|c: int| 0 <= c < m && c != a && c != b ==> #[trigger] h(c) == 0,
    ensures
        sum_to(h, m) == h(a) + h(b),
    decreases m,
{
    if m - 1 != a && m - 1 != b {
        lemma_sum_two_points(h, m - 1, a, b);
    } else {
        let other = if m - 1 == a { b } else { a };
        lemma_sum_one_point(h, m - 1, other);
    }
}

proof fn lemma_sum_one_point(h: spec_fn(int) -> int, m: int, a: int)
    requires
        0 <= a < m,
        forall|c: int| 0 <= c < m && c != a ==> #[trigger] h(c) == 0,
    ensures
        sum_to(h, m) == h(a),
    decreases m,
{
    if m - 1 != a {
        lemma_sum_one_point(h, m - 1, a);
    } else {
        lemma_sum_zero(h, m - 1);
    }
}

proof fn lemma_sum_zero(h: spec_fn(int) -> int, m: int)
    requires
        forall|c: int| 0 <= c < m ==> #[trigger] h(c) == 0,
    ensures
        sum_to(h, m) == 0,
    decreases m,
{
    if m > 0 {
        lemma_sum_zero(h, m - 1);
    }
}

} // verus!

//! Search strategies for the quadratic assignment problem: a dense numbering of
//! swap moves, an incremental cost-delta evaluator and local / metaheuristic
//! searches built on them.
use vstd::prelude::*;

pub mod clock;
pub mod instance;
pub mod io;
pub mod solver;
pub mod sums;

use crate::instance::is_permutation;

verus! {

/// One run of a search on an instance, as reported to the metrics log.
pub struct Metrics {
    pub duration: u128,
    pub instance_name: String,
    pub cost: usize,
    pub evaluated_solutions: usize,
    pub solution_changes: usize,
    pub optimal_cost: usize,
    pub initial_cost: usize,
    pub time_limit: u128,
    pub solution_distance: usize,
}

/// Relies on rand::random: a value drawn from the thread-local generator. Nothing
/// is promised of it.
pub assume_specification<T>[ rand::random::<T> ]() -> (r: T)
    where
        rand::distributions::Standard: rand::distributions::Distribution<T>,
;

/// A random permutation of 0 .. size-1: each step moves a randomly chosen
/// remaining number to the next position.
pub fn get_random_permutation(size: usize) -> (r: Vec<usize>)
    requires
        size >= 1,
    ensures
        is_permutation(r@, size as int),
{
    let mut numbers: Vec<usize> = Vec::new();
    let mut v: usize = 0;
    while v < size
        invariant
            v <= size,
            numbers@.len() == v,
            forall|x: int| 0 <= x < v ==> numbers@[x] == x,
        decreases size - v,
    {
        numbers.push(v);
        v = v + 1;
    }
    let mut permutation: Vec<usize> = Vec::new();
    let mut i: usize = 0;
    while i < size - 1
        invariant
            size >= 1,
            i <= size - 1,
            permutation@.len() == i,
            numbers@.len() == size - i,
            forall|x: int| 0 <= x < numbers@.len() ==> #[trigger] numbers@[x] < size,
            forall|x: int, y: int| 0 <= x < y < numbers@.len() ==> numbers@[x] != numbers@[y],
            forall|x: int| 0 <= x < i ==> #[trigger] permutation@[x] < size,
            forall|x: int, y: int| 0 <= x < y < i ==> permutation@[x] != permutation@[y],
            forall|x: int, y: int|
                0 <= x < i && 0 <= y < numbers@.len() ==> permutation@[x] != numbers@[y],
        decreases size - 1 - i,
    {
        let index = rand::random::<usize>() % (size - i);
        let ghost old_numbers = numbers@;
        let taken = numbers.swap_remove(index);
        permutation.push(taken);
        proof {
            let last = old_numbers.len() - 1;
            assert forall|x: int| 0 <= x < numbers@.len() implies numbers@[x] == old_numbers[if x
                == index {
                last
            } else {
                x
            }] by {}
            assert forall|x: int, y: int|
                0 <= x < y < numbers@.len() implies numbers@[x] != numbers@[y] by {
                let sx = if x == index {
                    last
                } else {
                    x
                };
                let sy = if y == index {
                    last
                } else {
                    y
                };
                if sx < sy {
                    assert(old_numbers[sx] != old_numbers[sy]);
                } else {
                    assert(old_numbers[sy] != old_numbers[sx]);
                }
            }
            assert forall|x: int, y: int|
                0 <= x < i + 1 && 0 <= y < numbers@.len() implies permutation@[x]
                != numbers@[y] by {
                let sy = if y == index {
                    last
                } else {
                    y
                };
                if x == i {
                    if index < sy {
                        assert(old_numbers[index as int] != old_numbers[sy]);
                    } else {
                        assert(old_numbers[sy] != old_numbers[index as int]);
                    }
                }
            }
        }
        i = i + 1;
    }
    permutation.push(numbers[0]);
    permutation
}

/// Two distinct positions of 0 .. n-1, drawn at random.
pub fn get_random_pair(n: usize) -> (r: (usize, usize))
    requires
        2 <= n <= usize::MAX / 2,
    ensures
        r.0 < n,
        r.1 < n,
        r.0 != r.1,
{
    let x1: usize = rand::random::<usize>() % n;
    let shift: usize = rand::random::<usize>() % (n - 1);
    let x2: usize = (shift + x1 + 1) % n;
    proof {
        let s = shift + x1 + 1;
        if s >= n {
            assert(s - n < x1);
            vstd::arithmetic::div_mod::lemma_mod_add_multiples_vanish(s - n, n as int);
            vstd::arithmetic::div_mod::lemma_small_mod((s - n) as nat, n as nat);
            assert(x2 == s - n);
        } else {
            vstd::arithmetic::div_mod::lemma_small_mod(s as nat, n as nat);
        }
    }
    (x1, x2)
}

/// Index x comes before index y in the order that `argsort` produces: by key
/// (ascending or descending), equal keys by index.
pub open spec fn sorts_before(arr: Seq<usize>, ascending: bool, x: int, y: int) -> bool {
    if arr[x] == arr[y] {
        x < y
    } else if ascending {
        arr[x] < arr[y]
    } else {
        arr[x] > arr[y]
    }
}

/// Value v stands at some position of `r`.
pub open spec fn holds_value(r: Seq<usize>, v: int) -> bool {
    exists|x: int| 0 <= x < r.len() && r[x] == v
}

/// A permutation of 0 .. n-1 holds every one of those values.
pub proof fn lemma_permutation_covers(p: Seq<usize>, n: int)
    requires
        is_permutation(p, n),
    ensures
        forall|v: int| 0 <= v < n ==> #[trigger] holds_value(p, v),
{
    let q = p.map_values(|x: usize| x as int);
    assert(q.no_duplicates()) by {
        assert forall|i: int, j: int| 0 <= i < q.len() && 0 <= j < q.len() && i != j implies q[i]
            != q[j] by {
            if i < j {
                assert(p[i] != p[j]);
            } else {
                assert(p[j] != p[i]);
            }
        }
    }
    q.unique_seq_to_set();
    vstd::set_lib::lemma_int_range(0, n);
    let range = vstd::set_lib::set_int_range(0, n);
    assert(q.to_set().subset_of(range)) by {
        assert forall|v: int| q.to_set().contains(v) implies range.contains(v) by {
            let i = choose|i: int| 0 <= i < q.len() && q[i] == v;
            assert(p[i] < n);
        }
    }
    vstd::set_lib::lemma_len_subset(q.to_set(), range);
    vstd::set_lib::lemma_subset_equality(q.to_set(), range);
    assert forall|v: int| 0 <= v < n implies #[trigger] holds_value(p, v) by {
        assert(range.contains(v));
        assert(q.to_set().contains(v));
        let i = choose|i: int| 0 <= i < q.len() && q[i] == v;
        assert(p[i] == v);
    }
}

/// `r` lists each index of `arr` once, in the order `sorts_before`.
pub open spec fn is_sorted_order(arr: Seq<usize>, ascending: bool, r: Seq<usize>) -> bool {
    &&& is_permutation(r, arr.len() as int)
    &&& forall|v: int| 0 <= v < arr.len() ==> #[trigger] holds_value(r, v)
    &&& forall|x: int, y: int|
        0 <= x < y < r.len() ==> sorts_before(arr, ascending, r[x] as int, r[y] as int)
}

/// The indices of `arr` ordered by their values, ascending or descending; equal
/// values keep the order of their indices.
pub fn argsort(arr: &[usize], ascending: bool) -> (r: Vec<usize>)
    ensures
        is_sorted_order(arr@, ascending, r@),
{
    let n = arr.len();
    let mut indices: Vec<usize> = Vec::new();
    let mut i: usize = 0;
    while i < n
        invariant
            n == arr@.len(),
            i <= n,
            is_permutation(indices@, i as int),
            forall|v: int| 0 <= v < i ==> #[trigger] holds_value(indices@, v),
            forall|x: int, y: int|
                0 <= x < y < indices@.len() ==> sorts_before(
                    arr@,
                    ascending,
                    indices@[x] as int,
                    indices@[y] as int,
                ),
        decreases n - i,
    {
        let mut pos: usize = 0;
        while pos < indices.len()
            invariant
                n == arr@.len(),
                i < n,
                pos <= indices@.len(),
                is_permutation(indices@, i as int),
                forall|x: int| 0 <= x < pos ==> sorts_before(arr@, ascending, #[trigger] indices@[x] as int, i as int),
            ensures
                pos <= indices@.len(),
                forall|x: int| 0 <= x < pos ==> sorts_before(arr@, ascending, #[trigger] indices@[x] as int, i as int),
                pos < indices@.len() ==> sorts_before(
                    arr@,
                    ascending,
                    i as int,
                    indices@[pos as int] as int,
                ),
            decreases indices@.len() - pos,
        {
            let other = indices[pos];
            let goes_first = if arr[i] == arr[other] {
                i < other
            } else if ascending {
                arr[i] < arr[other]
            } else {
                arr[i] > arr[other]
            };
            if goes_first {
                break;
            }
            pos = pos + 1;
        }
        let ghost old_indices = indices@;
        proof {
            if pos < old_indices.len() {
                assert(old_indices[pos as int] < i);
                assert(sorts_before(arr@, ascending, i as int, old_indices[pos as int] as int));
            }
        }
        indices.insert(pos, i);
        proof {
            let ni = indices@;
            assert forall|x: int| 0 <= x < ni.len() implies #[trigger] ni[x] == (if x < pos {
                old_indices[x]
            } else if x == pos {
                i
            } else {
                old_indices[x - 1]
            }) by {}
            assert forall|x: int, y: int| 0 <= x < y < ni.len() implies ni[x] != ni[y] by {
                if x < pos && y > pos {
                    if x < y - 1 {
                        assert(old_indices[x] != old_indices[y - 1]);
                    }
                } else if x > pos {
                    assert(old_indices[x - 1] != old_indices[y - 1]);
                } else if y < pos {
                    assert(old_indices[x] != old_indices[y]);
                }
            }
            assert forall|x: int, y: int| 0 <= x < y < ni.len() implies sorts_before(
                arr@,
                ascending,
                ni[x] as int,
                ni[y] as int,
            ) by {
                if y == pos {
                } else if x == pos {
                    if y - 1 > pos {
                        assert(sorts_before(
                            arr@,
                            ascending,
                            old_indices[pos as int] as int,
                            old_indices[y - 1] as int,
                        ));
                    }
                    assert(sorts_before(arr@, ascending, i as int, old_indices[pos as int] as int));
                } else if x < pos && y > pos {
                    assert(sorts_before(arr@, ascending, old_indices[x] as int, i as int));
                    assert(sorts_before(arr@, ascending, i as int, old_indices[pos as int] as int));
                    if y - 1 > pos {
                        assert(sorts_before(
                            arr@,
                            ascending,
                            old_indices[pos as int] as int,
                            old_indices[y - 1] as int,
                        ));
                    }
                } else if x > pos {
                    assert(sorts_before(
                        arr@,
                        ascending,
                        old_indices[x - 1] as int,
                        old_indices[y - 1] as int,
                    ));
                } else {
                    assert(sorts_before(arr@, ascending, old_indices[x] as int, old_indices[y] as int));
                }
            }
            assert forall|v: int| 0 <= v < i + 1 implies #[trigger] holds_value(ni, v) by {
                if v == i {
                    assert(ni[pos as int] == v);
                } else {
                    assert(holds_value(old_indices, v));
                    let x = choose|x: int| 0 <= x < old_indices.len() && old_indices[x] == v;
                    if x < pos {
                        assert(ni[x] == v);
                    } else {
                        assert(ni[x + 1] == v);
                    }
                }
            }
        }
        i = i + 1;
    }
    indices
}

} // verus!

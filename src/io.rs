//! The text formats of instances and of their known optimal solutions: runs of
//! whitespace-separated decimal numbers.
use vstd::prelude::*;

verus! {

/// ASCII whitespace: space, tab, line feed, vertical tab, form feed, carriage return.
pub open spec fn is_space(b: u8) -> bool {
    b == 0x20 || (0x09 <= b && b <= 0x0d)
}

pub open spec fn is_digit(b: u8) -> bool {
    0x30 <= b && b <= 0x39
}

/// `acc` with the number being read, if any, appended.
pub open spec fn flush(acc: Seq<usize>, current: Option<usize>) -> Seq<usize> {
    match current {
        Some(v) => acc.push(v),
        None => acc,
    }
}

/// Reads `s` from position i on, with the numbers `acc` already read and the
/// number `current` being read: the list of all numbers, or `None` when a byte is
/// neither whitespace nor a digit, or a number exceeds `usize::MAX`.
pub open spec fn scan_numbers(s: Seq<u8>, i: int, acc: Seq<usize>, current: Option<usize>) -> Option<
    Seq<usize>,
>
    decreases s.len() - i,
{
    if i >= s.len() || i < 0 {
        Some(flush(acc, current))
    } else if is_space(s[i]) {
        scan_numbers(s, i + 1, flush(acc, current), None)
    } else if is_digit(s[i]) {
        let v = match current {
            Some(c) => c * 10 + (s[i] - 0x30),
            None => s[i] - 0x30,
        };
        if v > usize::MAX {
            None
        } else {
            scan_numbers(s, i + 1, acc, Some(v as usize))
        }
    } else {
        None
    }
}

/// The whitespace-separated decimal numbers of `s`.
pub open spec fn numbers_of(s: Seq<u8>) -> Option<Seq<usize>> {
    scan_numbers(s, 0, Seq::empty(), None)
}

/// The whitespace-separated decimal numbers of `text`; `None` when it holds anything
/// else, or a number that does not fit in a `usize`.
pub fn parse_numbers(text: &[u8]) -> (r: Option<Vec<usize>>)
    ensures
        r is None <==> numbers_of(text@) is None,
        r is Some ==> r->Some_0@ == numbers_of(text@)->Some_0,
{
    let mut numbers: Vec<usize> = Vec::new();
    let mut current: Option<usize> = None;
    let mut i: usize = 0;
    while i < text.len()
        invariant
            i <= text@.len(),
            scan_numbers(text@, i as int, numbers@, current) == numbers_of(text@),
        decreases text@.len() - i,
    {
        let b = text[i];
        if b == 0x20 || (0x09 <= b && b <= 0x0d) {
            if let Some(v) = current {
                numbers.push(v);
            }
            current = None;
        } else if 0x30 <= b && b <= 0x39 {
            let digit = (b - 0x30) as usize;
            let base = match current {
                Some(c) => c,
                None => 0,
            };
            if base > (usize::MAX - digit) / 10 {
                proof {
                    assert(base * 10 + digit > usize::MAX) by (nonlinear_arith)
                        requires
                            base > (usize::MAX - digit) / 10,
                            0 <= digit <= 9,
                    ;
                }
                return None;
            }
            proof {
                assert(base * 10 + digit <= usize::MAX) by (nonlinear_arith)
                    requires
                        base <= (usize::MAX - digit) / 10,
                        0 <= digit <= 9,
                ;
            }
            current = Some(base * 10 + digit);
        } else {
            return None;
        }
        i = i + 1;
    }
    if let Some(v) = current {
        numbers.push(v);
    }
    Some(numbers)
}

/// An instance text holds its size n, then the n*n entries of the flow matrix row
/// by row, then those of the distance matrix; anything after them is ignored.
pub open spec fn holds_instance(nums: Seq<usize>) -> bool {
    nums.len() >= 1 && nums.len() >= 1 + 2 * (nums[0] * nums[0])
}

/// `m` is the n-by-n matrix whose entries are `nums[offset ..]`, row by row.
pub open spec fn matrix_at(m: Seq<Seq<usize>>, nums: Seq<usize>, offset: int, n: int) -> bool {
    &&& m.len() == n
    &&& forall|i: int| 0 <= i < n ==> (#[trigger] m[i]).len() == n
    &&& forall|i: int, j: int| 0 <= i < n && 0 <= j < n ==> #[trigger] m[i][j] == nums[offset + i * n + j]
}

/// A solution text holds the size n and the cost of the solution, then the n
/// locations of the facilities, counted from 1; anything after them is ignored.
pub open spec fn holds_solution(nums: Seq<usize>) -> bool {
    &&& nums.len() >= 2
    &&& nums.len() >= 2 + nums[0]
    &&& forall|i: int| 2 <= i < 2 + nums[0] ==> #[trigger] nums[i] >= 1
}

/// The flow and distance matrices of an instance text.
pub fn parse_instance_text(text: &[u8]) -> (r: Option<(Vec<Vec<usize>>, Vec<Vec<usize>>)>)
    ensures
        r is Some <==> (numbers_of(text@) is Some && holds_instance(numbers_of(text@)->Some_0)),
        r is Some ==> ({
            let nums = numbers_of(text@)->Some_0;
            let n = nums[0] as int;
            &&& matrix_at(r->Some_0.0.deep_view(), nums, 1, n)
            &&& matrix_at(r->Some_0.1.deep_view(), nums, 1 + n * n, n)
        }),
{
    let numbers = match parse_numbers(text) {
        Some(v) => v,
        None => {
            return None;
        },
    };
    if numbers.len() < 1 {
        return None;
    }
    let n = numbers[0];
    let squared = match n.checked_mul(n) {
        Some(s) => s,
        None => {
            return None;
        },
    };
    if squared > (numbers.len() - 1) / 2 {
        return None;
    }
    let matrix_a = matrix_from(&numbers, 1, n);
    let matrix_b = matrix_from(&numbers, 1 + squared, n);
    Some((matrix_a, matrix_b))
}

/// The n-by-n matrix whose entries are `numbers[offset ..]`, row by row.
fn matrix_from(numbers: &Vec<usize>, offset: usize, n: usize) -> (r: Vec<Vec<usize>>)
    requires
        offset + n * n <= numbers@.len(),
    ensures
        matrix_at(r.deep_view(), numbers@, offset as int, n as int),
{
    let len = numbers.len();
    let mut matrix: Vec<Vec<usize>> = Vec::new();
    let mut i: usize = 0;
    while i < n
        invariant
            len == numbers@.len(),
            offset + n * n <= len,
            i <= n,
            matrix@.len() == i,
            forall|x: int| 0 <= x < i ==> (#[trigger] matrix@[x])@.len() == n,
            forall|x: int, y: int|
                0 <= x < i && 0 <= y < n ==> #[trigger] matrix@[x]@[y] == numbers@[offset + x * n
                    + y],
        decreases n - i,
    {
        let mut row: Vec<usize> = Vec::new();
        let mut j: usize = 0;
        proof {
            assert((i + 1) * n <= n * n) by (nonlinear_arith)
                requires
                    i + 1 <= n,
            ;
            assert(i * n + n == (i + 1) * n) by (nonlinear_arith);
        }
        let row_start: usize = offset + i * n;
        while j < n
            invariant
                len == numbers@.len(),
                row_start + n <= len,
                row_start == offset + i * n,
                j <= n,
                row@.len() == j,
                forall|y: int| 0 <= y < j ==> #[trigger] row@[y] == numbers@[offset + i * n + y],
            decreases n - j,
        {
            row.push(numbers[row_start + j]);
            j = j + 1;
        }
        matrix.push(row);
        i = i + 1;
    }
    proof {
        assert forall|x: int| 0 <= x < n implies #[trigger] matrix.deep_view()[x] == matrix@[x]@ by {}
    }
    matrix
}

/// The size, cost and permutation (counted from 0) of a solution text.
pub fn parse_solution_text(text: &[u8]) -> (r: Option<(usize, usize, Vec<usize>)>)
    ensures
        r is Some <==> (numbers_of(text@) is Some && holds_solution(numbers_of(text@)->Some_0)),
        r is Some ==> ({
            let nums = numbers_of(text@)->Some_0;
            &&& r->Some_0.0 == nums[0]
            &&& r->Some_0.1 == nums[1]
            &&& r->Some_0.2@.len() == nums[0]
            &&& forall|i: int| 0 <= i < nums[0] ==> #[trigger] r->Some_0.2@[i] == nums[2 + i] - 1
        }),
{
    let numbers = match parse_numbers(text) {
        Some(v) => v,
        None => {
            return None;
        },
    };
    if numbers.len() < 2 {
        return None;
    }
    let size = numbers[0];
    let cost = numbers[1];
    if size > numbers.len() - 2 {
        return None;
    }
    let mut permutation: Vec<usize> = Vec::new();
    let mut i: usize = 0;
    while i < size
        invariant
            numbers_of(text@) == Some(numbers@),
            numbers@.len() == numbers.len(),
            numbers@.len() >= 2 + size,
            size == numbers@[0],
            i <= size,
            permutation@.len() == i,
            forall|x: int| 2 <= x < 2 + i ==> #[trigger] numbers@[x] >= 1,
            forall|x: int| 0 <= x < i ==> #[trigger] permutation@[x] == numbers@[2 + x] - 1,
        decreases size - i,
    {
        let position = numbers[2 + i];
        if position == 0 {
            assert(numbers@[2 + i as int] == 0);
            assert(!holds_solution(numbers@));
            return None;
        }
        permutation.push(position - 1);
        i = i + 1;
    }
    Some((size, cost, permutation))
}

} // verus!

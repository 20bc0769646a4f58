use quadratic_assignment_problem::io::{parse_instance_text, parse_numbers, parse_solution_text};

#[test]
fn numbers_split_on_any_whitespace() {
    assert_eq!(parse_numbers(b" 12\t7\r\n\n 0 3 "), Some(vec![12, 7, 0, 3]));
    assert_eq!(parse_numbers(b""), Some(vec![]));
    assert_eq!(parse_numbers(b"   \n"), Some(vec![]));
    assert_eq!(parse_numbers(b"18446744073709551615"), Some(vec![usize::MAX]));
}

#[test]
fn numbers_reject_other_text() {
    assert_eq!(parse_numbers(b"1 2x 3"), None);
    assert_eq!(parse_numbers(b"-4"), None);
    assert_eq!(parse_numbers(b"18446744073709551616"), None);
}

#[test]
fn instance_text_gives_both_matrices() {
    let text = b"2\n\n 1 2\n 3 4\n\n 5 6\n 7 8\n";
    let (a, b) = parse_instance_text(text).unwrap();
    assert_eq!(a, vec![vec![1, 2], vec![3, 4]]);
    assert_eq!(b, vec![vec![5, 6], vec![7, 8]]);
    // Rows may be spread over lines in any way.
    let (a, b) = parse_instance_text(b"2 1 2 3\n4 5\n6 7 8").unwrap();
    assert_eq!(a, vec![vec![1, 2], vec![3, 4]]);
    assert_eq!(b, vec![vec![5, 6], vec![7, 8]]);
}

#[test]
fn instance_text_rejects_truncation_and_junk() {
    assert_eq!(parse_instance_text(b"2\n1 2\n3 4\n5 6\n7"), None);
    assert_eq!(parse_instance_text(b""), None);
    assert_eq!(parse_instance_text(b"2\n1 2 3 4 5 6 7 eight"), None);
    assert_eq!(parse_instance_text(b"0"), Some((vec![], vec![])));
}

#[test]
fn solution_text_counts_from_zero() {
    let (size, cost, permutation) = parse_solution_text(b"4 3\n 4 3 1 2\n").unwrap();
    assert_eq!(size, 4);
    assert_eq!(cost, 3);
    assert_eq!(permutation, vec![3, 2, 0, 1]);
}

#[test]
fn solution_text_rejects_bad_positions() {
    assert_eq!(parse_solution_text(b"3 10\n 1 0 2"), None);
    assert_eq!(parse_solution_text(b"3 10\n 1 2"), None);
    assert_eq!(parse_solution_text(b"3"), None);
}

use aoc2023::oasis::{numberspace, grid_dims, histories, history, history_row, interpolate, numberwang, row_is_zero, tabulate};
use aoc2023::text::Fail;

const EXAMPLE: &str = "0 3 6 9 12 15\n1 3 6 10 15 21\n10 13 16 21 30 45\n";

#[test]
fn report_is_read_into_a_grid() {
    let body = EXAMPLE.as_bytes();
    let (p, g) = numberwang(body).unwrap();
    assert_eq!(p, body.len());
    assert_eq!(grid_dims(&g), (3, 6));
    assert_eq!(history_row(&g, 0), vec![0, 3, 6, 9, 12, 15]);
    assert_eq!(history_row(&g, 2), vec![10, 13, 16, 21, 30, 45]);
    assert!(!row_is_zero(&g, 1));
}

#[test]
fn shorter_histories_are_padded_with_zeros() {
    let rows = vec![vec![1, 2, 3], vec![4], vec![0, 0]];
    let g = tabulate(&rows);
    assert_eq!(grid_dims(&g), (3, 3));
    assert_eq!(history_row(&g, 1), vec![4, 0, 0]);
    assert!(row_is_zero(&g, 2));
    assert!(!row_is_zero(&g, 0));
}

#[test]
fn negative_numbers_and_separators() {
    assert_eq!(numberspace(b"-12 ", 0), Ok((3, -12)));
    assert_eq!(numberspace(b" 7", 0), Ok((2, 7)));
    assert_eq!(numberspace(b"  7", 0).unwrap_err(), Fail::Error);
    assert_eq!(numberspace(b"5-3", 0).unwrap_err(), Fail::Error);
    assert_eq!(numberspace(b"-", 0).unwrap_err(), Fail::Error);
    assert_eq!(numberspace(b"--1", 0).unwrap_err(), Fail::Error);
    assert_eq!(history(b"1 -2 3\nx", 0), Ok((7, vec![1, -2, 3])));
    assert_eq!(history(b"1 -2 3", 0).unwrap_err(), Fail::Error);
}

#[test]
fn twenty_characters_at_most_per_number() {
    assert_eq!(numberspace(b"123456789012345678901", 0), Ok((20, 12345678901234567890)));
    assert_eq!(numberspace(b"-1234567890123456789", 0), Ok((20, -1234567890123456789)));
}

#[test]
fn reading_stops_at_the_first_line_that_does_not_read() {
    let body = b"1 2\n3 4\nx\n5\n";
    let (p, rows) = histories(body).unwrap();
    assert_eq!(p, 8);
    assert_eq!(rows, vec![vec![1, 2], vec![3, 4]]);
    assert_eq!(histories(b"\n1\n").unwrap_err(), Fail::Error);
}

#[test]
fn lagrange_coefficients_truncate_their_divisions() {
    assert_eq!(interpolate(&vec![10, 13, 16, 21, 30, 45]), vec![0, -50, 90, -51, 12, -1]);
    assert_eq!(interpolate(&vec![0, 3, 6, 9, 12, 15]), Vec::<i64>::new());
    assert_eq!(interpolate(&vec![5]), vec![5]);
    assert_eq!(interpolate(&vec![]), Vec::<i64>::new());
    assert_eq!(interpolate(&vec![0, 2]), vec![0, 2]);
}

use aoc2023::scratchcards::{a, card, card_id, points_check};
use aoc2023::text::Fail;
use std::collections::HashSet;

fn lines(text: &[&str]) -> Vec<Vec<u8>> {
    text.iter().map(|l| l.as_bytes().to_vec()).collect()
}

#[test]
fn example_points_sum_13() {
    let ls = lines(&[
        "Card 1: 41 48 83 86 17 | 83 86  6 31 17  9 48 53",
        "Card 2: 13 32 20 16 61 | 61 30 68 82 17 32 24 19",
        "Card 3:  1 21 53 59 44 | 69 82 63 72 16 21 14  1",
        "Card 4: 41 92 73 84 69 | 59 84 76 51 58  5 54 83",
        "Card 5: 87 83 26 28 32 | 88 30 70 12 93 22 82 36",
        "Card 6: 31 18 13 56 72 | 74 77 10 23 35 67 36 11",
    ]);
    assert_eq!(a(&ls), 13);
}

#[test]
fn card_line_is_read_into_sets() {
    let s = b"Card 12: 41 48 41 | 48 6 6";
    let (p, c) = card(s).unwrap();
    assert_eq!(p, s.len());
    assert_eq!(c.cid, 12);
    assert_eq!(c.winning, HashSet::from([41, 48]));
    assert_eq!(c.present, HashSet::from([48, 6]));
}

#[test]
fn points_double_with_each_match() {
    assert_eq!(a(&lines(&["Card 1: 1 2 3 | 4 5 6"])), 0);
    assert_eq!(a(&lines(&["Card 1: 1 2 3 | 1 5 6"])), 1);
    assert_eq!(a(&lines(&["Card 1: 1 2 3 | 1 2 6"])), 2);
    assert_eq!(a(&lines(&["Card 1: 1 2 3 | 1 2 3"])), 4);
}

#[test]
fn repeated_numbers_match_once() {
    assert_eq!(a(&lines(&["Card 1: 7 7 | 7 7 7"])), 1);
}

#[test]
fn bad_lines_are_refused_and_skipped() {
    assert_eq!(card(b"Cart 1: 1 | 2").unwrap_err(), Fail::Error);
    assert!(card_id(b"Card1: 1 | 2", 0).is_err());
    assert_eq!(a(&lines(&["junk", "Card 2: 5 | 5"])), 1);
}

#[test]
fn points_that_do_not_fit_are_told_apart() {
    let nums: Vec<String> = (1..=33).map(|k| k.to_string()).collect();
    let all = nums.join(" ");
    let line32 = format!("Card 1: {} | {}", nums[..32].join(" "), nums[..32].join(" "));
    let line33 = format!("Card 1: {} | {}", all, all);
    assert!(points_check(&lines(&[line32.as_str()])));
    assert_eq!(a(&lines(&[line32.as_str()])), 1 << 31);
    assert!(!points_check(&lines(&[line33.as_str()])));
    assert!(!points_check(&lines(&[line32.as_str(), line32.as_str()])));
}

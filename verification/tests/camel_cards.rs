use aoc2023::camel_cards::{
    a, cardes, cards, cards_to_hand, hand_exists, hand_line, hands_typed, total_winnings, winnings_fit,
    Cards, Hand,
};
use aoc2023::text::Fail;
use std::cmp::Ordering;

const EXAMPLE: &str = "32T3K 765\nT55J5 684\nKK677 28\nKTJJT 220\nQQQJA 483\n";

#[test]
fn example_winnings_5905() {
    let body = EXAMPLE.as_bytes();
    assert_eq!(a(body), Ok((body.len(), 5905)));
}

#[test]
fn hand_types_with_jokers() {
    assert_eq!(cards_to_hand(vec![3, 2, 10, 3, 13]), Hand::Pair);
    assert_eq!(cards_to_hand(vec![10, 5, 5, 1, 5]), Hand::Chariot);
    assert_eq!(cards_to_hand(vec![13, 13, 6, 7, 7]), Hand::TwoPair);
    assert_eq!(cards_to_hand(vec![13, 10, 1, 1, 10]), Hand::Chariot);
    assert_eq!(cards_to_hand(vec![1, 1, 1, 1, 1]), Hand::Five);
    assert_eq!(cards_to_hand(vec![2, 3, 4, 5, 6]), Hand::High);
    assert_eq!(cards_to_hand(vec![2, 2, 3, 3, 3]), Hand::FullHouse);
    assert_eq!(cards_to_hand(vec![2, 2, 3, 3, 1]), Hand::FullHouse);
    assert_eq!(cards_to_hand(vec![9, 9, 9, 4, 1]), Hand::Chariot);
    assert_eq!(cards_to_hand(vec![9, 8, 7, 4, 1]), Hand::Pair);
    assert_eq!(cards_to_hand(vec![9, 9, 7, 1, 1]), Hand::Chariot);
    assert_eq!(cards_to_hand(vec![9, 9, 9, 9, 2]), Hand::Chariot);
}

#[test]
fn hand_type_ignores_card_order() {
    assert_eq!(cards_to_hand(vec![3, 2, 10, 3, 13]), cards_to_hand(vec![13, 3, 10, 2, 3]));
    assert_eq!(cards_to_hand(vec![1, 5, 10, 5, 5]), Hand::Chariot);
    assert_eq!(cards_to_hand(vec![3, 3, 2, 2, 1]), Hand::FullHouse);
    assert_eq!(cards_to_hand(vec![7, 1, 9, 9, 1]), cards_to_hand(vec![9, 9, 7, 1, 1]));
    assert!(hand_exists(vec![1, 1, 7]));
    assert!(hand_exists(vec![7, 1, 1]));
}

#[test]
fn a_joker_never_weakens_a_hand() {
    assert_eq!(cards_to_hand(vec![2, 3, 4, 5, 6]), Hand::High);
    assert_eq!(cards_to_hand(vec![1, 3, 4, 5, 6]), Hand::Pair);
    assert_eq!(cards_to_hand(vec![9, 9, 9, 4, 2]), Hand::Three);
    assert_eq!(cards_to_hand(vec![9, 9, 9, 1, 2]), Hand::Chariot);
    assert_eq!(cards_to_hand(vec![9, 9, 4, 4, 2]), Hand::TwoPair);
    assert_eq!(cards_to_hand(vec![9, 1, 4, 4, 2]), Hand::Three);
    assert_eq!(cards_to_hand(vec![1, 1, 1, 1, 13]), Hand::Five);
    assert_eq!(cards_to_hand(vec![1, 1, 1, 1, 1]), Hand::Five);
}

#[test]
fn hand_line_is_read() {
    let (p, c) = cardes(b"T55J5 684\nrest", 0).unwrap();
    assert_eq!(p, 10);
    assert_eq!(c.cards, vec![10, 5, 5, 1, 5]);
    assert_eq!(c.hand, Hand::Chariot);
    assert_eq!(c.bid, 684);
}

#[test]
fn stronger_hands_sort_first() {
    let five = Cards { cards: vec![2, 2, 2, 2, 2], hand: Hand::Five, bid: 1 };
    let four = Cards { cards: vec![14, 14, 14, 14, 13], hand: Hand::Chariot, bid: 1 };
    let four_low = Cards { cards: vec![13, 14, 14, 14, 14], hand: Hand::Chariot, bid: 1 };
    assert_eq!(five.cmp(&four), Ordering::Less);
    assert_eq!(four.cmp(&five), Ordering::Greater);
    assert_eq!(four.cmp(&four_low), Ordering::Less);
    assert_eq!(four_low.cmp(&four), Ordering::Greater);
    assert_eq!(four.cmp(&four), Ordering::Equal);
}

#[test]
fn ranks_go_from_hand_count_down_to_one() {
    let hs = vec![
        Cards { cards: vec![2, 3, 4, 5, 6], hand: Hand::High, bid: 10 },
        Cards { cards: vec![2, 2, 2, 2, 2], hand: Hand::Five, bid: 100 },
        Cards { cards: vec![3, 3, 4, 5, 6], hand: Hand::Pair, bid: 1000 },
    ];
    assert_eq!(total_winnings(&hs), 100 * 3 + 1000 * 2 + 10);
}

#[test]
fn equal_hands_keep_their_order() {
    let hs = vec![
        Cards { cards: vec![2, 3, 4, 5, 6], hand: Hand::High, bid: 1 },
        Cards { cards: vec![2, 3, 4, 5, 6], hand: Hand::High, bid: 10 },
    ];
    assert_eq!(total_winnings(&hs), 1 * 2 + 10);
}

#[test]
fn bad_hand_lines_are_refused() {
    assert_eq!(cards(b"32T3X 765\n").unwrap_err(), Fail::Error);
    assert_eq!(cards(b"32T3K\n").unwrap_err(), Fail::Error);
    assert_eq!(a(b"99999 99999999999999999999\n").unwrap_err(), Fail::Error);
    assert_eq!(a(b""), Ok((0, 0)));
}

#[test]
fn hands_without_a_type_are_told_apart() {
    assert!(hand_exists(vec![1, 1, 1, 1, 1]));
    assert!(hand_exists(vec![1, 2]));
    assert!(!hand_exists(vec![1, 1]));
    assert!(!hand_exists(vec![1, 1, 1, 1, 1, 1]));
    assert!(hands_typed(EXAMPLE.as_bytes()));
    assert!(!hands_typed(b"32T3K 1\nJJ 2\n"));
    assert!(hands_typed(b"32T3K 1\nxx\nJJ 2\n"));
    assert_eq!(hand_line(b"JJ 2\n", 0), Ok((5, (vec![1, 1], 2))));
}

#[test]
fn winnings_that_do_not_fit_are_told_apart() {
    let (_, hs) = cards(EXAMPLE.as_bytes()).unwrap();
    assert!(winnings_fit(&hs));
    let big = vec![
        Cards { cards: vec![2, 3, 4, 5, 6], hand: Hand::High, bid: u64::MAX / 2 },
        Cards { cards: vec![2, 2, 2, 2, 2], hand: Hand::Five, bid: 1 },
    ];
    assert!(winnings_fit(&big));
    assert_eq!(total_winnings(&big), u64::MAX / 2 + 2);
    let bigger = vec![
        Cards { cards: vec![2, 3, 4, 5, 6], hand: Hand::High, bid: u64::MAX / 2 },
        Cards { cards: vec![2, 2, 2, 2, 2], hand: Hand::Five, bid: u64::MAX / 2 },
    ];
    assert!(!winnings_fit(&bigger));
}

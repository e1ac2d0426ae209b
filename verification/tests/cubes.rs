use aoc2023::cubes::{a, b, ballsack_is_greater, game, possible_sum_fits, powers_check, Bag, Ballsack};
use aoc2023::text::Fail;
use std::cmp::Ordering;

fn lines(text: &[&str]) -> Vec<Vec<u8>> {
    text.iter().map(|l| l.as_bytes().to_vec()).collect()
}

fn example() -> Vec<Vec<u8>> {
    lines(&[
        "Game 1: 3 blue, 4 red; 1 red, 2 green, 6 blue; 2 green",
        "Game 2: 1 blue, 2 green; 3 green, 4 blue, 1 red; 1 green, 1 blue",
        "Game 3: 8 green, 6 blue, 20 red; 5 blue, 4 red, 13 green; 5 green, 1 red",
        "Game 4: 1 green, 3 red, 6 blue; 3 green, 6 red; 3 green, 15 blue, 14 red",
        "Game 5: 6 red, 1 blue, 3 green; 2 blue, 1 red, 2 green",
    ])
}

fn bag(r: u32, g: u32, b: u32) -> Bag {
    Bag { ballsack_red: Ballsack::Red(r), ballsack_green: Ballsack::Green(g), ballsack_blue: Ballsack::Blue(b) }
}

#[test]
fn possible_games_example_sums_8() {
    assert_eq!(a(&example(), bag(12, 13, 14)), 8);
}

#[test]
fn powers_example_sum_2286() {
    assert_eq!(b(&example()), 2286);
}

#[test]
fn smallest_bag_of_a_game_makes_it_possible() {
    let ls = lines(&["Game 3: 8 green, 6 blue, 20 red; 5 blue, 4 red, 13 green; 5 green, 1 red"]);
    assert_eq!(a(&ls, bag(20, 13, 6)), 3);
    assert_eq!(a(&ls, bag(19, 13, 6)), 0);
    assert_eq!(a(&ls, bag(20, 12, 6)), 0);
    assert_eq!(b(&ls), 20 * 13 * 6);
}

#[test]
fn game_line_is_read() {
    let s = b"Game 1: 3 blue, 4 red; 1 red, 2 green, 6 blue; 2 green";
    let (p, g) = game(s).unwrap();
    assert_eq!(p, s.len());
    assert_eq!(g.gid, 1);
    assert_eq!(g.bags, vec![bag(4, 0, 3), bag(1, 2, 6), bag(0, 2, 0)]);
}

#[test]
fn bad_game_lines_are_refused() {
    assert_eq!(game(b"Gam 1: 3 blue").unwrap_err(), Fail::Error);
    assert_eq!(game(b"Game 12").unwrap_err(), Fail::Incomplete);
    assert_eq!(game(b"Game x: 3 blue").unwrap_err(), Fail::Error);
}

#[test]
fn lines_that_do_not_read_are_skipped() {
    let ls = lines(&["Game 7: 1 red", "nonsense", "Game 8: 2 green"]);
    assert_eq!(a(&ls, bag(1, 1, 1)), 7);
    assert_eq!(b(&ls), 0);
}

#[test]
fn bags_compare_colour_by_colour() {
    assert_eq!(bag(1, 2, 3).cmp(&bag(1, 2, 3)), Ordering::Equal);
    assert_eq!(bag(2, 0, 0).cmp(&bag(1, 5, 5)), Ordering::Greater);
    assert_eq!(bag(0, 0, 0).cmp(&bag(1, 1, 1)), Ordering::Less);
    assert_eq!(bag(1, 1, 1).cmp(&bag(1, 2, 1)), Ordering::Less);
    assert!(bag(1, 1, 1) <= bag(1, 2, 1));
    assert!(!(bag(1, 3, 1) <= bag(1, 2, 1)));
}

#[test]
fn counts_compare_by_colour_then_number() {
    assert!(!ballsack_is_greater(&Ballsack::Blue(10), &Ballsack::Blue(20)));
    assert!(ballsack_is_greater(&Ballsack::Blue(20), &Ballsack::Blue(10)));
    assert!(ballsack_is_greater(&Ballsack::Blue(0), &Ballsack::Red(99)));
}

#[test]
fn sums_and_products_that_do_not_fit_are_told_apart() {
    assert!(possible_sum_fits(&example(), bag(12, 13, 14)));
    assert!(powers_check(&example()));
    let big: Vec<Vec<u8>> = vec![b"Game 999999: 1 red".to_vec(); 4295];
    assert!(!possible_sum_fits(&big, bag(1, 1, 1)));
    assert!(possible_sum_fits(&big, bag(0, 1, 1)));
    let wide = lines(&["Game 1: 100000 red, 100000 green, 0 blue"]);
    assert!(!powers_check(&wide));
    let cube = lines(&["Game 1: 2000 red, 2000 green, 2000 blue"]);
    assert!(!powers_check(&cube));
    let fits = lines(&["Game 1: 1000 red, 1000 green, 1000 blue"]);
    assert!(powers_check(&fits));
    assert_eq!(b(&fits), 1_000_000_000);
}

use aoc2023::calibration::{a, b, calibration_fits, lines_cut_whole, spelled_fits};

fn lines(text: &[&str]) -> Vec<Vec<u8>> {
    text.iter().map(|l| l.as_bytes().to_vec()).collect()
}

#[test]
fn digits_example_totals_142() {
    let ls = lines(&["1abc2", "pqr3stu8vwx", "a1b2c3d4e5f", "treb7uchet"]);
    assert_eq!(a(&ls), 142);
}

#[test]
fn spelled_example_totals_281() {
    let ls = lines(&[
        "two1nine",
        "eightwothree",
        "abcone2threexyz",
        "xtwone3four",
        "4nineeightseven2",
        "zoneight234",
        "7pqrstsixteen",
    ]);
    assert_eq!(b(&ls), 281);
}

#[test]
fn line_without_digits_counts_nothing() {
    assert_eq!(a(&lines(&["abc", ""])), 0);
    assert_eq!(b(&lines(&["xyz", ""])), 0);
}

#[test]
fn one_digit_is_first_and_last() {
    assert_eq!(a(&lines(&["ab7cd"])), 77);
}

#[test]
fn zero_is_spelled_too() {
    assert_eq!(b(&lines(&["zero1"])), 1);
    assert_eq!(b(&lines(&["9zero"])), 90);
}

#[test]
fn overlapping_words_both_count() {
    assert_eq!(b(&lines(&["oneight"])), 18);
    assert_eq!(b(&lines(&["twone"])), 21);
}

#[test]
fn unspelled_lines_agree_on_both_readings() {
    let ls = lines(&["1A2", "X9Y-3", "??5"]);
    assert_eq!(a(&ls), b(&ls));
    assert_eq!(a(&ls), 12 + 93 + 55);
}

#[test]
fn lines_with_letters_but_no_digit_word_agree() {
    let ls = lines(&["abc1x2", "on3tw", "nin4e", "sevxen7"]);
    assert_eq!(a(&ls), b(&ls));
    assert_eq!(b(&ls), 12 + 33 + 44 + 77);
}

#[test]
fn cuts_of_the_spelled_reading_fall_between_characters() {
    assert!(lines_cut_whole(&lines(&["two1nine", "é1abc", "1é", "é"])));
    assert_eq!(b(&lines(&["é1abc", "1é"])), 11 + 11);
    assert!(!lines_cut_whole(&lines(&["1aé"])));
    assert!(!lines_cut_whole(&lines(&["1éa"])));
    assert!(!lines_cut_whole(&lines(&["ok", "xyzé"])));
}

#[test]
fn totals_that_do_not_fit_are_told_apart() {
    assert!(calibration_fits(&lines(&["99"; 1000])));
    assert!(spelled_fits(&lines(&["nine"; 1000])));
}

use aoc2023::races::races;
use aoc2023::text::Fail;

#[test]
fn race_sheet_is_read() {
    let body = b"Time:      7  15   30\nDistance:  9  40  200\n";
    let (p, (t, d)) = races(body).unwrap();
    assert_eq!(p, body.len() - 1);
    assert_eq!(t, vec![7, 15, 30]);
    assert_eq!(d, vec![9, 40, 200]);
}

#[test]
fn twenty_digits_at_most_per_number() {
    let body = b"Time: 1234567890123456789012\nDistance: 5\n";
    let (_, (t, d)) = races(body).unwrap();
    assert_eq!(t, vec![12345678901234567890, 12]);
    assert_eq!(d, vec![5]);
}

#[test]
fn missing_parts_are_refused() {
    assert_eq!(races(b"Tim: 7\nDistance: 9\n").unwrap_err(), Fail::Error);
    assert_eq!(races(b"Time: 7\nDistance:\n").unwrap_err(), Fail::Error);
    assert_eq!(races(b"Time:\nDistance: 9\n").unwrap_err(), Fail::Error);
    assert_eq!(races(b"Time: 7\n\nDistance: 9\n").unwrap_err(), Fail::Error);
}

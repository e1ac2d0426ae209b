use aoc2023::text::{parse_u32, take_long_number, Fail};

#[test]
fn unsigned_numerals() {
    assert_eq!(parse_u32(b"+12"), Some(12));
    assert_eq!(parse_u32(b"007"), Some(7));
    assert_eq!(parse_u32(b"4294967295"), Some(u32::MAX));
    assert_eq!(parse_u32(b"4294967296"), None);
    assert_eq!(parse_u32(b""), None);
    assert_eq!(parse_u32(b"+"), None);
    assert_eq!(parse_u32(b"-1"), None);
    assert_eq!(parse_u32(b"1.0"), None);
    assert_eq!(parse_u32(b"99999999999999999999999"), None);
}

#[test]
fn long_numbers_take_at_most_twenty_digits() {
    assert_eq!(take_long_number(b"12x", 0), Ok((2, 12)));
    assert_eq!(take_long_number(b"x12", 0), Err(Fail::Error));
    assert_eq!(take_long_number(b"99999999999999999999", 0), Ok((20, 99999999999999999999)));
    assert_eq!(take_long_number(b"123456789012345678901", 0), Ok((20, 12345678901234567890)));
}

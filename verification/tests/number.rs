use rget::number::{decimal_chars, padded_chars, parse_u64, push_decimal};
use rget::text::{from_chars, to_chars};

fn parse(s: &str) -> Option<u64> {
    parse_u64(&to_chars(s))
}

#[test]
fn numbers_are_written() {
    assert_eq!(from_chars(&decimal_chars(0)), "0");
    assert_eq!(from_chars(&decimal_chars(u64::MAX)), u64::MAX.to_string());
    assert_eq!(from_chars(&padded_chars(7, 3)), "007");
    assert_eq!(from_chars(&padded_chars(1234, 3)), "1234");
    assert_eq!(from_chars(&padded_chars(0, 0)), "0");
    let mut text = "n=".to_string();
    push_decimal(&mut text, 90);
    assert_eq!(text, "n=90");
}

#[test]
fn numbers_are_read_as_std_does() {
    for s in [
        "", "0", "+", "+1", "-1", "-0", "++1", "007", " 1", "1 ", "1_0", "12a",
        "18446744073709551615", "18446744073709551616", "99999999999999999999999", "\u{663}",
    ] {
        assert_eq!(parse(s), s.parse::<u64>().ok(), "{:?}", s);
    }
}

#[test]
fn padded_numbers_read_back() {
    for n in [0, 1, 9, 10, 999, 1000, u64::MAX] {
        for width in 0..25 {
            assert_eq!(parse_u64(&padded_chars(n, width)), Some(n));
        }
    }
}

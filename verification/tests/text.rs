//! Numbers as text.

use kurogane::text::{append_decimal, ascii_bytes, find_byte, parse_decimal, push_decimal};

#[test]
fn numbers_are_written_in_decimal() {
    let mut buffer = vec![b'x'];
    push_decimal(&mut buffer, 0);
    push_decimal(&mut buffer, 18446744073709551615);
    assert_eq!(buffer, b"x018446744073709551615");

    let mut text = String::from("n=");
    append_decimal(&mut text, 9070);
    assert_eq!(text, "n=9070");
}

#[test]
fn numbers_read_back() {
    for n in [0, 7, 10, 99, 1000, 18446744073709551615] {
        let mut buffer = Vec::new();
        push_decimal(&mut buffer, n);
        assert_eq!(parse_decimal(&buffer), Some(n));
    }
}

#[test]
fn a_plus_sign_and_leading_zeros_are_accepted() {
    assert_eq!(parse_decimal(b"+7"), Some(7));
    assert_eq!(parse_decimal(b"007"), Some(7));
}

#[test]
fn what_is_no_number_is_refused() {
    assert_eq!(parse_decimal(b""), None);
    assert_eq!(parse_decimal(b"+"), None);
    assert_eq!(parse_decimal(b"-1"), None);
    assert_eq!(parse_decimal(b"1 "), None);
    assert_eq!(parse_decimal(b"18446744073709551616"), None);
}

#[test]
fn a_search_stops_at_the_first_occurrence_or_the_end() {
    assert_eq!(find_byte(b"a,b,c", b',', 0), 1);
    assert_eq!(find_byte(b"a,b,c", b',', 2), 3);
    assert_eq!(find_byte(b"a,b,c", b',', 4), 5);
    assert_eq!(find_byte(b"", b',', 0), 0);
    assert_eq!(ascii_bytes("ab"), b"ab");
}

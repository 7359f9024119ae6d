use rubx::decimal::{decimal_string, parse_usize};

#[test]
fn numerals_in_base_ten() {
    assert_eq!(decimal_string(0), "0");
    assert_eq!(decimal_string(7), "7");
    assert_eq!(decimal_string(10), "10");
    assert_eq!(decimal_string(1234567890), "1234567890");
    assert_eq!(decimal_string(usize::MAX), usize::MAX.to_string());
    for n in [1usize, 9, 11, 99, 100, 101, 999, 1000, 65535, 4294967295] {
        assert_eq!(decimal_string(n), n.to_string());
    }
}

#[test]
fn reading_numerals() {
    assert_eq!(parse_usize("0"), Some(0));
    assert_eq!(parse_usize("7"), Some(7));
    assert_eq!(parse_usize("+7"), Some(7));
    assert_eq!(parse_usize("007"), Some(7));
    assert_eq!(parse_usize("1234567890"), Some(1234567890));
    assert_eq!(parse_usize(&usize::MAX.to_string()), Some(usize::MAX));
}

#[test]
fn what_is_no_numeral() {
    for bad in ["", "+", "-", "-1", "++1", "+-1", "1+", " 1", "1 ", "1_000", "1.0", "0x10", "a", "\u{663}"] {
        assert_eq!(parse_usize(bad), None);
    }
    assert_eq!(parse_usize("18446744073709551616"), None);
    assert_eq!(parse_usize("99999999999999999999999999999999"), None);
}

#[test]
fn reading_agrees_with_the_standard_library() {
    for text in ["0", "+0", "12", "+12", "-12", "", "+", "1a", "00012", "18446744073709551615", "18446744073709551616", "18446744073709551620"] {
        assert_eq!(parse_usize(text), text.parse::<usize>().ok());
    }
}

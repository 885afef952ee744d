use tasklist::codec::parse_bool;
use tasklist::numeral::parse_usize;
use tasklist::numeral::usize_to_string;

#[test]
fn renders_base_ten() {
    assert_eq!(usize_to_string(0), "0".to_string());
    assert_eq!(usize_to_string(7), "7".to_string());
    assert_eq!(usize_to_string(10), "10".to_string());
    assert_eq!(usize_to_string(905), "905".to_string());
    assert_eq!(usize_to_string(usize::MAX), usize::MAX.to_string());
}

#[test]
fn parses_numerals() {
    assert_eq!(parse_usize("0"), 0);
    assert_eq!(parse_usize("42"), 42);
    assert_eq!(parse_usize("007"), 7);
    assert_eq!(parse_usize(&usize::MAX.to_string()), usize::MAX);
}

#[test]
fn malformed_numerals_default_to_zero() {
    assert_eq!(parse_usize(""), 0);
    assert_eq!(parse_usize("abc"), 0);
    assert_eq!(parse_usize("1x2"), 0);
    assert_eq!(parse_usize("-1"), 0);
    assert_eq!(parse_usize(" 3"), 0);
    assert_eq!(parse_usize("+3"), 0);
}

#[test]
fn oversized_numerals_default_to_zero() {
    let too_big = (usize::MAX as u128 + 1).to_string();
    assert_eq!(parse_usize(&too_big), 0);
    assert_eq!(parse_usize("999999999999999999999999999999"), 0);
}

#[test]
fn parses_completion_flags() {
    assert!(parse_bool("true"));
    assert!(!parse_bool("false"));
    assert!(!parse_bool(""));
    assert!(!parse_bool("TRUE"));
    assert!(!parse_bool("true "));
    assert!(!parse_bool("yes"));
}

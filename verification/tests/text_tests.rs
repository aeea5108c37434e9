use dom_builder::text::{blank, parse_int, str_eq, trim};

#[test]
fn string_equality_is_exact() {
    assert!(str_eq("", ""));
    assert!(str_eq("abc", "abc"));
    assert!(!str_eq("abc", "abd"));
    assert!(!str_eq("abc", "ab"));
}

#[test]
fn blank_accepts_only_white_space() {
    assert!(blank(""));
    assert!(blank(" \t\r\n  "));
    assert!(!blank(" x "));
}

#[test]
fn integers_parse_exactly() {
    assert_eq!(parse_int("0"), Some(0));
    assert_eq!(parse_int("120"), Some(120));
    assert_eq!(parse_int("-5"), Some(-5));
    assert_eq!(parse_int("007"), Some(7));
}

#[test]
fn malformed_numbers_do_not_parse() {
    assert_eq!(parse_int(""), None);
    assert_eq!(parse_int("-"), None);
    assert_eq!(parse_int("abc"), None);
    assert_eq!(parse_int("12a"), None);
    assert_eq!(parse_int(" 12"), None);
    assert_eq!(parse_int("+12"), None);
}

#[test]
fn parsing_respects_the_i64_range() {
    assert_eq!(parse_int("9223372036854775807"), Some(i64::MAX));
    assert_eq!(parse_int("9223372036854775808"), None);
    assert_eq!(parse_int("-9223372036854775808"), Some(i64::MIN));
    assert_eq!(parse_int("-9223372036854775809"), None);
    assert_eq!(parse_int("99999999999999999999999999"), None);
}

#[test]
fn trimming_strips_only_the_edges() {
    assert_eq!(trim("  a b  "), "a b");
    assert_eq!(trim("\t\n"), "");
    assert_eq!(trim("x"), "x");
    assert_eq!(trim(""), "");
}

use survival_pipeline::parse::{parse_fixed, parse_fixed_or, parse_number, ParseError, MICROS};
use survival_pipeline::text::{clean_field, contains_male};

#[test]
fn parse_number_reads_plain_integers() {
    assert_eq!(parse_number("42"), Ok(42));
    assert_eq!(parse_number("-7"), Ok(-7));
    assert_eq!(parse_number("+13"), Ok(13));
    assert_eq!(parse_number("0"), Ok(0));
}

#[test]
fn parse_number_respects_the_i32_range() {
    assert_eq!(parse_number("2147483647"), Ok(2147483647));
    assert_eq!(parse_number("-2147483648"), Ok(-2147483648));
    assert_eq!(parse_number("2147483648"), Err(ParseError));
    assert_eq!(parse_number("-2147483649"), Err(ParseError));
    assert_eq!(parse_number("99999999999999999999"), Err(ParseError));
}

#[test]
fn parse_number_rejects_malformed_text() {
    assert_eq!(parse_number(""), Err(ParseError));
    assert_eq!(parse_number("abc"), Err(ParseError));
    assert_eq!(parse_number("12a"), Err(ParseError));
    assert_eq!(parse_number("-"), Err(ParseError));
    assert_eq!(parse_number("1.5"), Err(ParseError));
}

#[test]
fn parse_fixed_reads_decimals_in_millionths() {
    assert_eq!(parse_fixed("7.25"), Some(7_250_000));
    assert_eq!(parse_fixed("29.7"), Some(29_700_000));
    assert_eq!(parse_fixed("-0.5"), Some(-500_000));
    assert_eq!(parse_fixed("22"), Some(22_000_000));
    assert_eq!(parse_fixed(".5"), Some(500_000));
    assert_eq!(parse_fixed("7."), Some(7_000_000));
    assert_eq!(parse_fixed("71.2833"), Some(71_283_300));
}

#[test]
fn parse_fixed_cuts_digits_beyond_the_sixth() {
    assert_eq!(parse_fixed("0.1234567"), Some(123_456));
    assert_eq!(parse_fixed("1.0000009"), Some(1_000_000));
}

#[test]
fn parse_fixed_rejects_malformed_text() {
    assert_eq!(parse_fixed(""), None);
    assert_eq!(parse_fixed(" "), None);
    assert_eq!(parse_fixed("."), None);
    assert_eq!(parse_fixed("1e3"), None);
    assert_eq!(parse_fixed("1.2.3"), None);
    assert_eq!(parse_fixed("abc"), None);
}

#[test]
fn parse_fixed_or_falls_back_silently() {
    assert_eq!(parse_fixed_or("", 9), 9);
    assert_eq!(parse_fixed_or("bad", -3), -3);
    assert_eq!(parse_fixed_or("2", 9), 2 * MICROS);
}

#[test]
fn clean_field_strips_quotes_then_whitespace() {
    assert_eq!(clean_field("\"7.25\""), "7.25");
    assert_eq!(clean_field("  22 "), "22");
    assert_eq!(clean_field("\" padded \""), "padded");
    assert_eq!(clean_field("plain"), "plain");
    assert_eq!(clean_field(""), "");
    assert_eq!(clean_field("\"\""), "");
    // outer whitespace shields the quotes: only the whitespace goes
    assert_eq!(clean_field(" \"x\" "), "\"x\"");
}

#[test]
fn contains_male_is_case_insensitive_substring_search() {
    assert!(contains_male("male"));
    assert!(contains_male("Male"));
    assert!(contains_male("FEMALE"));
    assert!(!contains_male("nope"));
    assert!(!contains_male("mal"));
    assert!(!contains_male(""));
}

#[test]
fn parse_fixed_bounds_the_whole_part() {
    assert_eq!(parse_fixed("999999999999.5"), Some(999_999_999_999_500_000));
    assert_eq!(parse_fixed("1000000000000"), None);
    assert_eq!(parse_fixed("-1000000000000"), None);
}

#[test]
fn parse_number_rejects_a_bare_sign() {
    assert_eq!(parse_number("+"), Err(ParseError));
}

#[test]
fn clean_field_empties_an_all_quote_field() {
    assert_eq!(clean_field("\"\"\""), "");
    assert_eq!(clean_field("   "), "");
}

use winnow_sm::text::{parse_digits, str_eq, usize_to_string};
use winnow_sm::{format_authors, trim_whitespace};

#[test]
fn trim_whitespace_strips_newline_kinds() {
    assert_eq!(trim_whitespace("abc\n"), "abc".to_string());
    assert_eq!(trim_whitespace("abc\r\n"), "abc".to_string());
    assert_eq!(trim_whitespace("a\nb\rc"), "abc".to_string());
    assert_eq!(trim_whitespace(""), "".to_string());
    assert_eq!(trim_whitespace("plain"), "plain".to_string());
}

#[test]
fn format_authors_joins_with_commas() {
    assert_eq!(format_authors("A:B:C"), "A, B, C".to_string());
    assert_eq!(format_authors("One Person"), "One Person".to_string());
    assert_eq!(format_authors(""), "".to_string());
}

#[test]
fn parse_digits_reads_decimal_numbers() {
    assert_eq!(parse_digits("0"), Some(0));
    assert_eq!(parse_digits("123"), Some(123));
    assert_eq!(parse_digits("007"), Some(7));
    assert_eq!(parse_digits("9999"), Some(9999));
}

#[test]
fn parse_digits_rejects_bad_input() {
    assert_eq!(parse_digits(""), None);
    assert_eq!(parse_digits("12a"), None);
    assert_eq!(parse_digits("-3"), None);
    assert_eq!(parse_digits("+3"), None);
    assert_eq!(parse_digits("1 2"), None);
    assert_eq!(parse_digits("99999999999999999999999999"), None);
}

#[test]
fn parse_digits_handles_word_boundary() {
    let max = usize::MAX.to_string();
    assert_eq!(parse_digits(&max), Some(usize::MAX));
    let over = format!("{}0", max);
    assert_eq!(parse_digits(&over), None);
}

#[test]
fn usize_to_string_renders_decimal() {
    assert_eq!(usize_to_string(0), "0".to_string());
    assert_eq!(usize_to_string(7), "7".to_string());
    assert_eq!(usize_to_string(42), "42".to_string());
    assert_eq!(usize_to_string(9999), "9999".to_string());
    assert_eq!(usize_to_string(usize::MAX), usize::MAX.to_string());
}

#[test]
fn str_eq_compares_by_content() {
    assert!(str_eq("", ""));
    assert!(str_eq("abc", "abc"));
    assert!(!str_eq("abc", "abd"));
    assert!(!str_eq("abc", "abcd"));
}

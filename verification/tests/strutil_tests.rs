use utools::error::ToolError;
use utools::strutil::{decimal_round_trip, parse_i64, str_eq, u64_to_string};

#[test]
fn formats_decimals() {
    assert_eq!(u64_to_string(0), "0");
    assert_eq!(u64_to_string(7), "7");
    assert_eq!(u64_to_string(1234567890), "1234567890");
    assert_eq!(u64_to_string(u64::MAX), "18446744073709551615");
}

#[test]
fn decimal_round_trips() {
    assert_eq!(decimal_round_trip(0), 0);
    assert_eq!(decimal_round_trip(10), 10);
    assert_eq!(decimal_round_trip(9_007_199_254_740_993), 9_007_199_254_740_993);
    assert_eq!(decimal_round_trip(i64::MAX as u64), i64::MAX);
}

#[test]
fn parses_signed_integers() {
    assert_eq!(parse_i64("0"), Ok(0));
    assert_eq!(parse_i64("42"), Ok(42));
    assert_eq!(parse_i64("-42"), Ok(-42));
    assert_eq!(parse_i64("+42"), Ok(42));
    assert_eq!(parse_i64("9223372036854775807"), Ok(i64::MAX));
    assert_eq!(parse_i64("-9223372036854775808"), Ok(i64::MIN));
}

#[test]
fn rejects_malformed_and_overflowing_integers() {
    assert_eq!(parse_i64(""), Err(ToolError::InvalidNumber));
    assert_eq!(parse_i64("-"), Err(ToolError::InvalidNumber));
    assert_eq!(parse_i64("+"), Err(ToolError::InvalidNumber));
    assert_eq!(parse_i64("12a"), Err(ToolError::InvalidNumber));
    assert_eq!(parse_i64(" 12"), Err(ToolError::InvalidNumber));
    assert_eq!(parse_i64("9223372036854775808"), Err(ToolError::InvalidNumber));
    assert_eq!(parse_i64("-9223372036854775809"), Err(ToolError::InvalidNumber));
}

#[test]
fn compares_strings_by_characters() {
    assert!(str_eq("abc", "abc"));
    assert!(!str_eq("abc", "abd"));
    assert!(!str_eq("abc", "ab"));
    assert!(str_eq("", ""));
}

#[test]
fn error_messages_are_nonempty() {
    let errors = [
        ToolError::InvalidEncoding,
        ToolError::InvalidUtf8,
        ToolError::InvalidJson,
        ToolError::InvalidNumber,
        ToolError::InvalidInput,
    ];
    for e in errors {
        assert!(!e.message().is_empty());
    }
}

use utools::base64_text::{base64_round_trip, decode_base64_text, encode_base64_text};
use utools::error::ToolError;

#[test]
fn encodes_known_text() {
    assert_eq!(encode_base64_text("hello"), "aGVsbG8=");
    assert_eq!(encode_base64_text(""), "");
    assert_eq!(encode_base64_text("Many hands make light work."), "TWFueSBoYW5kcyBtYWtlIGxpZ2h0IHdvcmsu");
}

#[test]
fn decodes_known_text() {
    assert_eq!(decode_base64_text("aGVsbG8="), Ok(String::from("hello")));
    assert_eq!(decode_base64_text(""), Ok(String::from("")));
}

#[test]
fn decode_rejects_bad_base64() {
    assert_eq!(decode_base64_text("not base64!"), Err(ToolError::InvalidEncoding));
    assert_eq!(decode_base64_text("aGVsbG8"), Err(ToolError::InvalidEncoding));
}

#[test]
fn decode_rejects_non_utf8_bytes() {
    // "/w==" decodes to the single byte 0xFF, which is not UTF-8 text.
    assert_eq!(decode_base64_text("/w=="), Err(ToolError::InvalidUtf8));
}

#[test]
fn round_trip_returns_input() {
    assert_eq!(base64_round_trip("any text at all, with ünïcode ✓"), "any text at all, with ünïcode ✓");
    assert_eq!(base64_round_trip(""), "");
    let decoded = decode_base64_text(&encode_base64_text("line1\nline2")).unwrap();
    assert_eq!(decoded, "line1\nline2");
}

use serde_json::Value;
use utools::error::ToolError;
use utools::json::{compact_json, format_json, is_valid_json};

#[test]
fn format_pretty_prints_with_indent() {
    let out = format_json("{\"a\":1,\"b\":[true,null]}", 2).unwrap();
    assert_eq!(out, "{\n  \"a\": 1,\n  \"b\": [\n    true,\n    null\n  ]\n}");
    let out3 = format_json("[1]", 3).unwrap();
    assert_eq!(out3, "[\n   1\n]");
    let out4 = format_json("[1]", 4).unwrap();
    assert_eq!(out4, "[\n    1\n]");
}

#[test]
fn compact_removes_whitespace() {
    let out = compact_json("{\n  \"a\": 1,\n  \"b\": [ true , null ]\n}").unwrap();
    assert_eq!(out, "{\"a\":1,\"b\":[true,null]}");
}

#[test]
fn invalid_json_is_reported() {
    assert_eq!(format_json("{\"a\":", 2), Err(ToolError::InvalidJson));
    assert_eq!(compact_json("nope"), Err(ToolError::InvalidJson));
    assert_eq!(format_json("", 2), Err(ToolError::InvalidJson));
    assert!(!is_valid_json("[1,"));
    assert!(is_valid_json("[1, 2, 3]"));
}

#[test]
fn round_trip_through_format() {
    // Formatting then reparsing yields the same document: its compact form
    // is unchanged, for several shapes of document.
    let docs = [
        "null",
        "true",
        "-12.5e3",
        "\"a string with \\\"quotes\\\" and \\u00e9\"",
        "[]",
        "{}",
        "[1,[2,[3,{}]],{\"k\":\"v\"}]",
        "{\"nested\":{\"a\":[1,2,3],\"b\":{\"c\":false}}}",
    ];
    for d in docs {
        let formatted = format_json(d, 2).unwrap();
        assert_eq!(compact_json(&formatted).unwrap(), compact_json(d).unwrap());
        let compacted = compact_json(d).unwrap();
        assert_eq!(compact_json(&compacted).unwrap(), compacted);
    }
}

#[test]
fn format_preserves_the_parsed_document() {
    let docs = [
        "{\"a\":1,\"b\":[true,null,\"x\"],\"c\":{\"d\":-2.5}}",
        "[0.1, 2e10, \"\\u2603\"]",
    ];
    for d in docs {
        let formatted = format_json(d, 4).unwrap();
        let reparsed: Value = serde_json::from_str(&formatted).unwrap();
        let parsed: Value = serde_json::from_str(d).unwrap();
        assert_eq!(reparsed, parsed);
    }
}

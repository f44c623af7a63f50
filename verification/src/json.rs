//! JSON formatting and compacting, as the formatter tool does it: the text
//! is parsed once, then serialized back either pretty-printed with a chosen
//! indentation width or in compact form. Parsing and serialization are
//! serde_json's, each operation held to a contract that names its rendering;
//! the indentation, the checks and the error reporting around them are
//! verified.

use vstd::prelude::*;

use serde::Serialize;

use crate::error::ToolError;

verus! {

/// The action that selects an indentation width.
#[derive(Clone, Copy, Debug, PartialEq, Eq, Structural)]
pub struct SetIndentationSize(pub usize);

/// Whether the text parses as one JSON document.
pub uninterp spec fn json_valid(s: Seq<char>) -> bool;

/// The compact rendering of the document a valid text denotes.
pub uninterp spec fn json_compact_of(s: Seq<char>) -> Seq<char>;

/// The pretty rendering of the document a valid text denotes, with the
/// given number of spaces of indentation per nesting level.
pub uninterp spec fn json_pretty_of(s: Seq<char>, indent: nat) -> Seq<char>;

/// Relies on serde_json's `from_str` for `Value`: it succeeds exactly when
/// the text is one valid JSON document.
#[verifier::external_body]
fn json_parse_ok(s: &str) -> (r: bool)
    ensures
        r == json_valid(s@),
{
    serde_json::from_str::<serde_json::Value>(s).is_ok()
}

/// Relies on serde_json's `from_str` for `Value` and `to_string`: the
/// compact rendering of the document the text denotes. `to_string` cannot
/// fail on a `Value`, and its output parses again: the parser's nesting
/// limit already held on the input, whose depth the document shares.
#[verifier::external_body]
fn json_compact_text(s: &str) -> (r: Option<String>)
    ensures
        r is Some <==> json_valid(s@),
        match r {
            Some(t) => t@ == json_compact_of(s@) && json_valid(t@),
            None => true,
        },
{
    let v: serde_json::Value = serde_json::from_str(s).ok()?;
    serde_json::to_string(&v).ok()
}

/// Relies on serde_json's `from_str` for `Value` and its `Serializer` with
/// `PrettyFormatter::with_indent`: the pretty rendering of the document the
/// text denotes, under an all-space indent, which depends on the text and
/// the indent width alone. Serializing a `Value` cannot fail, and the
/// output parses again, as for the compact rendering.
#[verifier::external_body]
fn json_pretty_text(s: &str, indent: &[u8]) -> (r: Option<String>)
    requires
        forall|k: int| 0 <= k < indent@.len() ==> indent@[k] == 32u8,
    ensures
        r is Some <==> json_valid(s@),
        match r {
            Some(t) => t@ == json_pretty_of(s@, indent@.len() as nat) && json_valid(t@),
            None => true,
        },
{
    let v: serde_json::Value = serde_json::from_str(s).ok()?;
    let formatter = serde_json::ser::PrettyFormatter::with_indent(indent);
    let mut writer: Vec<u8> = Vec::with_capacity(128);
    let mut serializer = serde_json::ser::Serializer::with_formatter(&mut writer, formatter);
    v.serialize(&mut serializer).ok()?;
    String::from_utf8(writer).ok()
}

/// A run of spaces of the given width.
fn spaces(n: usize) -> (r: Vec<u8>)
    ensures
        r@.len() == n,
        forall|k: int| 0 <= k < r@.len() ==> r@[k] == 32u8,
{
    let mut r: Vec<u8> = Vec::new();
    let mut i: usize = 0;
    while i < n
        invariant
            i <= n,
            r@.len() == i,
            forall|k: int| 0 <= k < r@.len() ==> r@[k] == 32u8,
        decreases n - i,
    {
        r.push(32u8);
        i = i + 1;
    }
    r
}

/// Whether the text is one valid JSON document.
pub fn is_valid_json(s: &str) -> (r: bool)
    ensures
        r == json_valid(s@),
{
    json_parse_ok(s)
}

/// Pretty-prints the JSON text with the given indentation width, as the
/// formatter tool does on a click: the pretty rendering of the document,
/// which parses again, or `InvalidJson` exactly when the input does not
/// parse.
pub fn format_json(input: &str, indent_size: usize) -> (r: Result<String, ToolError>)
    ensures
        r is Ok <==> json_valid(input@),
        match r {
            Ok(t) => t@ == json_pretty_of(input@, indent_size as nat) && json_valid(t@),
            Err(e) => e == ToolError::InvalidJson,
        },
{
    let indent = spaces(indent_size);
    match json_pretty_text(input, indent.as_slice()) {
        Some(t) => Ok(t),
        None => Err(ToolError::InvalidJson),
    }
}

/// Compacts the JSON text, as the formatter tool does: the compact rendering
/// of the document, which parses again, or `InvalidJson` exactly when the
/// input does not parse.
pub fn compact_json(input: &str) -> (r: Result<String, ToolError>)
    ensures
        r is Ok <==> json_valid(input@),
        match r {
            Ok(t) => t@ == json_compact_of(input@) && json_valid(t@),
            Err(e) => e == ToolError::InvalidJson,
        },
{
    match json_compact_text(input) {
        Some(t) => Ok(t),
        None => Err(ToolError::InvalidJson),
    }
}

} // verus!

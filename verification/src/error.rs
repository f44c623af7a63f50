//! The error taxonomy shared by all tools. Failures are reported as values;
//! no transformation panics on any input.

use vstd::prelude::*;

verus! {

/// Why a transformation rejected its input.
#[derive(Clone, Copy, Debug, PartialEq, Eq, Structural)]
pub enum ToolError {
    /// The input is not valid Base64 in the standard alphabet.
    InvalidEncoding,
    /// Decoded bytes are not valid UTF-8 text.
    InvalidUtf8,
    /// The input does not parse as a JSON document.
    InvalidJson,
    /// The input does not parse as an integer.
    InvalidNumber,
    /// The input parsed but lies outside the supported range.
    InvalidInput,
}

impl ToolError {
    /// A short human-readable description of the error.
    pub fn message(&self) -> (r: &'static str)
        ensures
            r@.len() > 0,
            r@ == match self {
                ToolError::InvalidEncoding => "input is not valid Base64"@,
                ToolError::InvalidUtf8 => "decoded bytes are not valid UTF-8"@,
                ToolError::InvalidJson => "input is not valid JSON"@,
                ToolError::InvalidNumber => "input is not a valid number"@,
                ToolError::InvalidInput => "input is outside the supported range"@,
            },
    {
        proof {
            reveal_strlit("input is not valid Base64");
            reveal_strlit("decoded bytes are not valid UTF-8");
            reveal_strlit("input is not valid JSON");
            reveal_strlit("input is not a valid number");
            reveal_strlit("input is outside the supported range");
        }
        match self {
            ToolError::InvalidEncoding => "input is not valid Base64",
            ToolError::InvalidUtf8 => "decoded bytes are not valid UTF-8",
            ToolError::InvalidJson => "input is not valid JSON",
            ToolError::InvalidNumber => "input is not a valid number",
            ToolError::InvalidInput => "input is outside the supported range",
        }
    }
}

} // verus!

//! Verified core of a small developer tool belt: Base64 text encoding and
//! decoding, JSON formatting and compacting, data-URL generation, text
//! difference computation with highlight ranges, character counting and Unix
//! timestamp conversion.
//!
//! Every transformation is a total function from plain values to plain
//! values with a contract; the user interface around it lives elsewhere.

pub mod base64_text;
pub mod count;
pub mod data_url;
pub mod diff;
pub mod error;
pub mod json;
pub mod percent;
pub mod strutil;
pub mod timestamp;

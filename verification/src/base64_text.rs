//! Base64 encoding and decoding of text, as the two Base64 tools do it: the
//! standard alphabet with padding, over the text's UTF-8 bytes. The codec
//! itself is the base64 crate's, held to a named contract; everything around
//! it, including the round trip, is verified.

use vstd::prelude::*;

use base64::Engine;

use crate::error::ToolError;
use vstd::utf8::{decode_utf8, encode_utf8, valid_utf8};

verus! {

broadcast use vstd::utf8::encode_utf8_valid_utf8, vstd::utf8::encode_utf8_decode_utf8;

/// The standard-alphabet padded Base64 rendering of a byte sequence.
pub uninterp spec fn b64_std_encode(b: Seq<u8>) -> Seq<char>;

/// The bytes a text denotes under standard-alphabet padded Base64, or
/// nothing when it is not valid Base64.
pub uninterp spec fn b64_std_decode(s: Seq<char>) -> Option<Seq<u8>>;

/// Each character of a string encodes to at most four UTF-8 bytes.
pub proof fn lemma_encode_utf8_len(s: Seq<char>)
    ensures
        encode_utf8(s).len() <= 4 * s.len(),
    decreases s.len(),
{
    if s.len() > 0 {
        lemma_encode_utf8_len(s.drop_first());
    }
}

/// Relies on base64's `STANDARD` engine `encode`: the canonical padded
/// standard-alphabet Base64 of the bytes, which `decode` maps back to them.
#[verifier::external_body]
fn b64_encode_std(b: &[u8]) -> (r: String)
    requires
        b@.len() <= usize::MAX / 4,
    ensures
        r@ == b64_std_encode(b@),
        b64_std_decode(r@) == Some(b@),
{
    base64::engine::general_purpose::STANDARD.encode(b)
}

/// Relies on base64's `STANDARD` engine `decode`: the bytes the text
/// denotes, or an error when it is not valid padded standard Base64.
#[verifier::external_body]
fn b64_decode_std(s: &str) -> (r: Option<Vec<u8>>)
    ensures
        match r {
            Some(v) => b64_std_decode(s@) == Some(v@),
            None => b64_std_decode(s@) is None,
        },
{
    match base64::engine::general_purpose::STANDARD.decode(s) {
        Ok(v) => Some(v),
        Err(_) => None,
    }
}

/// Relies on `String::from_utf8`: the string whose UTF-8 encoding is the
/// given bytes, or nothing when they are not valid UTF-8.
#[verifier::external_body]
fn string_from_utf8(b: Vec<u8>) -> (r: Option<String>)
    ensures
        match r {
            Some(s) => valid_utf8(b@) && s@ == decode_utf8(b@),
            None => !valid_utf8(b@),
        },
{
    match String::from_utf8(b) {
        Ok(s) => Some(s),
        Err(_) => None,
    }
}

/// The Base64 rendering of the text, as the encoder tool computes it.
pub fn encode_base64_text(s: &str) -> (r: String)
    requires
        s@.len() <= usize::MAX / 16,
    ensures
        r@ == b64_std_encode(encode_utf8(s@)),
        b64_std_decode(r@) == Some(encode_utf8(s@)),
{
    proof {
        lemma_encode_utf8_len(s@);
    }
    let b = s.as_bytes();
    b64_encode_std(b)
}

/// What decoding a text yields: the denoted bytes read back as UTF-8 text,
/// or the error naming what failed.
pub open spec fn spec_decode_base64_text(s: Seq<char>) -> Result<Seq<char>, ToolError> {
    match b64_std_decode(s) {
        Some(b) => if valid_utf8(b) {
            Ok(decode_utf8(b))
        } else {
            Err(ToolError::InvalidUtf8)
        },
        None => Err(ToolError::InvalidEncoding),
    }
}

/// The decoded text, as the decoder tool computes it: `InvalidEncoding` when
/// the input is not Base64, `InvalidUtf8` when the decoded bytes are not
/// text.
pub fn decode_base64_text(s: &str) -> (r: Result<String, ToolError>)
    ensures
        match r {
            Ok(t) => spec_decode_base64_text(s@) == Ok::<Seq<char>, ToolError>(t@),
            Err(e) => spec_decode_base64_text(s@) == Err::<Seq<char>, ToolError>(e),
        },
{
    let bytes = match b64_decode_std(s) {
        Some(v) => v,
        None => {
            return Err(ToolError::InvalidEncoding);
        },
    };
    match string_from_utf8(bytes) {
        Some(t) => Ok(t),
        None => Err(ToolError::InvalidUtf8),
    }
}

/// Law: decoding an encoded text returns the text unchanged, for every
/// string within the encoder's size bound.
pub fn base64_round_trip(s: &str) -> (r: String)
    requires
        s@.len() <= usize::MAX / 16,
    ensures
        r@ == s@,
{
    let enc = encode_base64_text(s);
    match decode_base64_text(enc.as_str()) {
        Ok(t) => t,
        Err(_) => {
            proof {
                assert(false);
            }
            String::new()
        },
    }
}

} // verus!

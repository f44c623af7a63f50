//! Data-URL generation: "data:" followed by the MIME type, a charset note
//! for plain text, and the payload, which is either URL-safe Base64 or the
//! percent-encoding of the text, as the generator tool builds it.

use vstd::prelude::*;

use base64::Engine;

use crate::base64_text::lemma_encode_utf8_len;
use crate::percent::{pct_encode_data, percent_encode_text};
use crate::strutil::{chars_to_string, str_eq};
use vstd::string::StringExecFns;
use vstd::utf8::encode_utf8;

verus! {

/// How the payload of a data URL is written.
#[derive(Clone, Copy, Debug, PartialEq, Eq, Structural)]
pub enum Encoding {
    Base64,
    URL,
}

/// The action that selects a payload encoding.
#[derive(Clone, Copy, Debug, PartialEq, Eq, Structural)]
pub struct SetEncoding(pub Encoding);

/// The action that switches MIME-type auto-detection.
#[derive(Clone, Copy, Debug, PartialEq, Eq, Structural)]
pub struct SetMimeTypeAutoDetect(pub bool);

/// The URL-safe-alphabet padded Base64 rendering of a byte sequence.
pub uninterp spec fn b64_url_encode(b: Seq<u8>) -> Seq<char>;

/// Relies on base64's `URL_SAFE` engine `encode`: the canonical padded
/// URL-safe-alphabet Base64 of the bytes.
#[verifier::external_body]
fn b64_encode_url(b: &[u8]) -> (r: String)
    requires
        b@.len() <= usize::MAX / 4,
    ensures
        r@ == b64_url_encode(b@),
{
    base64::engine::general_purpose::URL_SAFE.encode(b)
}

/// The charset note appended after a plain-text MIME type.
pub open spec fn spec_mime_extra(mime: Seq<char>) -> Seq<char> {
    if mime == "text/plain"@ {
        ";charset=utf-8"@
    } else {
        Seq::empty()
    }
}

/// The payload under the chosen encoding.
pub open spec fn spec_payload(text: Seq<char>, enc: Encoding) -> Seq<char> {
    match enc {
        Encoding::Base64 => "base64,"@ + b64_url_encode(encode_utf8(text)),
        Encoding::URL => pct_encode_data(encode_utf8(text)),
    }
}

/// The whole data URL for a text and MIME type under an encoding.
pub open spec fn spec_data_url(text: Seq<char>, mime: Seq<char>, enc: Encoding) -> Seq<char> {
    "data:"@ + mime + spec_mime_extra(mime) + ";"@ + spec_payload(text, enc)
}

/// Builds the data URL of the text, as the generator tool does on a click.
/// Total: every text and MIME type yield a URL.
pub fn generate_data_url(text: &str, mime: &str, enc: Encoding) -> (r: String)
    requires
        text@.len() <= usize::MAX / 16,
    ensures
        r@ == spec_data_url(text@, mime@, enc),
{
    let mut out = String::new();
    out.append("data:");
    out.append(mime);
    if str_eq(mime, "text/plain") {
        out.append(";charset=utf-8");
    }
    out.append(";");
    match enc {
        Encoding::Base64 => {
            out.append("base64,");
            proof {
                lemma_encode_utf8_len(text@);
            }
            let e = b64_encode_url(text.as_bytes());
            out.append(e.as_str());
        },
        Encoding::URL => {
            let p = percent_encode_text(text);
            let ps = chars_to_string(&p);
            out.append(ps.as_str());
        },
    }
    proof {
        assert(out@ =~= spec_data_url(text@, mime@, enc));
    }
    out
}

} // verus!

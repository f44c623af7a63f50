use utools::count::character_count;
use utools::data_url::{generate_data_url, Encoding};

#[test]
fn base64_data_url_for_plain_text() {
    let url = generate_data_url("hello", "text/plain", Encoding::Base64);
    assert_eq!(url, "data:text/plain;charset=utf-8;base64,aGVsbG8=");
}

#[test]
fn base64_data_url_for_other_mime_type() {
    let url = generate_data_url("hello", "image/png", Encoding::Base64);
    assert_eq!(url, "data:image/png;base64,aGVsbG8=");
}

#[test]
fn url_safe_alphabet_is_used_for_base64_payload() {
    // The bytes 0xFB 0xEF encode with '-' and '_' in the URL-safe alphabet.
    let url = generate_data_url("\u{03ff}\u{07ff}", "application/octet-stream", Encoding::Base64);
    assert_eq!(url, "data:application/octet-stream;base64,z7_fvw==");
}

#[test]
fn percent_encoding_escapes_the_data_url_set() {
    let url = generate_data_url("a,b#c%d", "text/plain", Encoding::URL);
    assert_eq!(url, "data:text/plain;charset=utf-8;a%2Cb%23c%25d");
}

#[test]
fn percent_encoding_escapes_controls_and_non_ascii() {
    let url = generate_data_url("x\ny é", "text/html", Encoding::URL);
    // '\n' is a control, 'é' is the two bytes 0xC3 0xA9; the space passes.
    assert_eq!(url, "data:text/html;x%0Ay %C3%A9");
}

#[test]
fn empty_text_still_yields_a_url() {
    assert_eq!(generate_data_url("", "text/plain", Encoding::Base64), "data:text/plain;charset=utf-8;base64,");
    assert_eq!(generate_data_url("", "a/b", Encoding::URL), "data:a/b;");
}

#[test]
fn character_count_counts_characters() {
    assert_eq!(character_count(""), 0);
    assert_eq!(character_count("hello"), 5);
    assert_eq!(character_count("héllo ✓"), 7);
    assert_eq!(character_count("a\nb"), 3);
}

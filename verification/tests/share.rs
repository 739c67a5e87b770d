use juggling_core::share::{decode_shared_jml, share_settings, url_decode, url_encode};
use base64::Engine;
use std::io::Write;

#[test]
fn url_encoding_matches_the_original_allowed_character_set() {
    let source = "pattern=(4,2x)*;title=Café & pass";
    let encoded = url_encode(source);

    assert_eq!(
        encoded,
        "pattern=%284%2C2x%29%2A;title=Caf%C3%A9%20&%20pass"
    );
    assert_eq!(url_decode(&encoded).unwrap(), source);
}

#[test]
fn decoding_what_was_encoded_gives_the_text_back() {
    for text in ["", "abc", "1 2\t3", "ü€😀", "%41", "a/b?c#d", "~-._=;&"] {
        assert_eq!(url_decode(&url_encode(text)).unwrap(), text);
    }
    assert_eq!(url_encode("€"), "%E2%82%AC");
}

#[test]
fn decoding_reads_escapes_and_refuses_bad_bytes() {
    assert_eq!(url_decode("a%41%2b").unwrap(), "aA+");
    assert_eq!(url_decode("100%").unwrap(), "100%");
    assert_eq!(url_decode("%4").unwrap(), "%4");
    assert_eq!(url_decode("%zz").unwrap(), "%zz");
    let err = url_decode("%FF").unwrap_err();
    assert!(err.starts_with("Invalid UTF-8 in shared URL: "));
}

fn compressed_payload(xml: &str) -> String {
    let mut encoder = flate2::write::GzEncoder::new(Vec::new(), flate2::Compression::default());
    encoder.write_all(xml.as_bytes()).unwrap();
    let bytes = encoder.finish().unwrap();
    base64::engine::general_purpose::STANDARD.encode(bytes)
}

#[test]
fn shared_jml_payload_gives_its_pattern() {
    let xml = "<jml><pattern><title>Edited</title><setup jugglers=\"1\" paths=\"1\"/></pattern></jml>";
    let record = decode_shared_jml(&compressed_payload(xml)).unwrap();
    assert_eq!(record.display, "Edited");
    assert!(record
        .raw_pattern
        .as_deref()
        .is_some_and(|text| text.contains("<title>Edited</title>")));
}

#[test]
fn shared_jml_payload_reports_bad_base64() {
    let error = decode_shared_jml("%%%").unwrap_err();
    assert!(error.starts_with("Invalid shared JML Base64 data: "));
}

#[test]
fn shared_jml_payload_reports_bad_gzip() {
    let payload = base64::engine::general_purpose::STANDARD.encode(b"not gzip");
    let error = decode_shared_jml(&payload).unwrap_err();
    assert!(error.starts_with("Unable to decompress shared JML: "));
}

#[test]
fn bare_share_query_is_a_pattern_setting() {
    let (jml, parameters) = share_settings("https://jugglinglab.org/anim?531").unwrap();
    assert!(jml.is_none());
    assert_eq!(parameters.to_string(), "pattern=531");
}

#[test]
fn share_settings_take_out_the_jml_payload() {
    let (jml, parameters) = share_settings("https://x/anim?jml=abc;stereo=true").unwrap();
    assert_eq!(jml.as_deref(), Some("abc"));
    assert_eq!(parameters.to_string(), "stereo=true");
    let (blank, _) = share_settings("https://x/anim?jml=;pattern=3").unwrap();
    assert!(blank.is_none());
}

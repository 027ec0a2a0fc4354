use devtools_api::base64url::{try_decode, encode_into};

fn enc(b: &[u8]) -> String {
    let mut out: Vec<u8> = Vec::new();
    encode_into(b, &mut out);
    String::from_utf8(out).unwrap()
}

#[test]
fn encodes_full_and_partial_groups() {
    assert_eq!(enc(b""), "");
    assert_eq!(enc(b"M"), "TQ");
    assert_eq!(enc(b"Ma"), "TWE");
    assert_eq!(enc(b"Man"), "TWFu");
    assert_eq!(enc(b"ManM"), "TWFuTQ");
}

#[test]
fn uses_the_url_safe_alphabet() {
    assert_eq!(enc(&[0xfb, 0xff]), "-_8");
    assert_eq!(enc(&[0xff, 0xff, 0xff]), "____");
}

#[test]
fn encodes_the_token_header() {
    assert_eq!(enc(br#"{"typ":"JWT","alg":"HS256"}"#), "eyJ0eXAiOiJKV1QiLCJhbGciOiJIUzI1NiJ9");
}

#[test]
fn decodes_what_it_encodes() {
    for n in 0..40usize {
        let bytes: Vec<u8> = (0..n).map(|i| (i * 37 + 11) as u8).collect();
        let text = enc(&bytes);
        assert_eq!(try_decode(text.as_bytes()), Some(bytes));
    }
}

#[test]
fn rejects_bytes_outside_the_alphabet() {
    assert_eq!(try_decode(b"TW=u"), None);
    assert_eq!(try_decode(b"TW+u"), None);
    assert_eq!(try_decode(b"TW.u"), None);
}

#[test]
fn rejects_a_lone_trailing_character() {
    assert_eq!(try_decode(b"TWFuT"), None);
    assert_eq!(try_decode(b"T"), None);
}

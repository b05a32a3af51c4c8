use replitdb::codec::{decode, encode, DecodeError};

#[test]
fn encode_reserved_characters() {
    assert_eq!(encode("a/b"), "a%2Fb");
    assert_eq!(encode("a?b"), "a%3Fb");
    assert_eq!(encode("a b"), "a%20b");
    assert_eq!(encode("100%"), "100%25");
    assert_eq!(encode("k=v&w"), "k%3Dv%26w");
    assert_eq!(encode("a\nb"), "a%0Ab");
}

#[test]
fn encode_keeps_unreserved() {
    assert_eq!(encode("AZaz09-._~"), "AZaz09-._~");
    assert_eq!(encode(""), "");
}

#[test]
fn encode_multibyte() {
    assert_eq!(encode("café"), "caf%C3%A9");
    assert_eq!(encode("日"), "%E6%97%A5");
}

#[test]
fn decode_simple() {
    assert_eq!(decode("a%2Fb").unwrap(), "a/b");
    assert_eq!(decode("%41").unwrap(), "A");
    assert_eq!(decode("plain").unwrap(), "plain");
    assert_eq!(decode("").unwrap(), "");
    assert_eq!(decode("caf%C3%A9").unwrap(), "café");
}

#[test]
fn decode_accepts_lowercase_hex() {
    assert_eq!(decode("a%2fb").unwrap(), "a/b");
}

#[test]
fn decode_rejects_bad_escape() {
    assert_eq!(decode("%G1").unwrap_err(), DecodeError::InvalidEscape);
    assert_eq!(decode("abc%2").unwrap_err(), DecodeError::InvalidEscape);
    assert_eq!(decode("%").unwrap_err(), DecodeError::InvalidEscape);
}

#[test]
fn decode_rejects_bad_utf8() {
    assert_eq!(decode("%FF").unwrap_err(), DecodeError::InvalidUtf8);
    assert_eq!(decode("%C3x").unwrap_err(), DecodeError::InvalidUtf8);
}

#[test]
fn round_trip_reserved_keys() {
    for key in [
        "a/b",
        "a?b",
        "100%",
        "with space",
        "k=v&w",
        "line\nbreak",
        "café ☕",
        "",
        "~already-safe_0.9",
    ] {
        assert_eq!(decode(&encode(key)).unwrap(), key);
    }
}

#[test]
fn encode_matches_urlencoding_crate() {
    for s in ["a/b?c d%", "café", "k=v&w", "plain-._~", ""] {
        assert_eq!(encode(s), urlencoding::encode(s).into_owned());
    }
}

#[test]
fn decode_matches_urlencoding_crate_on_valid_input() {
    for s in ["a%2Fb", "caf%C3%A9", "%E6%97%A5", "plain", "%3D%26"] {
        assert_eq!(
            decode(s).unwrap(),
            urlencoding::decode(s).unwrap().into_owned()
        );
    }
}

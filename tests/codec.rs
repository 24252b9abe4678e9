use mutf8::{decode, encode, is_valid, len, DecodingError, Error};
use std::borrow::Cow;

fn round_trip(s: &str) {
    let encoded = encode(s);
    let decoded = decode(&encoded).expect("encoded text must decode");
    assert_eq!(decoded.as_ref(), s);
}

#[test]
fn round_trip_various_texts() {
    round_trip("");
    round_trip("Hello, world!");
    round_trip("\0");
    round_trip("a\0b\0\0c");
    round_trip("\u{10401}");
    round_trip("\u{10FFFF}\u{10000}");
    round_trip("caf\u{e9} \u{4e2d}\u{6587} \u{1F600}\0end");
    round_trip("\u{7F}\u{80}\u{7FF}\u{800}\u{D7FF}\u{E000}\u{FFFF}");
}

#[test]
fn identity_for_plain_text() {
    let s = "Hello, world! \u{e9}\u{4e2d}\u{FFFF}";
    assert!(is_valid(s));
    let encoded = encode(s);
    assert!(matches!(encoded, Cow::Borrowed(_)));
    assert_eq!(encoded.as_ref(), s.as_bytes());
    assert_eq!(decode(s.as_bytes()), Ok(Cow::Borrowed(s)));
}

#[test]
fn null_is_escaped() {
    assert_eq!(encode("\0"), Cow::<[u8]>::Owned(vec![0xC0, 0x80]));
    assert_eq!(decode(&[0xC0, 0x80]), Ok(Cow::Owned(String::from("\0"))));
}

#[test]
fn null_inside_text() {
    assert_eq!(encode("a\0b").as_ref(), &[0x61, 0xC0, 0x80, 0x62]);
    let decoded = decode(&[0x61, 0xC0, 0x80, 0x62]).unwrap();
    assert_eq!(decoded.as_ref(), "a\0b");
}

#[test]
fn supplementary_plane() {
    let bytes = [0xED, 0xA0, 0x81, 0xED, 0xB0, 0x81];
    assert_eq!(encode("\u{10401}"), Cow::<[u8]>::Owned(bytes.to_vec()));
    assert_eq!(decode(&bytes), Ok(Cow::Owned(String::from("\u{10401}"))));
}

#[test]
fn supplementary_and_null_together() {
    let bytes = [0xC0, 0x80, 0xED, 0xA0, 0x81, 0xED, 0xB0, 0x81];
    assert_eq!(encode("\0\u{10401}").as_ref(), &bytes);
    assert_eq!(decode(&bytes).unwrap().as_ref(), "\0\u{10401}");
}

#[test]
fn truncated_escape() {
    assert_eq!(decode(&[0xC0]), Err(Error));
    assert_eq!(decode(&[0x41, 0xC0]), Err(Error));
}

#[test]
fn mismatched_escape() {
    assert_eq!(decode(&[0xC0, 0x81]), Err(Error));
    assert_eq!(decode(&[0xC0, 0x41]), Err(Error));
}

#[test]
fn invalid_cesu8_is_rejected() {
    // a lone high surrogate
    assert_eq!(decode(&[0xED, 0xA0, 0x81]), Err(Error));
    // a high surrogate followed by another high surrogate
    assert_eq!(decode(&[0xED, 0xA0, 0x81, 0xED, 0xA0, 0x81]), Err(Error));
    assert_eq!(decode(&[0xFF]), Err(Error));
    assert_eq!(decode(&[0x80]), Err(Error));
    // an escaped null next to a lone surrogate
    assert_eq!(decode(&[0xC0, 0x80, 0xED, 0xA0, 0x81]), Err(Error));
}

#[test]
fn escaped_null_next_to_four_byte_utf8() {
    let bytes = [0xC0, 0x80, 0xF0, 0x90, 0x90, 0x81];
    assert_eq!(decode(&bytes).unwrap().as_ref(), "\0\u{10401}");
}

#[test]
fn length_matches_encoding() {
    for s in ["", "abc", "\0", "a\0\0b", "\u{10401}", "\u{e9}\u{10FFFF}\0x", "\u{FFFF}"] {
        assert_eq!(len(s), encode(s).len());
    }
}

#[test]
fn length_exact_values() {
    assert_eq!(len(""), 0);
    assert_eq!(len("abc"), 3);
    assert_eq!(len("\0"), 2);
    assert_eq!(len("\u{10401}"), 6);
    assert_eq!(len("a\0\u{e9}\u{10401}"), 1 + 2 + 2 + 6);
}

#[test]
fn empty_input() {
    let encoded = encode("");
    assert!(matches!(encoded, Cow::Borrowed(_)));
    assert!(encoded.is_empty());
    let decoded = decode(&[]);
    assert_eq!(decoded, Ok(Cow::Borrowed("")));
}

#[test]
fn validity() {
    assert!(is_valid("Hello, world!"));
    assert!(is_valid(""));
    assert!(is_valid("\u{FFFF}"));
    assert!(!is_valid("\u{10400}"));
    assert!(!is_valid("\0"));
    assert!(!is_valid("abc\0"));
}

#[test]
fn encode_is_owned_when_needed() {
    assert!(matches!(encode("\0"), Cow::Owned(_)));
    assert!(matches!(encode("\u{10400}"), Cow::Owned(_)));
    assert!(matches!(decode(&[0xC0, 0x80]), Ok(Cow::Owned(_))));
}

#[test]
fn error_values() {
    assert_eq!(Error::from(cesu8::Error), Error);
    assert_eq!(Error.message(), "invalid MUTF-8 data");
    assert_eq!(DecodingError.message(), "could not convert MUTF-8 data to UTF-8 data");
}

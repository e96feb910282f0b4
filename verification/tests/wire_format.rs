//! Unit tests of the textual wire helpers.

use waterscape::wire::hex_decode;
use waterscape::wire::push_dec;
use waterscape::wire::push_hex;
use waterscape::wire::push_quoted;

#[test]
fn hex_encoding_is_lower_case_and_round_trips() {
    let mut out: Vec<u8> = Vec::new();
    push_hex(&mut out, &[0x00, 0xff, 0x10, 0xab]);
    assert_eq!(out, b"00ff10ab".to_vec());
    assert_eq!(hex_decode(&out).unwrap(), vec![0x00, 0xff, 0x10, 0xab]);
}

#[test]
fn hex_decode_accepts_upper_case_and_rejects_junk() {
    assert_eq!(hex_decode(b"00FF10AB").unwrap(), vec![0x00, 0xff, 0x10, 0xab]);
    assert!(hex_decode(b"0").is_none());
    assert!(hex_decode(b"zz").is_none());
}

#[test]
fn decimal_digits_render_exactly() {
    let mut out: Vec<u8> = Vec::new();
    push_dec(&mut out, 0);
    out.push(b' ');
    push_dec(&mut out, 1234567890);
    out.push(b' ');
    push_dec(&mut out, u64::MAX);
    assert_eq!(out, b"0 1234567890 18446744073709551615".to_vec());
}

#[test]
fn quoted_strings_escape_quote_backslash_and_controls() {
    let mut out: Vec<u8> = Vec::new();
    push_quoted(&mut out, b"a\"b\\c\nd\x01e");
    assert_eq!(out, b"\"a\\\"b\\\\c\\u000ad\\u0001e\"".to_vec());
}

#[test]
fn unicode_escapes_decode_to_utf8() {
    // \u00e9 is a two-byte character; \ud83d\ude00 is a surrogate pair for
    // a four-byte one; both decode to their UTF-8 bytes.
    let input = b"{\"k\":\"a\\u00e9\\ud83d\\ude00z\"}";
    let (members, end) = waterscape::wire::parse_record(input).unwrap();
    assert_eq!(end, input.len());
    match &members[0].1 {
        waterscape::wire::JsonValue::Str(b) => {
            assert_eq!(b.as_slice(), "a\u{e9}\u{1f600}z".as_bytes())
        }
        _ => panic!("expected a string value"),
    }
}

#[test]
fn lone_surrogate_escape_is_rejected() {
    assert!(waterscape::wire::parse_record(b"{\"k\":\"\\ud83d\"}").is_none());
    assert!(waterscape::wire::parse_record(b"{\"k\":\"\\udc00\"}").is_none());
}

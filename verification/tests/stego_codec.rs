use waterscape::stego::decode_byte;
use waterscape::stego::decode_data;
use waterscape::stego::encode_byte;
use waterscape::stego::encode_data;
use waterscape::stego::extract_from_text;
use waterscape::stego::extract_visible_text;
use waterscape::stego::has_hidden_data;
use waterscape::stego::hide_in_text;
use waterscape::WaterscapeError;

#[test]
fn test_encode_decode_byte() {
    for byte in 0..=255u8 {
        let encoded = encode_byte(byte);
        let chars: Vec<char> = encoded.chars().collect();
        let decoded = decode_byte(&chars).unwrap();
        assert_eq!(byte, decoded);
    }
}

#[test]
fn test_encode_decode_data() {
    let data = b"Hello, World!";
    let encoded = encode_data(data);
    let decoded = decode_data(&encoded).unwrap();
    assert_eq!(data.to_vec(), decoded);
}

#[test]
fn test_hide_extract() {
    let cover = "This is a normal looking message.";
    let secret = b"Secret payload!";

    let hidden = hide_in_text(cover, secret).unwrap();

    // Visible text should be the same
    let visible = extract_visible_text(&hidden);
    assert_eq!(visible, cover);

    // Should be able to extract secret
    let extracted = extract_from_text(&hidden).unwrap();
    assert_eq!(extracted, secret.to_vec());
}

#[test]
fn test_has_hidden_data() {
    let cover = "Normal text";
    let hidden = hide_in_text(cover, b"secret").unwrap();

    assert!(!has_hidden_data(cover));
    assert!(has_hidden_data(&hidden));
}

#[test]
fn encode_byte_bit_pattern_is_msb_first() {
    // 65 = 0b01000001: ZERO ONE ZERO ZERO ZERO ZERO ZERO ONE then SEP
    let encoded = encode_byte(65);
    let expected = "\u{200B}\u{200C}\u{200B}\u{200B}\u{200B}\u{200B}\u{200B}\u{200C}\u{200D}";
    assert_eq!(encoded, expected);
}

#[test]
fn encode_data_empty_is_bare_markers() {
    assert_eq!(encode_data(b""), "\u{2060}\u{FEFF}");
    assert_eq!(decode_data("\u{2060}\u{FEFF}").unwrap(), Vec::<u8>::new());
}

#[test]
fn hide_in_empty_cover_reports_cover_too_short() {
    let r = hide_in_text("", b"payload");
    assert_eq!(
        r,
        Err(WaterscapeError::CoverTextTooShort { needed: 1, available: 0 })
    );
}

#[test]
fn start_without_end_is_no_hidden_message() {
    let text = "before \u{2060}\u{200B}\u{200C} after";
    assert_eq!(extract_from_text(text), Err(WaterscapeError::NoHiddenMessage));
}

#[test]
fn end_before_start_is_no_hidden_message() {
    let text = "a\u{FEFF}b\u{2060}c";
    assert_eq!(extract_from_text(text), Err(WaterscapeError::NoHiddenMessage));
}

#[test]
fn decode_byte_rejects_short_and_foreign_input() {
    let short: Vec<char> = "\u{200B}\u{200C}".chars().collect();
    assert!(matches!(
        decode_byte(&short),
        Err(WaterscapeError::Decoding(_))
    ));
    let foreign: Vec<char> = "abcdefgh".chars().collect();
    assert!(matches!(
        decode_byte(&foreign),
        Err(WaterscapeError::Decoding(_))
    ));
}

#[test]
fn hide_preserves_unicode_cover_exactly() {
    let cover = "caf\u{e9} na\u{ef}ve \u{1f30a} text";
    let data = b"\x00\x01\xfe\xff";
    let hidden = hide_in_text(cover, data).unwrap();
    assert_eq!(extract_visible_text(&hidden), cover);
    assert_eq!(extract_from_text(&hidden).unwrap(), data.to_vec());
}

#[test]
fn foreign_codepoint_inside_hidden_region_is_decoding_error() {
    // A codepoint outside the five-character alphabet strictly between the
    // markers of the decode input is a Decoding error, not silently dropped.
    let text = "\u{2060}\u{200B}x\u{200C}\u{FEFF}";
    assert!(matches!(decode_data(text), Err(WaterscapeError::Decoding(_))));
    // With a pure region the same string decodes.
    let clean = encode_data(b"\x41");
    assert_eq!(decode_data(&clean).unwrap(), vec![0x41]);
}

//! End-to-end scenarios, including envelope tampering through the public
//! wire-format types.

use waterscape::envelope::WaterscapeMessage;
use waterscape::stego::extract_from_text;
use waterscape::stego::hide_in_text;
use waterscape::Agent;
use waterscape::Waterscape;
use waterscape::WaterscapeError;

fn carrier_between(alice: &Agent, bob: &Agent) -> String {
    Waterscape::encode(alice, &bob.public_identity(), "Hello world", "meet@midnight").unwrap()
}

#[test]
fn scenario_pairwise_hello_world() {
    let alice = Agent::new("alice");
    let bob = Agent::new("bob");
    let carrier = carrier_between(&alice, &bob);
    assert_eq!(Waterscape::visible_text(&carrier), "Hello world");
    assert!(Waterscape::has_hidden_message(&carrier));
    let decoded = Waterscape::decode(&bob, &alice.public_identity(), &carrier).unwrap();
    assert_eq!(decoded, "meet@midnight");
}

#[test]
fn scenario_third_party_cannot_decode() {
    let alice = Agent::new("alice");
    let bob = Agent::new("bob");
    let eve = Agent::new("eve");
    let carrier = carrier_between(&alice, &bob);
    let r = Waterscape::decode(&eve, &alice.public_identity(), &carrier);
    assert_eq!(r, Err(WaterscapeError::AuthenticationFailed));
}

#[test]
fn scenario_plain_text_has_no_hidden_message() {
    let text = "This is just normal text.";
    assert!(!Waterscape::has_hidden_message(text));
    assert_eq!(Waterscape::visible_text(text), text);
}

#[test]
fn scenario_tampered_ciphertext_fails_to_decode() {
    let alice = Agent::new("alice");
    let bob = Agent::new("bob");
    let carrier = carrier_between(&alice, &bob);
    let bytes = extract_from_text(&carrier).unwrap();
    let mut message = WaterscapeMessage::from_bytes(&bytes).unwrap();
    message.ciphertext[0] ^= 0x01;
    let tampered_bytes = message.to_bytes().unwrap();
    let tampered = hide_in_text("Hello world", &tampered_bytes).unwrap();
    let r = Waterscape::decode(&bob, &alice.public_identity(), &tampered);
    assert!(matches!(
        r,
        Err(WaterscapeError::InvalidSignature) | Err(WaterscapeError::AuthenticationFailed)
    ));
}

#[test]
fn scenario_every_single_byte_flip_of_ciphertext_fails() {
    let alice = Agent::new("alice");
    let bob = Agent::new("bob");
    let carrier = carrier_between(&alice, &bob);
    let bytes = extract_from_text(&carrier).unwrap();
    let message = WaterscapeMessage::from_bytes(&bytes).unwrap();
    for i in 0..message.ciphertext.len() {
        let mut copy = WaterscapeMessage::from_bytes(&bytes).unwrap();
        copy.ciphertext[i] ^= 0xff;
        let tampered = hide_in_text("x", &copy.to_bytes().unwrap()).unwrap();
        let r = Waterscape::decode(&bob, &alice.public_identity(), &tampered);
        assert!(matches!(
            r,
            Err(WaterscapeError::InvalidSignature) | Err(WaterscapeError::AuthenticationFailed)
        ));
    }
}

#[test]
fn scenario_replaced_sender_key_fails_signature_check() {
    let alice = Agent::new("alice");
    let bob = Agent::new("bob");
    let mallory = Agent::new("mallory");
    let carrier = carrier_between(&alice, &bob);
    let bytes = extract_from_text(&carrier).unwrap();
    let mut message = WaterscapeMessage::from_bytes(&bytes).unwrap();
    message.sender_key = mallory.public_identity().signing_key;
    let swapped = hide_in_text("Hello world", &message.to_bytes().unwrap()).unwrap();
    let r = Waterscape::decode(&bob, &alice.public_identity(), &swapped);
    assert_eq!(r, Err(WaterscapeError::InvalidSignature));
}

#[test]
fn scenario_version_two_reports_version_mismatch() {
    let alice = Agent::new("alice");
    let bob = Agent::new("bob");
    let carrier = carrier_between(&alice, &bob);
    let bytes = extract_from_text(&carrier).unwrap();
    let mut message = WaterscapeMessage::from_bytes(&bytes).unwrap();
    message.version = 2;
    let reversioned = hide_in_text("Hello world", &message.to_bytes().unwrap()).unwrap();
    let r = Waterscape::decode(&bob, &alice.public_identity(), &reversioned);
    assert_eq!(r, Err(WaterscapeError::VersionMismatch { expected: 1, got: 2 }));
}

#[test]
fn scenario_truncated_signature_is_crypto_error() {
    let alice = Agent::new("alice");
    let bob = Agent::new("bob");
    let carrier = carrier_between(&alice, &bob);
    let bytes = extract_from_text(&carrier).unwrap();
    let mut message = WaterscapeMessage::from_bytes(&bytes).unwrap();
    message.signature.truncate(10);
    let shortened = hide_in_text("Hello world", &message.to_bytes().unwrap()).unwrap();
    let r = Waterscape::decode(&bob, &alice.public_identity(), &shortened);
    assert!(matches!(r, Err(WaterscapeError::Crypto(_))));
}

#[test]
fn scenario_group_secret_club() {
    let alice = Agent::new("alice");
    let bob = Agent::new("bob");
    let charlie = Agent::new("charlie");
    let group = waterscape::WaterscapeGroup::new(
        "secret-club",
        &alice,
        vec![
            alice.public_identity(),
            bob.public_identity(),
            charlie.public_identity(),
        ],
    );
    let carrier = group
        .encode(&alice, "Just chatting about the weather!", "Group meeting at 3pm.")
        .unwrap();
    assert_eq!(group.decode(&carrier).unwrap(), "Group meeting at 3pm.");
}

#[test]
fn envelope_serialization_round_trips_through_bytes() {
    let alice = Agent::new("alice");
    let bob = Agent::new("bob");
    let carrier = carrier_between(&alice, &bob);
    let bytes = extract_from_text(&carrier).unwrap();
    let message = WaterscapeMessage::from_bytes(&bytes).unwrap();
    let again = message.to_bytes().unwrap();
    let reparsed = WaterscapeMessage::from_bytes(&again).unwrap();
    assert_eq!(reparsed.version, message.version);
    assert_eq!(reparsed.nonce, message.nonce);
    assert_eq!(reparsed.sender_key, message.sender_key);
    assert_eq!(reparsed.ephemeral_key, message.ephemeral_key);
    assert_eq!(reparsed.ciphertext, message.ciphertext);
    assert_eq!(reparsed.signature, message.signature);
}

#[test]
fn envelope_fields_parse_in_any_order() {
    // Hand-built record with the fields scrambled: field order is
    // irrelevant to the parser.
    let nonce_hex = "00".repeat(12);
    let key_hex = "00".repeat(32);
    let sig_hex = "00".repeat(64);
    let record = format!(
        "{{\"signature\":\"{}\",\"version\":1,\"ciphertext\":\"ab\",\"sender_key\":\"{}\",\"nonce\":\"{}\",\"ephemeral_key\":\"{}\"}}",
        sig_hex, key_hex, nonce_hex, key_hex
    );
    let message = WaterscapeMessage::from_bytes(record.as_bytes()).unwrap();
    assert_eq!(message.version, 1);
    assert_eq!(message.nonce, vec![0u8; 12]);
    assert_eq!(message.ciphertext, vec![0xab]);
    assert_eq!(message.signature, vec![0u8; 64]);
}

#[test]
fn envelope_rejects_duplicate_and_missing_fields() {
    let r = WaterscapeMessage::from_bytes(b"{\"version\":1,\"version\":2}");
    assert!(matches!(r, Err(WaterscapeError::Serialization(_))));
    let r2 = WaterscapeMessage::from_bytes(b"{\"version\":1}");
    assert!(matches!(r2, Err(WaterscapeError::Serialization(_))));
    let r3 = WaterscapeMessage::from_bytes(b"not json at all");
    assert!(matches!(r3, Err(WaterscapeError::Serialization(_))));
}

#[test]
fn cover_with_reserved_codepoints_is_not_defended_against() {
    // The codec reserves five zero-width codepoints; a cover that already
    // holds one corrupts extraction, and callers are expected to sanitize
    // covers first. What still holds: the visible projections of cover and
    // carrier agree.
    let alice = Agent::new("alice");
    let bob = Agent::new("bob");
    let dirty_cover = "one\u{200B}two";
    let carrier =
        Waterscape::encode(&alice, &bob.public_identity(), dirty_cover, "s").unwrap();
    assert_eq!(
        Waterscape::visible_text(&carrier),
        Waterscape::visible_text(dirty_cover)
    );
    assert_ne!(Waterscape::visible_text(&carrier), dirty_cover);
}

#[test]
fn scenario_toggled_hex_digit_in_ciphertext_field_fails() {
    let alice = Agent::new("alice");
    let bob = Agent::new("bob");
    let carrier = carrier_between(&alice, &bob);
    let mut bytes = extract_from_text(&carrier).unwrap();
    // Locate the ciphertext field's hex text and toggle one digit, keeping
    // it a hex digit.
    let marker = b"\"ciphertext\":\"";
    let start = (0..bytes.len() - marker.len())
        .find(|&i| &bytes[i..i + marker.len()] == marker)
        .unwrap()
        + marker.len();
    bytes[start] = if bytes[start] == b'0' { b'1' } else { b'0' };
    let tampered = hide_in_text("Hello world", &bytes).unwrap();
    let r = Waterscape::decode(&bob, &alice.public_identity(), &tampered);
    assert!(matches!(
        r,
        Err(WaterscapeError::InvalidSignature) | Err(WaterscapeError::AuthenticationFailed)
    ));
}

#[test]
fn scenario_group_version_two_reports_version_mismatch() {
    let alice = Agent::new("alice");
    let group = waterscape::WaterscapeGroup::new("club", &alice, vec![alice.public_identity()]);
    let carrier = group.encode(&alice, "cover text here", "meeting notes").unwrap();
    let bytes = extract_from_text(&carrier).unwrap();
    let mut message = WaterscapeMessage::from_bytes(&bytes).unwrap();
    message.version = 2;
    let reversioned = hide_in_text("cover text here", &message.to_bytes().unwrap()).unwrap();
    let r = group.decode(&reversioned);
    assert_eq!(r, Err(WaterscapeError::VersionMismatch { expected: 1, got: 2 }));
}

#[test]
fn envelope_ignores_unknown_fields() {
    let nonce_hex = "00".repeat(12);
    let key_hex = "00".repeat(32);
    let sig_hex = "00".repeat(64);
    let record = format!(
        "{{\"version\":1,\"note\":\"ignored\",\"nonce\":\"{}\",\"sender_key\":\"{}\",\"ephemeral_key\":\"{}\",\"ciphertext\":\"ab\",\"extra\":7,\"signature\":\"{}\"}}",
        nonce_hex, key_hex, key_hex, sig_hex
    );
    let message = WaterscapeMessage::from_bytes(record.as_bytes()).unwrap();
    assert_eq!(message.version, 1);
    assert_eq!(message.ciphertext, vec![0xab]);
}

use waterscape::Agent;
use waterscape::Waterscape;
use waterscape::WaterscapeError;
use waterscape::WaterscapeGroup;

#[test]
fn test_encode_decode() {
    let alice = Agent::new("alice");
    let bob = Agent::new("bob");

    let cover = "Hello! How are you doing today?";
    let secret = "Meet me at the secret location at midnight.";

    // Alice sends to Bob
    let encoded = Waterscape::encode(&alice, &bob.public_identity(), cover, secret).unwrap();

    // Verify cover text is preserved
    assert_eq!(Waterscape::visible_text(&encoded), cover);

    // Bob decodes
    let decoded = Waterscape::decode(&bob, &alice.public_identity(), &encoded).unwrap();
    assert_eq!(decoded, secret);
}

#[test]
fn test_unauthorized_decode() {
    let alice = Agent::new("alice");
    let bob = Agent::new("bob");
    let eve = Agent::new("eve"); // Eavesdropper

    let cover = "Nothing suspicious here.";
    let secret = "Top secret information!";

    let encoded = Waterscape::encode(&alice, &bob.public_identity(), cover, secret).unwrap();

    // Eve tries to decode - should fail
    let result = Waterscape::decode(&eve, &alice.public_identity(), &encoded);
    assert!(result.is_err());
}

#[test]
fn test_group_communication() {
    let alice = Agent::new("alice");
    let bob = Agent::new("bob");
    let charlie = Agent::new("charlie");

    let members = vec![
        alice.public_identity(),
        bob.public_identity(),
        charlie.public_identity(),
    ];

    let group = WaterscapeGroup::new("secret-club", &alice, members);

    let cover = "Just chatting about the weather!";
    let secret = "Group meeting at 3pm.";

    let encoded = group.encode(&alice, cover, secret).unwrap();
    let decoded = group.decode(&encoded).unwrap();

    assert_eq!(decoded, secret);
}

#[test]
fn test_has_hidden_message() {
    let alice = Agent::new("alice");
    let bob = Agent::new("bob");

    let normal_text = "This is just normal text.";
    let encoded =
        Waterscape::encode(&alice, &bob.public_identity(), normal_text, "secret").unwrap();

    assert!(!Waterscape::has_hidden_message(normal_text));
    assert!(Waterscape::has_hidden_message(&encoded));
}

#[test]
fn empty_secret_round_trips_to_empty_string() {
    let alice = Agent::new("alice");
    let bob = Agent::new("bob");
    let carrier = Waterscape::encode(&alice, &bob.public_identity(), "cover text", "").unwrap();
    let decoded = Waterscape::decode(&bob, &alice.public_identity(), &carrier).unwrap();
    assert_eq!(decoded, "");
}

#[test]
fn unicode_secret_round_trips() {
    let alice = Agent::new("alice");
    let bob = Agent::new("bob");
    let secret = "h\u{e9}llo \"quoted\" back\\slash\nnew\tline \u{1f510} \u{441}\u{435}\u{43a}";
    let carrier = Waterscape::encode(&alice, &bob.public_identity(), "plain cover", secret)
        .unwrap();
    let decoded = Waterscape::decode(&bob, &alice.public_identity(), &carrier).unwrap();
    assert_eq!(decoded, secret);
}

#[test]
fn empty_cover_reports_cover_too_short() {
    let alice = Agent::new("alice");
    let bob = Agent::new("bob");
    let r = Waterscape::encode(&alice, &bob.public_identity(), "", "secret");
    assert_eq!(
        r,
        Err(WaterscapeError::CoverTextTooShort { needed: 1, available: 0 })
    );
}

#[test]
fn two_encodes_yield_distinct_carriers() {
    let alice = Agent::new("alice");
    let bob = Agent::new("bob");
    let c1 = Waterscape::encode(&alice, &bob.public_identity(), "same cover", "same secret")
        .unwrap();
    let c2 = Waterscape::encode(&alice, &bob.public_identity(), "same cover", "same secret")
        .unwrap();
    assert_ne!(c1, c2);
}

#[test]
fn group_key_is_pure_function_of_creator_and_name() {
    let alice = Agent::new("alice");
    let bob = Agent::new("bob");
    // Two independent group values with the same creator and name share the
    // key: a message encoded through one decodes through the other. Even a
    // creator restored from the exported seed yields the same key.
    let g1 = WaterscapeGroup::new("club", &alice, vec![alice.public_identity()]);
    let restored = Agent::from_keys("alice", &alice.export_signing_key()).unwrap();
    let g2 = WaterscapeGroup::new("club", &restored, vec![bob.public_identity()]);
    let carrier = g1.encode(&alice, "cover words here", "the plan").unwrap();
    assert_eq!(g2.decode(&carrier).unwrap(), "the plan");
}

#[test]
fn group_accessors_report_construction_values() {
    let alice = Agent::new("alice");
    let members = vec![alice.public_identity()];
    let group = WaterscapeGroup::new("the-club", &alice, members);
    assert_eq!(group.name(), "the-club");
    assert_eq!(group.members().len(), 1);
    assert_eq!(group.members()[0].name, "alice");
}

#[test]
fn decode_of_plain_text_is_no_hidden_message() {
    let alice = Agent::new("alice");
    let bob = Agent::new("bob");
    let r = Waterscape::decode(&bob, &alice.public_identity(), "nothing hidden here");
    assert_eq!(r, Err(WaterscapeError::NoHiddenMessage));
}

#[test]
fn decode_of_non_envelope_payload_is_serialization_error() {
    let alice = Agent::new("alice");
    let bob = Agent::new("bob");
    let carrier = waterscape::stego::hide_in_text("cover", b"not an envelope").unwrap();
    let r = Waterscape::decode(&bob, &alice.public_identity(), &carrier);
    assert!(matches!(r, Err(WaterscapeError::Serialization(_))));
}

#[test]
fn channel_encode_decode_round_trips() {
    let alice = Agent::new("alice");
    let bob = Agent::new("bob");
    let (channel, _ephemeral) =
        waterscape::WaterscapeChannel::establish(&alice, &bob.public_identity()).unwrap();
    let carrier = channel.encode(&alice, "the cover", "via channel").unwrap();
    let decoded = Waterscape::decode(&bob, &alice.public_identity(), &carrier).unwrap();
    assert_eq!(decoded, "via channel");
}

#[test]
fn groups_with_different_names_have_different_keys() {
    let alice = Agent::new("alice");
    let g1 = WaterscapeGroup::new("alpha", &alice, vec![alice.public_identity()]);
    let g2 = WaterscapeGroup::new("beta", &alice, vec![alice.public_identity()]);
    let carrier = g1.encode(&alice, "some cover text", "for alpha only").unwrap();
    assert!(g2.decode(&carrier).is_err());
    assert_eq!(g1.decode(&carrier).unwrap(), "for alpha only");
}

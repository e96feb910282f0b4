use chacha20poly1305::aead::Aead;
use chacha20poly1305::aead::KeyInit;
use waterscape::crypto::decrypt;
use waterscape::crypto::encrypt;
use waterscape::crypto::generate_nonce;
use waterscape::crypto::KeyExchangePair;
use waterscape::crypto::SigningKeyPair;
use waterscape::crypto::KEY_SIZE;

#[test]
fn test_key_exchange() {
    let alice = KeyExchangePair::generate();
    let bob = KeyExchangePair::generate();

    let alice_shared = alice.diffie_hellman(&bob.public_key_bytes());
    let bob_shared = bob.diffie_hellman(&alice.public_key_bytes());

    let alice_key = alice_shared.derive_key(b"test");
    let bob_key = bob_shared.derive_key(b"test");

    assert_eq!(alice_key, bob_key);
}

#[test]
fn test_encrypt_decrypt() {
    let key = [0u8; KEY_SIZE];
    let nonce = generate_nonce();
    let plaintext = b"Hello, secret world!";

    let ciphertext = encrypt(&key, &nonce, plaintext).unwrap();
    let decrypted = decrypt(&key, &nonce, &ciphertext).unwrap();

    assert_eq!(decrypted, plaintext);
}

#[test]
fn test_signing() {
    let keypair = SigningKeyPair::generate();
    let message = b"Sign this message";

    let signature = keypair.sign(message);
    assert!(keypair.verify(message, &signature).is_ok());

    // Verify with wrong message should fail
    let wrong_message = b"Wrong message";
    assert!(keypair.verify(wrong_message, &signature).is_err());
}

#[test]
fn ciphertext_is_tagged_and_differs_from_plaintext() {
    let key = [7u8; KEY_SIZE];
    let nonce = generate_nonce();
    let plaintext = b"sixteen byte msg";
    let ciphertext = encrypt(&key, &nonce, plaintext).unwrap();
    assert_eq!(ciphertext.len(), plaintext.len() + 16);
    assert_ne!(&ciphertext[..plaintext.len()], plaintext.as_slice());
}

#[test]
fn decrypt_with_wrong_key_fails() {
    let key = [1u8; KEY_SIZE];
    let other = [2u8; KEY_SIZE];
    let nonce = generate_nonce();
    let ciphertext = encrypt(&key, &nonce, b"payload").unwrap();
    assert!(decrypt(&other, &nonce, &ciphertext).is_err());
}

#[test]
fn signing_key_round_trips_through_seed() {
    let keypair = SigningKeyPair::generate();
    let seed = keypair.signing_key_bytes();
    let restored = SigningKeyPair::from_bytes(&seed).unwrap();
    assert_eq!(restored.verifying_key_bytes(), keypair.verifying_key_bytes());
    let signature = restored.sign(b"hello");
    assert!(keypair.verify(b"hello", &signature).is_ok());
}

#[test]
fn verifying_key_and_fingerprint_match_direct_derivation() {
    let seed = [1u8; 32];
    let agent = waterscape::Agent::from_keys("known", &seed).unwrap();
    let expected = ed25519_dalek::SigningKey::from_bytes(&seed)
        .verifying_key()
        .to_bytes();
    let identity = agent.public_identity();
    assert_eq!(identity.signing_key, expected.to_vec());
    assert_eq!(identity.fingerprint(), hex::encode(&expected[..8]));
}

#[test]
fn encrypt_matches_direct_chacha20poly1305() {
    let key = [9u8; KEY_SIZE];
    let nonce = [3u8; 12];
    let plaintext = b"compare me";
    let ours = encrypt(&key, &nonce, plaintext).unwrap();
    let cipher = chacha20poly1305::ChaCha20Poly1305::new_from_slice(&key).unwrap();
    let theirs = cipher
        .encrypt(chacha20poly1305::Nonce::from_slice(&nonce), plaintext.as_slice())
        .unwrap();
    assert_eq!(ours, theirs);
}

#[test]
fn derived_keys_differ_by_context() {
    let alice = KeyExchangePair::generate();
    let bob = KeyExchangePair::generate();
    let k1 = alice.diffie_hellman(&bob.public_key_bytes()).derive_key(b"context-one");
    let k2 = alice.diffie_hellman(&bob.public_key_bytes()).derive_key(b"context-two");
    assert_ne!(k1, k2);
}

//! Cryptographic primitives of the Waterscape protocol.
//!
//! X25519 key exchange, ChaCha20-Poly1305 authenticated encryption, Ed25519
//! signatures and HKDF-SHA256 key derivation, all held as plain 32/64-byte
//! values. The outside calls stand behind trusted wrappers; what each call
//! returns is given a name (an uninterpreted spec function of the arguments)
//! so the callers' contracts can be exact.

use vstd::prelude::*;

use crate::error::WaterscapeError;

use chacha20poly1305::aead::Aead;
use chacha20poly1305::aead::KeyInit;
use ed25519_dalek::Signer;
use ed25519_dalek::Verifier;
use sha2::Digest;
use zeroize::Zeroize;

verus! {

/// AEAD nonce length in bytes.
pub const NONCE_SIZE: usize = 12;

/// Symmetric and asymmetric key length in bytes.
pub const KEY_SIZE: usize = 32;

/// Ed25519 signature length in bytes.
pub const SIGNATURE_SIZE: usize = 64;

/// The Ed25519 verifying key derived from a 32-byte signing seed.
pub uninterp spec fn ed25519_verifying_key(seed: Seq<u8>) -> Seq<u8>;

/// The Ed25519 signature of a message under a 32-byte signing seed.
pub uninterp spec fn ed25519_signature(seed: Seq<u8>, msg: Seq<u8>) -> Seq<u8>;

/// Whether 32 bytes are a canonical Ed25519 verifying-key encoding.
pub uninterp spec fn ed25519_key_parses(vk: Seq<u8>) -> bool;

/// Whether Ed25519 verification accepts `sig` on `msg` under key `vk`.
pub uninterp spec fn ed25519_accepts(vk: Seq<u8>, msg: Seq<u8>, sig: Seq<u8>) -> bool;

/// The X25519 public key derived from a 32-byte secret.
pub uninterp spec fn x25519_public(secret: Seq<u8>) -> Seq<u8>;

/// The X25519 shared secret of a secret and a peer public key.
pub uninterp spec fn x25519_shared(secret: Seq<u8>, peer: Seq<u8>) -> Seq<u8>;

/// The 32-byte HKDF-SHA256 output for input keying material and info, with
/// no salt.
pub uninterp spec fn hkdf_sha256_expand(ikm: Seq<u8>, info: Seq<u8>) -> Seq<u8>;

/// The ChaCha20-Poly1305 ciphertext (tag appended) for key, nonce and
/// plaintext, with empty associated data.
pub uninterp spec fn chacha_seal(key: Seq<u8>, nonce: Seq<u8>, plaintext: Seq<u8>) -> Seq<u8>;

/// What ChaCha20-Poly1305 decryption yields: the plaintext when the tag
/// verifies, `None` otherwise.
pub uninterp spec fn chacha_open(key: Seq<u8>, nonce: Seq<u8>, ciphertext: Seq<u8>) -> Option<
    Seq<u8>,
>;

/// The SHA-256 digest of a byte string.
pub uninterp spec fn sha256_digest(data: Seq<u8>) -> Seq<u8>;

/// Relies on rand's `OsRng` (`RngCore::fill_bytes`): fills a buffer with
/// operating-system randomness. Nothing can be promised of the values.
#[verifier::external_body]
fn os_random_bytes(len: usize) -> (r: Vec<u8>)
    ensures
        r@.len() == len,
{
    let mut buf = vec![0u8; len];
    rand::RngCore::fill_bytes(&mut rand::rngs::OsRng, &mut buf);
    buf
}

/// Draw a fresh 12-byte nonce uniformly at random.
pub fn generate_nonce() -> (r: Vec<u8>)
    ensures
        r@.len() == NONCE_SIZE,
{
    os_random_bytes(NONCE_SIZE)
}

/// Relies on `ed25519_dalek::SigningKey::verifying_key`: the verifying key
/// is a deterministic 32-byte function of the 32-byte seed, and parses back
/// through `VerifyingKey::from_bytes`.
#[verifier::external_body]
fn ed25519_derive_verifying_key(seed: &[u8]) -> (r: Vec<u8>)
    requires
        seed@.len() == 32,
    ensures
        r@ == ed25519_verifying_key(seed@),
        r@.len() == 32,
        ed25519_key_parses(r@),
{
    let arr: [u8; 32] = seed.try_into().unwrap();
    let sk = ed25519_dalek::SigningKey::from_bytes(&arr);
    sk.verifying_key().to_bytes().to_vec()
}

/// Relies on ed25519_dalek's `Signer::sign`: Ed25519 signatures are a
/// deterministic 64-byte function of seed and message, and verify under the
/// seed's verifying key.
#[verifier::external_body]
fn ed25519_sign(seed: &[u8], msg: &[u8]) -> (r: Vec<u8>)
    requires
        seed@.len() == 32,
    ensures
        r@ == ed25519_signature(seed@, msg@),
        r@.len() == 64,
        ed25519_accepts(ed25519_verifying_key(seed@), msg@, r@),
{
    let arr: [u8; 32] = seed.try_into().unwrap();
    let sk = ed25519_dalek::SigningKey::from_bytes(&arr);
    sk.sign(msg).to_bytes().to_vec()
}

/// Outcome of a raw Ed25519 signature check.
pub(crate) enum SigCheck {
    /// The verifying-key bytes are not a canonical key encoding.
    BadKey,
    /// The key parses but rejects the signature.
    Reject,
    /// The key parses and accepts the signature.
    Accept,
}

/// Relies on `ed25519_dalek::VerifyingKey::{from_bytes, verify}`:
/// `from_bytes` accepts exactly the canonical key encodings, and `verify`
/// returns `Ok` exactly on signatures valid under the key.
#[verifier::external_body]
fn ed25519_check(vk: &[u8], msg: &[u8], sig: &[u8]) -> (r: SigCheck)
    requires
        vk@.len() == 32,
        sig@.len() == 64,
    ensures
        (r is BadKey) == !ed25519_key_parses(vk@),
        ed25519_key_parses(vk@) ==> ((r is Accept) == ed25519_accepts(vk@, msg@, sig@)),
{
    let arr: [u8; 32] = vk.try_into().unwrap();
    let key = match ed25519_dalek::VerifyingKey::from_bytes(&arr) {
        Ok(k) => k,
        Err(_) => {
            return SigCheck::BadKey;
        },
    };
    let sig_arr: [u8; 64] = sig.try_into().unwrap();
    let signature = ed25519_dalek::Signature::from_bytes(&sig_arr);
    match key.verify(msg, &signature) {
        Ok(()) => SigCheck::Accept,
        Err(_) => SigCheck::Reject,
    }
}

/// Relies on `x25519_dalek::PublicKey::from(&StaticSecret)`: the public key
/// is a deterministic 32-byte function of the 32 secret bytes.
#[verifier::external_body]
fn x25519_derive_public(secret: &[u8]) -> (r: Vec<u8>)
    requires
        secret@.len() == 32,
    ensures
        r@ == x25519_public(secret@),
        r@.len() == 32,
{
    let arr: [u8; 32] = secret.try_into().unwrap();
    let s = x25519_dalek::StaticSecret::from(arr);
    x25519_dalek::PublicKey::from(&s).to_bytes().to_vec()
}

/// Relies on `x25519_dalek::StaticSecret::diffie_hellman`: the shared secret
/// is a deterministic 32-byte function of the secret and the peer public
/// key, and the two sides of an exchange compute the same value.
#[verifier::external_body]
fn x25519_dh(secret: &[u8], peer_public: &[u8]) -> (r: Vec<u8>)
    requires
        secret@.len() == 32,
        peer_public@.len() == 32,
    ensures
        r@ == x25519_shared(secret@, peer_public@),
        r@.len() == 32,
        forall|other: Seq<u8>|
            other.len() == 32 && peer_public@ == #[trigger] x25519_public(other) ==> r@
                == x25519_shared(other, x25519_public(secret@)),
{
    let arr: [u8; 32] = secret.try_into().unwrap();
    let s = x25519_dalek::StaticSecret::from(arr);
    let peer_arr: [u8; 32] = peer_public.try_into().unwrap();
    let peer = x25519_dalek::PublicKey::from(peer_arr);
    s.diffie_hellman(&peer).to_bytes().to_vec()
}

/// Relies on `hkdf::Hkdf::<Sha256>::expand` with no salt: the 32-byte output
/// keying material is a deterministic function of the input keying material
/// and the info string, and expanding to 32 bytes cannot fail.
#[verifier::external_body]
fn hkdf_derive(ikm: &[u8], info: &[u8]) -> (r: Vec<u8>)
    ensures
        r@ == hkdf_sha256_expand(ikm@, info@),
        r@.len() == 32,
{
    let hk = hkdf::Hkdf::<sha2::Sha256>::new(None, ikm);
    let mut okm = [0u8; 32];
    hk.expand(info, &mut okm).expect("a 32-byte output length is always valid");
    okm.to_vec()
}

/// Relies on `sha2::Sha256::digest`: the 32-byte digest is a deterministic
/// function of the input bytes.
#[verifier::external_body]
pub(crate) fn sha256(data: &[u8]) -> (r: Vec<u8>)
    ensures
        r@ == sha256_digest(data@),
        r@.len() == 32,
{
    sha2::Sha256::digest(data).to_vec()
}

/// Relies on `zeroize::Zeroize` for `Vec<u8>`: every byte is cleared in a
/// way the compiler will not elide, and the vector is emptied.
#[verifier::external_body]
fn zeroize_bytes(bytes: &mut Vec<u8>)
    ensures
        final(bytes)@.len() == 0,
    opens_invariants none
    no_unwind
{
    bytes.zeroize();
}

/// Encrypt with ChaCha20-Poly1305 and empty associated data; the 16-byte tag
/// is appended.
///
/// Relies on chacha20poly1305's `Aead::encrypt`: the ciphertext is a
/// deterministic function of key, nonce and plaintext, 16 bytes longer than
/// the plaintext, and decrypts back to it under the same key and nonce.
/// Encryption rejects only messages of at least `u32::MAX` cipher blocks of
/// 64 bytes, so anything shorter is encrypted.
#[verifier::external_body]
pub fn encrypt(key: &[u8], nonce: &[u8], plaintext: &[u8]) -> (r: Result<
    Vec<u8>,
    WaterscapeError,
>)
    requires
        key@.len() == KEY_SIZE,
        nonce@.len() == NONCE_SIZE,
    ensures
        r matches Ok(ct) ==> ct@ == chacha_seal(key@, nonce@, plaintext@) && ct@.len()
            == plaintext@.len() + 16 && chacha_open(key@, nonce@, ct@) == Some(plaintext@),
        r matches Err(e) ==> e matches WaterscapeError::Crypto(_),
        plaintext@.len() < 64 * (u32::MAX as int) ==> r is Ok,
{
    let cipher = match chacha20poly1305::ChaCha20Poly1305::new_from_slice(key) {
        Ok(c) => c,
        Err(_) => {
            return Err(WaterscapeError::Crypto("Invalid key length".to_string()));
        },
    };
    let nonce = chacha20poly1305::Nonce::from_slice(nonce);
    match cipher.encrypt(nonce, plaintext) {
        Ok(ct) => Ok(ct),
        Err(_) => Err(WaterscapeError::Crypto("Encryption failed".to_string())),
    }
}

/// Decrypt with ChaCha20-Poly1305 and empty associated data.
///
/// Relies on chacha20poly1305's `Aead::decrypt`: decryption is the
/// deterministic partial inverse of encryption, and a failed tag check is
/// the only error.
#[verifier::external_body]
pub fn decrypt(key: &[u8], nonce: &[u8], ciphertext: &[u8]) -> (r: Result<
    Vec<u8>,
    WaterscapeError,
>)
    requires
        key@.len() == KEY_SIZE,
        nonce@.len() == NONCE_SIZE,
    ensures
        r matches Ok(pt) ==> chacha_open(key@, nonce@, ciphertext@) == Some(pt@),
        r matches Err(e) ==> e == WaterscapeError::AuthenticationFailed,
        (r is Ok) == (chacha_open(key@, nonce@, ciphertext@) is Some),
{
    let cipher = match chacha20poly1305::ChaCha20Poly1305::new_from_slice(key) {
        Ok(c) => c,
        Err(_) => {
            return Err(WaterscapeError::AuthenticationFailed);
        },
    };
    let nonce = chacha20poly1305::Nonce::from_slice(nonce);
    match cipher.decrypt(nonce, ciphertext) {
        Ok(pt) => Ok(pt),
        Err(_) => Err(WaterscapeError::AuthenticationFailed),
    }
}

/// Key pair for X25519 key exchange, held as plain 32-byte values.
pub struct KeyExchangePair {
    secret: Vec<u8>,
    public: Vec<u8>,
}

impl KeyExchangePair {
    /// The 32 secret bytes, visible to contracts only.
    pub closed spec fn spec_secret(&self) -> Seq<u8> {
        self.secret@
    }

    /// Well-formed: the public half is derived from the secret half.
    pub closed spec fn wf(&self) -> bool {
        &&& self.secret@.len() == 32
        &&& self.public@ == x25519_public(self.secret@)
        &&& self.public@.len() == 32
    }

    /// A well-formed pair holds a 32-byte secret.
    pub proof fn lemma_wf_secret_len(&self)
        requires
            self.wf(),
        ensures
            self.spec_secret().len() == 32,
    {
    }

    /// Generate a fresh key pair from operating-system randomness.
    pub fn generate() -> (r: Self)
        ensures
            r.wf(),
    {
        let secret = os_random_bytes(32);
        let public = x25519_derive_public(secret.as_slice());
        KeyExchangePair { secret, public }
    }

    /// The public key as 32 bytes.
    pub fn public_key_bytes(&self) -> (r: Vec<u8>)
        requires
            self.wf(),
        ensures
            r@ == x25519_public(self.spec_secret()),
            r@.len() == 32,
    {
        self.public.clone()
    }

    /// Perform Diffie-Hellman key exchange with a peer's 32-byte public key.
    pub fn diffie_hellman(&self, their_public: &[u8]) -> (r: SharedSecret)
        requires
            self.wf(),
            their_public@.len() == 32,
        ensures
            r.wf(),
            r.spec_bytes() == x25519_shared(self.spec_secret(), their_public@),
            forall|other: Seq<u8>|
                other.len() == 32 && their_public@ == #[trigger] x25519_public(other)
                    ==> r.spec_bytes() == x25519_shared(other, x25519_public(self.spec_secret())),
    {
        let shared = x25519_dh(self.secret.as_slice(), their_public);
        SharedSecret { bytes: shared }
    }
}

impl Drop for KeyExchangePair {
    /// The exchange secret is zeroized when the pair falls out of scope.
    fn drop(&mut self)
        opens_invariants none
        no_unwind
    {
        zeroize_bytes(&mut self.secret);
    }
}

/// Shared secret from key exchange: consumed exactly once to derive a
/// symmetric key, and zeroized in the act.
pub struct SharedSecret {
    bytes: Vec<u8>,
}

impl SharedSecret {
    /// The 32 secret bytes, visible to contracts only.
    pub closed spec fn spec_bytes(&self) -> Seq<u8> {
        self.bytes@
    }

    /// Well-formed: exactly 32 bytes.
    pub closed spec fn wf(&self) -> bool {
        self.bytes@.len() == 32
    }

    /// Derive a 32-byte encryption key with HKDF-SHA256 (no salt, `context`
    /// as the info parameter), consuming and zeroizing the secret.
    pub fn derive_key(self, context: &[u8]) -> (r: Vec<u8>)
        requires
            self.wf(),
        ensures
            r@ == hkdf_sha256_expand(self.spec_bytes(), context@),
            r@.len() == 32,
    {
        let mut secret = self;
        let key = hkdf_derive(secret.bytes.as_slice(), context);
        zeroize_bytes(&mut secret.bytes);
        key
    }
}

impl Drop for SharedSecret {
    /// A shared secret left to fall out of scope is zeroized.
    fn drop(&mut self)
        opens_invariants none
        no_unwind
    {
        zeroize_bytes(&mut self.bytes);
    }
}

/// Signing key pair for Ed25519, held as the 32-byte seed and the derived
/// verifying key.
pub struct SigningKeyPair {
    seed: Vec<u8>,
    verifying: Vec<u8>,
}

impl SigningKeyPair {
    /// The 32-byte signing seed, visible to contracts only.
    pub closed spec fn spec_seed(&self) -> Seq<u8> {
        self.seed@
    }

    /// Well-formed: the verifying key is derived from the seed.
    pub closed spec fn wf(&self) -> bool {
        &&& self.seed@.len() == 32
        &&& self.verifying@ == ed25519_verifying_key(self.seed@)
        &&& self.verifying@.len() == 32
        &&& ed25519_key_parses(self.verifying@)
    }

    /// A well-formed pair holds a 32-byte seed.
    pub proof fn lemma_wf_seed_len(&self)
        requires
            self.wf(),
        ensures
            self.spec_seed().len() == 32,
    {
    }

    /// Generate a fresh key pair from operating-system randomness.
    pub fn generate() -> (r: Self)
        ensures
            r.wf(),
    {
        let seed = os_random_bytes(32);
        let verifying = ed25519_derive_verifying_key(seed.as_slice());
        SigningKeyPair { seed, verifying }
    }

    /// Restore a key pair from a stored 32-byte seed.
    pub fn from_bytes(bytes: &[u8]) -> (r: Result<Self, WaterscapeError>)
        requires
            bytes@.len() == 32,
        ensures
            r matches Ok(kp) ==> kp.wf() && kp.spec_seed() == bytes@,
            r is Ok,
    {
        let mut seed: Vec<u8> = Vec::new();
        let mut i: usize = 0;
        while i < bytes.len()
            invariant
                i <= bytes@.len(),
                seed@ == bytes@.take(i as int),
            decreases bytes@.len() - i,
        {
            seed.push(bytes[i]);
            proof {
                assert(bytes@.take(i as int).push(bytes@[i as int]) =~= bytes@.take(i as int + 1));
            }
            i = i + 1;
        }
        proof {
            assert(bytes@.take(bytes@.len() as int) =~= bytes@);
        }
        let verifying = ed25519_derive_verifying_key(seed.as_slice());
        Ok(SigningKeyPair { seed, verifying })
    }

    /// Sign a message; the signature is 64 bytes over exactly these bytes.
    pub fn sign(&self, message: &[u8]) -> (r: Vec<u8>)
        requires
            self.wf(),
        ensures
            r@ == ed25519_signature(self.spec_seed(), message@),
            r@.len() == 64,
            ed25519_accepts(ed25519_verifying_key(self.spec_seed()), message@, r@),
    {
        ed25519_sign(self.seed.as_slice(), message)
    }

    /// Verify a 64-byte signature over a message with this pair's verifying
    /// key.
    pub fn verify(&self, message: &[u8], signature: &[u8]) -> (r: Result<(), WaterscapeError>)
        requires
            self.wf(),
            signature@.len() == 64,
        ensures
            (r is Ok) == ed25519_accepts(
                ed25519_verifying_key(self.spec_seed()),
                message@,
                signature@,
            ),
            r is Err ==> r == Err::<(), WaterscapeError>(WaterscapeError::InvalidSignature),
    {
        match ed25519_check(self.verifying.as_slice(), message, signature) {
            SigCheck::Accept => Ok(()),
            SigCheck::Reject => Err(WaterscapeError::InvalidSignature),
            SigCheck::BadKey => Err(WaterscapeError::InvalidSignature),
        }
    }

    /// The verifying key as 32 bytes.
    pub fn verifying_key_bytes(&self) -> (r: Vec<u8>)
        requires
            self.wf(),
        ensures
            r@ == ed25519_verifying_key(self.spec_seed()),
            r@.len() == 32,
            ed25519_key_parses(r@),
    {
        self.verifying.clone()
    }

    /// The signing seed as 32 bytes, for backup.
    pub fn signing_key_bytes(&self) -> (r: Vec<u8>)
        requires
            self.wf(),
        ensures
            r@ == self.spec_seed(),
            r@.len() == 32,
    {
        self.seed.clone()
    }
}

impl Drop for SigningKeyPair {
    /// The signing seed is zeroized when the pair falls out of scope.
    fn drop(&mut self)
        opens_invariants none
        no_unwind
    {
        zeroize_bytes(&mut self.seed);
    }
}

/// Verify a 64-byte signature over a message against a 32-byte verifying
/// key: `Ok` exactly when the key parses and accepts the signature.
pub fn verify_signature(verifying_key_bytes: &[u8], message: &[u8], signature: &[u8]) -> (r: Result<
    (),
    WaterscapeError,
>)
    requires
        verifying_key_bytes@.len() == 32,
        signature@.len() == 64,
    ensures
        (r is Ok) == (ed25519_key_parses(verifying_key_bytes@) && ed25519_accepts(
            verifying_key_bytes@,
            message@,
            signature@,
        )),
        !ed25519_key_parses(verifying_key_bytes@) ==> (r matches Err(e) && e
            matches WaterscapeError::Crypto(_)),
        ed25519_key_parses(verifying_key_bytes@) && !ed25519_accepts(
            verifying_key_bytes@,
            message@,
            signature@,
        ) ==> r == Err::<(), WaterscapeError>(WaterscapeError::InvalidSignature),
{
    match ed25519_check(verifying_key_bytes, message, signature) {
        SigCheck::Accept => Ok(()),
        SigCheck::Reject => Err(WaterscapeError::InvalidSignature),
        SigCheck::BadKey => Err(WaterscapeError::Crypto("Invalid verifying key".to_string())),
    }
}

} // verus!

//! The Waterscape protocol: pairwise channels, the stateless high-level
//! API, and symmetric groups.
//!
//! Encoding derives a session key, builds a signed and encrypted envelope,
//! and hides its serialized bytes inside the cover text. Decoding extracts
//! the envelope from the carrier, verifies the signature over the
//! ciphertext, derives the same session key from the embedded ephemeral
//! key, and decrypts.
//!
//! The round-trip law is carried jointly by `encode` and `decode`: `encode`
//! ensures its carrier satisfies [`spec_pairwise_carrier`] for some nonce
//! and timestamp, and `decode` ensures that every carrier satisfying that
//! predicate for the receiver's key decodes to exactly the hidden secret.

use vstd::prelude::*;
use vstd::string::StringSliceAdditionalSpecFns;

use crate::agent::Agent;
use crate::agent::PublicIdentity;
use crate::crypto;
use crate::envelope;
use crate::envelope::WaterscapeMessage;
use crate::error::WaterscapeError;
use crate::stego;

pub use crate::envelope::spec_envelope_bytes;
pub use crate::envelope::spec_payload_bytes;

verus! {

/// The wire version this crate speaks.
pub const PROTOCOL_VERSION: u8 = 1;

/// Secrets (and group names) of at most this many characters are guaranteed
/// to encrypt: the serialized payload then stays far below the AEAD's
/// message limit.
pub const MAX_SECRET_LEN: usize = 0x4000_0000;

/// The HKDF info string binding session keys to this protocol version.
pub open spec fn spec_context() -> Seq<u8> {
    "waterscape-v1-encrypt".spec_bytes()
}

/// The info string as bytes.
fn context_bytes() -> (r: Vec<u8>)
    ensures
        r@ == spec_context(),
{
    "waterscape-v1-encrypt".as_bytes_vec()
}

/// The session key derived from a Diffie-Hellman output.
pub open spec fn spec_session_key(shared: Seq<u8>) -> Seq<u8> {
    crypto::hkdf_sha256_expand(shared, spec_context())
}

/// A 32-byte all-zero ephemeral field, the marker of group mode.
pub open spec fn spec_zero_key() -> Seq<u8> {
    Seq::new(32, |i: int| 0u8)
}

/// Everything true of a carrier that pairwise `encode` produced: the
/// alphabet projection of the carrier is the encoded envelope, whose
/// ciphertext seals the payload under the session key of sender secret and
/// receiver public key, and whose signature binds the ciphertext to the
/// sender seed. The named-result facts that the encoder's own calls
/// established travel along.
pub open spec fn spec_pairwise_carrier(
    seed: Seq<u8>,
    xsec: Seq<u8>,
    recv_pub: Seq<u8>,
    secret: Seq<char>,
    n: Seq<u8>,
    ts: u64,
    carrier: Seq<char>,
) -> bool {
    let key = spec_session_key(crypto::x25519_shared(xsec, recv_pub));
    let pb = spec_payload_bytes(secret, ts, None);
    let ct = crypto::chacha_seal(key, n, pb);
    let vk = crypto::ed25519_verifying_key(seed);
    let sig = crypto::ed25519_signature(seed, ct);
    &&& seed.len() == 32
    &&& xsec.len() == 32
    &&& n.len() == 12
    &&& vk.len() == 32
    &&& crypto::x25519_public(xsec).len() == 32
    &&& sig.len() == 64
    &&& crypto::ed25519_key_parses(vk)
    &&& crypto::ed25519_accepts(vk, ct, sig)
    &&& crypto::chacha_open(key, n, ct) == Some(pb)
    &&& stego::alphabet_filter(carrier) == stego::spec_encode_data(
        spec_envelope_bytes(1, n, vk, crypto::x25519_public(xsec), ct, sig),
    )
}

/// Everything true of a carrier that group `encode` produced: as pairwise,
/// but the payload is sealed under the pre-shared group key, the metadata
/// field carries the group name, and the ephemeral field is all zero.
pub open spec fn spec_group_carrier(
    group_key: Seq<u8>,
    seed: Seq<u8>,
    secret: Seq<char>,
    group_name: Seq<char>,
    n: Seq<u8>,
    ts: u64,
    carrier: Seq<char>,
) -> bool {
    let pb = spec_payload_bytes(secret, ts, Some(group_name));
    let ct = crypto::chacha_seal(group_key, n, pb);
    let vk = crypto::ed25519_verifying_key(seed);
    let sig = crypto::ed25519_signature(seed, ct);
    &&& seed.len() == 32
    &&& n.len() == 12
    &&& vk.len() == 32
    &&& sig.len() == 64
    &&& crypto::ed25519_key_parses(vk)
    &&& crypto::ed25519_accepts(vk, ct, sig)
    &&& crypto::chacha_open(group_key, n, ct) == Some(pb)
    &&& stego::alphabet_filter(carrier) == stego::spec_encode_data(
        spec_envelope_bytes(1, n, vk, spec_zero_key(), ct, sig),
    )
}

/// Everything true of a carrier built for a known session key: like the
/// pairwise shape, but over the key itself, whatever ephemeral field the
/// envelope carries, and any metadata.
pub open spec fn spec_channel_carrier(
    key: Seq<u8>,
    seed: Seq<u8>,
    eph: Seq<u8>,
    secret: Seq<char>,
    md: Option<Seq<char>>,
    n: Seq<u8>,
    ts: u64,
    carrier: Seq<char>,
) -> bool {
    let pb = spec_payload_bytes(secret, ts, md);
    let ct = crypto::chacha_seal(key, n, pb);
    let vk = crypto::ed25519_verifying_key(seed);
    let sig = crypto::ed25519_signature(seed, ct);
    &&& n.len() == 12
    &&& vk.len() == 32
    &&& eph.len() == 32
    &&& sig.len() == 64
    &&& crypto::ed25519_key_parses(vk)
    &&& crypto::ed25519_accepts(vk, ct, sig)
    &&& crypto::chacha_open(key, n, ct) == Some(pb)
    &&& stego::alphabet_filter(carrier) == stego::spec_encode_data(
        spec_envelope_bytes(1, n, vk, eph, ct, sig),
    )
}

/// What one step of decoding resolved to: the recovered content, or which
/// rung of the error ladder fired.
pub enum DecodeOutcome {
    Content(Seq<char>),
    MalformedEnvelope,
    WrongVersion(u8),
    BadSignatureLength,
    BadSenderKey,
    RejectedSignature,
    FailedAuthentication,
    MalformedPayload,
}

/// The decrypt ladder on parsed envelope fields under a session key, in the
/// order the checks run: version (where checked), signature length, sender
/// key parse, signature verification, AEAD tag, payload parse.
pub open spec fn spec_ladder_outcome(
    key: Seq<u8>,
    f: envelope::EnvFields,
    check_version: bool,
) -> DecodeOutcome {
    if check_version && f.version != 1 {
        DecodeOutcome::WrongVersion(f.version)
    } else if f.signature.len() != 64 {
        DecodeOutcome::BadSignatureLength
    } else if !crypto::ed25519_key_parses(f.sender_key) {
        DecodeOutcome::BadSenderKey
    } else if !crypto::ed25519_accepts(f.sender_key, f.ciphertext, f.signature) {
        DecodeOutcome::RejectedSignature
    } else {
        match crypto::chacha_open(key, f.nonce, f.ciphertext) {
            None => DecodeOutcome::FailedAuthentication,
            Some(pb) => match envelope::spec_payload_content(pb) {
                None => DecodeOutcome::MalformedPayload,
                Some(c) => DecodeOutcome::Content(c),
            },
        }
    }
}

/// The decrypt ladder on raw extracted bytes under a fixed session key.
pub open spec fn spec_decrypt_outcome(key: Seq<u8>, d: Seq<u8>, check_version: bool) -> DecodeOutcome {
    match envelope::spec_envelope_fields(d) {
        None => DecodeOutcome::MalformedEnvelope,
        Some(f) => spec_ladder_outcome(key, f, check_version),
    }
}

/// The decrypt ladder on raw extracted bytes for a pairwise receiver: the
/// session key comes from the envelope's own ephemeral field.
pub open spec fn spec_pairwise_outcome(recv_xsec: Seq<u8>, d: Seq<u8>) -> DecodeOutcome {
    match envelope::spec_envelope_fields(d) {
        None => DecodeOutcome::MalformedEnvelope,
        Some(f) => spec_ladder_outcome(
            spec_session_key(crypto::x25519_shared(recv_xsec, f.ephemeral_key)),
            f,
            true,
        ),
    }
}

/// Which result each outcome surfaces.
pub open spec fn spec_outcome_matches(o: DecodeOutcome, r: Result<String, WaterscapeError>) -> bool {
    match o {
        DecodeOutcome::Content(c) => r matches Ok(s) && s@ == c,
        DecodeOutcome::MalformedEnvelope => r matches Err(e) && e
            matches WaterscapeError::Serialization(_),
        DecodeOutcome::WrongVersion(v) => r == Err::<String, WaterscapeError>(
            WaterscapeError::VersionMismatch { expected: 1u8, got: v },
        ),
        DecodeOutcome::BadSignatureLength => r matches Err(e) && e
            matches WaterscapeError::Crypto(_),
        DecodeOutcome::BadSenderKey => r matches Err(e) && e matches WaterscapeError::Crypto(_),
        DecodeOutcome::RejectedSignature => r == Err::<String, WaterscapeError>(
            WaterscapeError::InvalidSignature,
        ),
        DecodeOutcome::FailedAuthentication => r == Err::<String, WaterscapeError>(
            WaterscapeError::AuthenticationFailed,
        ),
        DecodeOutcome::MalformedPayload => r matches Err(e) && e
            matches WaterscapeError::Serialization(_),
    }
}

/// Relies on `std::time::SystemTime::now`: seconds since the Unix epoch;
/// nothing can be promised of the clock.
#[verifier::external_body]
fn now_unix_seconds() -> u64 {
    std::time::SystemTime::now().duration_since(std::time::UNIX_EPOCH).map(
        |d| d.as_secs(),
    ).unwrap_or(0)
}

/// One built message: version 1, the given nonce, the seed's verifying key
/// as sender key, ciphertext sealing the payload under `key`, and the
/// seed's signature over the ciphertext, along with the named-result facts
/// the builder's calls established.
pub open spec fn spec_built_message(
    key: Seq<u8>,
    seed: Seq<u8>,
    eph: Seq<u8>,
    content: Seq<char>,
    md: Option<Seq<char>>,
    n: Seq<u8>,
    ts: u64,
    version: u8,
    nonce: Seq<u8>,
    sender_key: Seq<u8>,
    ephemeral_key: Seq<u8>,
    ciphertext: Seq<u8>,
    signature: Seq<u8>,
) -> bool {
    let pb = spec_payload_bytes(content, ts, md);
    let ct = crypto::chacha_seal(key, n, pb);
    &&& n.len() == 12
    &&& version == 1
    &&& nonce == n
    &&& sender_key == crypto::ed25519_verifying_key(seed)
    &&& ephemeral_key == eph
    &&& ciphertext == ct
    &&& signature == crypto::ed25519_signature(seed, ct)
    &&& signature.len() == 64
    &&& crypto::ed25519_key_parses(sender_key)
    &&& crypto::ed25519_accepts(sender_key, ct, signature)
    &&& crypto::chacha_open(key, n, ct) == Some(pb)
}

/// A message built for some fresh nonce and timestamp.
pub open spec fn spec_message_built(
    key: Seq<u8>,
    seed: Seq<u8>,
    eph: Seq<u8>,
    content: Seq<char>,
    md: Option<Seq<char>>,
    version: u8,
    nonce: Seq<u8>,
    sender_key: Seq<u8>,
    ephemeral_key: Seq<u8>,
    ciphertext: Seq<u8>,
    signature: Seq<u8>,
) -> bool {
    exists|n: Seq<u8>, ts: u64|
        #[trigger] spec_built_message(
            key,
            seed,
            eph,
            content,
            md,
            n,
            ts,
            version,
            nonce,
            sender_key,
            ephemeral_key,
            ciphertext,
            signature,
        )
}

/// A communication channel between two agents, holding the derived session
/// key.
pub struct WaterscapeChannel {
    local_agent: PublicIdentity,
    remote_agent: PublicIdentity,
    shared_key: Vec<u8>,
}

impl WaterscapeChannel {
    /// The 32-byte session key, visible to contracts only.
    pub closed spec fn spec_key(&self) -> Seq<u8> {
        self.shared_key@
    }

    /// Well-formed: the session key is 32 bytes.
    pub closed spec fn wf(&self) -> bool {
        self.shared_key@.len() == 32
    }

    /// Establish a channel from sender to receiver: Diffie-Hellman between
    /// the sender's exchange secret and the receiver's exchange public key,
    /// then HKDF. Also reports the sender's exchange public key, to embed in
    /// the envelope as the ephemeral.
    pub fn establish(sender: &Agent, receiver: &PublicIdentity) -> (r: Result<
        (Self, Vec<u8>),
        WaterscapeError,
    >)
        requires
            sender.wf(),
            receiver.wf(),
        ensures
            r matches Ok(p) ==> p.0.wf() && p.0.spec_key() == spec_session_key(
                crypto::x25519_shared(sender.spec_exchange_secret(), receiver.exchange_key@),
            ) && p.1@ == crypto::x25519_public(sender.spec_exchange_secret()) && p.1@.len() == 32
                && p.0.spec_remote_exchange_key() == receiver.exchange_key@ && p.0.keyed_for(
                sender.spec_exchange_secret(),
            ),
            r is Ok,
    {
        let shared_secret = sender.exchange_keypair().diffie_hellman(
            receiver.exchange_key.as_slice(),
        );
        let context = context_bytes();
        let shared_key = shared_secret.derive_key(context.as_slice());
        let channel = WaterscapeChannel {
            local_agent: sender.public_identity(),
            remote_agent: receiver.duplicate(),
            shared_key,
        };
        Ok((channel, sender.exchange_keypair().public_key_bytes()))
    }

    /// Establish a channel on the receiver side from the sender's embedded
    /// ephemeral key: by the symmetry of Diffie-Hellman, when the ephemeral
    /// is the public key of the sender secret that encoded, the session key
    /// equals the encoder's.
    pub fn establish_receiver(
        receiver: &Agent,
        sender: &PublicIdentity,
        sender_ephemeral_key: &[u8],
    ) -> (r: Result<Self, WaterscapeError>)
        requires
            receiver.wf(),
            sender_ephemeral_key@.len() == 32,
        ensures
            r matches Ok(c) ==> c.wf() && c.spec_key() == spec_session_key(
                crypto::x25519_shared(receiver.spec_exchange_secret(), sender_ephemeral_key@),
            ),
            r matches Ok(c) ==> forall|other: Seq<u8>|
                other.len() == 32 && sender_ephemeral_key@ == #[trigger] crypto::x25519_public(
                    other,
                ) ==> c.spec_key() == spec_session_key(
                    crypto::x25519_shared(
                        other,
                        crypto::x25519_public(receiver.spec_exchange_secret()),
                    ),
                ),
            r is Ok,
    {
        let shared_secret = receiver.exchange_keypair().diffie_hellman(sender_ephemeral_key);
        let context = context_bytes();
        let shared_key = shared_secret.derive_key(context.as_slice());
        Ok(
            WaterscapeChannel {
                local_agent: receiver.public_identity(),
                remote_agent: sender.duplicate(),
                shared_key,
            },
        )
    }

    /// Build one encrypted, signed message carrying `content`.
    #[verifier::rlimit(60)]
    fn create_message(&self, sender: &Agent, content: &str) -> (r: Result<
        WaterscapeMessage,
        WaterscapeError,
    >)
        requires
            self.wf(),
            sender.wf(),
        ensures
            r matches Ok(m) ==> m.wf() && spec_message_built(
                self.spec_key(),
                sender.spec_signing_seed(),
                crypto::x25519_public(sender.spec_exchange_secret()),
                content@,
                None,
                m.version,
                m.nonce@,
                m.sender_key@,
                m.ephemeral_key@,
                m.ciphertext@,
                m.signature@,
            ),
            r matches Err(e) ==> e matches WaterscapeError::Crypto(_),
            content@.len() <= MAX_SECRET_LEN ==> r is Ok,
    {
        let nonce = crypto::generate_nonce();
        let timestamp = now_unix_seconds();
        let payload_bytes = envelope::serialize_payload(content, timestamp, &None);
        proof {
            envelope::lemma_payload_bytes_len(content@, timestamp, None);
        }
        let ciphertext = match crypto::encrypt(
            self.shared_key.as_slice(),
            nonce.as_slice(),
            payload_bytes.as_slice(),
        ) {
            Ok(ct) => ct,
            Err(e) => {
                return Err(e);
            },
        };
        let signature = sender.signing_keypair().sign(ciphertext.as_slice());
        let sender_key = sender.signing_keypair().verifying_key_bytes();
        let ephemeral_key = sender.exchange_keypair().public_key_bytes();
        let m = WaterscapeMessage {
            version: PROTOCOL_VERSION,
            nonce,
            sender_key,
            ephemeral_key,
            ciphertext,
            signature,
        };
        proof {
            assert(spec_built_message(
                self.spec_key(),
                sender.spec_signing_seed(),
                crypto::x25519_public(sender.spec_exchange_secret()),
                content@,
                None,
                m.nonce@,
                timestamp,
                m.version,
                m.nonce@,
                m.sender_key@,
                m.ephemeral_key@,
                m.ciphertext@,
                m.signature@,
            ));
            assert(spec_message_built(
                self.spec_key(),
                sender.spec_signing_seed(),
                crypto::x25519_public(sender.spec_exchange_secret()),
                content@,
                None,
                m.version,
                m.nonce@,
                m.sender_key@,
                m.ephemeral_key@,
                m.ciphertext@,
                m.signature@,
            ));
        }
        Ok(m)
    }

    /// Verify and decrypt one message with this channel's session key.
    ///
    /// Errors, in the order tested: `VersionMismatch` unless the version is
    /// 1; `Crypto` unless the signature is 64 bytes and the sender key
    /// parses; `InvalidSignature` unless the signature verifies over the
    /// ciphertext; `AuthenticationFailed` unless the tag verifies;
    /// `Serialization` unless the plaintext is a payload record.
    fn decrypt_message(&self, message: &WaterscapeMessage) -> (r: Result<String, WaterscapeError>)
        requires
            self.wf(),
            message.wf(),
        ensures
            message.version != 1 ==> r == Err::<String, WaterscapeError>(
                WaterscapeError::VersionMismatch { expected: 1u8, got: message.version },
            ),
            message.version == 1 && message.signature@.len() != 64 ==> (r matches Err(e) && e
                matches WaterscapeError::Crypto(_)),
            message.version == 1 && message.signature@.len() == 64
                && !crypto::ed25519_key_parses(message.sender_key@) ==> (r matches Err(e) && e
                matches WaterscapeError::Crypto(_)),
            message.version == 1 && message.signature@.len() == 64 && crypto::ed25519_key_parses(
                message.sender_key@,
            ) && !crypto::ed25519_accepts(
                message.sender_key@,
                message.ciphertext@,
                message.signature@,
            ) ==> r == Err::<String, WaterscapeError>(WaterscapeError::InvalidSignature),
            message.version == 1 && message.signature@.len() == 64 && crypto::ed25519_key_parses(
                message.sender_key@,
            ) && crypto::ed25519_accepts(
                message.sender_key@,
                message.ciphertext@,
                message.signature@,
            ) && crypto::chacha_open(self.spec_key(), message.nonce@, message.ciphertext@)
                is None ==> r == Err::<String, WaterscapeError>(
                WaterscapeError::AuthenticationFailed,
            ),
            forall|c: Seq<char>, ts: u64, md: Option<Seq<char>>|
                message.version == 1 && message.signature@.len() == 64
                    && crypto::ed25519_key_parses(message.sender_key@) && crypto::ed25519_accepts(
                    message.sender_key@,
                    message.ciphertext@,
                    message.signature@,
                ) && crypto::chacha_open(self.spec_key(), message.nonce@, message.ciphertext@)
                    == Some(#[trigger] spec_payload_bytes(c, ts, md)) ==> (r matches Ok(s) && s@
                    == c),
            spec_outcome_matches(
                spec_ladder_outcome(
                    self.spec_key(),
                    (envelope::EnvFields {
                        version: message.version,
                        nonce: message.nonce@,
                        sender_key: message.sender_key@,
                        ephemeral_key: message.ephemeral_key@,
                        ciphertext: message.ciphertext@,
                        signature: message.signature@,
                    }),
                    true,
                ),
                r,
            ),
    {
        if message.version != PROTOCOL_VERSION {
            return Err(
                WaterscapeError::VersionMismatch {
                    expected: PROTOCOL_VERSION,
                    got: message.version,
                },
            );
        }
        if message.signature.len() != 64 {
            return Err(WaterscapeError::Crypto("Invalid signature length".to_string()));
        }
        match crypto::verify_signature(
            message.sender_key.as_slice(),
            message.ciphertext.as_slice(),
            message.signature.as_slice(),
        ) {
            Ok(()) => {},
            Err(e) => {
                return Err(e);
            },
        }
        let payload_bytes = match crypto::decrypt(
            self.shared_key.as_slice(),
            message.nonce.as_slice(),
            message.ciphertext.as_slice(),
        ) {
            Ok(pb) => pb,
            Err(e) => {
                return Err(e);
            },
        };
        let payload = match envelope::parse_payload(payload_bytes.as_slice()) {
            Ok(p) => p,
            Err(e) => {
                return Err(e);
            },
        };
        Ok(payload.content)
    }

    /// Encrypt and hide a secret message inside cover text.
    pub fn encode(&self, sender: &Agent, cover_text: &str, secret_message: &str) -> (r: Result<
        String,
        WaterscapeError,
    >)
        requires
            self.wf(),
            sender.wf(),
            self.keyed_for(sender.spec_exchange_secret()),
        ensures
            r matches Err(e) ==> (e matches WaterscapeError::Crypto(_) || (cover_text@.len() == 0
                && e == WaterscapeError::CoverTextTooShort { needed: 1usize, available: 0usize })),
            cover_text@.len() == 0 ==> r is Err,
            cover_text@.len() > 0 && secret_message@.len() <= MAX_SECRET_LEN ==> r is Ok,
            r matches Ok(carrier) ==> stego::visible_filter(carrier@) == stego::visible_filter(
                cover_text@,
            ) && carrier@.contains(stego::START) && carrier@.contains(stego::END),
            r matches Ok(carrier) ==> (stego::clean_cover(cover_text@) ==> stego::visible_filter(
                carrier@,
            ) == cover_text@ && (exists|n: Seq<u8>, ts: u64|
                spec_pairwise_carrier(
                    sender.spec_signing_seed(),
                    sender.spec_exchange_secret(),
                    self.spec_remote_exchange_key(),
                    secret_message@,
                    n,
                    ts,
                    carrier@,
                ))),
    {
        let message = match self.create_message(sender, secret_message) {
            Ok(m) => m,
            Err(e) => {
                return Err(e);
            },
        };
        let message_bytes = match message.to_bytes() {
            Ok(b) => b,
            Err(e) => {
                return Err(e);
            },
        };
        match stego::hide_in_text(cover_text, message_bytes.as_slice()) {
            Ok(carrier) => {
                proof {
                    sender.lemma_wf_lens();
                    if stego::clean_cover(cover_text@) {
                        let (n, ts) = choose|n: Seq<u8>, ts: u64|
                            #[trigger] spec_built_message(
                                self.spec_key(),
                                sender.spec_signing_seed(),
                                crypto::x25519_public(sender.spec_exchange_secret()),
                                secret_message@,
                                None,
                                n,
                                ts,
                                message.version,
                                message.nonce@,
                                message.sender_key@,
                                message.ephemeral_key@,
                                message.ciphertext@,
                                message.signature@,
                            );
                        assert(spec_pairwise_carrier(
                            sender.spec_signing_seed(),
                            sender.spec_exchange_secret(),
                            self.spec_remote_exchange_key(),
                            secret_message@,
                            n,
                            ts,
                            carrier@,
                        ));
                    }
                }
                Ok(carrier)
            },
            Err(e) => Err(e),
        }
    }

    /// The remote party's exchange public key, visible to contracts only.
    pub closed spec fn spec_remote_exchange_key(&self) -> Seq<u8> {
        self.remote_agent.exchange_key@
    }

    /// Whether this channel's key is the session key for the remote
    /// exchange key, as `establish` builds it.
    pub open spec fn keyed_for(&self, xsec: Seq<u8>) -> bool {
        self.spec_key() == spec_session_key(
            crypto::x25519_shared(xsec, self.spec_remote_exchange_key()),
        )
    }

    /// Extract, verify and decrypt a message hidden in carrier text: every
    /// carrier built for this channel's session key decodes to exactly the
    /// secret hidden in it.
    pub fn decode(&self, text: &str) -> (r: Result<String, WaterscapeError>)
        requires
            self.wf(),
        ensures
            stego::spec_extract(text@) is None ==> r == Err::<String, WaterscapeError>(
                WaterscapeError::NoHiddenMessage,
            ),
            forall|seed: Seq<u8>, eph: Seq<u8>, secret: Seq<char>, md: Option<Seq<char>>, n: Seq<u8>, ts: u64|
                #[trigger] spec_channel_carrier(
                    self.spec_key(),
                    seed,
                    eph,
                    secret,
                    md,
                    n,
                    ts,
                    text@,
                ) ==> (r matches Ok(s) && s@ == secret),
            stego::spec_extract(text@) matches Some(d) ==> spec_outcome_matches(
                spec_decrypt_outcome(self.spec_key(), d, true),
                r,
            ),
    {
        let message_bytes = match stego::extract_from_text(text) {
            Ok(b) => b,
            Err(e) => {
                proof {
                    lemma_channel_decode_setup(self.spec_key(), text@);
                }
                return Err(e);
            },
        };
        let message = match WaterscapeMessage::from_bytes(message_bytes.as_slice()) {
            Ok(m) => m,
            Err(e) => {
                proof {
                    lemma_channel_decode_setup(self.spec_key(), text@);
                }
                return Err(e);
            },
        };
        let result = self.decrypt_message(&message);
        proof {
            lemma_channel_decode_setup(self.spec_key(), text@);
        }
        result
    }
}

/// Stateless high-level API for one-shot encode and decode.
pub struct Waterscape;

impl Waterscape {
    /// Encode a secret message for a recipient inside cover text.
    ///
    /// On a clean cover (one without the reserved zero-width codepoints)
    /// the carrier's visible text is exactly the cover, and its hidden
    /// content satisfies [`spec_pairwise_carrier`] for some fresh nonce and
    /// timestamp: everything `decode` needs to restore the secret.
    pub fn encode(sender: &Agent, recipient: &PublicIdentity, cover_text: &str, secret: &str) -> (r:
        Result<String, WaterscapeError>)
        requires
            sender.wf(),
            recipient.wf(),
        ensures
            r matches Err(e) ==> (e matches WaterscapeError::Crypto(_) || (cover_text@.len() == 0
                && e == WaterscapeError::CoverTextTooShort { needed: 1usize, available: 0usize })),
            cover_text@.len() == 0 ==> r is Err,
            cover_text@.len() > 0 && secret@.len() <= MAX_SECRET_LEN ==> r is Ok,
            r matches Ok(carrier) ==> stego::visible_filter(carrier@) == stego::visible_filter(
                cover_text@,
            ) && carrier@.contains(stego::START) && carrier@.contains(stego::END),
            r matches Ok(carrier) ==> (stego::clean_cover(cover_text@) ==> stego::visible_filter(
                carrier@,
            ) == cover_text@ && (exists|n: Seq<u8>, ts: u64|
                spec_pairwise_carrier(
                    sender.spec_signing_seed(),
                    sender.spec_exchange_secret(),
                    recipient.exchange_key@,
                    secret@,
                    n,
                    ts,
                    carrier@,
                ))),
    {
        let (channel, _ephemeral) = match WaterscapeChannel::establish(sender, recipient) {
            Ok(p) => p,
            Err(e) => {
                return Err(e);
            },
        };
        channel.encode(sender, cover_text, secret)
    }

    /// Decode a hidden message addressed to `receiver`.
    ///
    /// The `sender` argument names whom the caller expects; authentication
    /// itself verifies against the envelope's embedded sender key.
    ///
    /// The completeness clause is the round-trip law: every carrier that
    /// pairwise `encode` can produce for this receiver decodes to exactly
    /// the secret hidden in it. Carriers without both markers fail with
    /// `NoHiddenMessage`; a parsed envelope whose version is not 1 fails
    /// with `VersionMismatch`.
    pub fn decode(receiver: &Agent, sender: &PublicIdentity, text: &str) -> (r: Result<
        String,
        WaterscapeError,
    >)
        requires
            receiver.wf(),
            sender.wf(),
        ensures
            stego::spec_extract(text@) is None ==> r == Err::<String, WaterscapeError>(
                WaterscapeError::NoHiddenMessage,
            ),
            forall|seed: Seq<u8>, xsec: Seq<u8>, secret: Seq<char>, n: Seq<u8>, ts: u64|
                #[trigger] spec_pairwise_carrier(
                    seed,
                    xsec,
                    crypto::x25519_public(receiver.spec_exchange_secret()),
                    secret,
                    n,
                    ts,
                    text@,
                ) ==> (r matches Ok(s) && s@ == secret),
            stego::spec_extract(text@) matches Some(d) ==> spec_outcome_matches(
                spec_pairwise_outcome(receiver.spec_exchange_secret(), d),
                r,
            ),
    {
        let message_bytes = match stego::extract_from_text(text) {
            Ok(b) => b,
            Err(e) => {
                proof {
                    lemma_decode_completeness_setup(
                        receiver.spec_exchange_secret(),
                        text@,
                        Seq::<u8>::empty(),
                    );
                }
                return Err(e);
            },
        };
        let message = match WaterscapeMessage::from_bytes(message_bytes.as_slice()) {
            Ok(m) => m,
            Err(e) => {
                proof {
                    lemma_decode_completeness_setup(
                        receiver.spec_exchange_secret(),
                        text@,
                        message_bytes@,
                    );
                }
                return Err(e);
            },
        };
        let channel = match WaterscapeChannel::establish_receiver(
            receiver,
            sender,
            message.ephemeral_key.as_slice(),
        ) {
            Ok(c) => c,
            Err(e) => {
                return Err(e);
            },
        };
        let result = channel.decrypt_message(&message);
        proof {
            lemma_decode_completeness_setup(
                receiver.spec_exchange_secret(),
                text@,
                message_bytes@,
            );
        }
        result
    }

    /// Whether carrier text holds a hidden message: both markers present.
    pub fn has_hidden_message(text: &str) -> (r: bool)
        ensures
            r == (text@.contains(stego::START) && text@.contains(stego::END)),
    {
        stego::has_hidden_data(text)
    }

    /// The carrier's visible text: every reserved codepoint removed.
    pub fn visible_text(text: &str) -> (r: String)
        ensures
            r@ == stego::visible_filter(text@),
    {
        stego::extract_visible_text(text)
    }
}


/// The pre-shared group key: SHA-256 of the creator's 32-byte signing seed
/// followed by the group name's UTF-8 bytes. A pure function of the two, so
/// any two groups built from the same creator seed and name share the key.
pub open spec fn spec_group_key(seed: Seq<u8>, name: Seq<char>) -> Seq<u8> {
    crypto::sha256_digest(seed + vstd::utf8::encode_utf8(name))
}

/// A 32-byte all-zero vector, the ephemeral field of a group envelope.
fn zero_key() -> (r: Vec<u8>)
    ensures
        r@ == spec_zero_key(),
{
    let z = vec![0u8; 32];
    proof {
        assert(z@ =~= spec_zero_key());
    }
    z
}

/// Group channel for multiple agents: a symmetric key derived from the
/// creator's seed and the group name, shared out of band. Membership is
/// advisory metadata; it is not enforced by key distribution.
pub struct WaterscapeGroup {
    name: String,
    members: Vec<PublicIdentity>,
    group_key: Vec<u8>,
}

impl WaterscapeGroup {
    /// The 32-byte group key, visible to contracts only.
    pub closed spec fn spec_key(&self) -> Seq<u8> {
        self.group_key@
    }

    /// The group name, visible to contracts only.
    pub closed spec fn spec_name(&self) -> Seq<char> {
        self.name@
    }

    /// The member list, visible to contracts only.
    pub closed spec fn spec_members(&self) -> Seq<PublicIdentity> {
        self.members@
    }

    /// Well-formed: the group key is 32 bytes.
    pub closed spec fn wf(&self) -> bool {
        self.group_key@.len() == 32
    }

    /// Create a group: the key is `spec_group_key` of the creator's seed
    /// and the name, so it is identical for identical creator and name.
    pub fn new(name: &str, creator: &Agent, members: Vec<PublicIdentity>) -> (r: Self)
        requires
            creator.wf(),
        ensures
            r.wf(),
            r.spec_key() == spec_group_key(creator.spec_signing_seed(), name@),
            r.spec_name() == name@,
            r.spec_members() == members@,
    {
        let mut ikm = creator.export_signing_key();
        let mut name_bytes = name.as_bytes_vec();
        ikm.append(&mut name_bytes);
        let group_key = crypto::sha256(ikm.as_slice());
        WaterscapeGroup { name: name.to_string(), members, group_key }
    }

    /// Encode a message for the group: as pairwise, except the session key
    /// is the group key, the ephemeral field is all zero, and the metadata
    /// field carries the group name.
    pub fn encode(&self, sender: &Agent, cover_text: &str, secret: &str) -> (r: Result<
        String,
        WaterscapeError,
    >)
        requires
            self.wf(),
            sender.wf(),
        ensures
            r matches Err(e) ==> (e matches WaterscapeError::Crypto(_) || (cover_text@.len() == 0
                && e == WaterscapeError::CoverTextTooShort { needed: 1usize, available: 0usize })),
            cover_text@.len() == 0 ==> r is Err,
            cover_text@.len() > 0 && secret@.len() <= MAX_SECRET_LEN && self.spec_name().len()
                <= MAX_SECRET_LEN ==> r is Ok,
            r matches Ok(carrier) ==> stego::visible_filter(carrier@) == stego::visible_filter(
                cover_text@,
            ) && carrier@.contains(stego::START) && carrier@.contains(stego::END),
            r matches Ok(carrier) ==> (stego::clean_cover(cover_text@) ==> stego::visible_filter(
                carrier@,
            ) == cover_text@ && (exists|n: Seq<u8>, ts: u64|
                spec_group_carrier(
                    self.spec_key(),
                    sender.spec_signing_seed(),
                    secret@,
                    self.spec_name(),
                    n,
                    ts,
                    carrier@,
                ))),
    {
        let nonce = crypto::generate_nonce();
        let timestamp = now_unix_seconds();
        let metadata = Some(self.name.clone());
        let payload_bytes = envelope::serialize_payload(secret, timestamp, &metadata);
        proof {
            envelope::lemma_payload_bytes_len(
                secret@,
                timestamp,
                envelope::opt_string_view(Some(self.name)),
            );
        }
        let ciphertext = match crypto::encrypt(
            self.group_key.as_slice(),
            nonce.as_slice(),
            payload_bytes.as_slice(),
        ) {
            Ok(ct) => ct,
            Err(e) => {
                return Err(e);
            },
        };
        let signature = sender.signing_keypair().sign(ciphertext.as_slice());
        let sender_key = sender.signing_keypair().verifying_key_bytes();
        let message = WaterscapeMessage {
            version: PROTOCOL_VERSION,
            nonce,
            sender_key,
            ephemeral_key: zero_key(),
            ciphertext,
            signature,
        };
        let message_bytes = match message.to_bytes() {
            Ok(b) => b,
            Err(e) => {
                return Err(e);
            },
        };
        match stego::hide_in_text(cover_text, message_bytes.as_slice()) {
            Ok(carrier) => {
                proof {
                    sender.lemma_wf_lens();
                    if stego::clean_cover(cover_text@) {
                        assert(spec_group_carrier(
                            self.spec_key(),
                            sender.spec_signing_seed(),
                            secret@,
                            self.spec_name(),
                            message.nonce@,
                            timestamp,
                            carrier@,
                        ));
                    }
                }
                Ok(carrier)
            },
            Err(e) => Err(e),
        }
    }

    /// Decode a group message: reject any version other than 1, verify the
    /// signature against the embedded sender key, decrypt with the group
    /// key, return the content. The member list is not consulted.
    pub fn decode(&self, text: &str) -> (r: Result<String, WaterscapeError>)
        requires
            self.wf(),
        ensures
            stego::spec_extract(text@) is None ==> r == Err::<String, WaterscapeError>(
                WaterscapeError::NoHiddenMessage,
            ),
            forall|seed: Seq<u8>, secret: Seq<char>, n: Seq<u8>, ts: u64|
                #[trigger] spec_group_carrier(
                    self.spec_key(),
                    seed,
                    secret,
                    self.spec_name(),
                    n,
                    ts,
                    text@,
                ) ==> (r matches Ok(s) && s@ == secret),
            stego::spec_extract(text@) matches Some(d) ==> spec_outcome_matches(
                spec_decrypt_outcome(self.spec_key(), d, true),
                r,
            ),
    {
        let message_bytes = match stego::extract_from_text(text) {
            Ok(b) => b,
            Err(e) => {
                proof {
                    lemma_group_decode_setup(self.spec_key(), self.spec_name(), text@);
                }
                return Err(e);
            },
        };
        let message = match WaterscapeMessage::from_bytes(message_bytes.as_slice()) {
            Ok(m) => m,
            Err(e) => {
                proof {
                    lemma_group_decode_setup(self.spec_key(), self.spec_name(), text@);
                }
                return Err(e);
            },
        };
        if message.version != PROTOCOL_VERSION {
            proof {
                lemma_group_decode_setup(self.spec_key(), self.spec_name(), text@);
            }
            return Err(
                WaterscapeError::VersionMismatch {
                    expected: PROTOCOL_VERSION,
                    got: message.version,
                },
            );
        }
        if message.signature.len() != 64 {
            proof {
                lemma_group_decode_setup(self.spec_key(), self.spec_name(), text@);
            }
            return Err(WaterscapeError::Crypto("Invalid signature length".to_string()));
        }
        match crypto::verify_signature(
            message.sender_key.as_slice(),
            message.ciphertext.as_slice(),
            message.signature.as_slice(),
        ) {
            Ok(()) => {},
            Err(e) => {
                proof {
                    lemma_group_decode_setup(self.spec_key(), self.spec_name(), text@);
                }
                return Err(e);
            },
        }
        let payload_bytes = match crypto::decrypt(
            self.group_key.as_slice(),
            message.nonce.as_slice(),
            message.ciphertext.as_slice(),
        ) {
            Ok(pb) => pb,
            Err(e) => {
                proof {
                    lemma_group_decode_setup(self.spec_key(), self.spec_name(), text@);
                }
                return Err(e);
            },
        };
        let result = match envelope::parse_payload(payload_bytes.as_slice()) {
            Ok(p) => Ok(p.content),
            Err(e) => Err(e),
        };
        proof {
            lemma_group_decode_setup(self.spec_key(), self.spec_name(), text@);
        }
        result
    }

    /// The group name.
    pub fn name(&self) -> (r: &str)
        ensures
            r@ == self.spec_name(),
    {
        self.name.as_str()
    }

    /// The member list, in construction order.
    pub fn members(&self) -> (r: &[PublicIdentity])
        ensures
            r@ == self.spec_members(),
    {
        self.members.as_slice()
    }
}

/// For every channel carrier shape: its extracted bytes are the envelope
/// bytes of that shape.
proof fn lemma_channel_decode_setup(key: Seq<u8>, text: Seq<char>)
    ensures
        forall|seed: Seq<u8>, eph: Seq<u8>, secret: Seq<char>, md: Option<Seq<char>>, n: Seq<u8>, ts: u64|
            #[trigger] spec_channel_carrier(key, seed, eph, secret, md, n, ts, text)
                ==> stego::spec_extract(text) == Some(
                spec_envelope_bytes(
                    1,
                    n,
                    crypto::ed25519_verifying_key(seed),
                    eph,
                    crypto::chacha_seal(key, n, spec_payload_bytes(secret, ts, md)),
                    crypto::ed25519_signature(
                        seed,
                        crypto::chacha_seal(key, n, spec_payload_bytes(secret, ts, md)),
                    ),
                ),
            ),
{
    assert forall|seed: Seq<u8>, eph: Seq<u8>, secret: Seq<char>, md: Option<Seq<char>>, n: Seq<u8>, ts: u64|
        #[trigger] spec_channel_carrier(key, seed, eph, secret, md, n, ts, text)
        implies stego::spec_extract(text) == Some(
        spec_envelope_bytes(
            1,
            n,
            crypto::ed25519_verifying_key(seed),
            eph,
            crypto::chacha_seal(key, n, spec_payload_bytes(secret, ts, md)),
            crypto::ed25519_signature(
                seed,
                crypto::chacha_seal(key, n, spec_payload_bytes(secret, ts, md)),
            ),
        ),
    ) by {
        let pb = spec_payload_bytes(secret, ts, md);
        let ct = crypto::chacha_seal(key, n, pb);
        let vk = crypto::ed25519_verifying_key(seed);
        let sig = crypto::ed25519_signature(seed, ct);
        stego::lemma_extract_of_hidden(text, spec_envelope_bytes(1, n, vk, eph, ct, sig));
    }
}

/// For every group carrier shape: its extracted bytes are the envelope
/// bytes of that shape.
proof fn lemma_group_decode_setup(group_key: Seq<u8>, group_name: Seq<char>, text: Seq<char>)
    ensures
        forall|seed: Seq<u8>, secret: Seq<char>, n: Seq<u8>, ts: u64|
            #[trigger] spec_group_carrier(group_key, seed, secret, group_name, n, ts, text)
                ==> stego::spec_extract(text) == Some(
                spec_envelope_bytes(
                    1,
                    n,
                    crypto::ed25519_verifying_key(seed),
                    spec_zero_key(),
                    crypto::chacha_seal(group_key, n, spec_payload_bytes(secret, ts, Some(group_name))),
                    crypto::ed25519_signature(
                        seed,
                        crypto::chacha_seal(
                            group_key,
                            n,
                            spec_payload_bytes(secret, ts, Some(group_name)),
                        ),
                    ),
                ),
            ),
{
    assert forall|seed: Seq<u8>, secret: Seq<char>, n: Seq<u8>, ts: u64|
        #[trigger] spec_group_carrier(group_key, seed, secret, group_name, n, ts, text)
        implies stego::spec_extract(text) == Some(
        spec_envelope_bytes(
            1,
            n,
            crypto::ed25519_verifying_key(seed),
            spec_zero_key(),
            crypto::chacha_seal(group_key, n, spec_payload_bytes(secret, ts, Some(group_name))),
            crypto::ed25519_signature(
                seed,
                crypto::chacha_seal(
                    group_key,
                    n,
                    spec_payload_bytes(secret, ts, Some(group_name)),
                ),
            ),
        ),
    ) by {
        let pb = spec_payload_bytes(secret, ts, Some(group_name));
        let ct = crypto::chacha_seal(group_key, n, pb);
        let vk = crypto::ed25519_verifying_key(seed);
        let sig = crypto::ed25519_signature(seed, ct);
        stego::lemma_extract_of_hidden(
            text,
            spec_envelope_bytes(1, n, vk, spec_zero_key(), ct, sig),
        );
    }
}

/// For every pairwise carrier shape: its extracted bytes are the envelope
/// bytes of that shape.
proof fn lemma_decode_completeness_setup(recv_xsec: Seq<u8>, text: Seq<char>, extracted: Seq<u8>)
    ensures
        forall|seed: Seq<u8>, xsec: Seq<u8>, secret: Seq<char>, n: Seq<u8>, ts: u64|
            #[trigger] spec_pairwise_carrier(
                seed,
                xsec,
                crypto::x25519_public(recv_xsec),
                secret,
                n,
                ts,
                text,
            ) ==> stego::spec_extract(text) == Some(
                spec_envelope_bytes(
                    1,
                    n,
                    crypto::ed25519_verifying_key(seed),
                    crypto::x25519_public(xsec),
                    crypto::chacha_seal(
                        spec_session_key(
                            crypto::x25519_shared(xsec, crypto::x25519_public(recv_xsec)),
                        ),
                        n,
                        spec_payload_bytes(secret, ts, None),
                    ),
                    crypto::ed25519_signature(
                        seed,
                        crypto::chacha_seal(
                            spec_session_key(
                                crypto::x25519_shared(xsec, crypto::x25519_public(recv_xsec)),
                            ),
                            n,
                            spec_payload_bytes(secret, ts, None),
                        ),
                    ),
                ),
            ),
{
    assert forall|seed: Seq<u8>, xsec: Seq<u8>, secret: Seq<char>, n: Seq<u8>, ts: u64|
        #[trigger] spec_pairwise_carrier(
            seed,
            xsec,
            crypto::x25519_public(recv_xsec),
            secret,
            n,
            ts,
            text,
        ) implies stego::spec_extract(text) == Some(
        spec_envelope_bytes(
            1,
            n,
            crypto::ed25519_verifying_key(seed),
            crypto::x25519_public(xsec),
            crypto::chacha_seal(
                spec_session_key(crypto::x25519_shared(xsec, crypto::x25519_public(recv_xsec))),
                n,
                spec_payload_bytes(secret, ts, None),
            ),
            crypto::ed25519_signature(
                seed,
                crypto::chacha_seal(
                    spec_session_key(
                        crypto::x25519_shared(xsec, crypto::x25519_public(recv_xsec)),
                    ),
                    n,
                    spec_payload_bytes(secret, ts, None),
                ),
            ),
        ),
    ) by {
        let key = spec_session_key(crypto::x25519_shared(xsec, crypto::x25519_public(recv_xsec)));
        let pb = spec_payload_bytes(secret, ts, None);
        let ct = crypto::chacha_seal(key, n, pb);
        let vk = crypto::ed25519_verifying_key(seed);
        let sig = crypto::ed25519_signature(seed, ct);
        stego::lemma_extract_of_hidden(
            text,
            spec_envelope_bytes(1, n, vk, crypto::x25519_public(xsec), ct, sig),
        );
    }
}

} // verus!


//! Error taxonomy of the Waterscape protocol.

use vstd::prelude::*;

verus! {

/// Every failure a Waterscape operation can surface to a caller.
///
/// String payloads carry a human-readable reason; contracts in this crate pin
/// the variant (and the numeric payloads), never the wording.
#[derive(Debug, Clone, PartialEq, Eq)]
pub enum WaterscapeError {
    /// Internal cryptographic library error or malformed key material.
    Crypto(String),
    /// Unable to hide a payload steganographically.
    Encoding(String),
    /// A hidden region is present but malformed.
    Decoding(String),
    /// A signature did not verify against the declared sender key.
    InvalidSignature,
    /// Key exchange could not be carried out.
    KeyExchange(String),
    /// The cover text cannot carry the payload.
    CoverTextTooShort { needed: usize, available: usize },
    /// Start and end markers are absent or inverted.
    NoHiddenMessage,
    /// The AEAD tag failed: wrong key or tampered ciphertext.
    AuthenticationFailed,
    /// Reserved for higher-level policy checks.
    Unauthorized,
    /// The envelope version is not recognised.
    VersionMismatch { expected: u8, got: u8 },
    /// The envelope or inner payload could not be parsed.
    Serialization(String),
}

} // verus!

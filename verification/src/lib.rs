//! Waterscape: end-to-end encrypted messages concealed inside ordinary text.
//!
//! A sender hides an authenticated, encrypted payload inside a cover string
//! by interleaving zero-width codepoints with the visible characters; only
//! the designated recipient (or a holder of the group key) can recover the
//! plaintext. The crate is organised leaves first: cryptographic primitives,
//! the zero-width steganographic codec, the textual envelope format, and the
//! pairwise / group orchestration on top.

pub mod agent;
pub mod crypto;
pub mod envelope;
pub mod error;
pub mod protocol;
pub mod stego;
mod text;
pub mod wire;

pub use agent::Agent;
pub use error::WaterscapeError;
pub use protocol::Waterscape;
pub use protocol::WaterscapeChannel;
pub use protocol::WaterscapeGroup;

//! Authenticated, transport-independent sessions for Tutti peers.
//!
//! One Ed25519-authenticated ephemeral X25519 handshake establishes
//! directional channel keys. Subsequent transport frames use a short keyed
//! BLAKE3 tag and a replay window; they do not perform public-key operations.
//! Frame contents are authenticated, not encrypted.
//!
//! Discovery, trust policy (pinning, first use, allow lists), retransmission
//! and packet sizing remain with the caller.

pub mod error;
pub mod handshake;
pub mod identity;
pub mod keys;
pub mod replay;

pub use error::{ReplayError, SessionError};
pub use handshake::{Answer, Offer, PendingInitiator, VerifiedOffer, ANSWER_BYTES, OFFER_BYTES};
pub use identity::{ChannelBinding, EphemeralSecret, PeerIdentity, ProtocolId, SigningKey};
pub use keys::{DirectionalSecrets, SessionKeys, TAG_BYTES};
pub use replay::ReplayWindow;

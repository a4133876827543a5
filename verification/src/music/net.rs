//! Music-lane network identities.
//!
//! The constants a peer needs to join a room's music lane over range-based set
//! reconciliation. The lane is the authenticated ALPN itself: a peer that does not
//! speak music never gets past negotiation. The strategy name and version together
//! form the session's strategy identity.

use vstd::prelude::*;

verus! {

/// ALPN for the music lane's range-based set reconciliation: the bytes of
/// `tutti/music/rbsr/3`.
pub const MUSIC_RBSR_ALPN: [u8; 18] = [
    0x74, 0x75, 0x74, 0x74, 0x69, 0x2f, 0x6d, 0x75, 0x73, 0x69, 0x63, 0x2f,
    0x72, 0x62, 0x73, 0x72, 0x2f, 0x33,
];

/// Strategy name for the music lane.
pub const MUSIC_STRATEGY_NAME: &'static str = "tutti-music-entryhash";

/// Generation of the lane anti-entropy contract. Distinct from the music
/// language's wire schema, which stays pinned: only the repair and discovery
/// generation moves.
pub const LANE_STRATEGY_VERSION: u32 = 3;

} // verus!

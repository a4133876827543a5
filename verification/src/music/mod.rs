//! The music protocol: pitch sets, tunings, facets and room-wide settings as
//! bounded, convergent state.

pub mod facets;
pub mod fixed;
pub mod net;
pub mod ops;
pub mod pattern;
pub mod presence;
pub mod roundtable;
pub mod shared_set;
pub mod source;
pub mod tuning;

pub use facets::{Envelope, Interp, MAX_ENV_LEVEL};
pub use fixed::{
    FixedBitSet, FixedPresenceApply, FixedPresenceDiff, FixedPresenceRegisters, FixedPresenceSet,
    PresenceError,
};
pub use net::{LANE_STRATEGY_VERSION, MUSIC_RBSR_ALPN, MUSIC_STRATEGY_NAME};
pub use ops::{MusicOp, OpLimits};
pub use pattern::{RoundTableInputGate, RoundTablePattern, MAX_PATTERN_NOTES};
pub use presence::{PitchSetDiff, PresenceApply, PresenceLimits, PresenceRegisters, PresenceSet};
pub use roundtable::{
    RoundTableConfig, RoundTableConfigError, RoundTablePitchMode, RoundTableScale,
};
pub use shared_set::SharedPitchSet;
pub use tuning::{TunedDegree, TunedPeriodicPitch, Tuning, TuningDefinition, TuningId};

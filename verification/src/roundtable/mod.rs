//! Bounded, transport-independent live coordination for Tutti's round-table
//! bass performance.
//!
//! Durable musical parameters live in [`crate::music`] and converge through the
//! history adapter. This module owns only short-lived run epochs, deterministic
//! turn assignment, pulse selection, and a compact body codec. Authentication,
//! replay protection, clocks, retransmission, discovery, and audio remain the
//! caller's responsibility.

pub mod codec;
pub mod participant;
pub mod pitch;
pub mod pulse;
pub mod roster;
pub mod run;

pub use codec::{decode, encode, ConfigState, EncodedFrame, Frame, FrameError, Pulse, MAX_FRAME_BYTES};
pub use participant::{ParticipantId, RunEpoch};
pub use pulse::plan_pulse;
pub use roster::Roster;
pub use run::{resolve_run_state, RunState};

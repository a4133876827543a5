//! The AMY render leaf: what drives a synthesizer along a timeline of pitch
//! sets, and what is measured of the result.
//!
//! The engine itself, its audio blocks and the levels measured in floating point
//! belong to the application.

pub mod drive;
pub mod pcm;
pub mod room;
pub mod scenario;

pub use drive::{ledger, parse_event, plan_drive, DrivePlan, EventLedger};
pub use pcm::{peak, wav_bytes};
pub use room::{
    envelope_note_on_wire, held_degree_events, osc_of, pluck, room_definition, room_tuning, swell,
    EDO, MAX_OSCS,
};
pub use scenario::{
    envelope_chain, run_envelope_scenario, run_scenario, script_a, script_b, EnvelopeScenario,
    Scenario,
};

//! The music replica: command framing, admission rules, and the fold of a causal
//! history into one music view.
//!
//! Storage, proofs and the exchange of entries belong to the application. What
//! they decide enters here as plain values.

pub mod admission;
pub mod causal;
pub mod command;
pub mod fold;
pub mod history;
pub mod ids;
pub mod materializer;
pub mod meaning;
pub mod provisioning;
pub mod repair;
pub mod view;

pub use admission::{
    delegation_grant, root_grant, AdmissionBounds, AdmittedAuthority, CapabilityOp, Grant,
    MusicAdmissionPolicy, MusicAuthority, Payload, Presentation, Revoke, Right, Rights,
};
pub use causal::Command;
pub use command::{
    command_area, decode_command, encode_command, notes_area, performance_area, strip_domain,
    tuning_area, Area, CommandCodecError, CommandEnvelope, PresentedError, COMMAND_DOMAIN,
    PROTOCOL_GENERATION, REPAIR_ALPN, STRATEGY_NAME, STRATEGY_VERSION,
};
pub use fold::{fold_state, fold_tunings, round_table_settings, FoldState};
pub use history::{History, HistoryError};
pub use ids::{ActorId, Digest, EntryHash};
pub use materializer::{
    authorization_question, materialize, materialize_open, projection_name, AuthorizationQuestion,
    JudgedEntry, MusicMaterializer, UpdatePlan, PROJECTION_SCHEMA,
};
pub use provisioning::{
    author, author_as, author_open, possession_probe, preflight_embedded_capability_bundle,
    prove_embedded_capability_possession, require_selected_leaves, AuthoredCommand,
    EmbeddedProvisioningError, MusicVocabularyProfile, EMBEDDED_CAPABILITY_BUNDLE_BYTES,
    EMBEDDED_REPAIR_FRAME_BYTES, EMBEDDED_VOCABULARY_GENERATION,
};
pub use repair::RepairQueue;
pub use view::{materialize_commands, MusicView};

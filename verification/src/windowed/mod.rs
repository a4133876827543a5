//! The bounded-window store: lifting operations into a causal window, parking
//! those whose past is incomplete, and compacting what no later fold can need.
//!
//! The window's graph, its packed ancestry summary and the hashing of entries
//! belong to the application. What they answer enters here as plain values.

pub mod journal;
pub mod meaning;
pub mod store;

pub use journal::{DiscardBatchRef, DiscardBatchSeq, DiscardHistory, DiscardPath};
pub use store::{
    AuthorId, Compaction, CourierContext, DeferredLift, DeferredLiftError, FloorAnswer, LogHead,
    OpId, PreparedCommit, TryLift, WindowIngest, WindowOp, WindowedStore,
};

//! Delayed-field exchange and write-set finalization for speculative,
//! multi-version block execution.
//!
//! While a transaction runs, the values of shared counters (aggregators and
//! their snapshots) stand in resource bytes as ephemeral identifiers. This
//! crate mints those identifiers, lifts values to identifiers and resolves
//! identifiers back to values, recovers the identifiers that a blob holds,
//! and finalizes resource groups and plain resource writes into
//! storage-ready bytes. Beside it stand the decisions of DAG state sync, of
//! staged transaction generation and of the leader-reputation window.
mod encoding;

pub mod dag_sync;
pub mod errors;
pub mod exchange;
pub mod executor_utilities;
pub mod ids;
pub mod layout;
pub mod leader_reputation;
pub mod view;
pub mod workflow;
pub mod write_op;

pub use dag_sync::SyncOutcome;
pub use layout::{
    DelayedFieldValue, DelayedWidth, FieldLayout, IdentifierMappingKind, MoveTypeLayout,
};
pub use workflow::StageTracking;

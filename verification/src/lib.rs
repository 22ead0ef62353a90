//! A linearizability checker for histories of concurrent operations.
//!
//! A history is linearizable when its operations can be ordered into a
//! sequential execution that respects real-time precedence and is accepted,
//! step by step, by a sequential model.
pub mod arena;
pub mod bitset;
pub mod checker;
pub mod clock;
pub mod entries;
pub mod events;
pub mod fxmap;
pub mod history;
pub mod invariants;
pub mod model;
pub mod search;
pub mod types;

pub use model::Model;
pub use types::{CheckResult, Event, EventKind, LinearizationInfo, Operation};

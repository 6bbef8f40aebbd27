//! A verified task-tree engine for a hierarchical TODO list.
//!
//! Tasks own nested subtasks, carry a priority, a due date and a binary
//! completion state. The engine covers the recursive data model, the
//! completion state machine, identity-based and name-based lookup,
//! pre-order traversal, the listing filter and the persistence codec.

use vstd::prelude::*;

pub mod codec;
pub mod date;
pub mod list;
pub mod listing;
pub mod ops;
pub mod resolve;
pub mod sys;
pub mod task;

verus! {

/// The engine's error taxonomy.
#[derive(Clone, Copy, PartialEq, Eq, Structural, Debug)]
pub enum EngineError {
    /// A name or identity resolved to no node.
    NotFound,
    /// A node could not be completed because a direct child is incomplete.
    BlockedByIncompleteChildren,
    /// A numeric or index input was malformed or out of range.
    InvalidInput,
    /// A persisted document could not be decoded.
    PersistenceFailure,
}

} // verus!

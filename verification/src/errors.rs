//! Error taxonomy of the engine.
//!
//! `Storage` reports the underlying key-value store, `Serialization` a
//! canonical-bytes failure, `Validation` an operation that arrived before
//! its `Create`, `Graph` a structural fault of the DAG, and `Internal` an
//! invariant violation carrying a fixed message.

use vstd::prelude::*;
use crate::cid::ContentId;

verus! {

/// Faults of a single node's construction.
#[derive(Clone, Copy, Debug, PartialEq, Eq, Structural)]
pub enum NodeValidationError {
    EmptyPayload,
    /// The parent identifier is already present on the node.
    InvalidParent,
    /// The node would name itself as a parent.
    CircularReference,
    MetadataValidation,
}

/// Faults of content identifiers and canonical encodings.
#[derive(Clone, Copy, Debug, PartialEq, Eq, Structural)]
pub enum DaslError {
    Serialization,
    Deserialization,
    /// A supplied string or byte sequence does not decode to an identifier.
    InvalidCid,
    CidVerificationFailed,
    IntegrityVerificationFailed,
    NodeValidation(NodeValidationError),
}

/// Faults of the DAG engine.
#[derive(Clone, Debug)]
pub enum GraphError {
    Storage,
    /// Persisting the node would close a directed cycle.
    CycleDetected,
    NodeNotFound(ContentId),
    Internal(String),
}

/// An operation that refers to a family with no `Create` in its log.
#[derive(Clone, Copy, Debug, PartialEq, Eq, Structural)]
pub enum ValidationError {
    MissingCreate,
}

/// Faults surfaced by the repository and the operation log.
#[derive(Clone, Debug)]
pub enum CrdtError {
    Storage,
    Serialization,
    Validation(ValidationError),
    Graph(GraphError),
    Internal(String),
}

/// Faults of the shared write batch.
#[derive(Clone, Copy, Debug, PartialEq, Eq, Structural)]
pub enum BatchError {
    /// A batch is already active on the shared store.
    AlreadyActive,
    /// The store refused the batch commit.
    Commit,
}

} // verus!

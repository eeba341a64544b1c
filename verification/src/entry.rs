//! A plain DAG entry without a genesis reference.
//!
//! The earliest shape of a stored version: payload, parents, timestamp
//! and free-form metadata, with no family pointer yet. Kept for callers
//! that only need the bare record.

use vstd::prelude::*;
use crate::cid::ContentId;
use crate::metadata::ContentMetadata;

verus! {

/// One bare version record.
#[derive(Clone, Debug)]
pub struct Entry {
    pub payload: String,
    pub parents: Vec<ContentId>,
    pub timestamp: u64,
    pub metadata: ContentMetadata,
}

impl Entry {
    /// Bundles the fields of a record.
    pub fn new(
        payload: String,
        parents: Vec<ContentId>,
        timestamp: u64,
        metadata: ContentMetadata,
    ) -> (r: Entry)
        ensures
            r.payload == payload,
            r.parents == parents,
            r.timestamp == timestamp,
            r.metadata == metadata,
    {
        Entry { payload, parents, timestamp, metadata }
    }

    /// The payload of the record.
    pub fn payload(&self) -> (r: &String)
        ensures
            r == self.payload,
    {
        &self.payload
    }

    /// The parent identifiers of the record.
    pub fn parents(&self) -> (r: &Vec<ContentId>)
        ensures
            r == self.parents,
    {
        &self.parents
    }

    /// The timestamp of the record.
    pub fn timestamp(&self) -> (r: u64)
        ensures
            r == self.timestamp,
    {
        self.timestamp
    }

    /// The metadata of the record.
    pub fn metadata(&self) -> (r: &ContentMetadata)
        ensures
            r == self.metadata,
    {
        &self.metadata
    }

    /// A bare record carries no constraint of its own.
    pub fn verify(&self) -> (r: bool)
        ensures
            r,
    {
        true
    }

    /// Nor do its parent references.
    pub fn verify_parent(&self) -> (r: bool)
        ensures
            r,
    {
        true
    }
}

} // verus!

//! A DAG record without the family pointer.
//!
//! An intermediate shape of a stored version: payload, parents,
//! timestamp and metadata, identified by content but not yet tied to a
//! genesis. `Node` supersedes it; the type stays for callers of the
//! bare record.

use vstd::prelude::*;
use crate::cid::ContentId;
use crate::metadata::ContentMetadata;

verus! {

/// One version record without a genesis reference.
#[derive(Clone, Debug)]
pub struct DagNode {
    pub payload: String,
    pub parents: Vec<ContentId>,
    pub timestamp: u64,
    pub metadata: ContentMetadata,
}

impl DagNode {
    /// Bundles the fields of a record.
    pub fn new(
        payload: String,
        parents: Vec<ContentId>,
        timestamp: u64,
        metadata: ContentMetadata,
    ) -> (r: DagNode)
        ensures
            r.payload == payload,
            r.parents == parents,
            r.timestamp == timestamp,
            r.metadata == metadata,
    {
        DagNode { payload, parents, timestamp, metadata }
    }

    /// Appends a parent identifier.
    pub fn add_parent(&mut self, cid: ContentId)
        ensures
            final(self).parents@ == old(self).parents@.push(cid),
            final(self).payload == old(self).payload,
            final(self).timestamp == old(self).timestamp,
            final(self).metadata == old(self).metadata,
    {
        self.parents.push(cid);
    }

    /// The payload of the record.
    pub fn payload(&self) -> (r: &String)
        ensures
            r == self.payload,
    {
        &self.payload
    }

    /// The parent identifiers of the record.
    pub fn parents(&self) -> (r: &Vec<ContentId>)
        ensures
            r == self.parents,
    {
        &self.parents
    }

    /// The timestamp of the record.
    pub fn timestamp(&self) -> (r: u64)
        ensures
            r == self.timestamp,
    {
        self.timestamp
    }

    /// The metadata of the record.
    pub fn metadata(&self) -> (r: &ContentMetadata)
        ensures
            r == self.metadata,
    {
        &self.metadata
    }
}

} // verus!

//! Conflict resolution: building the merge node for a family's heads.
//!
//! The resolver loads each head's payload and timestamp from the DAG,
//! lets the policy converge them to one payload, and builds a fresh
//! merge node whose parents are all the heads and whose metadata comes
//! from the first head, so the policy tag carries through.

use vstd::prelude::*;
use crate::cid::ContentId;
use crate::dag::{DagGraph, has_cid, node_of};
use crate::errors::CrdtError;
use crate::node::{Node, node_eq};
use crate::policy::{MergePolicy, ResolveInput};

verus! {

/// The candidate list handed to the policy: one entry per head, with
/// that head's payload and timestamp as the DAG stores them.
pub open spec fn resolve_inputs_for(
    s: Seq<crate::dag::DagEntry>,
    heads: Seq<ContentId>,
    inputs: Seq<ResolveInput>,
) -> bool {
    &&& inputs.len() == heads.len()
    &&& forall|j: int|
        0 <= j < heads.len() ==> (#[trigger] inputs[j]).cid@ == heads[j]@ && inputs[j].payload@
            == node_of(s, heads[j]@).payload@ && inputs[j].timestamp == node_of(
            s,
            heads[j]@,
        ).timestamp
}

/// Orchestrates merge resolution over the DAG.
#[derive(Debug, Default)]
pub struct ConflictResolver;

impl ConflictResolver {
    pub fn new() -> (r: ConflictResolver)
    {
        ConflictResolver
    }

    /// Builds the merge node for the given heads: parents are all heads,
    /// the payload is the policy's resolution over the heads' payloads,
    /// the metadata is the first head's. Fails when no head is given or
    /// one is missing from the DAG.
    pub fn create_merge_node<P: MergePolicy>(
        &self,
        heads: &Vec<ContentId>,
        dag: &DagGraph,
        genesis: &ContentId,
        timestamp: u64,
        policy: &P,
    ) -> (r: Result<Node, CrdtError>)
        requires
            dag.wf(),
        ensures
            heads@.len() == 0 ==> r is Err,
            heads@.len() > 0 && (forall|j: int|
                0 <= j < heads@.len() ==> has_cid(dag.nodes@, (#[trigger] heads@[j])@)) ==> (r
                matches Ok(n) && crate::node::cid_seq_eq(n.parents@, heads@)
                && crate::dag::genesis_is(n, genesis@) && n.timestamp == timestamp
                && crate::metadata::meta_eq(n.metadata, node_of(dag.nodes@, heads@[0]@).metadata)
                && (exists|inputs: Seq<ResolveInput>|
                #[trigger] resolve_inputs_for(dag.nodes@, heads@, inputs)
                    && policy.resolve_ensures(inputs, n.payload@))),
            r is Err ==> (r matches Err(e) && e is Internal),
            (exists|j: int| 0 <= j < heads@.len() && !has_cid(dag.nodes@, (#[trigger] heads@[j])@))
                ==> r is Err,
    {
        if heads.len() == 0 {
            return Err(
                CrdtError::Internal("merge resolution requires at least one head".to_owned()),
            );
        }
        let mut inputs: Vec<ResolveInput> = Vec::new();
        let mut t: usize = 0;
        while t < heads.len()
            invariant
                dag.wf(),
                0 <= t <= heads@.len(),
                inputs@.len() == t,
                forall|j: int|
                    0 <= j < t ==> has_cid(dag.nodes@, (#[trigger] heads@[j])@),
                forall|j: int|
                    0 <= j < t ==> (#[trigger] inputs@[j]).cid@ == heads@[j]@
                        && inputs@[j].payload@ == node_of(dag.nodes@, heads@[j]@).payload@
                        && inputs@[j].timestamp == node_of(dag.nodes@, heads@[j]@).timestamp,
            decreases heads@.len() - t,
        {
            let head_node = match dag.get_node(&heads[t]) {
                Some(n) => n,
                None => {
                    return Err(CrdtError::Internal("Head node not found".to_owned()));
                },
            };
            inputs.push(
                ResolveInput::new(
                    heads[t].duplicate(),
                    head_node.payload.as_str().to_owned(),
                    head_node.timestamp,
                ),
            );
            t = t + 1;
        }
        let merged_payload = policy.resolve(&inputs);
        let first = match dag.get_node(&heads[0]) {
            Some(n) => n,
            None => {
                proof {
                    assert(false);
                }
                return Err(CrdtError::Internal("Head node not found".to_owned()));
            },
        };
        let metadata = first.metadata.duplicate();
        let n = Node::new_child(
            merged_payload,
            crate::cid::dup_cid_vec(heads),
            genesis.duplicate(),
            timestamp,
            metadata,
        );
        proof {
            assert(resolve_inputs_for(dag.nodes@, heads@, inputs@));
        }
        Ok(n)
    }
}

} // verus!

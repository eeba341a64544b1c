//! Merge policies.
//!
//! A merge policy reconciles the concurrent heads of a family into a
//! single payload. The built-in last-write-wins policy picks the payload
//! of the head with the highest timestamp, the later candidate winning a
//! tie; custom policies implement the same trait and state their own
//! resolution guarantee.

use vstd::prelude::*;
use crate::cid::ContentId;

verus! {

/// What merge resolution considers of one candidate head.
#[derive(Clone, Debug)]
pub struct ResolveInput {
    /// The head's identifier.
    pub cid: ContentId,
    /// The head's payload.
    pub payload: String,
    /// The head's node timestamp.
    pub timestamp: u64,
}

impl ResolveInput {
    /// Bundles one candidate head.
    pub fn new(cid: ContentId, payload: String, timestamp: u64) -> (r: ResolveInput)
        ensures
            r.cid == cid,
            r.payload == payload,
            r.timestamp == timestamp,
    {
        ResolveInput { cid, payload, timestamp }
    }
}

/// A merge strategy that produces a converged payload from candidate
/// heads. Each implementation states what its resolution guarantees
/// through `resolve_ensures`.
pub trait MergePolicy {
    /// What the policy promises of its resolution.
    spec fn resolve_ensures(&self, nodes: Seq<ResolveInput>, r: Seq<char>) -> bool;

    /// What the policy's name is.
    spec fn name_ensures(&self, r: Seq<char>) -> bool;

    /// Resolves competing heads into a single payload.
    fn resolve(&self, nodes: &Vec<ResolveInput>) -> (r: String)
        requires
            nodes@.len() > 0,
        ensures
            self.resolve_ensures(nodes@, r@),
    ;

    /// A descriptive name of the policy.
    fn name(&self) -> (r: String)
        ensures
            self.name_ensures(r@),
    ;
}

/// The position last-write-wins picks: the highest timestamp, the later
/// candidate winning a tie.
pub open spec fn lww_winner(nodes: Seq<ResolveInput>, i: int) -> bool {
    &&& 0 <= i < nodes.len()
    &&& forall|j: int| 0 <= j < i ==> (#[trigger] nodes[j]).timestamp <= nodes[i].timestamp
    &&& forall|j: int| i < j < nodes.len() ==> (#[trigger] nodes[j]).timestamp < nodes[i].timestamp
}

/// Last-write-wins: selects the candidate with the greatest timestamp,
/// falling back to the later candidate on equal timestamps.
#[derive(Debug, Default)]
pub struct LwwMergePolicy;

impl MergePolicy for LwwMergePolicy {
    /// The built-in policy is named exactly `lww`.
    open spec fn name_ensures(&self, r: Seq<char>) -> bool {
        r == "lww"@
    }

    /// The payload of the winning candidate comes back.
    open spec fn resolve_ensures(&self, nodes: Seq<ResolveInput>, r: Seq<char>) -> bool {
        forall|i: int| #[trigger] lww_winner(nodes, i) ==> r == nodes[i].payload@
    }

    fn resolve(&self, nodes: &Vec<ResolveInput>) -> (r: String) {
        let mut bi: usize = 0;
        let mut t: usize = 1;
        while t < nodes.len()
            invariant
                0 < nodes@.len(),
                0 <= bi < t <= nodes@.len(),
                forall|j: int|
                    0 <= j < bi ==> (#[trigger] nodes@[j]).timestamp <= nodes@[bi as int].timestamp,
                forall|j: int|
                    bi < j < t ==> (#[trigger] nodes@[j]).timestamp < nodes@[bi as int].timestamp,
            decreases nodes@.len() - t,
        {
            if nodes[bi].timestamp <= nodes[t].timestamp {
                bi = t;
            }
            t = t + 1;
        }
        proof {
            assert(lww_winner(nodes@, bi as int));
            assert forall|i: int| #[trigger] lww_winner(nodes@, i) implies i == bi as int by {
                if i < bi {
                    assert(nodes@[bi as int].timestamp < nodes@[i].timestamp);
                    assert(nodes@[i].timestamp <= nodes@[bi as int].timestamp);
                } else if i > bi {
                    assert(nodes@[i].timestamp < nodes@[bi as int].timestamp);
                    assert(nodes@[bi as int].timestamp <= nodes@[i].timestamp);
                }
            };
        }
        nodes[bi].payload.as_str().to_owned()
    }

    fn name(&self) -> (r: String) {
        "lww".to_owned()
    }
}

} // verus!

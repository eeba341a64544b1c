//! The transactional repository.
//!
//! `commit_operation` is the single write entry point: it normalizes the
//! operation's parent context, runs auto-merge when a family has drifted
//! into several heads, builds the DAG node, and stages the node record
//! and the operation record in one write batch. Either everything of a
//! commit is published, or a failed commit leaves the log, the DAG and
//! the store exactly as they were.

use vstd::prelude::*;
use crate::cid::ContentId;
use crate::crdt_state::{CrdtState, family_ops};
use crate::dag::{DagGraph, has_cid, node_of, in_family, is_head, genesis_of, genesis_is, cid_in};
use crate::errors::{CrdtError, GraphError};
use crate::metadata::ContentMetadata;
use crate::node::{Node, cid_seq_eq};
use crate::operation::{Operation, OperationId, OperationKind, OperationType, kind_eq};
use crate::policy::LwwMergePolicy;
use crate::reducer::{is_last_max, opt_payload_eq};
use crate::resolver::ConflictResolver;
use crate::store::{Store, op_key, node_key};
use crate::timestamp::MonotonicClock;

verus! {

/// Whether some family operation carries a payload: what a delete can
/// inherit.
pub open spec fn has_family_payload(s: Seq<Operation>, g: Seq<u8>) -> bool {
    exists|j: int|
        0 <= j < s.len() && (#[trigger] s[j]).genesis@ == g && s[j].kind.payload_spec() is Some
}

/// The operation a delete inherits its payload from: the family
/// operation with a payload and the highest timestamp, the later entry
/// winning a tie.
pub open spec fn payload_winner(s: Seq<Operation>, g: Seq<u8>, j: int) -> bool {
    &&& 0 <= j < s.len()
    &&& s[j].genesis@ == g
    &&& s[j].kind.payload_spec() is Some
    &&& forall|k: int|
        0 <= k < j && (#[trigger] s[k]).genesis@ == g && s[k].kind.payload_spec() is Some
            ==> s[k].timestamp <= s[j].timestamp
    &&& forall|k: int|
        j < k < s.len() && (#[trigger] s[k]).genesis@ == g && s[k].kind.payload_spec() is Some
            ==> s[k].timestamp < s[j].timestamp
}

/// Whether the family has drifted into more than one head.
pub open spec fn needs_merge(s: Seq<crate::dag::DagEntry>, g: Seq<u8>) -> bool {
    exists|h1: Seq<u8>, h2: Seq<u8>|
        #![trigger is_head(s, g, h1), is_head(s, g, h2)]
        is_head(s, g, h1) && is_head(s, g, h2) && h1 != h2
}

/// The auto-merge entry condition of a commit: a local update or delete
/// without parents on a family with several heads.
pub open spec fn auto_merge_path(op: Operation, s: Seq<crate::dag::DagEntry>) -> bool {
    &&& op.node_timestamp is None
    &&& (op.kind.kind_spec() == OperationKind::Update || op.kind.kind_spec()
        == OperationKind::Delete)
    &&& op.parents@.len() == 0
    &&& needs_merge(s, op.genesis@)
}

/// Whether an operation repeats the content of some entry of the list.
pub open spec fn from_family(opv: Operation, fam: Seq<Operation>) -> bool {
    exists|i: int| 0 <= i < fam.len() && crate::operation::op_eq(opv, #[trigger] fam[i])
}

/// The repository: the operation log, the DAG, the clock and the shared
/// store, bound together by the commit protocol.
pub struct Repo {
    /// The operation log with the reducer over it.
    pub state: CrdtState,
    /// The content-addressed node graph.
    pub dag: DagGraph,
    /// The monotonic timestamp source.
    pub clock: MonotonicClock,
    /// The shared persistent store.
    pub store: Store,
}

impl Repo {
    /// A healthy repository: the graph is well-formed, the store's
    /// poison flag covers its handle, and no write batch is left open
    /// between commits.
    pub open spec fn wf(&self) -> bool {
        self.dag.wf() && self.store.wf() && !self.store.batch_active()
    }

    /// Opens a repository over a fresh in-memory store.
    pub fn new() -> (r: Result<Repo, CrdtError>)
        ensures
            r matches Ok(repo) ==> repo.wf() && repo.state.ops@.len() == 0
                && repo.dag.nodes@.len() == 0,
    {
        let store = match Store::open_memory() {
            Ok(st) => st,
            Err(_) => {
                return Err(CrdtError::Storage);
            },
        };
        Ok(
            Repo {
                state: CrdtState::new(),
                dag: DagGraph::new(),
                clock: MonotonicClock::new(),
                store,
            },
        )
    }

    /// The latest version of a family, or nothing on an unknown or
    /// headless genesis.
    pub fn latest(&self, genesis_id: &ContentId) -> (r: Option<ContentId>)
        requires
            self.wf(),
        ensures
            r is Some <==> exists|c: Seq<u8>| is_head(self.dag.nodes@, genesis_id@, c),
            r matches Some(c) ==> is_head(self.dag.nodes@, genesis_id@, c@) && (forall|h: Seq<u8>|
                #[trigger] is_head(self.dag.nodes@, genesis_id@, h) && h != c@
                    ==> crate::dag::head_lt(self.dag.nodes@, h, c@)),
    {
        self.dag.calculate_latest(genesis_id)
    }

    /// The genesis identifier of the family a node belongs to.
    pub fn get_genesis(&self, cid: &ContentId) -> (r: Result<ContentId, CrdtError>)
        requires
            self.wf(),
        ensures
            has_cid(self.dag.nodes@, cid@) ==> (r matches Ok(g) && g@ == genesis_of(
                self.dag.nodes@,
                cid@,
            )),
            !has_cid(self.dag.nodes@, cid@) ==> (r matches Err(e) && e matches CrdtError::Graph(
                ge,
            ) && ge is NodeNotFound),
    {
        match self.dag.get_genesis(cid) {
            Ok(g) => Ok(g),
            Err(e) => Err(CrdtError::Graph(e)),
        }
    }

    /// The state of a family under the last-write-wins reducer.
    pub fn get_state(&self, genesis: &ContentId) -> (r: Option<String>)
        ensures
            family_ops(self.state.ops@, genesis@).len() == 0 ==> r is None,
            forall|i: int|
                is_last_max(family_ops(self.state.ops@, genesis@), i) ==> opt_payload_eq(
                    r,
                    family_ops(self.state.ops@, genesis@)[i],
                ),
    {
        self.state.get_state(genesis)
    }

    /// The payload a delete inherits: the highest-timestamped payload in
    /// the family's log.
    fn latest_family_payload(&self, genesis: &ContentId) -> (r: Option<String>)
        ensures
            r is Some <==> has_family_payload(self.state.ops@, genesis@),
            r matches Some(p) ==> exists|j: int|
                #[trigger] payload_winner(self.state.ops@, genesis@, j)
                    && self.state.ops@[j].kind.payload_spec() == Some(p@),
    {
        let ghost s = self.state.ops@;
        let ghost g = genesis@;
        let mut best: Option<usize> = None;
        let mut t: usize = 0;
        while t < self.state.ops.len()
            invariant
                s == self.state.ops@,
                g == genesis@,
                0 <= t <= s.len(),
                match best {
                    Some(b) => {
                        &&& 0 <= b < t
                        &&& s[b as int].genesis@ == g
                        &&& s[b as int].kind.payload_spec() is Some
                        &&& forall|k: int|
                            0 <= k < t && (#[trigger] s[k]).genesis@ == g
                                && s[k].kind.payload_spec() is Some && k != b ==> (if k < b {
                                s[k].timestamp <= s[b as int].timestamp
                            } else {
                                s[k].timestamp < s[b as int].timestamp
                            })
                    },
                    None => forall|k: int|
                        0 <= k < t ==> !((#[trigger] s[k]).genesis@ == g
                            && s[k].kind.payload_spec() is Some),
                },
            decreases s.len() - t,
        {
            let is_candidate = self.state.ops[t].genesis == *genesis && match &self.state.ops[
                t
            ].kind {
                OperationType::Delete => false,
                _ => true,
            };
            if is_candidate {
                let replace = match best {
                    Some(b) => self.state.ops[b].timestamp <= self.state.ops[t].timestamp,
                    None => true,
                };
                if replace {
                    best = Some(t);
                }
            }
            t = t + 1;
        }
        match best {
            Some(b) => {
                proof {
                    assert(payload_winner(s, g, b as int));
                    assert forall|j: int| #[trigger] payload_winner(s, g, j) implies j
                        == b as int by {
                        if j < b as int {
                            assert(s[j].timestamp < s[b as int].timestamp);
                            assert(s[b as int].timestamp <= s[j].timestamp);
                        } else if j > b as int {
                            assert(s[b as int].timestamp < s[j].timestamp);
                            assert(s[j].timestamp <= s[b as int].timestamp);
                        }
                    };
                }
                match &self.state.ops[b].kind {
                    OperationType::Create(p) => Some(p.as_str().to_owned()),
                    OperationType::Update(p) => Some(p.as_str().to_owned()),
                    OperationType::Merge(p) => Some(p.as_str().to_owned()),
                    OperationType::Delete => {
                        proof {
                            assert(false);
                        }
                        None
                    },
                }
            },
            None => None,
        }
    }

    /// Resolves the metadata a new child node carries: the first
    /// parent's, else the genesis node's, else — only leniently, for
    /// imports whose context has not arrived — the default.
    fn resolve_metadata(
        &self,
        genesis: &ContentId,
        parents: &Vec<ContentId>,
        lenient: bool,
    ) -> (r: Result<ContentMetadata, CrdtError>)
        requires
            self.dag.wf(),
        ensures
            parents@.len() > 0 && has_cid(self.dag.nodes@, parents@[0]@) ==> (r matches Ok(md)
                && crate::metadata::meta_eq(md, node_of(self.dag.nodes@, parents@[0]@).metadata)),
            parents@.len() > 0 && !has_cid(self.dag.nodes@, parents@[0]@) && !lenient ==> (r
                matches Err(e) && e is Internal),
            (parents@.len() == 0 || (!has_cid(self.dag.nodes@, parents@[0]@) && lenient))
                && has_cid(self.dag.nodes@, genesis@) ==> (r matches Ok(md)
                && crate::metadata::meta_eq(md, node_of(self.dag.nodes@, genesis@).metadata)),
            (parents@.len() == 0 || (!has_cid(self.dag.nodes@, parents@[0]@) && lenient))
                && !has_cid(self.dag.nodes@, genesis@) && lenient ==> (r matches Ok(md)
                && md.policy_type is None),
            parents@.len() == 0 && !has_cid(self.dag.nodes@, genesis@) && !lenient ==> (r
                matches Err(e) && e is Internal),
    {
        if parents.len() > 0 {
            match self.dag.get_node(&parents[0]) {
                Some(n) => {
                    return Ok(n.metadata.duplicate());
                },
                None => {
                    if !lenient {
                        return Err(CrdtError::Internal("Parent node not found".to_owned()));
                    }
                },
            }
        }
        match self.dag.get_node(genesis) {
            Some(n) => Ok(n.metadata.duplicate()),
            None => {
                if lenient {
                    Ok(ContentMetadata::new())
                } else {
                    Err(CrdtError::Internal("Genesis not found".to_owned()))
                }
            },
        }
    }

    /// Checks that every listed parent belongs to the family of
    /// `genesis`.
    fn validate_parent_genesis(&self, genesis: &ContentId, parents: &Vec<ContentId>) -> (r: Result<
        (),
        CrdtError,
    >)
        requires
            self.dag.wf(),
        ensures
            r is Ok <==> forall|j: int|
                0 <= j < parents@.len() ==> has_cid(self.dag.nodes@, (#[trigger] parents@[j])@)
                    && genesis_of(self.dag.nodes@, parents@[j]@) == genesis@,
    {
        let mut t: usize = 0;
        while t < parents.len()
            invariant
                self.dag.wf(),
                0 <= t <= parents@.len(),
                forall|j: int|
                    0 <= j < t ==> has_cid(self.dag.nodes@, (#[trigger] parents@[j])@)
                        && genesis_of(self.dag.nodes@, parents@[j]@) == genesis@,
            decreases parents@.len() - t,
        {
            match self.dag.get_genesis(&parents[t]) {
                Ok(g) => {
                    if !(g == *genesis) {
                        return Err(
                            CrdtError::Internal("parent does not belong to genesis".to_owned()),
                        );
                    }
                },
                Err(_) => {
                    return Err(
                        CrdtError::Internal("parent does not belong to genesis".to_owned()),
                    );
                },
            }
            t = t + 1;
        }
        Ok(())
    }
}

impl Repo {
    /// Commits an operation: the transactional entry point.
    ///
    /// A merge operation is refused unless it is an import. For an
    /// update or delete without parents, the current head becomes the
    /// parent; when the family has several heads, auto-merge first
    /// reconciles them into a merge node and a synthetic merge
    /// operation, staged in the same batch. The new node record and the
    /// operation record are published atomically; a failed commit
    /// leaves the log, the graph and the store as they were.
    #[verifier::rlimit(100)]
    #[verifier::spinoff_prover]
    pub fn commit_operation(&mut self, op: Operation) -> (r: Result<ContentId, CrdtError>)
        requires
            old(self).wf(),
        ensures
            final(self).wf(),
            r is Err ==> final(self).state.ops@ == old(self).state.ops@ && final(self).dag.nodes@
                == old(self).dag.nodes@ && final(self).store.committed() == old(
                self,
            ).store.committed(),
            op.kind.kind_spec() == OperationKind::Merge && op.node_timestamp is None ==> r is Err,
            r matches Ok(c) ==> c.wf() && has_cid(final(self).dag.nodes@, c@),
            r is Ok ==> final(self).state.ops@.len() > old(self).state.ops@.len()
                && final(self).state.ops@.last().id@ == op.id@
                && kind_eq(final(self).state.ops@.last().kind, op.kind)
                && final(self).state.ops@.last().author@ == op.author@
                && final(self).state.ops@.last().timestamp == op.timestamp,
            op.kind.kind_spec() == OperationKind::Create && op.node_timestamp is Some
                && (r matches Ok(c)) ==> (r matches Ok(c2) && c2@ == op.genesis@),
            op.node_timestamp is None && op.parents@.len() > 0 && (op.kind.kind_spec()
                == OperationKind::Update || op.kind.kind_spec() == OperationKind::Delete) && r
                is Ok ==> forall|j: int|
                0 <= j < op.parents@.len() ==> has_cid(
                    final(self).dag.nodes@,
                    (#[trigger] op.parents@[j])@,
                ) && genesis_of(final(self).dag.nodes@, op.parents@[j]@) == op.genesis@,
            // a local update or delete without parents on a headless
            // family is refused
            op.node_timestamp is None && (op.kind.kind_spec() == OperationKind::Update
                || op.kind.kind_spec() == OperationKind::Delete) && op.parents@.len() == 0 && (
            forall|h: Seq<u8>| !is_head(old(self).dag.nodes@, op.genesis@, h)) ==> r is Err,
            // a listed parent outside the family, judged against the
            // pre-commit graph, is refused
            op.node_timestamp is None && (op.kind.kind_spec() == OperationKind::Update
                || op.kind.kind_spec() == OperationKind::Delete) && op.parents@.len() > 0 && !(
            forall|j: int|
                0 <= j < op.parents@.len() ==> has_cid(
                    old(self).dag.nodes@,
                    (#[trigger] op.parents@[j])@,
                ) && genesis_of(old(self).dag.nodes@, op.parents@[j]@) == op.genesis@) ==> r
                is Err,
            // a local delete on a family whose log carries no payload is
            // refused, unless auto-merge first adds a merge payload
            op.node_timestamp is None && op.kind.kind_spec() == OperationKind::Delete
                && !has_family_payload(old(self).state.ops@, op.genesis@) && !auto_merge_path(
                op,
                old(self).dag.nodes@,
            ) ==> r is Err,
            // auto-merge needs the stored genesis node and its policy
            // must be registered
            auto_merge_path(op, old(self).dag.nodes@) && !has_cid(
                old(self).dag.nodes@,
                op.genesis@,
            ) ==> r is Err,
            auto_merge_path(op, old(self).dag.nodes@) && has_cid(
                old(self).dag.nodes@,
                op.genesis@,
            ) && node_of(old(self).dag.nodes@, op.genesis@).metadata.policy_name_spec()
                != "lww"@ ==> r is Err,
            // success only appends to the graph, and every stored node
            // stays exactly as it was
            r is Ok ==> old(self).dag.nodes@.is_prefix_of(final(self).dag.nodes@)
                && final(self).dag.nodes@.len() <= old(self).dag.nodes@.len() + 2,
            r is Ok ==> forall|x: Seq<u8>| #[trigger]
                has_cid(old(self).dag.nodes@, x) ==> has_cid(final(self).dag.nodes@, x)
                    && node_of(final(self).dag.nodes@, x) == node_of(old(self).dag.nodes@, x),
            // the log grows by exactly the committed operation, preceded
            // on the auto-merge path by the synthetic merge operation
            r is Ok ==> old(self).state.ops@.is_prefix_of(final(self).state.ops@),
            r is Ok && !auto_merge_path(op, old(self).dag.nodes@) ==> final(self).state.ops@.len()
                == old(self).state.ops@.len() + 1,
            auto_merge_path(op, old(self).dag.nodes@) && r is Ok ==> final(self).state.ops@.len()
                == old(self).state.ops@.len() + 2
                && final(self).state.ops@[old(self).state.ops@.len() as int].kind.kind_spec()
                == OperationKind::Merge
                && final(self).state.ops@[old(self).state.ops@.len() as int].author@
                == "auto-merge"@
                && final(self).state.ops@[old(self).state.ops@.len() as int].genesis@
                == op.genesis@
                && (forall|q: Seq<u8>|
                #[trigger] cid_in(
                    final(self).state.ops@[old(self).state.ops@.len() as int].parents@,
                    q,
                ) <==> is_head(old(self).dag.nodes@, op.genesis@, q))
                && final(self).state.ops@.last().parents@.len() == 1,
            // the committed operation keeps a listed parent context and
            // records a rewritten one
            (op.node_timestamp is Some || op.parents@.len() > 0) && r is Ok ==> cid_seq_eq(
                final(self).state.ops@.last().parents@,
                op.parents@,
            ),
            op.node_timestamp is None && (op.kind.kind_spec() == OperationKind::Update
                || op.kind.kind_spec() == OperationKind::Delete) && op.parents@.len() == 0
                && !needs_merge(old(self).dag.nodes@, op.genesis@) && r is Ok
                ==> final(self).state.ops@.last().parents@.len() == 1 && is_head(
                old(self).dag.nodes@,
                op.genesis@,
                final(self).state.ops@.last().parents@[0]@,
            ),
            // the committed node, where new to the graph, carries the
            // operation's content
            op.kind.kind_spec() == OperationKind::Create && (r matches Ok(c)) ==> (r matches Ok(
                c2,
            ) && (fully_fresh(op, old(self).dag.nodes@, final(self).dag.nodes@) ==> node_of(
                final(self).dag.nodes@,
                c2@,
            ).genesis is None && node_of(final(self).dag.nodes@, c2@).parents@.len() == 0 && Some(
                node_of(final(self).dag.nodes@, c2@).payload@,
            ) == op.kind.payload_spec())),
            op.kind.kind_spec() != OperationKind::Create && (r matches Ok(c)) ==> (r matches Ok(
                c2,
            ) && (fully_fresh(op, old(self).dag.nodes@, final(self).dag.nodes@) ==> genesis_is(
                node_of(final(self).dag.nodes@, c2@),
                op.genesis@,
            ))),
            op.kind.kind_spec() != OperationKind::Create && op.kind.kind_spec()
                != OperationKind::Delete && (r matches Ok(c)) ==> (r matches Ok(c2)
                && (fully_fresh(op, old(self).dag.nodes@, final(self).dag.nodes@) ==> Some(
                node_of(final(self).dag.nodes@, c2@).payload@,
            ) == op.kind.payload_spec())),
            // a delete's node inherits the family's winning payload
            op.kind.kind_spec() == OperationKind::Delete && (r matches Ok(c)) ==> (r matches Ok(
                c2,
            ) && (fully_fresh(op, old(self).dag.nodes@, final(self).dag.nodes@) ==> exists|j: int|
                #[trigger] payload_winner(final(self).state.ops@, op.genesis@, j)
                    && final(self).state.ops@[j].kind.payload_spec() == Some(
                    node_of(final(self).dag.nodes@, c2@).payload@,
                ))),
            // the committed node's parents: the listed ones, the single
            // head, or the one merge node, which the committed
            // operation's parent list repeats
            (op.node_timestamp is Some || op.parents@.len() > 0) && op.kind.kind_spec()
                != OperationKind::Create && (r matches Ok(c)) ==> (r matches Ok(c2)
                && (fully_fresh(op, old(self).dag.nodes@, final(self).dag.nodes@) ==> cid_seq_eq(
                node_of(final(self).dag.nodes@, c2@).parents@,
                op.parents@,
            ))),
            op.node_timestamp is None && (op.kind.kind_spec() == OperationKind::Update
                || op.kind.kind_spec() == OperationKind::Delete) && op.parents@.len() == 0
                && !needs_merge(old(self).dag.nodes@, op.genesis@) && (r matches Ok(c)) ==> (r
                matches Ok(c2) && (fully_fresh(op, old(self).dag.nodes@, final(self).dag.nodes@)
                ==> node_of(
                final(self).dag.nodes@,
                c2@,
            ).parents@.len() == 1 && is_head(
                old(self).dag.nodes@,
                op.genesis@,
                node_of(final(self).dag.nodes@, c2@).parents@[0]@,
            ))),
            auto_merge_path(op, old(self).dag.nodes@) && (r matches Ok(c)) ==> (r matches Ok(c2)
                && (fully_fresh(op, old(self).dag.nodes@, final(self).dag.nodes@) ==> node_of(
                final(self).dag.nodes@,
                c2@,
            ).parents@.len() == 1 && node_of(final(self).dag.nodes@, c2@).parents@[0]@
                == final(self).state.ops@.last().parents@[0]@)),
    {
        let is_import = match &op.node_timestamp {
            Option::Some(_) => true,
            Option::None => false,
        };
        match &op.kind {
            OperationType::Merge(_) => {
                if !is_import {
                    return Err(
                        CrdtError::Internal(
                            "Merge operations cannot be manually committed".to_owned(),
                        ),
                    );
                }
            },
            _ => {},
        }
        let ghost op0 = op;
        let mut op = op;
        let ghost ops0 = self.state.ops@;
        let ghost dag0 = self.dag.nodes@;
        let len0 = self.state.ops.len();
        let ghost mut heads_snap: Seq<ContentId> = Seq::empty();
        let ghost mut mop_snap: Operation = op0;

        // Plan the parent context; reads only.
        let mut pending: Option<(ContentId, Node, Operation)> = None;
        if !is_import {
            let needs_parent = match &op.kind {
                OperationType::Update(_) => true,
                OperationType::Delete => true,
                _ => false,
            };
            if needs_parent {
                if op.parents.len() == 0 {
                    let heads = self.dag.find_heads(&op.genesis);
                    if heads.len() > 1 {
                        let genesis_node = match self.dag.get_node(&op.genesis) {
                            Some(n) => n,
                            None => {
                                return Err(CrdtError::Internal("Genesis not found".to_owned()));
                            },
                        };
                        let policy_name = genesis_node.metadata.policy_type();
                        if !crate::codec::str_eq(policy_name.as_str(), "lww") {
                            return Err(CrdtError::Internal("Unknown policy type".to_owned()));
                        }
                        let merge_ts = self.clock.next();
                        let resolver = ConflictResolver::new();
                        let merge_node = match resolver.create_merge_node(
                            &heads,
                            &self.dag,
                            &op.genesis,
                            merge_ts,
                            &LwwMergePolicy,
                        ) {
                            Ok(n) => n,
                            Err(e) => {
                                return Err(e);
                            },
                        };
                        let mcid = match merge_node.content_id() {
                            Ok(c) => c,
                            Err(_) => {
                                proof {
                                    assert(false);
                                }
                                return Err(CrdtError::Serialization);
                            },
                        };
                        let mut merge_op = Operation::new(
                            OperationId::fresh(),
                            op.genesis.duplicate(),
                            OperationType::Merge(merge_node.payload.clone()),
                            "auto-merge".to_owned(),
                            self.clock.next(),
                        );
                        merge_op.parents = crate::cid::dup_cid_vec(&heads);
                        proof {
                            heads_snap = heads@;
                            mop_snap = merge_op;
                        }
                        op.parents = Vec::new();
                        op.parents.push(mcid.duplicate());
                        pending = Some((mcid, merge_node, merge_op));
                    } else if heads.len() == 1 {
                        proof {
                            heads_snap = heads@;
                        }
                        op.parents = Vec::new();
                        op.parents.push(heads[0].duplicate());
                    } else {
                        return Err(
                            CrdtError::Internal(
                                "No head available to attach operation".to_owned(),
                            ),
                        );
                    }
                } else {
                    match self.validate_parent_genesis(&op.genesis, &op.parents) {
                        Ok(()) => {},
                        Err(e) => {
                            return Err(e);
                        },
                    }
                }
            }
        }

        // Stage: everything below lands in one batch or not at all. A
        // store poisoned by an earlier failed commit refuses the batch.
        match self.store.begin_batch() {
            Ok(()) => {},
            Err(_) => {
                return Err(CrdtError::Storage);
            },
        }
        let mut merge_inserted = false;
        let mut merge_cid_keep: Option<ContentId> = None;
        match pending {
            Option::Some((mcid, merge_node, merge_op)) => {
                let mbytes = match merge_node.to_bytes() {
                    Ok(b) => b,
                    Err(_) => {
                        proof {
                            assert(false);
                        }
                        Vec::new()
                    },
                };
                let mkey = node_key(&mcid);
                let mobytes = merge_op.to_bytes();
                let mokey = op_key(&merge_op.id);
                merge_cid_keep = Some(mcid.duplicate());
                match self.dag.insert_node(mcid, merge_node) {
                    Ok(inserted) => {
                        merge_inserted = inserted;
                    },
                    Err(_) => {
                        self.store.abort_batch();
                        return Err(CrdtError::Graph(GraphError::CycleDetected));
                    },
                }
                match self.state.apply(merge_op) {
                    Ok(()) => {},
                    Err(_) => {
                        proof {
                            assert(false);
                        }
                    },
                }
                self.store.stage_put(&mkey, &mbytes);
                self.store.stage_put(&mokey, &mobytes);
            },
            Option::None => {},
        }
        let ghost dag_mid = self.dag.nodes@;
        let ghost ops_mid = self.state.ops@;

        // Pick the node timestamp: the imported one, or a fresh tick.
        let timestamp = match &op.node_timestamp {
            Option::Some(t) => *t,
            Option::None => self.clock.next(),
        };

        // Build the node the operation stands for.
        let built: (ContentId, Node) = match &op.kind {
            OperationType::Create(payload) => {
                let pair = DagGraph::prepare_genesis_node(
                    payload.clone(),
                    timestamp,
                    ContentMetadata::new(),
                );
                pair
            },
            OperationType::Update(payload) => {
                let md = match self.resolve_metadata(&op.genesis, &op.parents, is_import) {
                    Ok(m) => m,
                    Err(e) => {
                        self.unwind_staging(merge_inserted, &merge_cid_keep, len0);
                        proof {
                            assert(self.state.ops@ =~= ops0);
                            assert(self.dag.nodes@ =~= dag0);
                        }
                        return Err(e);
                    },
                };
                DagGraph::prepare_child_node(
                    payload.clone(),
                    crate::cid::dup_cid_vec(&op.parents),
                    op.genesis.duplicate(),
                    timestamp,
                    md,
                )
            },
            OperationType::Delete => {
                let pay = match self.latest_family_payload(&op.genesis) {
                    Some(p) => p,
                    None => {
                        self.unwind_staging(merge_inserted, &merge_cid_keep, len0);
                        proof {
                            assert(self.state.ops@ =~= ops0);
                            assert(self.dag.nodes@ =~= dag0);
                        }
                        return Err(
                            CrdtError::Internal(
                                "content must exist for delete operation".to_owned(),
                            ),
                        );
                    },
                };
                let md = match self.resolve_metadata(&op.genesis, &op.parents, is_import) {
                    Ok(m) => m,
                    Err(e) => {
                        self.unwind_staging(merge_inserted, &merge_cid_keep, len0);
                        proof {
                            assert(self.state.ops@ =~= ops0);
                            assert(self.dag.nodes@ =~= dag0);
                        }
                        return Err(e);
                    },
                };
                DagGraph::prepare_child_node(
                    pay,
                    crate::cid::dup_cid_vec(&op.parents),
                    op.genesis.duplicate(),
                    timestamp,
                    md,
                )
            },
            OperationType::Merge(payload) => {
                let md = match self.resolve_metadata(&op.genesis, &op.parents, true) {
                    Ok(m) => m,
                    Err(e) => {
                        self.unwind_staging(merge_inserted, &merge_cid_keep, len0);
                        proof {
                            assert(self.state.ops@ =~= ops0);
                            assert(self.dag.nodes@ =~= dag0);
                        }
                        return Err(e);
                    },
                };
                DagGraph::prepare_child_node(
                    payload.clone(),
                    crate::cid::dup_cid_vec(&op.parents),
                    op.genesis.duplicate(),
                    timestamp,
                    md,
                )
            },
        };
        let (cid, node) = built;

        // On a create, the computed identifier names the family: an
        // import must reproduce the identifier it claims, a local
        // create adopts it.
        match &op.kind {
            OperationType::Create(_) => {
                if is_import {
                    if !(cid == op.genesis) {
                        self.unwind_staging(merge_inserted, &merge_cid_keep, len0);
                        proof {
                            assert(self.state.ops@ =~= ops0);
                            assert(self.dag.nodes@ =~= dag0);
                        }
                        return Err(
                            CrdtError::Internal("CID mismatch during import".to_owned()),
                        );
                    }
                } else {
                    op.genesis = cid.duplicate();
                }
            },
            _ => {},
        }

        let nbytes = match node.to_bytes() {
            Ok(b) => b,
            Err(_) => {
                proof {
                    assert(false);
                }
                Vec::new()
            },
        };
        let nkey = node_key(&cid);
        let cid_keep = cid.duplicate();
        let main_inserted;
        match self.dag.insert_node(cid, node) {
            Ok(inserted) => {
                main_inserted = inserted;
            },
            Err(_) => {
                self.unwind_staging(merge_inserted, &merge_cid_keep, len0);
                proof {
                    assert(self.state.ops@ =~= ops0);
                    assert(self.dag.nodes@ =~= dag0);
                }
                return Err(CrdtError::Graph(GraphError::CycleDetected));
            },
        }
        let obytes = op.to_bytes();
        let okey = op_key(&op.id);
        match self.state.apply(op) {
            Ok(()) => {},
            Err(_) => {
                proof {
                    assert(false);
                }
            },
        }
        self.store.stage_put(&nkey, &nbytes);
        self.store.stage_put(&okey, &obytes);
        match self.store.commit_batch() {
            Ok(()) => {
                proof {
                    if main_inserted {
                        assert(self.dag.nodes@.last().0@ == cid_keep@);
                    }
                    assert(has_cid(self.dag.nodes@, cid_keep@));
                    let g = op0.genesis@;
                    let took_merge = auto_merge_path(op0, dag0);
                    // the multiple-heads branch ran exactly when the
                    // pre-state had two distinct heads
                    if op0.node_timestamp is None && (op0.kind.kind_spec()
                        == OperationKind::Update || op0.kind.kind_spec()
                        == OperationKind::Delete) && op0.parents@.len() == 0 {
                        lemma_heads_vec_shape(dag0, g, heads_snap);
                        assert(took_merge <==> heads_snap.len() > 1);
                        assert(is_head(dag0, g, heads_snap[0]@));
                    }
                    // graph delta: at most the merge node and the
                    // committed node were appended; stored nodes kept
                    lemma_commit_graph_delta(
                        dag0,
                        dag_mid,
                        self.dag.nodes@,
                        merge_inserted,
                        main_inserted,
                    );
                    // the stored parents of listed-parent commits
                    if op0.node_timestamp is None && op0.parents@.len() > 0 && (
                    op0.kind.kind_spec() == OperationKind::Update || op0.kind.kind_spec()
                        == OperationKind::Delete) {
                        assert forall|j: int| 0 <= j < op0.parents@.len() implies has_cid(
                            self.dag.nodes@,
                            (#[trigger] op0.parents@[j])@,
                        ) && genesis_of(self.dag.nodes@, op0.parents@[j]@) == op0.genesis@ by {
                            let p = op0.parents@[j]@;
                            assert(has_cid(dag0, p) && genesis_of(dag0, p) == op0.genesis@);
                            assert(node_of(self.dag.nodes@, p) == node_of(dag0, p));
                        };
                    }
                    // log delta and the synthetic merge operation
                    assert(ops0.is_prefix_of(self.state.ops@)) by {
                        assert(ops0 =~= self.state.ops@.subrange(0, ops0.len() as int));
                    };
                    if took_merge {
                        assert(ops_mid == ops0.push(mop_snap));
                        assert(self.state.ops@[ops0.len() as int] == mop_snap);
                        lemma_merge_op_parents(dag0, g, heads_snap, mop_snap.parents@);
                    }
                    // the committed node's content, when every staged
                    // node was fresh
                    if fully_fresh(op0, dag0, self.dag.nodes@) {
                        assert(main_inserted) by {
                            if !main_inserted {
                                assert(self.dag.nodes@ == dag_mid);
                                if merge_inserted {
                                    assert(took_merge);
                                    assert(dag_mid.len() == dag0.len() + 1);
                                } else {
                                    assert(dag_mid == dag0);
                                }
                            }
                        };
                        crate::dag::lemma_node_of_at(
                            self.dag.nodes@,
                            self.dag.nodes@.len() - 1,
                        );
                        assert(node_of(self.dag.nodes@, cid_keep@)
                            == self.dag.nodes@.last().1);
                        // a delete's winner carries over to the final
                        // log: the appended operation holds no payload
                        if op0.kind.kind_spec() == OperationKind::Delete {
                            let j = choose|j: int|
                                #[trigger] payload_winner(ops_mid, g, j)
                                    && ops_mid[j].kind.payload_spec() == Some(
                                    node_of(self.dag.nodes@, cid_keep@).payload@,
                                );
                            assert(self.state.ops@[j] == ops_mid[j]);
                            lemma_payload_winner_extend(ops_mid, self.state.ops@, g, j);
                        }
                    }
                }
                Ok(cid_keep)
            },
            Err(_) => {
                if main_inserted {
                    self.dag.rollback_pending_node(&cid_keep);
                }
                self.unwind_staging(merge_inserted, &merge_cid_keep, len0);
                proof {
                    assert(self.state.ops@ =~= ops0);
                    assert(self.dag.nodes@ =~= dag0);
                }
                Err(CrdtError::Storage)
            },
        }
    }

    /// Rolls a partially staged commit back: removes the staged merge
    /// node, truncates the log, and discards the batch.
    fn unwind_staging(
        &mut self,
        merge_inserted: bool,
        merge_cid: &Option<ContentId>,
        len0: usize,
    )
        requires
            old(self).dag.wf(),
            old(self).store.wf(),
            len0 <= old(self).state.ops@.len(),
            merge_inserted ==> (old(self).dag.nodes@.len() > 0 && (merge_cid matches Some(mc)
                && old(self).dag.nodes@.last().0@ == mc@)),
        ensures
            final(self).dag.wf(),
            final(self).store.wf(),
            final(self).store.healthy() == old(self).store.healthy(),
            !final(self).store.batch_active(),
            final(self).store.committed() == old(self).store.committed(),
            merge_inserted ==> final(self).dag.nodes@ == old(self).dag.nodes@.drop_last(),
            !merge_inserted ==> final(self).dag.nodes@ == old(self).dag.nodes@,
            final(self).state.ops@ == old(self).state.ops@.subrange(0, len0 as int),
            final(self).clock == old(self).clock,
    {
        if merge_inserted {
            match merge_cid {
                Option::Some(mc) => {
                    self.dag.rollback_pending_node(mc);
                },
                Option::None => {
                    proof {
                        assert(false);
                    }
                },
            }
        }
        self.state.ops.truncate(len0);
        self.store.abort_batch();
    }
}

impl Repo {
    /// The family's operations ordered by timestamp, each with its
    /// one-based position.
    pub fn get_operations_with_index(&self, genesis: &ContentId) -> (r: Result<
        Vec<(usize, Operation)>,
        CrdtError,
    >)
        ensures
            r matches Ok(v) && v@.len() == family_ops(self.state.ops@, genesis@).len() && (forall|
                j: int,
            |
                0 <= j < v@.len() ==> (#[trigger] v@[j]).0 == j + 1) && (forall|j1: int, j2: int|
                0 <= j1 < j2 < v@.len() ==> (#[trigger] v@[j1]).1.timestamp <= (
                #[trigger] v@[j2]).1.timestamp) && (forall|j: int|
                0 <= j < v@.len() ==> from_family(
                    (#[trigger] v@[j]).1,
                    family_ops(self.state.ops@, genesis@),
                )),
    {
        let ghost fam_spec = family_ops(self.state.ops@, genesis@);
        let mut work = self.state.get_operations_by_genesis(genesis);
        let ghost total = work@.len();
        let mut sorted: Vec<Operation> = Vec::new();
        proof {
            assert forall|w: int| 0 <= w < work@.len() implies from_family(
                #[trigger] work@[w],
                fam_spec,
            ) by {
                assert(crate::operation::op_eq(work@[w], fam_spec[w]));
            };
        }
        while work.len() > 0
            invariant
                sorted@.len() + work@.len() == total,
                total == fam_spec.len(),
                forall|j1: int, j2: int|
                    0 <= j1 < j2 < sorted@.len() ==> (#[trigger] sorted@[j1]).timestamp <= (
                    #[trigger] sorted@[j2]).timestamp,
                forall|j: int, w: int|
                    0 <= j < sorted@.len() && 0 <= w < work@.len() ==> (
                    #[trigger] sorted@[j]).timestamp <= (#[trigger] work@[w]).timestamp,
                forall|j: int| 0 <= j < sorted@.len() ==> from_family(#[trigger] sorted@[j], fam_spec),
                forall|w: int| 0 <= w < work@.len() ==> from_family(#[trigger] work@[w], fam_spec),
            decreases work@.len(),
        {
            let mut mi: usize = 0;
            let mut t: usize = 1;
            while t < work.len()
                invariant
                    0 <= mi < t <= work@.len(),
                    forall|j: int|
                        0 <= j < t ==> work@[mi as int].timestamp <= (
                        #[trigger] work@[j]).timestamp,
                decreases work@.len() - t,
            {
                if work[t].timestamp < work[mi].timestamp {
                    mi = t;
                }
                t = t + 1;
            }
            let ghost work0 = work@;
            let x = work.remove(mi);
            sorted.push(x);
            proof {
                assert(sorted@.last() == work0[mi as int]);
                assert(from_family(sorted@.last(), fam_spec));
                assert forall|w: int| 0 <= w < work@.len() implies from_family(
                    #[trigger] work@[w],
                    fam_spec,
                ) by {
                    if w < mi as int {
                        assert(work@[w] == work0[w]);
                    } else {
                        assert(work@[w] == work0[w + 1]);
                    }
                };
                assert forall|j: int, w: int|
                    0 <= j < sorted@.len() && 0 <= w < work@.len() implies (
                #[trigger] sorted@[j]).timestamp <= (#[trigger] work@[w]).timestamp by {
                    let ow = if w < mi as int {
                        w
                    } else {
                        w + 1
                    };
                    assert(work@[w] == work0[ow]);
                };
            }
        }
        let mut out: Vec<(usize, Operation)> = Vec::new();
        let mut t: usize = 0;
        while t < sorted.len()
            invariant
                0 <= t <= sorted@.len(),
                sorted@.len() == fam_spec.len(),
                fam_spec == family_ops(self.state.ops@, genesis@),
                out@.len() == t,
                forall|j1: int, j2: int|
                    0 <= j1 < j2 < sorted@.len() ==> (#[trigger] sorted@[j1]).timestamp <= (
                    #[trigger] sorted@[j2]).timestamp,
                forall|j: int| 0 <= j < sorted@.len() ==> from_family(#[trigger] sorted@[j], fam_spec),
                forall|j: int| 0 <= j < t ==> (#[trigger] out@[j]).0 == j + 1,
                forall|j: int|
                    0 <= j < t ==> crate::operation::op_eq((#[trigger] out@[j]).1, sorted@[j]),
            decreases sorted@.len() - t,
        {
            out.push(((t + 1), sorted[t].duplicate()));
            proof {
                assert(crate::operation::op_eq(out@.last().1, sorted@[t as int]));
            }
            t = t + 1;
        }
        proof {
            assert forall|j: int| 0 <= j < out@.len() implies from_family(
                (#[trigger] out@[j]).1,
                fam_spec,
            ) by {
                assert(crate::operation::op_eq(out@[j].1, sorted@[j]));
                assert(from_family(sorted@[j], fam_spec));
                let i = choose|i: int|
                    0 <= i < fam_spec.len() && crate::operation::op_eq(
                        sorted@[j],
                        #[trigger] fam_spec[i],
                    );
                assert(crate::operation::op_eq(out@[j].1, fam_spec[i]));
            };
            assert forall|j1: int, j2: int|
                0 <= j1 < j2 < out@.len() implies (#[trigger] out@[j1]).1.timestamp <= (
            #[trigger] out@[j2]).1.timestamp by {
                assert(crate::operation::op_eq(out@[j1].1, sorted@[j1]));
                assert(crate::operation::op_eq(out@[j2].1, sorted@[j2]));
            };
        }
        Ok(out)
    }
}

impl Repo {
    /// The parent-to-children adjacency of a family: one entry per
    /// member, its children listed in ascending identifier order.
    pub fn branching_history(&self, genesis: &ContentId) -> (r: Result<
        Vec<(ContentId, Vec<ContentId>)>,
        CrdtError,
    >)
        requires
            self.wf(),
        ensures
            r matches Ok(v) && branching_ok(self.dag.nodes@, genesis@, v@),
    {
        let ghost s = self.dag.nodes@;
        let ghost g = genesis@;
        let members = self.dag.get_nodes_by_genesis(genesis);
        let mut out: Vec<(ContentId, Vec<ContentId>)> = Vec::new();
        let mut t: usize = 0;
        while t < members.len()
            invariant
                s == self.dag.nodes@,
                g == genesis@,
                self.wf(),
                0 <= t <= members@.len(),
                out@.len() == t,
                forall|j: int|
                    0 <= j < members@.len() ==> in_family(s, g, (#[trigger] members@[j])@),
                forall|j: int| 0 <= j < t ==> (#[trigger] out@[j]).0@ == members@[j]@,
                forall|j: int|
                    0 <= j < t ==> branch_children_ok(s, g, (#[trigger] out@[j]).0@, out@[j].1@),
            decreases members@.len() - t,
        {
            let mut kids: Vec<ContentId> = Vec::new();
            let mut k: usize = 0;
            while k < self.dag.nodes.len()
                invariant
                    s == self.dag.nodes@,
                    g == genesis@,
                    self.wf(),
                    0 <= t < members@.len(),
                    0 <= k <= s.len(),
                    forall|c: Seq<u8>|
                        #[trigger] crate::dag::cid_in(kids@, c) ==> crate::dag::edge(
                            s,
                            members@[t as int]@,
                            c,
                        ) && in_family(s, g, c),
                    forall|i: int|
                        0 <= i < k && #[trigger] crate::dag::family_entry(s, g, i)
                            && crate::node::lists_parent_spec(s[i].1, members@[t as int]@)
                            ==> crate::dag::cid_in(kids@, s[i].0@),
                    forall|j: int|
                        0 <= j < kids@.len() ==> exists|i: int|
                            0 <= i < k && (#[trigger] kids@[j])@ == s[i].0@,
                    forall|j1: int, j2: int|
                        0 <= j1 < j2 < kids@.len() ==> (#[trigger] kids@[j1])@ != (
                        #[trigger] kids@[j2])@,
                decreases s.len() - k,
            {
                let is_member = if self.dag.nodes[k].0 == *genesis {
                    true
                } else {
                    match &self.dag.nodes[k].1.genesis {
                        Option::Some(gg) => *gg == *genesis,
                        Option::None => false,
                    }
                };
                if is_member {
                    let mut pj: usize = 0;
                    let mut listed = false;
                    let n_parents = self.dag.nodes[k].1.parents.len();
                    while pj < n_parents
                        invariant
                            s == self.dag.nodes@,
                            0 <= t < members@.len(),
                            0 <= k < s.len(),
                            n_parents == s[k as int].1.parents@.len(),
                            0 <= pj <= n_parents,
                            listed ==> crate::node::lists_parent_spec(
                                s[k as int].1,
                                members@[t as int]@,
                            ),
                            !listed ==> forall|q: int|
                                0 <= q < pj ==> (#[trigger] s[k as int].1.parents@[q])@
                                    != members@[t as int]@,
                        decreases n_parents - pj,
                    {
                        if self.dag.nodes[k].1.parents[pj] == members[t] {
                            listed = true;
                        }
                        pj = pj + 1;
                    }
                    if listed {
                        let ghost kids0 = kids@;
                        proof {
                            assert(crate::dag::family_entry(s, g, k as int));
                            assert(crate::dag::edge(s, members@[t as int]@, s[k as int].0@));
                            assert(crate::dag::in_family(s, g, s[k as int].0@));
                        }
                        proof {
                            assert forall|j: int| 0 <= j < kids0.len() implies (
                            #[trigger] kids0[j])@ != s[k as int].0@ by {
                                let i = choose|i: int|
                                    0 <= i < k && (#[trigger] kids0[j])@ == s[i].0@;
                                assert(s[i].0@ != s[k as int].0@);
                            };
                        }
                        kids.push(self.dag.nodes[k].0.duplicate());
                        proof {
                            assert forall|c: Seq<u8>|
                                #[trigger] crate::dag::cid_in(kids@, c) implies crate::dag::edge(
                                s,
                                members@[t as int]@,
                                c,
                            ) && in_family(s, g, c) by {
                                crate::dag::lemma_cid_in_push(kids0, kids@.last(), c);
                            };
                            assert forall|j: int| 0 <= j < kids@.len() implies exists|i: int|
                                0 <= i <= k && (#[trigger] kids@[j])@ == s[i].0@ by {
                                if j < kids0.len() {
                                    let i = choose|i: int|
                                        0 <= i < k && (#[trigger] kids0[j])@ == s[i].0@;
                                    assert(kids@[j]@ == s[i].0@);
                                } else {
                                    assert(kids@[j]@ == s[k as int].0@);
                                }
                            };
                            assert forall|i: int|
                                0 <= i <= k && #[trigger] crate::dag::family_entry(s, g, i)
                                    && crate::node::lists_parent_spec(
                                    s[i].1,
                                    members@[t as int]@,
                                ) implies crate::dag::cid_in(kids@, s[i].0@) by {
                                crate::dag::lemma_cid_in_push(kids0, kids@.last(), s[i].0@);
                            };
                        }
                    } else {
                        proof {
                            assert(!crate::node::lists_parent_spec(
                                s[k as int].1,
                                members@[t as int]@,
                            ));
                        }
                    }
                } else {
                    proof {
                        assert(!crate::dag::family_entry(s, g, k as int));
                    }
                }
                k = k + 1;
            }
            let sorted_kids = crate::dag::sort_cids(kids);
            proof {
                assert(branch_children_ok(s, g, members@[t as int]@, sorted_kids@));
            }
            out.push((members[t].duplicate(), sorted_kids));
            t = t + 1;
        }
        proof {
            assert forall|i: int|
                #[trigger] crate::dag::family_entry(s, g, i) implies exists|j: int|
                0 <= j < out@.len() && (#[trigger] out@[j]).0@ == s[i].0@ by {
                let j = choose|j: int|
                    0 <= j < members@.len() && (#[trigger] members@[j])@ == s[i].0@;
                assert(out@[j].0@ == s[i].0@);
            };
            assert forall|j: int| 0 <= j < out@.len() implies in_family(
                s,
                g,
                (#[trigger] out@[j]).0@,
            ) by {
                assert(in_family(s, g, members@[j]@));
            };
            assert(branching_ok(s, g, out@));
        }
        Ok(out)
    }

    /// A linear path through a family: from the genesis, each step
    /// follows the preferred family child (merge nodes first, later
    /// timestamps next), no identifier repeats, and the walk stops at a
    /// tip without family children or where the preferred child would
    /// close a loop.
    #[verifier::rlimit(100)]
    #[verifier::spinoff_prover]
    pub fn linear_history(&self, genesis: &ContentId) -> (r: Result<Vec<ContentId>, CrdtError>)
        requires
            self.wf(),
        ensures
            r matches Ok(path) && path@.len() >= 1 && (#[trigger] path@[0])@ == genesis@ && (forall|
                k: int,
            |
                0 <= k < path@.len() - 1 ==> step_choice(
                    self.dag.nodes@,
                    genesis@,
                    (#[trigger] path@[k])@,
                    path@[k + 1]@,
                )) && (forall|k: int|
                0 <= k < path@.len() - 1 ==> crate::dag::edge(
                    self.dag.nodes@,
                    (#[trigger] path@[k])@,
                    path@[k + 1]@,
                )) && (forall|k1: int, k2: int|
                0 <= k1 < k2 < path@.len() ==> (#[trigger] path@[k1])@ != (#[trigger] path@[k2])@)
                && walk_stopped(self.dag.nodes@, genesis@, path@),
    {
        let ghost s = self.dag.nodes@;
        let ghost g = genesis@;
        let mut path: Vec<ContentId> = Vec::new();
        path.push(genesis.duplicate());
        let mut finished = false;
        while !finished
            invariant
                s == self.dag.nodes@,
                g == genesis@,
                self.wf(),
                path@.len() >= 1,
                path@[0]@ == g,
                forall|k: int|
                    0 <= k < path@.len() - 1 ==> step_choice(
                        s,
                        g,
                        (#[trigger] path@[k])@,
                        path@[k + 1]@,
                    ),
                forall|k: int|
                    0 <= k < path@.len() - 1 ==> crate::dag::edge(
                        s,
                        (#[trigger] path@[k])@,
                        path@[k + 1]@,
                    ),
                forall|k1: int, k2: int|
                    0 <= k1 < k2 < path@.len() ==> (#[trigger] path@[k1])@ != (
                    #[trigger] path@[k2])@,
                forall|k: int|
                    0 <= k < path@.len() ==> (#[trigger] path@[k])@ == g || crate::dag::has_cid(
                        s,
                        path@[k]@,
                    ),
                path@.len() <= s.len() + 1,
                finished ==> walk_stopped(s, g, path@),
            decreases s.len() + 2 - path@.len(), (if finished { 0int } else { 1int }),
        {
            let current = path[path.len() - 1].duplicate();
            // pick the preferred family child of `current`: merge nodes
            // first, then the later timestamp
            let mut best: Option<usize> = None;
            let mut k: usize = 0;
            while k < self.dag.nodes.len()
                invariant
                    s == self.dag.nodes@,
                    g == genesis@,
                    self.wf(),
                    0 <= k <= s.len(),
                    current@ == path@[path@.len() - 1]@,
                    path@.len() >= 1,
                    match best {
                        Some(b) => 0 <= b < k && crate::dag::family_entry(s, g, b as int)
                            && crate::node::lists_parent_spec(s[b as int].1, current@) && (forall|
                            i: int,
                        |
                            0 <= i < k && #[trigger] crate::dag::family_entry(s, g, i)
                                && crate::node::lists_parent_spec(s[i].1, current@) ==> prefer_leq(
                                s[i].1,
                                s[b as int].1,
                            )),
                        None => forall|i: int|
                            0 <= i < k ==> !(#[trigger] crate::dag::family_entry(s, g, i)
                                && crate::node::lists_parent_spec(s[i].1, current@)),
                    },
                decreases s.len() - k,
            {
                let mut pj: usize = 0;
                let mut listed = false;
                let n_parents = self.dag.nodes[k].1.parents.len();
                while pj < n_parents
                    invariant
                        s == self.dag.nodes@,
                        0 <= k < s.len(),
                        n_parents == s[k as int].1.parents@.len(),
                        0 <= pj <= n_parents,
                        listed ==> crate::node::lists_parent_spec(s[k as int].1, current@),
                        !listed ==> forall|q: int|
                            0 <= q < pj ==> (#[trigger] s[k as int].1.parents@[q])@ != current@,
                    decreases n_parents - pj,
                {
                    if self.dag.nodes[k].1.parents[pj] == current {
                        listed = true;
                    }
                    pj = pj + 1;
                }
                let is_member = if self.dag.nodes[k].0 == *genesis {
                    true
                } else {
                    match &self.dag.nodes[k].1.genesis {
                        Option::Some(gg) => *gg == *genesis,
                        Option::None => false,
                    }
                };
                proof {
                    if is_member {
                        assert(crate::dag::family_entry(s, g, k as int));
                    }
                }
                if listed && is_member {
                    let replace = match best {
                        Some(b) => {
                            let b_merge = self.dag.nodes[b].1.parents.len() > 1;
                            let k_merge = self.dag.nodes[k].1.parents.len() > 1;
                            if b_merge != k_merge {
                                k_merge
                            } else {
                                self.dag.nodes[b].1.timestamp < self.dag.nodes[k].1.timestamp
                            }
                        },
                        None => true,
                    };
                    if replace {
                        best = Some(k);
                    }
                } else {
                    proof {
                        if listed {
                            assert(!crate::dag::family_entry(s, g, k as int));
                        } else {
                            assert(!crate::node::lists_parent_spec(s[k as int].1, current@));
                        }
                    }
                }
                k = k + 1;
            }
            match best {
                Some(b) => {
                    let child = self.dag.nodes[b].0.duplicate();
                    proof {
                        crate::dag::lemma_node_of_at(s, b as int);
                        assert(crate::dag::edge(s, current@, child@));
                        assert(in_family(s, g, child@));
                        assert forall|d: Seq<u8>| #[trigger]
                            family_child(s, g, current@, d) implies prefer_leq(
                            node_of(s, d),
                            node_of(s, child@),
                        ) by {
                            let i = choose|i: int|
                                0 <= i < s.len() && (#[trigger] s[i]).0@ == d
                                    && crate::node::lists_parent_spec(s[i].1, current@);
                            let i2 = choose|i2: int|
                                #[trigger] crate::dag::family_entry(s, g, i2) && s[i2].0@ == d;
                            if i != i2 {
                                assert(s[i].0@ != s[i2].0@);
                            }
                            assert(crate::dag::family_entry(s, g, i));
                            assert(prefer_leq(s[i].1, s[b as int].1));
                            crate::dag::lemma_node_of_at(s, i);
                        };
                        assert(step_choice(s, g, current@, child@));
                    }
                    if crate::dag::cid_in_vec(&path, &child) {
                        finished = true;
                        proof {
                            assert(walk_stopped(s, g, path@));
                        }
                    } else {
                        let ghost path0 = path@;
                        proof {
                            assert(crate::dag::has_cid(s, child@));
                        }
                        path.push(child);
                        proof {
                            assert(path@.drop_last() =~= path0);
                            assert forall|k1: int, k2: int|
                                0 <= k1 < k2 < path@.len() implies (#[trigger] path@[k1])@ != (
                            #[trigger] path@[k2])@ by {
                                if k2 == path@.len() - 1 {
                                    assert(!crate::dag::cid_in(path0, path@[k2]@));
                                    assert(path0[k1]@ == path@[k1]@);
                                    if path@[k1]@ == path@[k2]@ {
                                        assert(crate::dag::cid_in(path0, path@[k2]@));
                                    }
                                }
                            };
                            crate::dag::lemma_visited_bound(path@, s, g);
                        }
                    }
                },
                None => {
                    finished = true;
                    proof {
                        assert forall|c: Seq<u8>| !(#[trigger] family_child(
                            s,
                            g,
                            current@,
                            c,
                        )) by {
                            if family_child(s, g, current@, c) {
                                let i = choose|i: int|
                                    0 <= i < s.len() && (#[trigger] s[i]).0@ == c
                                        && crate::node::lists_parent_spec(s[i].1, current@);
                                let i2 = choose|i2: int|
                                    #[trigger] crate::dag::family_entry(s, g, i2) && s[i2].0@
                                        == c;
                                if i != i2 {
                                    assert(s[i].0@ != s[i2].0@);
                                }
                                assert(crate::dag::family_entry(s, g, i));
                            }
                        };
                        assert(walk_stopped(s, g, path@));
                    }
                },
            }
        }
        Ok(path)
    }
}


/// A full adjacency listing: every key is a family member, every family
/// member is a key, and each children list is right.
pub open spec fn branching_ok(
    s: Seq<crate::dag::DagEntry>,
    g: Seq<u8>,
    v: Seq<(ContentId, Vec<ContentId>)>,
) -> bool {
    &&& forall|j: int| 0 <= j < v.len() ==> in_family(s, g, (#[trigger] v[j]).0@)
    &&& forall|i: int|
        #[trigger] crate::dag::family_entry(s, g, i) ==> exists|j: int|
            0 <= j < v.len() && (#[trigger] v[j]).0@ == s[i].0@
    &&& forall|j: int|
        0 <= j < v.len() ==> branch_children_ok(s, g, (#[trigger] v[j]).0@, v[j].1@)
}

/// The children list of one adjacency entry is right: every listed
/// identifier is a family child of the key, every family child is
/// listed, and the list ascends by identifier.
pub open spec fn branch_children_ok(
    s: Seq<crate::dag::DagEntry>,
    g: Seq<u8>,
    key: Seq<u8>,
    kids: Seq<ContentId>,
) -> bool {
    &&& forall|c: Seq<u8>|
        #[trigger] crate::dag::cid_in(kids, c) ==> crate::dag::edge(s, key, c) && in_family(
            s,
            g,
            c,
        )
    &&& forall|i: int|
        #[trigger] crate::dag::family_entry(s, g, i) && crate::node::lists_parent_spec(
            s[i].1,
            key,
        ) ==> crate::dag::cid_in(kids, s[i].0@)
    &&& forall|k1: int, k2: int|
        0 <= k1 < k2 < kids.len() ==> !crate::order::lex_lt((#[trigger] kids[k2])@, (
        #[trigger] kids[k1])@)
    &&& forall|k1: int, k2: int|
        0 <= k1 < k2 < kids.len() ==> (#[trigger] kids[k1])@ != (#[trigger] kids[k2])@
}


/// The linear walk's preference between two candidate nodes: a merge
/// node beats a plain one, a later timestamp breaks the tie.
pub open spec fn prefer_leq(d: Node, c: Node) -> bool {
    let dm = d.parents@.len() > 1;
    let cm = c.parents@.len() > 1;
    (cm && !dm) || (cm == dm && d.timestamp <= c.timestamp)
}

/// An edge target of `p` that belongs to the family of `g`.
pub open spec fn family_child(
    s: Seq<crate::dag::DagEntry>,
    g: Seq<u8>,
    p: Seq<u8>,
    c: Seq<u8>,
) -> bool {
    crate::dag::edge(s, p, c) && in_family(s, g, c)
}

/// The child the linear walk follows from `p`: a family child that no
/// other family child of `p` is preferred to.
pub open spec fn step_choice(
    s: Seq<crate::dag::DagEntry>,
    g: Seq<u8>,
    p: Seq<u8>,
    c: Seq<u8>,
) -> bool {
    &&& family_child(s, g, p, c)
    &&& forall|d: Seq<u8>|
        #[trigger] family_child(s, g, p, d) ==> prefer_leq(node_of(s, d), node_of(s, c))
}

/// Where the linear walk may halt: the tip has no family child, or
/// following the preferred child would revisit the path.
pub open spec fn walk_stopped(
    s: Seq<crate::dag::DagEntry>,
    g: Seq<u8>,
    path: Seq<ContentId>,
) -> bool
    recommends
        path.len() >= 1,
{
    ||| forall|c: Seq<u8>| !(#[trigger] family_child(s, g, path.last()@, c))
    ||| exists|c: Seq<u8>|
        #[trigger] step_choice(s, g, path.last()@, c) && crate::dag::cid_in(path, c)
}

/// Whether the log holds an operation equal to `o`, content for content.
pub open spec fn replayed(log: Seq<Operation>, o: Operation) -> bool {
    exists|j: int| 0 <= j < log.len() && crate::operation::op_eq(#[trigger] log[j], o)
}

impl Repo {
    /// Opens a repository over an already opened database: reads every
    /// stored record back, rebuilds the log and the graph, and refuses
    /// contents whose graph holds a cycle. Every canonically encoded
    /// record is rebuilt, content for content; records that do not
    /// decode are passed over, so an import whose context never arrived
    /// does not wedge the repository. The handle must come straight
    /// from `rusty_leveldb::DB::open`, never from a store that has
    /// already absorbed a failed write.
    #[verifier::rlimit(100)]
    #[verifier::spinoff_prover]
    pub fn attach(db: rusty_leveldb::DB) -> (r: Result<Repo, CrdtError>)
        requires
            !crate::store::db_wounded(db),
        ensures
            r matches Ok(repo) ==> repo.wf(),
            // every rebuilt graph node stands under a stored node key
            r matches Ok(repo) ==> forall|j: int|
                0 <= j < repo.dag.nodes@.len() ==> crate::store::db_contents(db).dom().contains(
                    seq![0x10u8] + (#[trigger] repo.dag.nodes@[j]).0@,
                ),
            // every stored record holding a well-formed node in its
            // canonical bytes under a canonical key is rebuilt
            r matches Ok(repo) ==> forall|c: Seq<u8>, n: Node|
                #![trigger crate::store::db_contents(db).contains_pair(seq![0x10u8] + c, crate::node::node_bytes(n))]
                crate::cid::wf_cid_bytes(c) && crate::node::wf_node(n)
                    && crate::store::db_contents(db).contains_pair(
                    seq![0x10u8] + c,
                    crate::node::node_bytes(n),
                ) ==> has_cid(repo.dag.nodes@, c) && crate::node::node_eq(
                    node_of(repo.dag.nodes@, c),
                    n,
                ),
            // every stored record holding a well-formed operation in
            // its canonical bytes under an operation key is replayed
            r matches Ok(repo) ==> forall|k: Seq<u8>, o: Operation|
                #![trigger crate::store::db_contents(db).contains_pair(k, crate::operation::operation_bytes(o))]
                crate::operation::wf_operation(o) && k.len() > 0 && k[0] == 0x01
                    && crate::store::db_contents(db).contains_pair(
                    k,
                    crate::operation::operation_bytes(o),
                ) ==> replayed(repo.state.ops@, o),
    {
        let ghost m = crate::store::db_contents(db);
        let mut store = Store::attach(db);
        let entries = match store.snapshot() {
            Ok(e) => e,
            Err(_) => {
                return Err(CrdtError::Storage);
            },
        };
        let mut state = CrdtState::new();
        let mut nodes: Vec<(ContentId, Node)> = Vec::new();
        let mut i: usize = 0;
        while i < entries.len()
            invariant
                0 <= i <= entries@.len(),
                crate::store::snapshot_lists(m, entries@),
                forall|e1: int, e2: int|
                    0 <= e1 < e2 < entries@.len() ==> (#[trigger] entries@[e1]).0@ != (
                    #[trigger] entries@[e2]).0@,
                forall|j1: int, j2: int|
                    0 <= j1 < j2 < nodes@.len() ==> (#[trigger] nodes@[j1]).0@ != (
                    #[trigger] nodes@[j2]).0@,
                forall|j: int|
                    0 <= j < nodes@.len() ==> exists|e: int|
                        0 <= e < i && (#[trigger] entries@[e]).0@ == seq![0x10u8] + (
                        #[trigger] nodes@[j]).0@,
                forall|e: int, n: Node|
                    #![trigger crate::node::node_bytes(n), entries@[e]]
                    0 <= e < i && crate::node::wf_node(n) && (entries@[e]).1@
                        == crate::node::node_bytes(n) && (entries@[e]).0@.len() > 1 && (
                    entries@[e]).0@[0] == 0x10 && crate::cid::wf_cid_bytes(
                        (entries@[e]).0@.skip(1),
                    ) ==> has_cid(nodes@, (entries@[e]).0@.skip(1)) && crate::node::node_eq(
                        node_of(nodes@, (entries@[e]).0@.skip(1)),
                        n,
                    ),
                forall|e: int, o: Operation|
                    #![trigger crate::operation::operation_bytes(o), entries@[e]]
                    0 <= e < i && crate::operation::wf_operation(o) && (entries@[e]).1@
                        == crate::operation::operation_bytes(o) && (entries@[e]).0@.len() > 0 && (
                    entries@[e]).0@[0] == 0x01 ==> replayed(state.ops@, o),
            decreases entries@.len() - i,
        {
            let key_len = entries[i].0.len();
            if key_len > 0 {
                let tag = entries[i].0[0];
                if tag == 0x01 {
                    let ghost log0 = state.ops@;
                    match Operation::from_bytes(entries[i].1.as_slice()) {
                        Ok(op) => {
                            match state.apply(op) {
                                Ok(()) => {},
                                Err(_) => {
                                    proof {
                                        assert(false);
                                    }
                                },
                            }
                            proof {
                                assert forall|e: int, o: Operation|
                                    0 <= e <= i && crate::operation::wf_operation(o) && (
                                #[trigger] entries@[e]).1@ == #[trigger] crate::operation::operation_bytes(
                                    o,
                                ) && (entries@[e]).0@.len() > 0 && (entries@[e]).0@[0]
                                    == 0x01 implies replayed(state.ops@, o) by {
                                    if e < i {
                                        let j = choose|j: int|
                                            0 <= j < log0.len() && crate::operation::op_eq(
                                                #[trigger] log0[j],
                                                o,
                                            );
                                        assert(state.ops@[j] == log0[j]);
                                        assert(crate::operation::op_eq(state.ops@[j], o));
                                    } else {
                                        assert(crate::operation::op_eq(
                                            state.ops@[state.ops@.len() - 1],
                                            o,
                                        ));
                                    }
                                };
                            }
                        },
                        Err(_) => {},
                    }
                } else if tag == 0x10 {
                    let cid_bytes = crate::codec::vec_slice(&entries[i].0, 1, key_len);
                    proof {
                        assert(cid_bytes@ =~= entries@[i as int].0@.skip(1));
                    }
                    match ContentId::from_bytes(cid_bytes.as_slice()) {
                        Ok(cid) => {
                            match Node::from_bytes(entries[i].1.as_slice()) {
                                Ok(node) => {
                                    let ghost nodes0 = nodes@;
                                    proof {
                                        assert(entries@[i as int].0@ =~= seq![0x10u8] + cid@);
                                        assert forall|j: int|
                                            0 <= j < nodes@.len() implies (
                                        #[trigger] nodes@[j]).0@ != cid@ by {
                                            let e = choose|e: int|
                                                0 <= e < i && (#[trigger] entries@[e]).0@
                                                    == seq![0x10u8] + nodes@[j].0@;
                                            if nodes@[j].0@ == cid@ {
                                                assert(entries@[e].0@ =~= entries@[i as int].0@);
                                            }
                                        };
                                    }
                                    nodes.push((cid, node));
                                    proof {
                                        assert forall|j: int|
                                            0 <= j < nodes@.len() implies exists|e: int|
                                            0 <= e <= i && (#[trigger] entries@[e]).0@
                                                == seq![0x10u8] + (#[trigger] nodes@[j]).0@ by {
                                            if j < nodes0.len() {
                                                assert(nodes@[j] == nodes0[j]);
                                            } else {
                                                assert(entries@[i as int].0@ == seq![0x10u8]
                                                    + nodes@[j].0@);
                                            }
                                        };
                                        crate::dag::lemma_node_of_at(
                                            nodes@,
                                            nodes@.len() - 1,
                                        );
                                        assert forall|e: int, n: Node|
                                            0 <= e <= i && crate::node::wf_node(n) && (
                                        #[trigger] entries@[e]).1@
                                            == #[trigger] crate::node::node_bytes(n) && (
                                        entries@[e]).0@.len() > 1 && (entries@[e]).0@[0] == 0x10
                                            && crate::cid::wf_cid_bytes(
                                            (entries@[e]).0@.skip(1),
                                        ) implies has_cid(nodes@, (entries@[e]).0@.skip(1))
                                            && crate::node::node_eq(
                                            node_of(nodes@, (entries@[e]).0@.skip(1)),
                                            n,
                                        ) by {
                                            if e < i {
                                                crate::dag::lemma_node_of_frame(
                                                    nodes0,
                                                    nodes@.last(),
                                                    (entries@[e]).0@.skip(1),
                                                );
                                            } else {
                                                assert((entries@[e]).0@.skip(1) =~= cid@);
                                                assert(node_of(nodes@, cid@) == node);
                                            }
                                        };
                                    }
                                },
                                Err(_) => {
                                    proof {
                                        assert forall|n: Node|
                                            !(crate::node::wf_node(n) && entries@[i as int].1@
                                                == #[trigger] crate::node::node_bytes(n)) by {}
                                    }
                                },
                            }
                        },
                        Err(_) => {
                            proof {
                                assert(!crate::cid::wf_cid_bytes(
                                    entries@[i as int].0@.skip(1),
                                ));
                            }
                        },
                    }
                }
            }
            i = i + 1;
        }
        let dag = DagGraph { nodes };
        if dag.detect_cycle_cid() {
            return Err(CrdtError::Graph(GraphError::CycleDetected));
        }
        proof {
            assert forall|j: int| 0 <= j < dag.nodes@.len() implies m.dom().contains(
                seq![0x10u8] + (#[trigger] dag.nodes@[j]).0@,
            ) by {
                let e = choose|e: int|
                    0 <= e < entries@.len() && (#[trigger] entries@[e]).0@ == seq![0x10u8]
                        + dag.nodes@[j].0@;
                assert(m.contains_pair(entries@[e].0@, entries@[e].1@));
            };
            assert forall|c: Seq<u8>, n: Node|
                crate::cid::wf_cid_bytes(c) && crate::node::wf_node(n)
                    && #[trigger] m.contains_pair(
                    seq![0x10u8] + c,
                    #[trigger] crate::node::node_bytes(n),
                ) implies has_cid(dag.nodes@, c) && crate::node::node_eq(
                node_of(dag.nodes@, c),
                n,
            ) by {
                let k = seq![0x10u8] + c;
                assert(m.dom().contains(k));
                let e = choose|e: int|
                    0 <= e < entries@.len() && (#[trigger] entries@[e]).0@ == k;
                assert(m.contains_pair(entries@[e].0@, entries@[e].1@));
                assert((entries@[e]).1@ == crate::node::node_bytes(n));
                assert((entries@[e]).0@.len() == 1 + c.len());
                assert((entries@[e]).0@[0] == 0x10);
                assert((entries@[e]).0@.skip(1) =~= c);
            };
            assert forall|k: Seq<u8>, o: Operation|
                crate::operation::wf_operation(o) && k.len() > 0 && k[0] == 0x01
                    && #[trigger] m.contains_pair(
                    k,
                    #[trigger] crate::operation::operation_bytes(o),
                ) implies replayed(state.ops@, o) by {
                assert(m.dom().contains(k));
                let e = choose|e: int|
                    0 <= e < entries@.len() && (#[trigger] entries@[e]).0@ == k;
                assert(m.contains_pair(entries@[e].0@, entries@[e].1@));
                assert((entries@[e]).1@ == crate::operation::operation_bytes(o));
            };
        }
        Ok(Repo { state, dag, clock: MonotonicClock::new(), store })
    }
}

/// A commit whose staged nodes were all new to the graph: the graph grew
/// by the full amount the path stages. Identifiers are hashes, so this
/// is the ordinary outcome; a shorter growth means a staged node's
/// identifier was already stored.
pub open spec fn fully_fresh(
    op: Operation,
    old_dag: Seq<crate::dag::DagEntry>,
    new_dag: Seq<crate::dag::DagEntry>,
) -> bool {
    new_dag.len() == old_dag.len() + (if auto_merge_path(op, old_dag) {
        2int
    } else {
        1int
    })
}

/// Two staged pushes only append: the old entries survive unchanged.
proof fn lemma_commit_graph_delta(
    dag0: Seq<crate::dag::DagEntry>,
    dag_mid: Seq<crate::dag::DagEntry>,
    dagf: Seq<crate::dag::DagEntry>,
    merge_inserted: bool,
    main_inserted: bool,
)
    requires
        crate::dag::distinct_cids(dag0),
        crate::dag::distinct_cids(dag_mid),
        merge_inserted ==> dag_mid.len() > 0 && dag_mid == dag0.push(dag_mid.last())
            && !has_cid(dag0, dag_mid.last().0@),
        !merge_inserted ==> dag_mid == dag0,
        main_inserted ==> dagf.len() > 0 && dagf == dag_mid.push(dagf.last()) && !has_cid(
            dag_mid,
            dagf.last().0@,
        ),
        !main_inserted ==> dagf == dag_mid,
    ensures
        dag0.is_prefix_of(dagf),
        dagf.len() <= dag0.len() + 2,
        forall|x: Seq<u8>| #[trigger]
            has_cid(dag0, x) ==> has_cid(dagf, x) && node_of(dagf, x) == node_of(dag0, x),
{
    assert(dag0.is_prefix_of(dagf)) by {
        assert(dag0 =~= dagf.subrange(0, dag0.len() as int));
    };
    assert forall|x: Seq<u8>| #[trigger]
        has_cid(dag0, x) implies has_cid(dagf, x) && node_of(dagf, x) == node_of(dag0, x) by {
        if merge_inserted {
            crate::dag::lemma_node_of_frame(dag0, dag_mid.last(), x);
        }
        assert(has_cid(dag_mid, x) && node_of(dag_mid, x) == node_of(dag0, x));
        if main_inserted {
            crate::dag::lemma_node_of_frame(dag_mid, dagf.last(), x);
        }
    };
}

/// A sound, complete and duplicate-free head list decides whether the
/// family has drifted.
proof fn lemma_heads_vec_shape(dag0: Seq<crate::dag::DagEntry>, g: Seq<u8>, hs: Seq<ContentId>)
    requires
        forall|j: int| 0 <= j < hs.len() ==> is_head(dag0, g, (#[trigger] hs[j])@),
        forall|c: Seq<u8>| #[trigger] is_head(dag0, g, c) ==> cid_in(hs, c),
        forall|j1: int, j2: int|
            0 <= j1 < j2 < hs.len() ==> (#[trigger] hs[j1])@ != (#[trigger] hs[j2])@,
    ensures
        needs_merge(dag0, g) <==> hs.len() > 1,
        (exists|h: Seq<u8>| is_head(dag0, g, h)) <==> hs.len() >= 1,
{
    if hs.len() > 1 {
        assert(is_head(dag0, g, hs[0]@));
        assert(is_head(dag0, g, hs[1]@));
        assert(hs[0]@ != hs[1]@);
        assert(needs_merge(dag0, g));
    }
    if needs_merge(dag0, g) {
        let (h1, h2) = choose|h1: Seq<u8>, h2: Seq<u8>|
            #![trigger is_head(dag0, g, h1), is_head(dag0, g, h2)]
            is_head(dag0, g, h1) && is_head(dag0, g, h2) && h1 != h2;
        assert(cid_in(hs, h1));
        assert(cid_in(hs, h2));
        let i1 = choose|i1: int| 0 <= i1 < hs.len() && (#[trigger] hs[i1])@ == h1;
        let i2 = choose|i2: int| 0 <= i2 < hs.len() && (#[trigger] hs[i2])@ == h2;
        assert(i1 != i2);
        assert(hs.len() > 1);
    }
    if hs.len() >= 1 {
        assert(is_head(dag0, g, hs[0]@));
    }
    if exists|h: Seq<u8>| is_head(dag0, g, h) {
        let h = choose|h: Seq<u8>| is_head(dag0, g, h);
        assert(cid_in(hs, h));
        let i = choose|i: int| 0 <= i < hs.len() && (#[trigger] hs[i])@ == h;
    }
}

/// A list that repeats the head list names exactly the heads.
proof fn lemma_merge_op_parents(
    dag0: Seq<crate::dag::DagEntry>,
    g: Seq<u8>,
    hs: Seq<ContentId>,
    ps: Seq<ContentId>,
)
    requires
        forall|j: int| 0 <= j < hs.len() ==> is_head(dag0, g, (#[trigger] hs[j])@),
        forall|c: Seq<u8>| #[trigger] is_head(dag0, g, c) ==> cid_in(hs, c),
        ps.len() == hs.len(),
        forall|j: int| 0 <= j < hs.len() ==> (#[trigger] ps[j])@ == hs[j]@,
    ensures
        forall|q: Seq<u8>| #[trigger] cid_in(ps, q) <==> is_head(dag0, g, q),
{
    assert forall|q: Seq<u8>| #[trigger] cid_in(ps, q) <==> is_head(dag0, g, q) by {
        if cid_in(ps, q) {
            let j = choose|j: int| 0 <= j < ps.len() && (#[trigger] ps[j])@ == q;
            assert(hs[j]@ == q);
            assert(is_head(dag0, g, hs[j]@));
        }
        if is_head(dag0, g, q) {
            assert(cid_in(hs, q));
            let j = choose|j: int| 0 <= j < hs.len() && (#[trigger] hs[j])@ == q;
            assert(ps[j]@ == q);
            assert(cid_in(ps, q));
        }
    };
}

/// Appending an operation without a payload does not move the family's
/// payload winner.
proof fn lemma_payload_winner_extend(
    ops_mid: Seq<Operation>,
    opsf: Seq<Operation>,
    g: Seq<u8>,
    j: int,
)
    requires
        opsf.len() == ops_mid.len() + 1,
        forall|k: int| 0 <= k < ops_mid.len() ==> opsf[k] == (#[trigger] ops_mid[k]),
        opsf.last().kind.payload_spec() is None,
        payload_winner(ops_mid, g, j),
    ensures
        payload_winner(opsf, g, j),
{
    assert forall|k: int|
        j < k < opsf.len() && (#[trigger] opsf[k]).genesis@ == g && opsf[k].kind.payload_spec()
            is Some implies opsf[k].timestamp < opsf[j].timestamp by {
        if k < ops_mid.len() {
            assert(opsf[k] == ops_mid[k]);
        } else {
            assert(opsf[k] == opsf.last());
        }
    };
    assert forall|k: int|
        0 <= k < j && (#[trigger] opsf[k]).genesis@ == g && opsf[k].kind.payload_spec()
            is Some implies opsf[k].timestamp <= opsf[j].timestamp by {
        assert(opsf[k] == ops_mid[k]);
    };
}

} // verus!

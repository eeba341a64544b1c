//! The DAG engine.
//!
//! Nodes live in an append-only table keyed by their content identifier.
//! Every insertion first checks that no directed path would lead from the
//! prospective node back to one of its parents, so the graph stays free
//! of cycles; a duplicate insertion is a no-op. Heads are the family
//! members no family member names as a parent, and the latest version of
//! a family is the head with the highest timestamp, identifier order
//! breaking ties.

use vstd::prelude::*;
use crate::cid::ContentId;
use crate::errors::GraphError;
use crate::node::{Node, node_eq, lists_parent_spec};
use crate::metadata::ContentMetadata;
use crate::order::{lex_lt, bytes_lt, lemma_lex_total, lemma_lex_irrefl, lemma_lex_trans};

verus! {

/// One stored node: its identifier and its content.
pub type DagEntry = (ContentId, Node);

/// Whether some entry carries the identifier.
pub open spec fn has_cid(s: Seq<DagEntry>, c: Seq<u8>) -> bool {
    exists|i: int| 0 <= i < s.len() && (#[trigger] s[i]).0@ == c
}

/// The node stored under the identifier.
pub open spec fn node_of(s: Seq<DagEntry>, c: Seq<u8>) -> Node
    recommends
        has_cid(s, c),
{
    let i = choose|i: int| 0 <= i < s.len() && (#[trigger] s[i]).0@ == c;
    s[i].1
}

/// Whether the node names `g` as its family's genesis.
pub open spec fn genesis_is(n: Node, g: Seq<u8>) -> bool {
    n.genesis matches Some(x) && x@ == g
}

/// Whether entry `i` belongs to the family of `g`: it is the genesis
/// itself or names it.
pub open spec fn family_entry(s: Seq<DagEntry>, g: Seq<u8>, i: int) -> bool {
    0 <= i < s.len() && (s[i].0@ == g || genesis_is(s[i].1, g))
}

/// Whether the identifier names a member of the family of `g`.
pub open spec fn in_family(s: Seq<DagEntry>, g: Seq<u8>, c: Seq<u8>) -> bool {
    exists|i: int| #[trigger] family_entry(s, g, i) && s[i].0@ == c
}

/// A directed edge from parent `a` to child `b`: the entry stored under
/// `b` names `a` as a parent.
pub open spec fn edge(s: Seq<DagEntry>, a: Seq<u8>, b: Seq<u8>) -> bool {
    exists|i: int|
        0 <= i < s.len() && (#[trigger] s[i]).0@ == b && lists_parent_spec(s[i].1, a)
}

/// A head of the family: a member no family member names as a parent.
pub open spec fn is_head(s: Seq<DagEntry>, g: Seq<u8>, c: Seq<u8>) -> bool {
    in_family(s, g, c) && forall|i: int|
        #[trigger] family_entry(s, g, i) ==> !lists_parent_spec(s[i].1, c)
}

/// Order on heads: by node timestamp, identifier bytes breaking ties.
pub open spec fn head_lt(s: Seq<DagEntry>, a: Seq<u8>, b: Seq<u8>) -> bool {
    node_of(s, a).timestamp < node_of(s, b).timestamp || (node_of(s, a).timestamp == node_of(
        s,
        b,
    ).timestamp && lex_lt(a, b))
}

/// No two entries carry the same identifier.
pub open spec fn distinct_cids(s: Seq<DagEntry>) -> bool {
    forall|i: int, j: int|
        0 <= i < j < s.len() ==> (#[trigger] s[i]).0@ != (#[trigger] s[j]).0@
}

/// With distinct identifiers, the entry found at `i` is the stored node.
pub proof fn lemma_node_of_at(s: Seq<DagEntry>, i: int)
    requires
        distinct_cids(s),
        0 <= i < s.len(),
    ensures
        node_of(s, s[i].0@) == s[i].1,
{
    let c = s[i].0@;
    assert(has_cid(s, c));
    let j = choose|j: int| 0 <= j < s.len() && (#[trigger] s[j]).0@ == c;
    if i != j {
        assert(s[i].0@ != s[j].0@);
    }
}

/// The content-addressed node table with cycle prevention.
#[derive(Debug)]
pub struct DagGraph {
    /// The stored nodes, in insertion order, one entry per identifier.
    pub nodes: Vec<DagEntry>,
}

impl DagGraph {
    /// Distinct identifiers and no directed cycle.
    pub open spec fn wf(&self) -> bool {
        distinct_cids(self.nodes@) && acyclic(self.nodes@)
    }

    /// An empty graph.
    pub fn new() -> (r: DagGraph)
        ensures
            r.nodes@.len() == 0,
            r.wf(),
    {
        let r = DagGraph { nodes: Vec::new() };
        proof {
            lemma_empty_acyclic(r.nodes@);
        }
        r
    }

    /// The position of the entry carrying the identifier, if any.
    fn find_index(&self, cid: &ContentId) -> (r: Option<usize>)
        ensures
            match r {
                Some(i) => 0 <= i < self.nodes@.len() && self.nodes@[i as int].0@ == cid@,
                None => !has_cid(self.nodes@, cid@),
            },
    {
        let mut t: usize = 0;
        while t < self.nodes.len()
            invariant
                0 <= t <= self.nodes@.len(),
                forall|j: int| 0 <= j < t ==> (#[trigger] self.nodes@[j]).0@ != cid@,
            decreases self.nodes@.len() - t,
        {
            if self.nodes[t].0 == *cid {
                return Some(t);
            }
            t = t + 1;
        }
        None
    }

    /// The node stored under the identifier, if any.
    pub fn get_node(&self, cid: &ContentId) -> (r: Option<Node>)
        requires
            self.wf(),
        ensures
            match r {
                Some(n) => has_cid(self.nodes@, cid@) && node_eq(n, node_of(self.nodes@, cid@)),
                None => !has_cid(self.nodes@, cid@),
            },
    {
        match self.find_index(cid) {
            Some(i) => {
                proof {
                    lemma_node_of_at(self.nodes@, i as int);
                }
                Some(self.nodes[i].1.duplicate())
            },
            None => None,
        }
    }

    /// The genesis identifier of the family a node belongs to: its
    /// `genesis` field, or the node's own identifier on a genesis node.
    pub fn get_genesis(&self, node_cid: &ContentId) -> (r: Result<ContentId, GraphError>)
        requires
            self.wf(),
        ensures
            has_cid(self.nodes@, node_cid@) ==> (r matches Ok(g) && g@ == genesis_of(
                self.nodes@,
                node_cid@,
            )),
            !has_cid(self.nodes@, node_cid@) ==> (r matches Err(e) && e matches
                GraphError::NodeNotFound(c) && c@ == node_cid@),
    {
        match self.find_index(node_cid) {
            Some(i) => {
                proof {
                    lemma_node_of_at(self.nodes@, i as int);
                }
                match &self.nodes[i].1.genesis {
                    Option::Some(g) => Ok(g.duplicate()),
                    Option::None => Ok(node_cid.duplicate()),
                }
            },
            None => Err(GraphError::NodeNotFound(node_cid.duplicate())),
        }
    }

    /// The identifiers of every member of the family: the genesis itself
    /// and every node naming it.
    pub fn get_nodes_by_genesis(&self, genesis_id: &ContentId) -> (r: Vec<ContentId>)
        requires
            self.wf(),
        ensures
            forall|j: int| 0 <= j < r@.len() ==> in_family(self.nodes@, genesis_id@, (#[trigger] r@[j])@),
            forall|i: int|
                #[trigger] family_entry(self.nodes@, genesis_id@, i) ==> exists|j: int|
                    0 <= j < r@.len() && (#[trigger] r@[j])@ == self.nodes@[i].0@,
            forall|j1: int, j2: int| 0 <= j1 < j2 < r@.len() ==> (#[trigger] r@[j1])@ != (#[trigger] r@[j2])@,
    {
        let mut out: Vec<ContentId> = Vec::new();
        let mut t: usize = 0;
        while t < self.nodes.len()
            invariant
                self.wf(),
                0 <= t <= self.nodes@.len(),
                forall|j: int|
                    0 <= j < out@.len() ==> in_family(
                        self.nodes@,
                        genesis_id@,
                        (#[trigger] out@[j])@,
                    ),
                forall|i: int|
                    0 <= i < t && #[trigger] family_entry(self.nodes@, genesis_id@, i)
                        ==> exists|j: int|
                        0 <= j < out@.len() && (#[trigger] out@[j])@ == self.nodes@[i].0@,
                forall|j: int|
                    0 <= j < out@.len() ==> exists|i: int|
                        0 <= i < t && (#[trigger] self.nodes@[i]).0@ == (#[trigger] out@[j])@,
                forall|j1: int, j2: int|
                    0 <= j1 < j2 < out@.len() ==> (#[trigger] out@[j1])@ != (
                    #[trigger] out@[j2])@,
            decreases self.nodes@.len() - t,
        {
            let is_member = if self.nodes[t].0 == *genesis_id {
                true
            } else {
                match &self.nodes[t].1.genesis {
                    Option::Some(g) => *g == *genesis_id,
                    Option::None => false,
                }
            };
            if is_member {
                let ghost out0 = out@;
                proof {
                    assert(family_entry(self.nodes@, genesis_id@, t as int));
                    assert forall|j: int| 0 <= j < out@.len() implies (#[trigger] out@[j])@
                        != self.nodes@[t as int].0@ by {
                        let i = choose|i: int|
                            0 <= i < t && (#[trigger] self.nodes@[i]).0@ == out@[j]@;
                        assert(self.nodes@[i].0@ != self.nodes@[t as int].0@);
                    };
                }
                out.push(self.nodes[t].0.duplicate());
                proof {
                    assert forall|i: int|
                        0 <= i <= t && #[trigger] family_entry(
                            self.nodes@,
                            genesis_id@,
                            i,
                        ) implies exists|j: int|
                        0 <= j < out@.len() && (#[trigger] out@[j])@ == self.nodes@[i].0@ by {
                        if i < t {
                            let j = choose|j: int|
                                0 <= j < out0.len() && (#[trigger] out0[j])@
                                    == self.nodes@[i].0@;
                            assert(out@[j] == out0[j]);
                            assert(out@[j]@ == self.nodes@[i].0@);
                        } else {
                            assert(out@[out@.len() - 1]@ == self.nodes@[t as int].0@);
                        }
                    };
                }
            } else {
                proof {
                    assert(!family_entry(self.nodes@, genesis_id@, t as int));
                }
            }
            t = t + 1;
        }
        out
    }
}

/// The genesis identifier a stored node resolves to.
pub open spec fn genesis_of(s: Seq<DagEntry>, c: Seq<u8>) -> Seq<u8> {
    match node_of(s, c).genesis {
        Some(x) => x@,
        None => c,
    }
}

/// A directed path: consecutive identifiers joined by parent-to-child
/// edges.
pub open spec fn is_path(s: Seq<DagEntry>, p: Seq<Seq<u8>>) -> bool {
    p.len() >= 1 && forall|k: int| 0 <= k < p.len() - 1 ==> edge(s, #[trigger] p[k], p[k + 1])
}

/// No directed cycle: no path of two or more steps returns to its start.
pub open spec fn acyclic(s: Seq<DagEntry>) -> bool {
    forall|p: Seq<Seq<u8>>|
        !(#[trigger] is_path(s, p) && p.len() >= 2 && p[0] == p[p.len() - 1])
}

/// A graph without entries has no edges and so no cycle.
pub proof fn lemma_empty_acyclic(s: Seq<DagEntry>)
    requires
        s.len() == 0,
    ensures
        acyclic(s),
{
    assert forall|p: Seq<Seq<u8>>|
        !(#[trigger] is_path(s, p) && p.len() >= 2 && p[0] == p[p.len() - 1]) by {
        if is_path(s, p) && p.len() >= 2 {
            assert(edge(s, p[0], p[1]));
        }
    };
}


/// Reachability: a directed path leads from `a` to `b`; every identifier
/// reaches itself by the single-vertex path.
pub open spec fn reaches(s: Seq<DagEntry>, a: Seq<u8>, b: Seq<u8>) -> bool {
    exists|p: Seq<Seq<u8>>| #[trigger] is_path(s, p) && p[0] == a && p[p.len() - 1] == b
}

pub proof fn lemma_reaches_self(s: Seq<DagEntry>, a: Seq<u8>)
    ensures
        reaches(s, a, a),
{
    let p = seq![a];
    assert(is_path(s, p));
    assert(p[0] == a && p[p.len() - 1] == a);
}

/// A path extends along an edge out of its end.
pub proof fn lemma_reaches_step(s: Seq<DagEntry>, a: Seq<u8>, b: Seq<u8>, c: Seq<u8>)
    requires
        reaches(s, a, b),
        edge(s, b, c),
    ensures
        reaches(s, a, c),
{
    let p = choose|p: Seq<Seq<u8>>| #[trigger] is_path(s, p) && p[0] == a && p[p.len() - 1] == b;
    let q = p.push(c);
    assert forall|k: int| 0 <= k < q.len() - 1 implies edge(s, #[trigger] q[k], q[k + 1]) by {
        if k < p.len() - 1 {
            assert(q[k] == p[k] && q[k + 1] == p[k + 1]);
        } else {
            assert(q[k] == p[p.len() - 1] && q[k + 1] == c);
        }
    };
    assert(is_path(s, q));
    assert(q[0] == a && q[q.len() - 1] == c);
}

/// Whether some identifier in the list carries the given view.
pub open spec fn cid_in(vs: Seq<ContentId>, c: Seq<u8>) -> bool {
    exists|i: int| 0 <= i < vs.len() && (#[trigger] vs[i])@ == c
}

/// Whether the list holds the identifier.
pub fn cid_in_vec(vs: &Vec<ContentId>, c: &ContentId) -> (r: bool)
    ensures
        r == cid_in(vs@, c@),
{
    contains_cid(vs, c)
}

/// Compares a list entry against an identifier.
fn contains_cid(vs: &Vec<ContentId>, c: &ContentId) -> (r: bool)
    ensures
        r == cid_in(vs@, c@),
{
    let mut t: usize = 0;
    while t < vs.len()
        invariant
            0 <= t <= vs@.len(),
            forall|j: int| 0 <= j < t ==> (#[trigger] vs@[j])@ != c@,
        decreases vs@.len() - t,
    {
        if vs[t] == *c {
            return true;
        }
        t = t + 1;
    }
    false
}

/// Whether the node names the identifier among its parents.
fn node_lists_parent(n: &Node, c: &ContentId) -> (r: bool)
    ensures
        r == lists_parent_spec(*n, c@),
{
    let mut t: usize = 0;
    while t < n.parents.len()
        invariant
            0 <= t <= n.parents@.len(),
            forall|j: int| 0 <= j < t ==> (#[trigger] n.parents@[j])@ != c@,
        decreases n.parents@.len() - t,
    {
        if n.parents[t] == *c {
            return true;
        }
        t = t + 1;
    }
    false
}

/// Distinct identifiers, each stored in the graph or equal to one spare
/// identifier, never outnumber the entries by more than one.
proof fn lemma_distinct_in_graph_bound(vs: Seq<ContentId>, s: Seq<DagEntry>)
    requires
        distinct_cids(s),
        forall|i: int, j: int| 0 <= i < j < vs.len() ==> (#[trigger] vs[i])@ != (#[trigger] vs[j])@,
        forall|i: int| 0 <= i < vs.len() ==> has_cid(s, (#[trigger] vs[i])@),
    ensures
        vs.len() <= s.len(),
    decreases vs.len(),
{
    if vs.len() > 0 {
        let c = vs.last()@;
        let k = choose|k: int| 0 <= k < s.len() && (#[trigger] s[k]).0@ == c;
        let s2 = s.remove(k);
        assert forall|i: int| 0 <= i < vs.drop_last().len() implies has_cid(
            s2,
            (#[trigger] vs.drop_last()[i])@,
        ) by {
            let v = vs.drop_last()[i]@;
            assert(vs[i]@ == v);
            assert(v != c);
            let w = choose|w: int| 0 <= w < s.len() && (#[trigger] s[w]).0@ == v;
            if w < k {
                assert(s2[w].0@ == v);
            } else {
                assert(w != k);
                assert(s2[w - 1].0@ == v);
            }
        };
        assert forall|i: int, j: int|
            0 <= i < j < s2.len() implies (#[trigger] s2[i]).0@ != (#[trigger] s2[j]).0@ by {
            let oi = if i < k { i } else { i + 1 };
            let oj = if j < k { j } else { j + 1 };
            assert(s2[i] == s[oi]);
            assert(s2[j] == s[oj]);
        };
        lemma_distinct_in_graph_bound(vs.drop_last(), s2);
    }
}

/// Bound with one spare identifier allowed.
pub(crate) proof fn lemma_visited_bound(vs: Seq<ContentId>, s: Seq<DagEntry>, extra: Seq<u8>)
    requires
        distinct_cids(s),
        forall|i: int, j: int| 0 <= i < j < vs.len() ==> (#[trigger] vs[i])@ != (#[trigger] vs[j])@,
        forall|i: int| 0 <= i < vs.len() ==> (#[trigger] vs[i])@ == extra || has_cid(s, vs[i]@),
    ensures
        vs.len() <= s.len() + 1,
{
    if exists|e: int| 0 <= e < vs.len() && (#[trigger] vs[e])@ == extra {
        let e = choose|e: int| 0 <= e < vs.len() && (#[trigger] vs[e])@ == extra;
        let vs2 = vs.remove(e);
        assert forall|i: int, j: int|
            0 <= i < j < vs2.len() implies (#[trigger] vs2[i])@ != (#[trigger] vs2[j])@ by {
            let oi = if i < e { i } else { i + 1 };
            let oj = if j < e { j } else { j + 1 };
            assert(vs2[i] == vs[oi]);
            assert(vs2[j] == vs[oj]);
        };
        assert forall|i: int| 0 <= i < vs2.len() implies has_cid(s, (#[trigger] vs2[i])@) by {
            let oi = if i < e { i } else { i + 1 };
            assert(vs2[i] == vs[oi]);
            assert(vs[oi]@ != extra);
        };
        lemma_distinct_in_graph_bound(vs2, s);
    } else {
        assert forall|i: int| 0 <= i < vs.len() implies has_cid(s, (#[trigger] vs[i])@) by {
            assert(vs[i]@ != extra);
        };
        lemma_distinct_in_graph_bound(vs, s);
    }
}

/// A path whose start lies in a set closed under edges ends in that set.
proof fn lemma_closed_no_escape(s: Seq<DagEntry>, vs: Seq<ContentId>, p: Seq<Seq<u8>>)
    requires
        is_path(s, p),
        cid_in(vs, p[0]),
        forall|a: Seq<u8>, b: Seq<u8>|
            cid_in(vs, a) && #[trigger] edge(s, a, b) ==> cid_in(vs, b),
    ensures
        cid_in(vs, p[p.len() - 1]),
    decreases p.len(),
{
    if p.len() > 1 {
        assert(edge(s, p[0], p[1]));
        let q = p.drop_first();
        assert forall|k: int| 0 <= k < q.len() - 1 implies edge(s, #[trigger] q[k], q[k + 1]) by {
            assert(q[k] == p[k + 1] && q[k + 1] == p[k + 2]);
        };
        assert(is_path(s, q));
        assert(cid_in(vs, q[0]));
        lemma_closed_no_escape(s, vs, q);
    }
}

/// Membership after an append: the old entries and the new one.
pub(crate) proof fn lemma_cid_in_push(vs: Seq<ContentId>, x: ContentId, c: Seq<u8>)
    ensures
        cid_in(vs.push(x), c) <==> (cid_in(vs, c) || x@ == c),
{
    if cid_in(vs, c) {
        let i = choose|i: int| 0 <= i < vs.len() && (#[trigger] vs[i])@ == c;
        assert(vs.push(x)[i]@ == c);
    }
    if x@ == c {
        assert(vs.push(x)[vs.len() as int]@ == c);
    }
    if cid_in(vs.push(x), c) {
        let i = choose|i: int| 0 <= i < vs.push(x).len() && (#[trigger] vs.push(x)[i])@ == c;
        if i < vs.len() {
            assert(vs[i]@ == c);
        }
    }
}

/// Membership after dropping the last entry.
proof fn lemma_cid_in_drop_last(vs: Seq<ContentId>, c: Seq<u8>)
    requires
        vs.len() > 0,
    ensures
        cid_in(vs, c) <==> (cid_in(vs.drop_last(), c) || vs.last()@ == c),
{
    if cid_in(vs, c) {
        let i = choose|i: int| 0 <= i < vs.len() && (#[trigger] vs[i])@ == c;
        if i < vs.len() - 1 {
            assert(vs.drop_last()[i]@ == c);
        }
    }
    if cid_in(vs.drop_last(), c) {
        let i = choose|i: int|
            0 <= i < vs.drop_last().len() && (#[trigger] vs.drop_last()[i])@ == c;
        assert(vs[i]@ == c);
    }
}

impl DagGraph {
    /// Whether a directed path leads from `start` to `target`. The
    /// search walks child edges from `start` and marks what it has seen.
    #[verifier::rlimit(100)]
    #[verifier::spinoff_prover]
    fn reaches_target(&self, start: &ContentId, target: &ContentId) -> (r: bool)
        requires
            distinct_cids(self.nodes@),
        ensures
            r == reaches(self.nodes@, start@, target@),
    {
        if *start == *target {
            proof {
                lemma_reaches_self(self.nodes@, start@);
            }
            return true;
        }
        let ghost s = self.nodes@;
        let mut stack: Vec<ContentId> = Vec::new();
        stack.push(start.duplicate());
        let mut visited: Vec<ContentId> = Vec::new();
        proof {
            lemma_reaches_self(s, start@);
            assert(stack@[0]@ == start@);
            assert(cid_in(stack@, start@));
        }
        while stack.len() > 0
            invariant
                s == self.nodes@,
                distinct_cids(s),
                start@ != target@,
                forall|i: int|
                    0 <= i < stack@.len() ==> reaches(s, start@, (#[trigger] stack@[i])@),
                forall|i: int|
                    0 <= i < visited@.len() ==> reaches(s, start@, (#[trigger] visited@[i])@),
                forall|a: Seq<u8>, b: Seq<u8>|
                    cid_in(visited@, a) && #[trigger] edge(s, a, b) ==> cid_in(visited@, b)
                        || cid_in(stack@, b),
                !cid_in(visited@, target@),
                cid_in(visited@, start@) || cid_in(stack@, start@),
                forall|i: int, j: int|
                    0 <= i < j < visited@.len() ==> (#[trigger] visited@[i])@ != (
                    #[trigger] visited@[j])@,
                forall|i: int|
                    0 <= i < visited@.len() ==> (#[trigger] visited@[i])@ == start@ || has_cid(
                        s,
                        visited@[i]@,
                    ),
                forall|i: int|
                    0 <= i < stack@.len() ==> (#[trigger] stack@[i])@ == start@ || has_cid(
                        s,
                        stack@[i]@,
                    ),
                visited@.len() <= s.len() + 1,
            decreases s.len() + 1 - visited@.len(), stack@.len(),
        {
            let ghost pre_stack = stack@;
            let cur = match stack.pop() {
                Some(c) => c,
                None => {
                    proof {
                        assert(false);
                    }
                    return false;
                },
            };
            proof {
                assert(stack@ == pre_stack.drop_last());
                assert(cur == pre_stack.last());
            }
            if cur == *target {
                return true;
            }
            if !contains_cid(&visited, &cur) {
                let ghost visited0 = visited@;
                visited.push(cur.duplicate());
                proof {
                    assert(visited@ == visited0.push(visited@.last()));
                    assert(visited@.last()@ == cur@);
                    assert forall|c: Seq<u8>| #[trigger] cid_in(visited0, c) implies cid_in(
                        visited@,
                        c,
                    ) by {
                        lemma_cid_in_push(visited0, visited@.last(), c);
                    };
                    assert(cid_in(visited@, cur@)) by {
                        lemma_cid_in_push(visited0, visited@.last(), cur@);
                    };
                    assert(!cid_in(visited@, target@)) by {
                        lemma_cid_in_push(visited0, visited@.last(), target@);
                    };
                    assert(cid_in(visited@, start@) || cid_in(stack@, start@)) by {
                        lemma_cid_in_push(visited0, visited@.last(), start@);
                        if cid_in(pre_stack, start@) {
                            lemma_cid_in_drop_last(pre_stack, start@);
                        }
                    };
                    lemma_visited_bound(visited@, s, start@);
                    assert(visited@.drop_last() =~= visited0);
                    assert forall|a: Seq<u8>, b: Seq<u8>|
                        cid_in(visited@.drop_last(), a) && #[trigger] edge(
                            s,
                            a,
                            b,
                        ) implies cid_in(visited@, b) || cid_in(stack@, b) || cid_in(
                        pre_stack,
                        b,
                    ) by {
                        assert(cid_in(visited0, a));
                    };
                }
                let mut k: usize = 0;
                while k < self.nodes.len()
                    invariant
                        s == self.nodes@,
                        distinct_cids(s),
                        start@ != target@,
                        cur@ != target@,
                        0 <= k <= s.len(),
                        visited@.len() > 0,
                        visited@.last()@ == cur@,
                        cid_in(visited@, cur@),
                        reaches(s, start@, cur@),
                        forall|i: int|
                            0 <= i < stack@.len() ==> reaches(
                                s,
                                start@,
                                (#[trigger] stack@[i])@,
                            ),
                        forall|i: int|
                            0 <= i < visited@.len() ==> reaches(
                                s,
                                start@,
                                (#[trigger] visited@[i])@,
                            ),
                        forall|a: Seq<u8>, b: Seq<u8>|
                            cid_in(visited@.drop_last(), a) && #[trigger] edge(s, a, b)
                                ==> cid_in(visited@, b) || cid_in(stack@, b) || cid_in(
                                pre_stack,
                                b,
                            ),
                        forall|c: Seq<u8>| #[trigger] cid_in(pre_stack.drop_last(), c)
                            ==> cid_in(stack@, c),
                        forall|i: int|
                            0 <= i < k && lists_parent_spec(s[i].1, cur@) ==> cid_in(
                                stack@,
                                (#[trigger] s[i]).0@,
                            ),
                        !cid_in(visited@, target@),
                        cid_in(visited@, start@) || cid_in(stack@, start@),
                        forall|i: int, j: int|
                            0 <= i < j < visited@.len() ==> (#[trigger] visited@[i])@ != (
                            #[trigger] visited@[j])@,
                        forall|i: int|
                            0 <= i < visited@.len() ==> (#[trigger] visited@[i])@ == start@
                                || has_cid(s, visited@[i]@),
                        forall|i: int|
                            0 <= i < stack@.len() ==> (#[trigger] stack@[i])@ == start@
                                || has_cid(s, stack@[i]@),
                        visited@.len() <= s.len() + 1,
                    decreases s.len() - k,
                {
                    if node_lists_parent(&self.nodes[k].1, &cur) {
                        let ghost st0 = stack@;
                        proof {
                            assert(edge(s, cur@, s[k as int].0@));
                            lemma_reaches_step(s, start@, cur@, s[k as int].0@);
                        }
                        stack.push(self.nodes[k].0.duplicate());
                        proof {
                            assert(stack@ == st0.push(stack@.last()));
                            assert(stack@.last()@ == s[k as int].0@);
                            assert forall|c: Seq<u8>| #[trigger] cid_in(st0, c) implies cid_in(
                                stack@,
                                c,
                            ) by {
                                lemma_cid_in_push(st0, stack@.last(), c);
                            };
                            assert(cid_in(stack@, s[k as int].0@)) by {
                                lemma_cid_in_push(st0, stack@.last(), s[k as int].0@);
                            };
                        }
                    }
                    k = k + 1;
                }
                proof {
                    // the set grown by `cur` is closed again: edges out of
                    // `cur` were all pushed, and nothing left the stack
                    // since the pop
                    assert forall|a: Seq<u8>, b: Seq<u8>|
                        cid_in(visited@, a) && #[trigger] edge(s, a, b) implies cid_in(
                        visited@,
                        b,
                    ) || cid_in(stack@, b) by {
                        lemma_cid_in_drop_last(visited@, a);
                        if a == cur@ {
                            let i = choose|i: int|
                                0 <= i < s.len() && (#[trigger] s[i]).0@ == b
                                    && lists_parent_spec(s[i].1, a);
                            assert(cid_in(stack@, s[i].0@));
                        } else {
                            assert(cid_in(visited@.drop_last(), a));
                            if cid_in(pre_stack, b) {
                                lemma_cid_in_drop_last(pre_stack, b);
                                if pre_stack.last()@ == b {
                                    assert(cid_in(visited@, b));
                                }
                            }
                        }
                    };
                }
            } else {
                proof {
                    assert(cid_in(visited@, cur@));
                    assert forall|a: Seq<u8>, b: Seq<u8>|
                        cid_in(visited@, a) && #[trigger] edge(s, a, b) implies cid_in(
                        visited@,
                        b,
                    ) || cid_in(stack@, b) by {
                        if cid_in(pre_stack, b) {
                            lemma_cid_in_drop_last(pre_stack, b);
                            if pre_stack.last()@ == b {
                                assert(cid_in(visited@, b));
                            }
                        }
                    };
                    assert(cid_in(visited@, start@) || cid_in(stack@, start@)) by {
                        if cid_in(pre_stack, start@) {
                            lemma_cid_in_drop_last(pre_stack, start@);
                            if pre_stack.last()@ == start@ {
                                assert(cid_in(visited@, start@));
                            }
                        }
                    };
                }
            }
        }
        proof {
            if reaches(s, start@, target@) {
                let p = choose|p: Seq<Seq<u8>>|
                    #[trigger] is_path(s, p) && p[0] == start@ && p[p.len() - 1] == target@;
                assert(cid_in(visited@, start@));
                lemma_closed_no_escape(s, visited@, p);
            }
        }
        false
    }
}

/// A cycle can be rotated to start at any of its vertices.
pub open spec fn rotate_cycle(p: Seq<Seq<u8>>, k: int) -> Seq<Seq<u8>>
    recommends
        0 <= k < p.len(),
{
    p.subrange(k, p.len() as int) + p.subrange(1, k + 1)
}

proof fn lemma_cycle_rotate(s: Seq<DagEntry>, p: Seq<Seq<u8>>, k: int)
    requires
        is_path(s, p),
        p.len() >= 2,
        p[0] == p[p.len() - 1],
        0 <= k < p.len(),
    ensures
        is_path(s, rotate_cycle(p, k)),
        rotate_cycle(p, k).len() == p.len(),
        rotate_cycle(p, k)[0] == p[k],
        rotate_cycle(p, k)[rotate_cycle(p, k).len() - 1] == p[k],
{
    let n = p.len() as int;
    let q = rotate_cycle(p, k);
    assert(q.len() == n);
    assert(q[0] == p[k]);
    if k == 0 {
        assert(q[n - 1] == p[n - 1]);
    } else {
        assert(q[n - 1] == p.subrange(1, k + 1)[k - 1]);
        assert(q[n - 1] == p[k]);
    }
    assert forall|i: int| 0 <= i < n - 1 implies edge(s, #[trigger] q[i], q[i + 1]) by {
        if i + 1 < n - k {
            assert(q[i] == p[k + i]);
            assert(q[i + 1] == p[k + i + 1]);
            assert(edge(s, p[k + i], p[k + i + 1]));
        } else if i + 1 == n - k {
            assert(q[i] == p[n - 1]);
            assert(q[i + 1] == p.subrange(1, k + 1)[0]);
            assert(q[i + 1] == p[1]);
            assert(p[n - 1] == p[0]);
            assert(edge(s, p[0], p[1]));
        } else {
            let j = i - (n - k);
            assert(q[i] == p.subrange(1, k + 1)[j]);
            assert(q[i + 1] == p.subrange(1, k + 1)[j + 1]);
            assert(edge(s, p[j + 1], p[j + 2]));
        }
    };
}

/// Appending a fresh node whose identifier reaches none of its parents
/// keeps the graph acyclic: a cycle would have to pass through the new
/// node, and its closing edge would exhibit exactly such a path.
proof fn lemma_checked_insert_acyclic(s: Seq<DagEntry>, e: DagEntry)
    requires
        acyclic(s),
        distinct_cids(s),
        !has_cid(s, e.0@),
        forall|q: Seq<u8>| #[trigger] lists_parent_spec(e.1, q) ==> !reaches(s.push(e), e.0@, q),
    ensures
        acyclic(s.push(e)),
{
    let s2 = s.push(e);
    assert forall|p: Seq<Seq<u8>>|
        !(#[trigger] is_path(s2, p) && p.len() >= 2 && p[0] == p[p.len() - 1]) by {
        if is_path(s2, p) && p.len() >= 2 && p[0] == p[p.len() - 1] {
            if exists|k: int| 0 <= k < p.len() && p[k] == e.0@ {
                let k = choose|k: int| 0 <= k < p.len() && p[k] == e.0@;
                lemma_cycle_rotate(s2, p, k);
                let q = rotate_cycle(p, k);
                let n = q.len() as int;
                assert(edge(s2, q[n - 2], q[n - 1]));
                assert(q[n - 1] == e.0@);
                let w = choose|w: int|
                    0 <= w < s2.len() && (#[trigger] s2[w]).0@ == e.0@ && lists_parent_spec(
                        s2[w].1,
                        q[n - 2],
                    );
                assert(w == s.len()) by {
                    if w < s.len() {
                        assert(s[w].0@ == e.0@);
                    }
                };
                assert(lists_parent_spec(e.1, q[n - 2]));
                let pre = q.subrange(0, n - 1);
                assert forall|t: int|
                    0 <= t < pre.len() - 1 implies edge(s2, #[trigger] pre[t], pre[t + 1]) by {
                    assert(pre[t] == q[t] && pre[t + 1] == q[t + 1]);
                };
                assert(is_path(s2, pre));
                assert(pre[0] == e.0@ && pre[pre.len() - 1] == q[n - 2]);
                assert(reaches(s2, e.0@, q[n - 2]));
            } else {
                assert forall|t: int|
                    0 <= t < p.len() - 1 implies edge(s, #[trigger] p[t], p[t + 1]) by {
                    assert(edge(s2, p[t], p[t + 1]));
                    assert(p[t + 1] != e.0@);
                    let w = choose|w: int|
                        0 <= w < s2.len() && (#[trigger] s2[w]).0@ == p[t + 1]
                            && lists_parent_spec(s2[w].1, p[t]);
                    assert(w < s.len()) by {
                        if w == s.len() {
                            assert(s2[w].0@ == e.0@);
                        }
                    };
                    assert(s[w] == s2[w]);
                };
                assert(is_path(s, p));
            }
        }
    };
}

/// Dropping the last entry drops edges, so acyclicity is kept.
proof fn lemma_drop_last_acyclic(s: Seq<DagEntry>)
    requires
        acyclic(s),
        s.len() > 0,
    ensures
        acyclic(s.drop_last()),
{
    let s2 = s.drop_last();
    assert forall|p: Seq<Seq<u8>>|
        !(#[trigger] is_path(s2, p) && p.len() >= 2 && p[0] == p[p.len() - 1]) by {
        if is_path(s2, p) && p.len() >= 2 && p[0] == p[p.len() - 1] {
            assert forall|t: int|
                0 <= t < p.len() - 1 implies edge(s, #[trigger] p[t], p[t + 1]) by {
                let w = choose|w: int|
                    0 <= w < s2.len() && (#[trigger] s2[w]).0@ == p[t + 1] && lists_parent_spec(
                        s2[w].1,
                        p[t],
                    );
                assert(s[w] == s2[w]);
            };
            assert(is_path(s, p));
        }
    };
}

/// Whether storing the node under the identifier would close a cycle.
pub open spec fn creates_cycle(s: Seq<DagEntry>, cid: ContentId, node: Node) -> bool {
    exists|q: Seq<u8>|
        #[trigger] lists_parent_spec(node, q) && reaches(s.push((cid, node)), cid@, q)
}

/// A genesis-shaped node built from the given pieces.
pub open spec fn genesis_node_shape(
    n: Node,
    payload: Seq<char>,
    timestamp: u64,
    metadata: ContentMetadata,
) -> bool {
    &&& n.payload@ == payload
    &&& n.parents@.len() == 0
    &&& n.genesis is None
    &&& n.timestamp == timestamp
    &&& crate::metadata::meta_eq(n.metadata, metadata)
}

/// A node built from the given pieces, genesis reference included.
pub open spec fn general_node_shape(
    n: Node,
    payload: Seq<char>,
    parents: Seq<ContentId>,
    genesis: Option<ContentId>,
    timestamp: u64,
    metadata: ContentMetadata,
) -> bool {
    &&& n.payload@ == payload
    &&& crate::node::cid_seq_eq(n.parents@, parents)
    &&& crate::node::opt_cid_eq(n.genesis, genesis)
    &&& n.timestamp == timestamp
    &&& crate::metadata::meta_eq(n.metadata, metadata)
}

/// A child-shaped node built from the given pieces.
pub open spec fn child_node_shape(
    n: Node,
    payload: Seq<char>,
    parents: Seq<ContentId>,
    genesis: Seq<u8>,
    timestamp: u64,
    metadata: ContentMetadata,
) -> bool {
    &&& n.payload@ == payload
    &&& crate::node::cid_seq_eq(n.parents@, parents)
    &&& genesis_is(n, genesis)
    &&& n.timestamp == timestamp
    &&& crate::metadata::meta_eq(n.metadata, metadata)
}

impl DagGraph {
    /// Builds a genesis node and computes its identifier, without
    /// storing anything.
    pub fn prepare_genesis_node(payload: String, timestamp: u64, metadata: ContentMetadata) -> (r:
        (ContentId, Node))
        ensures
            genesis_node_shape(r.1, payload@, timestamp, metadata),
            r.1.metadata == metadata,
            r.0@ == crate::node::node_cid(r.1),
            r.0.wf(),
    {
        let n = Node::new_genesis(payload, timestamp, metadata);
        let c = match n.content_id() {
            Ok(c) => c,
            Err(_) => {
                proof {
                    assert(false);
                }
                ContentId { bytes: Vec::new() }
            },
        };
        (c, n)
    }

    /// Builds a child node and computes its identifier, without storing
    /// anything.
    pub fn prepare_child_node(
        payload: String,
        parents: Vec<ContentId>,
        genesis: ContentId,
        timestamp: u64,
        metadata: ContentMetadata,
    ) -> (r: (ContentId, Node))
        ensures
            child_node_shape(r.1, payload@, parents@, genesis@, timestamp, metadata),
            r.1.parents == parents,
            r.1.metadata == metadata,
            r.0@ == crate::node::node_cid(r.1),
            r.0.wf(),
    {
        let n = Node::new_child(payload, parents, genesis, timestamp, metadata);
        let c = match n.content_id() {
            Ok(c) => c,
            Err(_) => {
                proof {
                    assert(false);
                }
                ContentId { bytes: Vec::new() }
            },
        };
        (c, n)
    }

    /// Stores a prepared node. A duplicate identifier is a no-op; an
    /// insertion that would close a directed cycle is refused and leaves
    /// the graph unchanged.
    pub fn insert_node(&mut self, cid: ContentId, node: Node) -> (r: Result<bool, GraphError>)
        requires
            old(self).wf(),
        ensures
            final(self).wf(),
            has_cid(old(self).nodes@, cid@) ==> r == Ok::<bool, GraphError>(false)
                && final(self).nodes@ == old(self).nodes@,
            !has_cid(old(self).nodes@, cid@) && !creates_cycle(old(self).nodes@, cid, node) ==> r
                == Ok::<bool, GraphError>(true)
                && final(self).nodes@ == old(self).nodes@.push((cid, node)),
            !has_cid(old(self).nodes@, cid@) && creates_cycle(old(self).nodes@, cid, node) ==> (r
                matches Err(e) && e is CycleDetected)
                && final(self).nodes@ == old(self).nodes@,
    {
        match self.find_index(&cid) {
            Some(_) => {
                return Ok(false);
            },
            None => {},
        }
        let ghost s0 = self.nodes@;
        self.nodes.push((cid, node));
        let ghost e = self.nodes@.last();
        proof {
            assert(self.nodes@ == s0.push(e));
            assert forall|i: int, j: int|
                0 <= i < j < self.nodes@.len() implies (#[trigger] self.nodes@[i]).0@ != (
            #[trigger] self.nodes@[j]).0@ by {
                if j == s0.len() {
                    assert(self.nodes@[i] == s0[i]);
                    if self.nodes@[i].0@ == e.0@ {
                        assert(has_cid(s0, e.0@));
                    }
                } else {
                    assert(self.nodes@[i] == s0[i]);
                    assert(self.nodes@[j] == s0[j]);
                }
            };
        }
        let last = self.nodes.len() - 1;
        let mut pi: usize = 0;
        let n_parents = self.nodes[last].1.parents.len();
        while pi < n_parents
            invariant
                s0 == old(self).nodes@,
                self.nodes@ == s0.push(e),
                e == (cid, node),
                distinct_cids(self.nodes@),
                distinct_cids(s0),
                acyclic(s0),
                !has_cid(s0, cid@),
                0 <= last < self.nodes@.len(),
                last == self.nodes@.len() - 1,
                n_parents == e.1.parents@.len(),
                0 <= pi <= n_parents,
                forall|j: int|
                    0 <= j < pi ==> !reaches(self.nodes@, e.0@, (#[trigger] e.1.parents@[j])@),
            decreases n_parents - pi,
        {
            let start = self.nodes[last].0.duplicate();
            let parent = self.nodes[last].1.parents[pi].duplicate();
            if self.reaches_target(&start, &parent) {
                proof {
                    assert(lists_parent_spec(e.1, e.1.parents@[pi as int]@));
                    assert(creates_cycle(s0, cid, node));
                }
                self.nodes.pop();
                proof {
                    assert(self.nodes@ =~= s0);
                }
                return Err(GraphError::CycleDetected);
            }
            pi = pi + 1;
        }
        proof {
            assert forall|q: Seq<u8>| #[trigger] lists_parent_spec(e.1, q) implies !reaches(
                self.nodes@,
                e.0@,
                q,
            ) by {
                let j = choose|j: int|
                    0 <= j < e.1.parents@.len() && (#[trigger] e.1.parents@[j])@ == q;
                assert(!reaches(self.nodes@, e.0@, e.1.parents@[j]@));
            };
            lemma_checked_insert_acyclic(s0, e);
            assert(!creates_cycle(s0, cid, node)) by {
                if creates_cycle(s0, cid, node) {
                    let q = choose|q: Seq<u8>|
                        #[trigger] lists_parent_spec(node, q) && reaches(
                            s0.push((cid, node)),
                            cid@,
                            q,
                        );
                    assert(!reaches(self.nodes@, e.0@, q));
                }
            };
        }
        Ok(true)
    }

    /// Removes the most recently staged node again, identified by its
    /// identifier; used to roll a failed commit back.
    pub fn rollback_pending_node(&mut self, cid: &ContentId)
        requires
            old(self).wf(),
        ensures
            final(self).wf(),
            old(self).nodes@.len() > 0 && old(self).nodes@.last().0@ == cid@
                ==> final(self).nodes@ == old(self).nodes@.drop_last(),
            !(old(self).nodes@.len() > 0 && old(self).nodes@.last().0@ == cid@)
                ==> final(self).nodes@ == old(self).nodes@,
    {
        if self.nodes.len() > 0 {
            let last = self.nodes.len() - 1;
            if self.nodes[last].0 == *cid {
                proof {
                    lemma_drop_last_acyclic(self.nodes@);
                }
                self.nodes.pop();
            }
        }
    }

    /// Creates and stores a node with the given fields; the general
    /// entry behind the genesis and child shorthands. Refused when the
    /// node would close a cycle.
    pub fn add_node(
        &mut self,
        payload: String,
        parents: Vec<ContentId>,
        genesis: Option<ContentId>,
        timestamp: u64,
        metadata: ContentMetadata,
    ) -> (r: Result<ContentId, GraphError>)
        requires
            old(self).wf(),
        ensures
            final(self).wf(),
            r matches Ok(c) ==> c.wf() && has_cid(final(self).nodes@, c@) && (exists|n: Node|
                general_node_shape(n, payload@, parents@, genesis, timestamp, metadata) && c@
                    == crate::node::node_cid(n)),
            r matches Ok(c) ==> (!has_cid(old(self).nodes@, c@) ==> final(self).nodes@ == old(
                self,
            ).nodes@.push(final(self).nodes@.last()) && final(self).nodes@.last().0@ == c@
                && general_node_shape(
                final(self).nodes@.last().1,
                payload@,
                parents@,
                genesis,
                timestamp,
                metadata,
            )),
            (exists|cw: ContentId, nw: Node|
                general_node_shape(nw, payload@, parents@, genesis, timestamp, metadata) && cw@
                    == crate::node::node_cid(nw) && !has_cid(old(self).nodes@, cw@)
                    && !creates_cycle(old(self).nodes@, cw, nw)) ==> r is Ok,
            r is Err ==> (r matches Err(e) && e is CycleDetected) && final(self).nodes@ == old(
                self,
            ).nodes@,
    {
        let ghost pv = payload@;
        let ghost psv = parents@;
        let ghost gv = genesis;
        let n = Node { payload, parents, genesis, timestamp, metadata };
        let ghost gn = n;
        let c = match n.content_id() {
            Ok(c) => c,
            Err(_) => {
                proof {
                    assert(false);
                }
                return Err(GraphError::CycleDetected);
            },
        };
        let cr = c.duplicate();
        let ghost c0 = c;
        match self.insert_node(c, n) {
            Ok(_) => {
                proof {
                    if !has_cid(old(self).nodes@, cr@) {
                        assert(self.nodes@.last().0@ == cr@);
                    }
                    assert(has_cid(self.nodes@, cr@));
                }
                Ok(cr)
            },
            Err(e) => {
                proof {
                    if exists|cw: ContentId, nw: Node|
                        general_node_shape(nw, pv, psv, gv, timestamp, metadata) && cw@
                            == crate::node::node_cid(nw) && !has_cid(old(self).nodes@, cw@)
                            && !creates_cycle(old(self).nodes@, cw, nw) {
                        let (cw, nw) = choose|cw: ContentId, nw: Node|
                            general_node_shape(nw, pv, psv, gv, timestamp, metadata) && cw@
                                == crate::node::node_cid(nw) && !has_cid(old(self).nodes@, cw@)
                                && !creates_cycle(old(self).nodes@, cw, nw);
                        lemma_general_witness_matches(
                            old(self).nodes@,
                            c0,
                            gn,
                            cw,
                            nw,
                            pv,
                            psv,
                            gv,
                            timestamp,
                            metadata,
                        );
                        assert(false);
                    }
                }
                Err(e)
            },
        }
    }

    /// Creates and stores a genesis node; yields the family's new
    /// identifier.
    pub fn add_genesis_node(
        &mut self,
        payload: String,
        metadata: ContentMetadata,
        timestamp: u64,
    ) -> (r: Result<ContentId, GraphError>)
        requires
            old(self).wf(),
        ensures
            final(self).wf(),
            r matches Ok(c) && c.wf() && has_cid(final(self).nodes@, c@) && (exists|n: Node|
                genesis_node_shape(n, payload@, timestamp, metadata) && c@
                    == crate::node::node_cid(n)),
    {
        let ghost pv = payload@;
        let (c, n) = Self::prepare_genesis_node(payload, timestamp, metadata);
        let ghost gn = n;
        let cr = c.duplicate();
        let ghost c0 = c;
        match self.insert_node(c, n) {
            Ok(_) => {
                proof {
                    if !has_cid(old(self).nodes@, c0@) {
                        assert(self.nodes@.last().0@ == c0@);
                        assert(has_cid(self.nodes@, c0@));
                    }
                }
                Ok(ContentId { bytes: cr.bytes })
            },
            Err(_) => {
                proof {
                    assert(!creates_cycle(old(self).nodes@, c0, gn)) by {
                        if creates_cycle(old(self).nodes@, c0, gn) {
                            let q = choose|q: Seq<u8>|
                                #[trigger] lists_parent_spec(gn, q) && reaches(
                                    old(self).nodes@.push((c0, gn)),
                                    c0@,
                                    q,
                                );
                        }
                    };
                    assert(false);
                }
                Err(GraphError::CycleDetected)
            },
        }
    }

    /// Creates and stores a child node inside the family named by
    /// `genesis`; refuses it when it would close a cycle.
    pub fn add_child_node(
        &mut self,
        payload: String,
        parents: Vec<ContentId>,
        genesis: ContentId,
        timestamp: u64,
        metadata: ContentMetadata,
    ) -> (r: Result<ContentId, GraphError>)
        requires
            old(self).wf(),
        ensures
            final(self).wf(),
            r matches Ok(c) ==> c.wf() && has_cid(final(self).nodes@, c@) && (exists|n: Node|
                child_node_shape(n, payload@, parents@, genesis@, timestamp, metadata) && c@
                    == crate::node::node_cid(n)),
            r matches Ok(c) ==> (!has_cid(old(self).nodes@, c@) ==> final(self).nodes@ == old(
                self,
            ).nodes@.push(final(self).nodes@.last()) && final(self).nodes@.last().0@ == c@
                && child_node_shape(
                final(self).nodes@.last().1,
                payload@,
                parents@,
                genesis@,
                timestamp,
                metadata,
            )),
            (exists|cw: ContentId, nw: Node|
                child_node_shape(nw, payload@, parents@, genesis@, timestamp, metadata) && cw@
                    == crate::node::node_cid(nw) && !has_cid(old(self).nodes@, cw@)
                    && !creates_cycle(old(self).nodes@, cw, nw)) ==> r is Ok,
            r is Err ==> (r matches Err(e) && e is CycleDetected) && final(self).nodes@ == old(
                self,
            ).nodes@,
    {
        let ghost pv = payload@;
        let ghost psv = parents@;
        let (c, n) = Self::prepare_child_node(payload, parents, genesis, timestamp, metadata);
        let ghost gn = n;
        let cr = c.duplicate();
        let ghost c0 = c;
        match self.insert_node(c, n) {
            Ok(_) => {
                proof {
                    if !has_cid(old(self).nodes@, c0@) {
                        assert(self.nodes@.last().0@ == c0@);
                        assert(has_cid(self.nodes@, c0@));
                    }
                }
                Ok(ContentId { bytes: cr.bytes })
            },
            Err(e) => {
                proof {
                    if exists|cw: ContentId, nw: Node|
                        child_node_shape(nw, pv, psv, genesis@, timestamp, metadata) && cw@
                            == crate::node::node_cid(nw) && !has_cid(old(self).nodes@, cw@)
                            && !creates_cycle(old(self).nodes@, cw, nw) {
                        let (cw, nw) = choose|cw: ContentId, nw: Node|
                            child_node_shape(nw, pv, psv, genesis@, timestamp, metadata) && cw@
                                == crate::node::node_cid(nw) && !has_cid(old(self).nodes@, cw@)
                                && !creates_cycle(old(self).nodes@, cw, nw);
                        lemma_add_witness_matches(
                            old(self).nodes@,
                            c0,
                            gn,
                            cw,
                            nw,
                            pv,
                            psv,
                            genesis@,
                            timestamp,
                            metadata,
                        );
                        assert(false);
                    }
                }
                Err(e)
            },
        }
    }
}

/// Any node of the general shape carries the built node's identifier
/// and closes a cycle exactly when the built node would.
proof fn lemma_general_witness_matches(
    s: Seq<DagEntry>,
    c0: ContentId,
    gn: Node,
    cw: ContentId,
    nw: Node,
    payload: Seq<char>,
    parents: Seq<ContentId>,
    genesis: Option<ContentId>,
    timestamp: u64,
    metadata: ContentMetadata,
)
    requires
        general_node_shape(gn, payload, parents, genesis, timestamp, metadata),
        c0@ == crate::node::node_cid(gn),
        general_node_shape(nw, payload, parents, genesis, timestamp, metadata),
        cw@ == crate::node::node_cid(nw),
    ensures
        cw@ == c0@,
        creates_cycle(s, cw, nw) == creates_cycle(s, c0, gn),
{
    assert(crate::node::cid_seq_eq(nw.parents@, gn.parents@)) by {
        assert forall|t: int|
            0 <= t < nw.parents@.len() implies (#[trigger] nw.parents@[t])@
            == gn.parents@[t]@ by {
            assert(nw.parents@[t]@ == parents[t]@);
            assert(gn.parents@[t]@ == parents[t]@);
        };
    };
    assert(crate::node::opt_cid_eq(nw.genesis, gn.genesis)) by {
        match (nw.genesis, gn.genesis, genesis) {
            (Option::Some(a), Option::Some(b), Option::Some(g)) => {
                assert(a@ == g@);
                assert(b@ == g@);
            },
            _ => {},
        }
    };
    crate::metadata::lemma_meta_eq_joint(nw.metadata, gn.metadata, metadata);
    assert(crate::node::node_eq(nw, gn));
    crate::node::lemma_cid_deterministic(nw, gn);
    lemma_creates_cycle_congruent(s, cw, nw, c0, gn);
}

/// Any node of the child shape carries the prepared node's identifier
/// and closes a cycle exactly when the prepared node would: the shape
/// pins every view the graph reads.
proof fn lemma_add_witness_matches(
    s: Seq<DagEntry>,
    c0: ContentId,
    gn: Node,
    cw: ContentId,
    nw: Node,
    payload: Seq<char>,
    parents: Seq<ContentId>,
    genesis: Seq<u8>,
    timestamp: u64,
    metadata: ContentMetadata,
)
    requires
        child_node_shape(gn, payload, parents, genesis, timestamp, metadata),
        c0@ == crate::node::node_cid(gn),
        child_node_shape(nw, payload, parents, genesis, timestamp, metadata),
        cw@ == crate::node::node_cid(nw),
    ensures
        cw@ == c0@,
        creates_cycle(s, cw, nw) == creates_cycle(s, c0, gn),
{
    assert(crate::node::cid_seq_eq(nw.parents@, gn.parents@)) by {
        assert forall|t: int|
            0 <= t < nw.parents@.len() implies (#[trigger] nw.parents@[t])@
            == gn.parents@[t]@ by {
            assert(nw.parents@[t]@ == parents[t]@);
            assert(gn.parents@[t]@ == parents[t]@);
        };
    };
    assert(crate::node::opt_cid_eq(nw.genesis, gn.genesis)) by {
        match (nw.genesis, gn.genesis) {
            (Option::Some(a), Option::Some(b)) => {
                assert(a@ == genesis);
                assert(b@ == genesis);
            },
            _ => {},
        }
    };
    crate::metadata::lemma_meta_eq_joint(nw.metadata, gn.metadata, metadata);
    assert(crate::node::node_eq(nw, gn));
    crate::node::lemma_cid_deterministic(nw, gn);
    lemma_creates_cycle_congruent(s, cw, nw, c0, gn);
}

pub proof fn lemma_head_lt_trans(s: Seq<DagEntry>, a: Seq<u8>, b: Seq<u8>, c: Seq<u8>)
    requires
        head_lt(s, a, b),
        head_lt(s, b, c),
    ensures
        head_lt(s, a, c),
{
    if node_of(s, a).timestamp == node_of(s, b).timestamp && node_of(s, b).timestamp == node_of(
        s,
        c,
    ).timestamp {
        lemma_lex_trans(a, b, c);
    }
}

pub proof fn lemma_head_total(s: Seq<DagEntry>, a: Seq<u8>, b: Seq<u8>)
    ensures
        head_lt(s, a, b) || head_lt(s, b, a) || a == b,
{
    lemma_lex_total(a, b);
}

impl DagGraph {
    /// Whether entry `k` belongs to the family of `genesis`.
    fn is_family_entry_at(&self, k: usize, genesis: &ContentId) -> (r: bool)
        requires
            k < self.nodes@.len(),
        ensures
            r == (self.nodes@[k as int].0@ == genesis@ || genesis_is(
                self.nodes@[k as int].1,
                genesis@,
            )),
    {
        if self.nodes[k].0 == *genesis {
            true
        } else {
            match &self.nodes[k].1.genesis {
                Option::Some(g) => *g == *genesis,
                Option::None => false,
            }
        }
    }

    /// The timestamp of the node stored under the identifier.
    fn node_timestamp_of(&self, c: &ContentId) -> (r: u64)
        requires
            self.wf(),
            has_cid(self.nodes@, c@),
        ensures
            r == node_of(self.nodes@, c@).timestamp,
    {
        match self.find_index(c) {
            Some(i) => {
                proof {
                    lemma_node_of_at(self.nodes@, i as int);
                }
                self.nodes[i].1.timestamp
            },
            None => {
                proof {
                    assert(false);
                }
                0
            },
        }
    }

    /// The heads of a family: every member no family member names as a
    /// parent, in storage order.
    pub fn find_heads(&self, genesis: &ContentId) -> (r: Vec<ContentId>)
        requires
            self.wf(),
        ensures
            forall|j: int| 0 <= j < r@.len() ==> is_head(self.nodes@, genesis@, (#[trigger] r@[j])@),
            forall|c: Seq<u8>| #[trigger] is_head(self.nodes@, genesis@, c) ==> cid_in(r@, c),
            forall|j1: int, j2: int|
                0 <= j1 < j2 < r@.len() ==> (#[trigger] r@[j1])@ != (#[trigger] r@[j2])@,
    {
        let ghost s = self.nodes@;
        let ghost g = genesis@;
        let mut out: Vec<ContentId> = Vec::new();
        let mut t: usize = 0;
        while t < self.nodes.len()
            invariant
                s == self.nodes@,
                g == genesis@,
                self.wf(),
                0 <= t <= s.len(),
                forall|j: int| 0 <= j < out@.len() ==> is_head(s, g, (#[trigger] out@[j])@),
                forall|i: int|
                    0 <= i < t && #[trigger] family_entry(s, g, i) && is_head(s, g, s[i].0@)
                        ==> cid_in(out@, s[i].0@),
                forall|j: int|
                    0 <= j < out@.len() ==> exists|i: int|
                        0 <= i < t && (#[trigger] s[i]).0@ == (#[trigger] out@[j])@,
                forall|j1: int, j2: int|
                    0 <= j1 < j2 < out@.len() ==> (#[trigger] out@[j1])@ != (
                    #[trigger] out@[j2])@,
            decreases s.len() - t,
        {
            if self.is_family_entry_at(t, genesis) {
                let mut has_child = false;
                let mut k: usize = 0;
                while k < self.nodes.len()
                    invariant
                        s == self.nodes@,
                        g == genesis@,
                        self.wf(),
                        0 <= t < s.len(),
                        0 <= k <= s.len(),
                        !has_child ==> forall|k2: int|
                            0 <= k2 < k && #[trigger] family_entry(s, g, k2)
                                ==> !lists_parent_spec(s[k2].1, s[t as int].0@),
                        has_child ==> exists|k2: int|
                            #[trigger] family_entry(s, g, k2) && lists_parent_spec(
                                s[k2].1,
                                s[t as int].0@,
                            ),
                    decreases s.len() - k,
                {
                    if self.is_family_entry_at(k, genesis) {
                        if node_lists_parent(&self.nodes[k].1, &self.nodes[t].0) {
                            proof {
                                assert(family_entry(s, g, k as int));
                            }
                            has_child = true;
                        }
                    }
                    k = k + 1;
                }
                if !has_child {
                    let ghost out0 = out@;
                    proof {
                        assert(family_entry(s, g, t as int));
                        assert(in_family(s, g, s[t as int].0@));
                        assert(is_head(s, g, s[t as int].0@));
                        assert forall|j: int| 0 <= j < out@.len() implies (#[trigger] out@[j])@
                            != s[t as int].0@ by {
                            let i = choose|i: int|
                                0 <= i < t && (#[trigger] s[i]).0@ == out@[j]@;
                            assert(s[i].0@ != s[t as int].0@);
                        };
                    }
                    out.push(self.nodes[t].0.duplicate());
                    proof {
                        assert forall|i: int|
                            0 <= i <= t && #[trigger] family_entry(s, g, i) && is_head(
                                s,
                                g,
                                s[i].0@,
                            ) implies cid_in(out@, s[i].0@) by {
                            if i < t {
                                let j = choose|j: int|
                                    0 <= j < out0.len() && (#[trigger] out0[j])@ == s[i].0@;
                                assert(out@[j]@ == s[i].0@);
                            } else {
                                assert(out@[out@.len() - 1]@ == s[t as int].0@);
                            }
                        };
                    }
                } else {
                    proof {
                        assert(!is_head(s, g, s[t as int].0@));
                    }
                }
            } else {
                proof {
                    assert(!family_entry(s, g, t as int));
                }
            }
            t = t + 1;
        }
        proof {
            assert forall|c: Seq<u8>| #[trigger] is_head(s, g, c) implies cid_in(out@, c) by {
                let i = choose|i: int| #[trigger] family_entry(s, g, i) && s[i].0@ == c;
            };
        }
        out
    }

    /// The latest version of a family: the head with the highest
    /// timestamp, identifier order breaking ties. Yields nothing when
    /// the family has no head, in particular on an unknown genesis.
    pub fn calculate_latest(&self, genesis_id: &ContentId) -> (r: Option<ContentId>)
        requires
            self.wf(),
        ensures
            r is Some <==> exists|c: Seq<u8>| is_head(self.nodes@, genesis_id@, c),
            r matches Some(c) ==> is_head(self.nodes@, genesis_id@, c@) && (forall|h: Seq<u8>|
                #[trigger] is_head(self.nodes@, genesis_id@, h) && h != c@ ==> head_lt(
                    self.nodes@,
                    h,
                    c@,
                )),
    {
        let ghost s = self.nodes@;
        let ghost g = genesis_id@;
        let heads = self.find_heads(genesis_id);
        if heads.len() == 0 {
            proof {
                if exists|c: Seq<u8>| is_head(s, g, c) {
                    let c = choose|c: Seq<u8>| is_head(s, g, c);
                    assert(cid_in(heads@, c));
                }
            }
            return None;
        }
        let mut bi: usize = 0;
        let mut t: usize = 1;
        proof {
            assert(is_head(s, g, heads@[0]@));
            assert(in_family(s, g, heads@[0]@));
            let i = choose|i: int| #[trigger] family_entry(s, g, i) && s[i].0@ == heads@[0]@;
            assert(has_cid(s, heads@[0]@));
        }
        while t < heads.len()
            invariant
                s == self.nodes@,
                g == genesis_id@,
                self.wf(),
                0 <= bi < t <= heads@.len(),
                forall|j: int| 0 <= j < heads@.len() ==> is_head(s, g, (#[trigger] heads@[j])@),
                forall|j1: int, j2: int|
                    0 <= j1 < j2 < heads@.len() ==> (#[trigger] heads@[j1])@ != (
                    #[trigger] heads@[j2])@,
                forall|j: int|
                    0 <= j < t && j != bi ==> head_lt(
                        s,
                        (#[trigger] heads@[j])@,
                        heads@[bi as int]@,
                    ),
            decreases heads@.len() - t,
        {
            proof {
                assert(is_head(s, g, heads@[t as int]@));
                assert(in_family(s, g, heads@[t as int]@));
                let i = choose|i: int|
                    #[trigger] family_entry(s, g, i) && s[i].0@ == heads@[t as int]@;
                assert(has_cid(s, heads@[t as int]@));
                assert(in_family(s, g, heads@[bi as int]@));
                let i2 = choose|i2: int|
                    #[trigger] family_entry(s, g, i2) && s[i2].0@ == heads@[bi as int]@;
                assert(has_cid(s, heads@[bi as int]@));
            }
            let tb = self.node_timestamp_of(&heads[bi]);
            let tt = self.node_timestamp_of(&heads[t]);
            let better = if tb < tt {
                true
            } else if tb > tt {
                false
            } else {
                bytes_lt(&heads[bi].bytes, &heads[t].bytes)
            };
            if better {
                proof {
                    assert(head_lt(s, heads@[bi as int]@, heads@[t as int]@));
                    assert forall|j: int| 0 <= j < t && j != t implies head_lt(
                        s,
                        (#[trigger] heads@[j])@,
                        heads@[t as int]@,
                    ) by {
                        if j != bi {
                            lemma_head_lt_trans(
                                s,
                                heads@[j]@,
                                heads@[bi as int]@,
                                heads@[t as int]@,
                            );
                        }
                    };
                }
                bi = t;
            } else {
                proof {
                    lemma_head_total(s, heads@[t as int]@, heads@[bi as int]@);
                    assert(heads@[t as int]@ != heads@[bi as int]@);
                    assert(head_lt(s, heads@[t as int]@, heads@[bi as int]@));
                }
            }
            t = t + 1;
        }
        let c = heads[bi].duplicate();
        proof {
            assert(is_head(s, g, c@));
            assert forall|h: Seq<u8>| #[trigger] is_head(s, g, h) && h != c@ implies head_lt(
                s,
                h,
                c@,
            ) by {
                assert(cid_in(heads@, h));
                let j = choose|j: int| 0 <= j < heads@.len() && (#[trigger] heads@[j])@ == h;
                assert(j != bi);
            };
        }
        Some(c)
    }

    /// Whether the stored graph holds a directed cycle; used to validate
    /// a graph read back from the store before trusting it.
    pub fn detect_cycle_cid(&self) -> (r: bool)
        requires
            distinct_cids(self.nodes@),
        ensures
            r == !acyclic(self.nodes@),
    {
        let ghost s = self.nodes@;
        let mut i: usize = 0;
        while i < self.nodes.len()
            invariant
                s == self.nodes@,
                distinct_cids(s),
                0 <= i <= s.len(),
                forall|i2: int, pj: int|
                    0 <= i2 < i && 0 <= pj < s[i2].1.parents@.len() ==> !reaches(
                        s,
                        (#[trigger] s[i2]).0@,
                        (#[trigger] s[i2].1.parents@[pj])@,
                    ),
            decreases s.len() - i,
        {
            let mut pj: usize = 0;
            let n_parents = self.nodes[i].1.parents.len();
            while pj < n_parents
                invariant
                    s == self.nodes@,
                    distinct_cids(s),
                    0 <= i < s.len(),
                    n_parents == s[i as int].1.parents@.len(),
                    0 <= pj <= n_parents,
                    forall|i2: int, pj2: int|
                        0 <= i2 < i && 0 <= pj2 < s[i2].1.parents@.len() ==> !reaches(
                            s,
                            (#[trigger] s[i2]).0@,
                            (#[trigger] s[i2].1.parents@[pj2])@,
                        ),
                    forall|pj2: int|
                        0 <= pj2 < pj ==> !reaches(
                            s,
                            s[i as int].0@,
                            (#[trigger] s[i as int].1.parents@[pj2])@,
                        ),
                decreases n_parents - pj,
            {
                let child = self.nodes[i].0.duplicate();
                let parent = self.nodes[i].1.parents[pj].duplicate();
                if self.reaches_target(&child, &parent) {
                    proof {
                        let p = choose|p: Seq<Seq<u8>>|
                            #[trigger] is_path(s, p) && p[0] == child@ && p[p.len() - 1]
                                == parent@;
                        let q = seq![parent@] + p;
                        assert forall|k: int|
                            0 <= k < q.len() - 1 implies edge(s, #[trigger] q[k], q[k + 1]) by {
                            if k == 0 {
                                assert(q[0] == parent@ && q[1] == p[0]);
                                assert(lists_parent_spec(s[i as int].1, parent@));
                                assert(edge(s, parent@, child@));
                            } else {
                                assert(q[k] == p[k - 1] && q[k + 1] == p[k]);
                            }
                        };
                        assert(is_path(s, q));
                        assert(q.len() >= 2 && q[0] == q[q.len() - 1]);
                        assert(!acyclic(s));
                    }
                    return true;
                }
                pj = pj + 1;
            }
            i = i + 1;
        }
        proof {
            assert forall|p: Seq<Seq<u8>>|
                !(#[trigger] is_path(s, p) && p.len() >= 2 && p[0] == p[p.len() - 1]) by {
                if is_path(s, p) && p.len() >= 2 && p[0] == p[p.len() - 1] {
                    assert(edge(s, p[0], p[1]));
                    let w = choose|w: int|
                        0 <= w < s.len() && (#[trigger] s[w]).0@ == p[1] && lists_parent_spec(
                            s[w].1,
                            p[0],
                        );
                    let pj = choose|pj: int|
                        0 <= pj < s[w].1.parents@.len() && (#[trigger] s[w].1.parents@[pj])@
                            == p[0];
                    let q = p.drop_first();
                    assert forall|k: int|
                        0 <= k < q.len() - 1 implies edge(s, #[trigger] q[k], q[k + 1]) by {
                        assert(q[k] == p[k + 1] && q[k + 1] == p[k + 2]);
                    };
                    assert(is_path(s, q));
                    assert(q[0] == p[1] && q[q.len() - 1] == p[0]);
                    assert(reaches(s, s[w].0@, s[w].1.parents@[pj]@));
                }
            };
            assert(acyclic(s));
        }
        false
    }
}

/// Sorts identifiers into non-descending lexicographic order, keeping
/// exactly the identifiers that went in; a duplicate-free input stays
/// duplicate-free.
pub fn sort_cids(v: Vec<ContentId>) -> (r: Vec<ContentId>)
    ensures
        r@.len() == v@.len(),
        forall|k1: int, k2: int|
            0 <= k1 < k2 < r@.len() ==> !lex_lt((#[trigger] r@[k2])@, (#[trigger] r@[k1])@),
        forall|c: Seq<u8>| cid_in(r@, c) <==> cid_in(v@, c),
        (forall|k1: int, k2: int|
            0 <= k1 < k2 < v@.len() ==> (#[trigger] v@[k1])@ != (#[trigger] v@[k2])@) ==> (forall|
            k1: int,
            k2: int,
        |
            0 <= k1 < k2 < r@.len() ==> (#[trigger] r@[k1])@ != (#[trigger] r@[k2])@),
{
    let ghost orig = v@;
    let ghost dis = forall|k1: int, k2: int|
        0 <= k1 < k2 < orig.len() ==> (#[trigger] orig[k1])@ != (#[trigger] orig[k2])@;
    let mut work = v;
    let mut out: Vec<ContentId> = Vec::new();
    while work.len() > 0
        invariant
            out@.len() + work@.len() == orig.len(),
            forall|k1: int, k2: int|
                0 <= k1 < k2 < out@.len() ==> !lex_lt((#[trigger] out@[k2])@, (#[trigger] out@[k1])@),
            forall|k: int, w: int|
                0 <= k < out@.len() && 0 <= w < work@.len() ==> !lex_lt(
                    (#[trigger] work@[w])@,
                    (#[trigger] out@[k])@,
                ),
            forall|c: Seq<u8>| cid_in(orig, c) <==> (cid_in(out@, c) || cid_in(work@, c)),
            dis ==> forall|k1: int, k2: int|
                0 <= k1 < k2 < out@.len() ==> (#[trigger] out@[k1])@ != (#[trigger] out@[k2])@,
            dis ==> forall|k1: int, k2: int|
                0 <= k1 < k2 < work@.len() ==> (#[trigger] work@[k1])@ != (#[trigger] work@[k2])@,
            dis ==> forall|k: int, w: int|
                0 <= k < out@.len() && 0 <= w < work@.len() ==> (#[trigger] out@[k])@ != (
                #[trigger] work@[w])@,
        decreases work@.len(),
    {
        let mut mi: usize = 0;
        let mut t: usize = 1;
        proof {
            lemma_lex_irrefl(work@[0]@);
        }
        while t < work.len()
            invariant
                0 <= mi < t <= work@.len(),
                forall|j: int| 0 <= j < t ==> !lex_lt((#[trigger] work@[j])@, work@[mi as int]@),
            decreases work@.len() - t,
        {
            if bytes_lt(&work[t].bytes, &work[mi].bytes) {
                proof {
                    assert forall|j: int| 0 <= j < t + 1 implies !lex_lt(
                        (#[trigger] work@[j])@,
                        work@[t as int]@,
                    ) by {
                        if j < t && lex_lt(work@[j]@, work@[t as int]@) {
                            lemma_lex_trans(work@[j]@, work@[t as int]@, work@[mi as int]@);
                        }
                        if j == t {
                            lemma_lex_irrefl(work@[t as int]@);
                        }
                    };
                }
                mi = t;
            } else {
                proof {
                    lemma_lex_irrefl(work@[t as int]@);
                }
            }
            t = t + 1;
        }
        let ghost work0 = work@;
        let x = work.remove(mi);
        let ghost out0 = out@;
        out.push(x);
        proof {
            assert(out@.last() == work0[mi as int]);
            assert forall|c: Seq<u8>| cid_in(orig, c) implies (cid_in(out@, c) || cid_in(
                work@,
                c,
            )) by {
                if cid_in(work0, c) {
                    let i = choose|i: int| 0 <= i < work0.len() && (#[trigger] work0[i])@ == c;
                    if i == mi as int {
                        assert(out@[out@.len() - 1]@ == c);
                    } else if i < mi as int {
                        assert(work@[i]@ == c);
                    } else {
                        assert(work@[i - 1]@ == c);
                    }
                } else {
                    let i = choose|i: int| 0 <= i < out0.len() && (#[trigger] out0[i])@ == c;
                    assert(out@[i]@ == c);
                }
            };
            assert forall|c: Seq<u8>| (cid_in(out@, c) || cid_in(work@, c)) implies cid_in(
                orig,
                c,
            ) by {
                if cid_in(out@, c) {
                    let i = choose|i: int| 0 <= i < out@.len() && (#[trigger] out@[i])@ == c;
                    if i < out0.len() {
                        assert(out0[i]@ == c);
                    } else {
                        assert(work0[mi as int]@ == c);
                        assert(cid_in(work0, c));
                    }
                } else {
                    let i = choose|i: int| 0 <= i < work@.len() && (#[trigger] work@[i])@ == c;
                    if i < mi as int {
                        assert(work0[i]@ == c);
                    } else {
                        assert(work0[i + 1]@ == c);
                    }
                    assert(cid_in(work0, c));
                }
            };
            assert forall|k: int, w: int|
                0 <= k < out@.len() && 0 <= w < work@.len() implies !lex_lt(
                (#[trigger] work@[w])@,
                (#[trigger] out@[k])@,
            ) by {
                let ow = if w < mi as int {
                    w
                } else {
                    w + 1
                };
                assert(work@[w] == work0[ow]);
                if k < out0.len() {
                    assert(!lex_lt(work0[ow]@, out0[k]@));
                } else {
                    assert(out@[k] == work0[mi as int]);
                    assert(!lex_lt(work0[ow]@, work0[mi as int]@));
                }
            };
            if dis {
                assert forall|k1: int, k2: int|
                    0 <= k1 < k2 < work@.len() implies (#[trigger] work@[k1])@ != (
                #[trigger] work@[k2])@ by {
                    let o1 = if k1 < mi as int {
                        k1
                    } else {
                        k1 + 1
                    };
                    let o2 = if k2 < mi as int {
                        k2
                    } else {
                        k2 + 1
                    };
                    assert(work@[k1] == work0[o1] && work@[k2] == work0[o2]);
                    assert(work0[o1]@ != work0[o2]@);
                };
                assert forall|k1: int, k2: int|
                    0 <= k1 < k2 < out@.len() implies (#[trigger] out@[k1])@ != (
                #[trigger] out@[k2])@ by {
                    if k2 == out@.len() - 1 {
                        assert(out@[k1] == out0[k1]);
                        assert(out@[k2] == work0[mi as int]);
                        assert(out0[k1]@ != work0[mi as int]@);
                    }
                };
                assert forall|k: int, w: int|
                    0 <= k < out@.len() && 0 <= w < work@.len() implies (#[trigger] out@[k])@
                    != (#[trigger] work@[w])@ by {
                    let ow = if w < mi as int {
                        w
                    } else {
                        w + 1
                    };
                    assert(work@[w] == work0[ow]);
                    if k < out@.len() - 1 {
                        assert(out@[k] == out0[k]);
                    } else {
                        assert(out@[k] == work0[mi as int]);
                        assert(work0[mi as int]@ != work0[ow]@);
                    }
                };
            }
        }
    }
    out
}

/// On a linear chain — a family with exactly one head — any answer that
/// meets the latest-version contract names that head: the last committed
/// child of the chain.
pub proof fn lemma_latest_on_linear(s: Seq<DagEntry>, g: Seq<u8>, c: Seq<u8>, rv: Option<Seq<u8>>)
    requires
        is_head(s, g, c),
        forall|h: Seq<u8>| #[trigger] is_head(s, g, h) ==> h == c,
        rv is Some <==> (exists|h: Seq<u8>| is_head(s, g, h)),
        rv matches Some(x) ==> is_head(s, g, x),
    ensures
        rv == Some(c),
{
    assert(exists|h: Seq<u8>| is_head(s, g, h));
}

/// Head convergence: store a merge node whose parents are exactly the
/// family's heads, then one child of that merge node alone, and the
/// child is the family's only head. This is the shape a commit with
/// empty parents leaves behind on a family that had drifted into
/// several heads. It rests on the family naming no absent node: an
/// import can leave such a dangling reference, and a fresh node that
/// happened to be named by one would not end up a head.
pub proof fn lemma_head_convergence(s: Seq<DagEntry>, g: Seq<u8>, m: DagEntry, u: DagEntry)
    requires
        distinct_cids(s),
        !has_cid(s, m.0@),
        !has_cid(s, u.0@),
        m.0@ != u.0@,
        genesis_is(m.1, g),
        genesis_is(u.1, g),
        forall|q: Seq<u8>| #[trigger] lists_parent_spec(m.1, q) <==> is_head(s, g, q),
        u.1.parents@.len() == 1 && u.1.parents@[0]@ == m.0@,
        forall|i: int, p: Seq<u8>|
            family_entry(s, g, i) && #[trigger] lists_parent_spec(#[trigger] s[i].1, p)
                ==> has_cid(s, p),
    ensures
        forall|h: Seq<u8>| #[trigger] is_head(s.push(m).push(u), g, h) <==> h == u.0@,
{
    let s2 = s.push(m).push(u);
    let mi = s.len() as int;
    let ui = s.len() as int + 1;
    assert(s2[mi] == m);
    assert(s2[ui] == u);
    assert forall|i: int| 0 <= i < s.len() implies s2[i] == s[i] by {}

    // the new child is a head
    assert(family_entry(s2, g, ui));
    assert(in_family(s2, g, u.0@));
    assert forall|i: int| #[trigger] family_entry(s2, g, i) implies !lists_parent_spec(
        s2[i].1,
        u.0@,
    ) by {
        if i < s.len() {
            assert(family_entry(s, g, i));
            if lists_parent_spec(s[i].1, u.0@) {
                assert(has_cid(s, u.0@));
            }
        } else if i == mi {
            if lists_parent_spec(m.1, u.0@) {
                assert(is_head(s, g, u.0@));
                let w = choose|w: int| #[trigger] family_entry(s, g, w) && s[w].0@ == u.0@;
                assert(has_cid(s, u.0@));
            }
        } else {
            if lists_parent_spec(u.1, u.0@) {
                let q = choose|q: int|
                    0 <= q < u.1.parents@.len() && (#[trigger] u.1.parents@[q])@ == u.0@;
            }
        }
    };
    assert(is_head(s2, g, u.0@));

    // and it is the only one
    assert forall|h: Seq<u8>| #[trigger] is_head(s2, g, h) && h != u.0@ implies false by {
        let j = choose|j: int| #[trigger] family_entry(s2, g, j) && s2[j].0@ == h;
        if j < s.len() {
            assert(family_entry(s, g, j));
            assert(in_family(s, g, h));
            if is_head(s, g, h) {
                assert(lists_parent_spec(m.1, h));
                assert(family_entry(s2, g, mi));
                assert(!lists_parent_spec(s2[mi].1, h));
            } else {
                let k = choose|k: int|
                    !(#[trigger] family_entry(s, g, k) ==> !lists_parent_spec(s[k].1, h));
                assert(family_entry(s2, g, k));
                assert(!lists_parent_spec(s2[k].1, h));
            }
        } else if j == mi {
            assert(h == m.0@);
            assert(family_entry(s2, g, ui));
            assert(lists_parent_spec(u.1, m.0@)) by {
                assert(u.1.parents@[0]@ == m.0@);
            };
            assert(!lists_parent_spec(s2[ui].1, h));
        } else {
            assert(h == u.0@);
        }
    };
}

/// Appending a fresh entry changes no stored node: lookups and resolved
/// genesis identifiers of existing members stay as they were.
pub proof fn lemma_node_of_frame(s: Seq<DagEntry>, e: DagEntry, c: Seq<u8>)
    requires
        distinct_cids(s),
        !has_cid(s, e.0@),
        has_cid(s, c),
    ensures
        has_cid(s.push(e), c),
        node_of(s.push(e), c) == node_of(s, c),
        genesis_of(s.push(e), c) == genesis_of(s, c),
{
    let s2 = s.push(e);
    let i = choose|i: int| 0 <= i < s.len() && (#[trigger] s[i]).0@ == c;
    assert(s2[i].0@ == c);
    assert(has_cid(s2, c));
    let j = choose|j: int| 0 <= j < s2.len() && (#[trigger] s2[j]).0@ == c;
    if j == s.len() {
        assert(e.0@ == c);
        assert(has_cid(s, e.0@));
    } else {
        assert(s[j].0@ == c);
        let j2 = choose|j2: int| 0 <= j2 < s.len() && (#[trigger] s[j2]).0@ == c;
        if j != j2 {
            assert(s[j].0@ != s[j2].0@);
        }
        assert(node_of(s2, c) == s[j2].1);
    }
}

/// Whether an insertion closes a cycle only depends on the candidate's
/// views: identifier bytes and parent identifier bytes.
pub proof fn lemma_creates_cycle_congruent(
    s: Seq<DagEntry>,
    c1: ContentId,
    n1: Node,
    c2: ContentId,
    n2: Node,
)
    requires
        c1@ == c2@,
        crate::node::cid_seq_eq(n1.parents@, n2.parents@),
    ensures
        creates_cycle(s, c1, n1) == creates_cycle(s, c2, n2),
{
    let s1 = s.push((c1, n1));
    let s2 = s.push((c2, n2));
    assert forall|a: Seq<u8>, b: Seq<u8>| #[trigger] edge(s1, a, b) implies edge(s2, a, b) by {
        let i = choose|i: int|
            0 <= i < s1.len() && (#[trigger] s1[i]).0@ == b && lists_parent_spec(s1[i].1, a);
        if i < s.len() {
            assert(s2[i] == s[i]);
        } else {
            let j = choose|j: int|
                0 <= j < n1.parents@.len() && (#[trigger] n1.parents@[j])@ == a;
            assert(n2.parents@[j]@ == a);
            assert(lists_parent_spec(s2[i].1, a));
        }
    };
    assert forall|a: Seq<u8>, b: Seq<u8>| #[trigger] edge(s2, a, b) implies edge(s1, a, b) by {
        let i = choose|i: int|
            0 <= i < s2.len() && (#[trigger] s2[i]).0@ == b && lists_parent_spec(s2[i].1, a);
        if i < s.len() {
            assert(s1[i] == s[i]);
        } else {
            let j = choose|j: int|
                0 <= j < n2.parents@.len() && (#[trigger] n2.parents@[j])@ == a;
            assert(n1.parents@[j]@ == a);
            assert(lists_parent_spec(s1[i].1, a));
        }
    };
    assert forall|p: Seq<Seq<u8>>| #[trigger] is_path(s1, p) implies is_path(s2, p) by {
        assert forall|k: int| 0 <= k < p.len() - 1 implies edge(s2, #[trigger] p[k], p[k + 1]) by {
            assert(edge(s1, p[k], p[k + 1]));
        };
    };
    assert forall|p: Seq<Seq<u8>>| #[trigger] is_path(s2, p) implies is_path(s1, p) by {
        assert forall|k: int| 0 <= k < p.len() - 1 implies edge(s1, #[trigger] p[k], p[k + 1]) by {
            assert(edge(s2, p[k], p[k + 1]));
        };
    };
    if creates_cycle(s, c1, n1) {
        let q = choose|q: Seq<u8>|
            #[trigger] lists_parent_spec(n1, q) && reaches(s1, c1@, q);
        let j = choose|j: int| 0 <= j < n1.parents@.len() && (#[trigger] n1.parents@[j])@ == q;
        assert(n2.parents@[j]@ == q);
        assert(lists_parent_spec(n2, q));
        let p = choose|p: Seq<Seq<u8>>| #[trigger] is_path(s1, p) && p[0] == c1@ && p[p.len() - 1] == q;
        assert(is_path(s2, p));
        assert(reaches(s2, c2@, q));
    }
    if creates_cycle(s, c2, n2) {
        let q = choose|q: Seq<u8>|
            #[trigger] lists_parent_spec(n2, q) && reaches(s2, c2@, q);
        let j = choose|j: int| 0 <= j < n2.parents@.len() && (#[trigger] n2.parents@[j])@ == q;
        assert(n1.parents@[j]@ == q);
        assert(lists_parent_spec(n1, q));
        let p = choose|p: Seq<Seq<u8>>| #[trigger] is_path(s2, p) && p[0] == c2@ && p[p.len() - 1] == q;
        assert(is_path(s1, p));
        assert(reaches(s1, c1@, q));
    }
}

} // verus!

//! DAG nodes and their canonical encoding.
//!
//! A node records one version of a piece of content: its payload, the
//! identifiers of its parent versions, the genesis identifier of the
//! family it belongs to (absent exactly on the genesis node itself), a
//! timestamp, and the convergence metadata. The canonical encoding is a
//! deterministic CBOR map with the fields in the fixed order `payload`,
//! `parents`, `genesis`, `timestamp`, `metadata`; the node's content
//! identifier is derived from those bytes, so equal nodes always carry
//! equal identifiers.

use vstd::prelude::*;
use crate::cid::{ContentId, cid_of, wf_cid_bytes};
use crate::codec::{
    enc_map, enc_arr, enc_str, enc_blob, enc_uint, enc_nil, push_header, push_str, push_blob,
    push_uint, push_nil, parse_map, parse_arr, parse_str, parse_blob, parse_uint, parse_nil,
    expect_key, lemma_prefix_split, lemma_skip_skip, lemma_header_shape, cbor_header,
};
use crate::errors::{DaslError, NodeValidationError};
use crate::metadata::{ContentMetadata, meta_eq, wf_metadata, enc_metadata, push_metadata,
    parse_metadata};

verus! {

/// One version of a piece of content.
#[derive(Clone, Debug)]
pub struct Node {
    /// The user data this version carries.
    pub payload: String,
    /// Identifiers of the parent versions: empty on a genesis node, one
    /// entry on a linear child, two or more on a merge node.
    pub parents: Vec<ContentId>,
    /// The family's genesis identifier; absent exactly on the genesis
    /// node itself.
    pub genesis: Option<ContentId>,
    /// Creation time, monotonic within a replica.
    pub timestamp: u64,
    /// Convergence metadata.
    pub metadata: ContentMetadata,
}

/// Whether the node names `p` among its parents.
pub open spec fn lists_parent_spec(n: Node, p: Seq<u8>) -> bool {
    exists|j: int| 0 <= j < n.parents@.len() && (#[trigger] n.parents@[j])@ == p
}

/// Two identifier sequences naming the same identifiers.
pub open spec fn cid_seq_eq(a: Seq<ContentId>, b: Seq<ContentId>) -> bool {
    a.len() == b.len() && forall|t: int| 0 <= t < a.len() ==> a[t]@ == b[t]@
}

/// Two optional identifiers naming the same identifier.
pub open spec fn opt_cid_eq(a: Option<ContentId>, b: Option<ContentId>) -> bool {
    match (a, b) {
        (None, None) => true,
        (Some(x), Some(y)) => x@ == y@,
        _ => false,
    }
}

/// Two nodes with the same content, field by field.
pub open spec fn node_eq(a: Node, b: Node) -> bool {
    &&& a.payload@ == b.payload@
    &&& cid_seq_eq(a.parents@, b.parents@)
    &&& opt_cid_eq(a.genesis, b.genesis)
    &&& a.timestamp == b.timestamp
    &&& meta_eq(a.metadata, b.metadata)
}

/// A well-formed node: its metadata tag is in normal form.
pub open spec fn wf_node(n: Node) -> bool {
    wf_metadata(n.metadata)
}

/// Encoding of the genesis field: null on a genesis node, else the
/// identifier's bytes.
pub open spec fn enc_genesis(g: Option<ContentId>) -> Seq<u8> {
    match g {
        None => enc_nil(),
        Some(c) => enc_blob(c@),
    }
}

/// Encoding of a sequence of identifiers, one byte-string item each.
pub open spec fn enc_cid_seq(ps: Seq<ContentId>) -> Seq<u8>
    decreases ps.len(),
{
    if ps.len() == 0 {
        Seq::empty()
    } else {
        enc_blob(ps[0]@) + enc_cid_seq(ps.drop_first())
    }
}

pub(crate) proof fn lemma_enc_cid_seq_len_lower(ps: Seq<ContentId>)
    ensures
        enc_cid_seq(ps).len() >= ps.len(),
    decreases ps.len(),
{
    if ps.len() > 0 {
        lemma_enc_cid_seq_len_lower(ps.drop_first());
        lemma_header_shape(2, ps[0]@.len() as u64);
    }
}

pub proof fn lemma_enc_cid_seq_snoc(ps: Seq<ContentId>, x: ContentId)
    ensures
        enc_cid_seq(ps.push(x)) == enc_cid_seq(ps) + enc_blob(x@),
    decreases ps.len(),
{
    if ps.len() == 0 {
        assert(ps.push(x)[0] == x);
        assert(ps.push(x).drop_first() =~= Seq::<ContentId>::empty());
        assert(enc_cid_seq(ps.push(x)) == enc_blob(x@) + enc_cid_seq(ps.push(x).drop_first()));
        assert(enc_cid_seq(ps.push(x).drop_first()) == Seq::<u8>::empty());
        assert(enc_cid_seq(ps) == Seq::<u8>::empty());
        assert(enc_cid_seq(ps.push(x)) =~= enc_cid_seq(ps) + enc_blob(x@));
    } else {
        assert(ps.push(x).drop_first() =~= ps.drop_first().push(x));
        lemma_enc_cid_seq_snoc(ps.drop_first(), x);
        assert(ps.push(x)[0] == ps[0]);
        assert(enc_cid_seq(ps.push(x)) =~= enc_cid_seq(ps) + enc_blob(x@));
    }
}

/// The canonical encoding of a node: a five-entry CBOR map with the
/// fields in fixed order.
pub open spec fn node_bytes(n: Node) -> Seq<u8> {
    enc_map(5) + (enc_str("payload"@) + (enc_str(n.payload@) + (enc_str("parents"@) + (enc_arr(
        n.parents@.len() as u64,
    ) + (enc_cid_seq(n.parents@) + (enc_str("genesis"@) + (enc_genesis(n.genesis) + (enc_str(
        "timestamp"@,
    ) + (enc_uint(n.timestamp) + (enc_str("metadata"@) + enc_metadata(n.metadata)))))))))))
}

/// The content identifier a node hashes to.
pub open spec fn node_cid(n: Node) -> Seq<u8> {
    cid_of(node_bytes(n))
}

/// Appends the canonical encoding of a node.
pub fn push_node(out: &mut Vec<u8>, n: &Node)
    ensures
        final(out)@ == old(out)@ + node_bytes(*n),
{
    push_header(out, 5, 5);
    let ghost s1 = out@;
    push_str(out, "payload");
    let ghost s2 = out@;
    push_str(out, n.payload.as_str());
    let ghost s3 = out@;
    push_str(out, "parents");
    let ghost s4 = out@;
    push_header(out, 4, n.parents.len() as u64);
    let ghost s5 = out@;
    let mut t: usize = 0;
    while t < n.parents.len()
        invariant
            0 <= t <= n.parents@.len(),
            out@ == s5 + enc_cid_seq(n.parents@.subrange(0, t as int)),
        decreases n.parents@.len() - t,
    {
        push_blob(out, &n.parents[t].bytes);
        t = t + 1;
        proof {
            assert(n.parents@.subrange(0, t as int) =~= n.parents@.subrange(
                0,
                t - 1 as int,
            ).push(n.parents@[t - 1]));
            lemma_enc_cid_seq_snoc(n.parents@.subrange(0, t - 1 as int), n.parents@[t - 1]);
        }
    }
    proof {
        assert(n.parents@.subrange(0, n.parents@.len() as int) =~= n.parents@);
    }
    let ghost s6 = out@;
    push_str(out, "genesis");
    let ghost s7 = out@;
    match &n.genesis {
        Option::None => push_nil(out),
        Option::Some(c) => push_blob(out, &c.bytes),
    }
    let ghost s8 = out@;
    push_str(out, "timestamp");
    let ghost s9 = out@;
    push_uint(out, n.timestamp);
    let ghost s10 = out@;
    push_str(out, "metadata");
    let ghost s11 = out@;
    push_metadata(out, &n.metadata);
    proof {
        let a1 = enc_map(5);
        let a2 = enc_str("payload"@);
        let a3 = enc_str(n.payload@);
        let a4 = enc_str("parents"@);
        let a5 = enc_arr(n.parents@.len() as u64);
        let a6 = enc_cid_seq(n.parents@);
        let a7 = enc_str("genesis"@);
        let a8 = enc_genesis(n.genesis);
        let a9 = enc_str("timestamp"@);
        let a10 = enc_uint(n.timestamp);
        let a11 = enc_str("metadata"@);
        let a12 = enc_metadata(n.metadata);
        let t12 = a12;
        let t11 = a11 + t12;
        let t10 = a10 + t11;
        let t9 = a9 + t10;
        let t8 = a8 + t9;
        let t7 = a7 + t8;
        let t6 = a6 + t7;
        let t5 = a5 + t6;
        let t4 = a4 + t5;
        let t3 = a3 + t4;
        let t2 = a2 + t3;
        let t1 = a1 + t2;
        assert(out@ == s11 + t12);
        assert(out@ == s10 + t11) by {
            crate::codec::lemma_concat_assoc(s10, a11, t12);
        };
        assert(out@ == s9 + t10) by {
            crate::codec::lemma_concat_assoc(s9, a10, t11);
        };
        assert(out@ == s8 + t9) by {
            crate::codec::lemma_concat_assoc(s8, a9, t10);
        };
        assert(out@ == s7 + t8) by {
            crate::codec::lemma_concat_assoc(s7, a8, t9);
        };
        assert(out@ == s6 + t7) by {
            crate::codec::lemma_concat_assoc(s6, a7, t8);
        };
        assert(out@ == s5 + t6) by {
            crate::codec::lemma_concat_assoc(s5, a6, t7);
        };
        assert(out@ == s4 + t5) by {
            crate::codec::lemma_concat_assoc(s4, a5, t6);
        };
        assert(out@ == s3 + t4) by {
            crate::codec::lemma_concat_assoc(s3, a4, t5);
        };
        assert(out@ == s2 + t3) by {
            crate::codec::lemma_concat_assoc(s2, a3, t4);
        };
        assert(out@ == s1 + t2) by {
            crate::codec::lemma_concat_assoc(s1, a2, t3);
        };
        assert(out@ == old(out)@ + t1) by {
            crate::codec::lemma_concat_assoc(old(out)@, a1, t2);
        };
        assert(node_bytes(*n) == t1);
    }
}

impl PartialEq for Node {
    fn eq(&self, other: &Self) -> (r: bool) {
        if !crate::codec::str_eq(self.payload.as_str(), other.payload.as_str()) {
            return false;
        }
        if self.timestamp != other.timestamp {
            return false;
        }
        if !(self.metadata == other.metadata) {
            return false;
        }
        match (&self.genesis, &other.genesis) {
            (Option::None, Option::Some(_)) => {
                return false;
            },
            (Option::Some(_), Option::None) => {
                return false;
            },
            (Option::Some(a), Option::Some(b)) => {
                if !(*a == *b) {
                    return false;
                }
            },
            (Option::None, Option::None) => {},
        }
        if self.parents.len() != other.parents.len() {
            return false;
        }
        let mut t: usize = 0;
        while t < self.parents.len()
            invariant
                0 <= t <= self.parents@.len(),
                self.parents@.len() == other.parents@.len(),
                forall|j: int| 0 <= j < t ==> self.parents@[j]@ == other.parents@[j]@,
            decreases self.parents@.len() - t,
        {
            if !(self.parents[t] == other.parents[t]) {
                return false;
            }
            t = t + 1;
        }
        true
    }
}

impl vstd::std_specs::cmp::PartialEqSpecImpl for Node {
    open spec fn obeys_eq_spec() -> bool {
        true
    }

    open spec fn eq_spec(&self, other: &Self) -> bool {
        node_eq(*self, *other)
    }
}

impl Node {
    /// A copy of the node with the same content.
    pub fn duplicate(&self) -> (r: Node)
        ensures
            node_eq(r, *self),
            r.payload == self.payload,
            r.timestamp == self.timestamp,
            r.metadata == self.metadata,
    {
        Node {
            payload: self.payload.clone(),
            parents: crate::cid::dup_cid_vec(&self.parents),
            genesis: match &self.genesis {
                Option::None => None,
                Option::Some(c) => Some(c.duplicate()),
            },
            timestamp: self.timestamp,
            metadata: self.metadata.duplicate(),
        }
    }

    /// Builds a genesis node: the first version of a piece of content,
    /// with no parents and no genesis reference.
    pub fn new_genesis(payload: String, timestamp: u64, metadata: ContentMetadata) -> (r: Node)
        ensures
            r.payload == payload,
            r.parents@.len() == 0,
            r.genesis is None,
            r.timestamp == timestamp,
            r.metadata == metadata,
    {
        Node { payload, parents: Vec::new(), genesis: None, timestamp, metadata }
    }

    /// Builds a child node: a subsequent version inside the family named
    /// by `genesis`.
    pub fn new_child(
        payload: String,
        parents: Vec<ContentId>,
        genesis: ContentId,
        timestamp: u64,
        metadata: ContentMetadata,
    ) -> (r: Node)
        ensures
            r.payload == payload,
            r.parents == parents,
            r.genesis matches Some(g) && g == genesis,
            r.timestamp == timestamp,
            r.metadata == metadata,
    {
        Node { payload, parents, genesis: Some(genesis), timestamp, metadata }
    }

    /// The canonical bytes of this node.
    pub fn to_bytes(&self) -> (r: Result<Vec<u8>, DaslError>)
        ensures
            r matches Ok(b) && b@ == node_bytes(*self),
    {
        let mut out: Vec<u8> = Vec::new();
        push_node(&mut out, self);
        Ok(out)
    }

    /// The content identifier of this node: the hash of its canonical
    /// bytes.
    pub fn content_id(&self) -> (r: Result<ContentId, DaslError>)
        ensures
            r matches Ok(c) && c@ == node_cid(*self) && c.wf(),
    {
        let bytes = match self.to_bytes() {
            Ok(b) => b,
            Err(e) => {
                return Err(e);
            },
        };
        ContentId::new(bytes.as_slice())
    }

    /// Recomputes this node's identifier and compares it bit-exactly with
    /// the expected one.
    pub fn verify_self_integrity(&self, expected_content_id: &ContentId) -> (r: Result<
        bool,
        DaslError,
    >)
        ensures
            r matches Ok(b) && b == (expected_content_id@ == node_cid(*self)),
    {
        let recalculated = match self.content_id() {
            Ok(c) => c,
            Err(e) => {
                return Err(e);
            },
        };
        Ok(*expected_content_id == recalculated)
    }

    /// Appends a parent identifier, refusing a self-reference and a
    /// duplicate.
    pub fn add_parent(&mut self, cid: ContentId) -> (r: Result<(), DaslError>)
        ensures
            cid@ == node_cid(*old(self)) ==> r == Err::<(), DaslError>(
                DaslError::NodeValidation(NodeValidationError::CircularReference),
            ) && *final(self) == *old(self),
            cid@ != node_cid(*old(self)) && (exists|j: int|
                0 <= j < old(self).parents@.len() && old(self).parents@[j]@ == cid@) ==> r == Err::<
                (),
                DaslError,
            >(DaslError::NodeValidation(NodeValidationError::InvalidParent)) && *final(self)
                == *old(self),
            cid@ != node_cid(*old(self)) && (forall|j: int|
                0 <= j < old(self).parents@.len() ==> old(self).parents@[j]@ != cid@) ==> r
                == Ok::<(), DaslError>(()) && final(self).parents@ == old(self).parents@.push(cid)
                && final(self).payload == old(self).payload && final(self).genesis == old(
                self,
            ).genesis && final(self).timestamp == old(self).timestamp && final(self).metadata
                == old(self).metadata,
    {
        let self_cid = match self.content_id() {
            Ok(c) => c,
            Err(e) => {
                return Err(e);
            },
        };
        if cid == self_cid {
            return Err(DaslError::NodeValidation(NodeValidationError::CircularReference));
        }
        let mut t: usize = 0;
        while t < self.parents.len()
            invariant
                0 <= t <= self.parents@.len(),
                *self == *old(self),
                cid@ != node_cid(*old(self)),
                forall|j: int| 0 <= j < t ==> self.parents@[j]@ != cid@,
        decreases self.parents@.len() - t,
        {
            if self.parents[t] == cid {
                return Err(DaslError::NodeValidation(NodeValidationError::InvalidParent));
            }
            t = t + 1;
        }
        self.parents.push(cid);
        Ok(())
    }

    /// The payload of this node.
    pub fn payload(&self) -> (r: &String)
        ensures
            r == self.payload,
    {
        &self.payload
    }

    /// The parent identifiers of this node.
    pub fn parents(&self) -> (r: &Vec<ContentId>)
        ensures
            r == self.parents,
    {
        &self.parents
    }

    /// The creation timestamp of this node.
    pub fn timestamp(&self) -> (r: u64)
        ensures
            r == self.timestamp,
    {
        self.timestamp
    }

    /// The convergence metadata of this node.
    pub fn metadata(&self) -> (r: &ContentMetadata)
        ensures
            r == self.metadata,
    {
        &self.metadata
    }
}

/// Equal content yields equal canonical bytes, and with them an equal
/// content identifier: naming is deterministic.
pub proof fn lemma_cid_deterministic(a: Node, b: Node)
    requires
        node_eq(a, b),
    ensures
        node_bytes(a) == node_bytes(b),
        node_cid(a) == node_cid(b),
    decreases a.parents@.len(),
{
    lemma_enc_cid_seq_congruent(a.parents@, b.parents@);
    assert(node_bytes(a) =~= node_bytes(b));
}

proof fn lemma_enc_cid_seq_congruent(a: Seq<ContentId>, b: Seq<ContentId>)
    requires
        cid_seq_eq(a, b),
    ensures
        enc_cid_seq(a) == enc_cid_seq(b),
    decreases a.len(),
{
    if a.len() > 0 {
        assert(cid_seq_eq(a.drop_first(), b.drop_first()));
        lemma_enc_cid_seq_congruent(a.drop_first(), b.drop_first());
        assert(a[0]@ == b[0]@);
    }
}

/// Parses the genesis field: null or an identifier's bytes.
pub(crate) fn parse_genesis(buf: &Vec<u8>, i: usize) -> (r: Option<(Option<ContentId>, usize)>)
    requires
        i <= buf@.len(),
    ensures
        forall|g: Option<ContentId>|
            (#[trigger] enc_genesis(g)).is_prefix_of(buf@.skip(i as int)) ==> (r matches Some(p)
                && opt_cid_eq(p.0, g) && p.1 == i + enc_genesis(g).len()),
        r matches Some(p) ==> i < p.1 <= buf@.len(),
{
    match parse_nil(buf, i) {
        Some(j) => {
            let r = Some((None, j));
            proof {
                assert forall|g: Option<ContentId>|
                    (#[trigger] enc_genesis(g)).is_prefix_of(buf@.skip(i as int)) implies (r
                matches Some(p) && opt_cid_eq(p.0, g) && p.1 == i + enc_genesis(g).len()) by {
                    match g {
                        Option::Some(c) => lemma_blob_first_byte_not_nil(buf@, i as int, c@),
                        Option::None => (),
                    }
                };
            }
            r
        },
        None => {
            match parse_blob(buf, i) {
                Some((b, j)) => {
                    let r = Some((Some(ContentId { bytes: b }), j));
                    proof {
                        assert forall|g: Option<ContentId>|
                            (#[trigger] enc_genesis(g)).is_prefix_of(
                                buf@.skip(i as int),
                            ) implies (r matches Some(p) && opt_cid_eq(p.0, g) && p.1 == i
                            + enc_genesis(g).len()) by {
                            if g is None {
                                assert(enc_nil().is_prefix_of(buf@.skip(i as int)));
                            }
                        };
                    }
                    r
                },
                None => {
                    proof {
                        assert forall|g: Option<ContentId>|
                            (#[trigger] enc_genesis(g)).is_prefix_of(
                                buf@.skip(i as int),
                            ) implies false by {
                            if g is None {
                                assert(enc_nil().is_prefix_of(buf@.skip(i as int)));
                            }
                        };
                    }
                    None
                },
            }
        },
    }
}

/// The first byte of a byte-string item is never the null byte.
proof fn lemma_blob_first_byte_not_nil(s: Seq<u8>, i: int, d: Seq<u8>)
    requires
        0 <= i <= s.len(),
        enc_blob(d).is_prefix_of(s.skip(i)),
    ensures
        i < s.len(),
        s[i] != 0xf6,
{
    lemma_header_shape(2, d.len() as u64);
    assert(enc_blob(d)[0] == cbor_header(2, d.len() as u64)[0]);
    assert(enc_blob(d)[0] == s.skip(i)[0]);
    assert(s.skip(i)[0] == s[i]);
    assert(s[i] / 32 == 2);
}

/// Parses `count` identifier items in a row.
pub(crate) fn parse_cid_list(buf: &Vec<u8>, i: usize, count: u64) -> (r: Option<(Vec<ContentId>, usize)>)
    requires
        i <= buf@.len(),
    ensures
        forall|ps: Seq<ContentId>|
            ps.len() == count && (#[trigger] enc_cid_seq(ps)).is_prefix_of(buf@.skip(i as int))
                ==> (r matches Some(p) && cid_seq_eq(p.0@, ps) && p.1 == i + enc_cid_seq(
                ps,
            ).len()),
        r matches Some(p) ==> i <= p.1 <= buf@.len() && p.0@.len() == count,
    decreases count,
{
    if count == 0 {
        let r = Some((Vec::<ContentId>::new(), i));
        proof {
            assert forall|ps: Seq<ContentId>|
                ps.len() == count && (#[trigger] enc_cid_seq(ps)).is_prefix_of(
                    buf@.skip(i as int),
                ) implies (r matches Some(p) && cid_seq_eq(p.0@, ps) && p.1 == i + enc_cid_seq(
                ps,
            ).len()) by {
                assert(enc_cid_seq(ps).len() == 0);
            };
        }
        return r;
    }
    match parse_blob(buf, i) {
        Some((b, j)) => {
            match parse_cid_list(buf, j, count - 1) {
                Some((rest, k)) => {
                    let mut v: Vec<ContentId> = Vec::new();
                    v.push(ContentId { bytes: b });
                    let mut rest = rest;
                    let ghost rest0 = rest@;
                    v.append(&mut rest);
                    let r = Some((v, k));
                    proof {
                        assert forall|ps: Seq<ContentId>|
                            ps.len() == count && (#[trigger] enc_cid_seq(ps)).is_prefix_of(
                                buf@.skip(i as int),
                            ) implies (r matches Some(p) && cid_seq_eq(p.0@, ps) && p.1 == i
                            + enc_cid_seq(ps).len()) by {
                            lemma_cid_list_step(buf@, i as int, ps);
                            assert(enc_blob(ps[0]@).is_prefix_of(buf@.skip(i as int)));
                            assert(b@ == ps[0]@);
                            assert(j as int == i + enc_blob(ps[0]@).len());
                            assert(ps.drop_first().len() == count - 1);
                            assert(enc_cid_seq(ps.drop_first()).is_prefix_of(
                                buf@.skip(j as int),
                            ));
                            assert(cid_seq_eq(rest0, ps.drop_first()));
                            assert(v@ =~= seq![ContentId { bytes: b }].add(rest0));
                            assert forall|q: int| 0 <= q < ps.len() implies v@[q]@ == ps[q]@ by {
                                if q == 0 {
                                } else {
                                    assert(rest0[q - 1]@ == ps.drop_first()[q - 1]@);
                                }
                            };
                        };
                    }
                    r
                },
                None => {
                    proof {
                        assert forall|ps: Seq<ContentId>|
                            ps.len() == count && (#[trigger] enc_cid_seq(ps)).is_prefix_of(
                                buf@.skip(i as int),
                            ) implies false by {
                            lemma_cid_list_step(buf@, i as int, ps);
                            assert(j as int == i + enc_blob(ps[0]@).len());
                            assert(ps.drop_first().len() == count - 1);
                            assert(enc_cid_seq(ps.drop_first()).is_prefix_of(
                                buf@.skip(j as int),
                            ));
                        };
                    }
                    None
                },
            }
        },
        None => {
            proof {
                assert forall|ps: Seq<ContentId>|
                    ps.len() == count && (#[trigger] enc_cid_seq(ps)).is_prefix_of(
                        buf@.skip(i as int),
                    ) implies false by {
                    lemma_cid_list_step(buf@, i as int, ps);
                };
            }
            None
        },
    }
}

/// Unfolds one identifier from the front of an encoded identifier list.
proof fn lemma_cid_list_step(s: Seq<u8>, i: int, ps: Seq<ContentId>)
    requires
        0 <= i <= s.len(),
        ps.len() > 0,
        enc_cid_seq(ps).is_prefix_of(s.skip(i)),
    ensures
        enc_blob(ps[0]@).is_prefix_of(s.skip(i)),
        enc_cid_seq(ps.drop_first()).is_prefix_of(s.skip(i + enc_blob(ps[0]@).len())),
        i + enc_blob(ps[0]@).len() + enc_cid_seq(ps.drop_first()).len() <= s.len(),
        enc_cid_seq(ps).len() == enc_blob(ps[0]@).len() + enc_cid_seq(ps.drop_first()).len(),
{
    assert(enc_cid_seq(ps) == enc_blob(ps[0]@) + enc_cid_seq(ps.drop_first()));
    lemma_prefix_split(s.skip(i), enc_blob(ps[0]@), enc_cid_seq(ps.drop_first()));
    lemma_skip_skip(s, i, enc_blob(ps[0]@).len() as int);
}

/// Offsets of the segments inside a node's canonical encoding, measured
/// from the start of the record.
pub open spec fn node_o1(n: Node, i: int) -> int {
    i + enc_map(5).len()
}

pub open spec fn node_o2(n: Node, i: int) -> int {
    node_o1(n, i) + enc_str("payload"@).len()
}

pub open spec fn node_o3(n: Node, i: int) -> int {
    node_o2(n, i) + enc_str(n.payload@).len()
}

pub open spec fn node_o4(n: Node, i: int) -> int {
    node_o3(n, i) + enc_str("parents"@).len()
}

pub open spec fn node_o5(n: Node, i: int) -> int {
    node_o4(n, i) + enc_arr(n.parents@.len() as u64).len()
}

pub open spec fn node_o6(n: Node, i: int) -> int {
    node_o5(n, i) + enc_cid_seq(n.parents@).len()
}

pub open spec fn node_o7(n: Node, i: int) -> int {
    node_o6(n, i) + enc_str("genesis"@).len()
}

pub open spec fn node_o8(n: Node, i: int) -> int {
    node_o7(n, i) + enc_genesis(n.genesis).len()
}

pub open spec fn node_o9(n: Node, i: int) -> int {
    node_o8(n, i) + enc_str("timestamp"@).len()
}

pub open spec fn node_o10(n: Node, i: int) -> int {
    node_o9(n, i) + enc_uint(n.timestamp).len()
}

pub open spec fn node_o11(n: Node, i: int) -> int {
    node_o10(n, i) + enc_str("metadata"@).len()
}

pub open spec fn node_o12(n: Node, i: int) -> int {
    node_o11(n, i) + enc_metadata(n.metadata).len()
}

/// From a node prefix at `i`: every segment of the encoding is a prefix
/// at its own offset.
proof fn lemma_node_parts(s: Seq<u8>, i: int, n: Node)
    requires
        0 <= i <= s.len(),
        node_bytes(n).is_prefix_of(s.skip(i)),
    ensures
        enc_map(5).is_prefix_of(s.skip(i)),
        enc_str("payload"@).is_prefix_of(s.skip(node_o1(n, i))),
        enc_str(n.payload@).is_prefix_of(s.skip(node_o2(n, i))),
        enc_str("parents"@).is_prefix_of(s.skip(node_o3(n, i))),
        enc_arr(n.parents@.len() as u64).is_prefix_of(s.skip(node_o4(n, i))),
        enc_cid_seq(n.parents@).is_prefix_of(s.skip(node_o5(n, i))),
        enc_str("genesis"@).is_prefix_of(s.skip(node_o6(n, i))),
        enc_genesis(n.genesis).is_prefix_of(s.skip(node_o7(n, i))),
        enc_str("timestamp"@).is_prefix_of(s.skip(node_o8(n, i))),
        enc_uint(n.timestamp).is_prefix_of(s.skip(node_o9(n, i))),
        enc_str("metadata"@).is_prefix_of(s.skip(node_o10(n, i))),
        enc_metadata(n.metadata).is_prefix_of(s.skip(node_o11(n, i))),
        node_o12(n, i) == i + node_bytes(n).len(),
        node_o12(n, i) <= s.len(),
{
    let a1 = enc_map(5);
    let a2 = enc_str("payload"@);
    let a3 = enc_str(n.payload@);
    let a4 = enc_str("parents"@);
    let a5 = enc_arr(n.parents@.len() as u64);
    let a6 = enc_cid_seq(n.parents@);
    let a7 = enc_str("genesis"@);
    let a8 = enc_genesis(n.genesis);
    let a9 = enc_str("timestamp"@);
    let a10 = enc_uint(n.timestamp);
    let a11 = enc_str("metadata"@);
    let a12 = enc_metadata(n.metadata);
    let t12 = a12;
    let t11 = a11 + t12;
    let t10 = a10 + t11;
    let t9 = a9 + t10;
    let t8 = a8 + t9;
    let t7 = a7 + t8;
    let t6 = a6 + t7;
    let t5 = a5 + t6;
    let t4 = a4 + t5;
    let t3 = a3 + t4;
    let t2 = a2 + t3;
    assert(node_bytes(n) == a1 + t2);
    lemma_prefix_split(s.skip(i), a1, t2);
    lemma_skip_skip(s, i, a1.len() as int);
    lemma_prefix_split(s.skip(node_o1(n, i)), a2, t3);
    lemma_skip_skip(s, node_o1(n, i), a2.len() as int);
    lemma_prefix_split(s.skip(node_o2(n, i)), a3, t4);
    lemma_skip_skip(s, node_o2(n, i), a3.len() as int);
    lemma_prefix_split(s.skip(node_o3(n, i)), a4, t5);
    lemma_skip_skip(s, node_o3(n, i), a4.len() as int);
    lemma_prefix_split(s.skip(node_o4(n, i)), a5, t6);
    lemma_skip_skip(s, node_o4(n, i), a5.len() as int);
    lemma_prefix_split(s.skip(node_o5(n, i)), a6, t7);
    lemma_skip_skip(s, node_o5(n, i), a6.len() as int);
    lemma_prefix_split(s.skip(node_o6(n, i)), a7, t8);
    lemma_skip_skip(s, node_o6(n, i), a7.len() as int);
    lemma_prefix_split(s.skip(node_o7(n, i)), a8, t9);
    lemma_skip_skip(s, node_o7(n, i), a8.len() as int);
    lemma_prefix_split(s.skip(node_o8(n, i)), a9, t10);
    lemma_skip_skip(s, node_o8(n, i), a9.len() as int);
    lemma_prefix_split(s.skip(node_o9(n, i)), a10, t11);
    lemma_skip_skip(s, node_o9(n, i), a10.len() as int);
    lemma_prefix_split(s.skip(node_o10(n, i)), a11, t12);
    lemma_skip_skip(s, node_o10(n, i), a11.len() as int);
}

/// Parses the front of a node record: the map header, the payload and
/// the parents.
#[verifier::rlimit(100)]
#[verifier::spinoff_prover]
fn parse_node_front(v: &Vec<u8>) -> (r: Option<(String, Vec<ContentId>, usize)>)
    ensures
        forall|n: Node|
            (#[trigger] node_bytes(n)).is_prefix_of(v@.skip(0)) ==> (r matches Some(p) && p.0@
                == n.payload@ && cid_seq_eq(p.1@, n.parents@) && p.2 == node_o6(n, 0)),
        r matches Some(p) ==> p.2 <= v@.len(),
{
    let (count, j1) = match parse_map(v, 0) {
        Some(p) => p,
        None => {
            proof {
                assert forall|n: Node|
                    (#[trigger] node_bytes(n)).is_prefix_of(v@.skip(0)) implies false by {
                    lemma_node_parts(v@, 0, n);
                    vstd::std_specs::vec::axiom_spec_len(&v);
                };
            }
            return None;
        },
    };
    if count != 5 {
        proof {
            assert forall|n: Node|
                (#[trigger] node_bytes(n)).is_prefix_of(v@.skip(0)) implies false by {
                lemma_node_parts(v@, 0, n);
                vstd::std_specs::vec::axiom_spec_len(&v);
            };
        }
        return None;
    }
    let j2 = match expect_key(v, j1, "payload") {
        Some(j) => j,
        None => {
            proof {
                assert forall|n: Node|
                    (#[trigger] node_bytes(n)).is_prefix_of(v@.skip(0)) implies false by {
                    lemma_node_parts(v@, 0, n);
                    vstd::std_specs::vec::axiom_spec_len(v);
                    assert(j1 as int == node_o1(n, 0));
                };
            }
            return None;
        },
    };
    let (payload, j3) = match parse_str(v, j2) {
        Some(p) => p,
        None => {
            proof {
                assert forall|n: Node|
                    (#[trigger] node_bytes(n)).is_prefix_of(v@.skip(0)) implies false by {
                    lemma_node_parts(v@, 0, n);
                    vstd::std_specs::vec::axiom_spec_len(v);
                    assert(j1 as int == node_o1(n, 0));
                    assert(j2 as int == node_o2(n, 0));
                };
            }
            return None;
        },
    };
    let j4 = match expect_key(v, j3, "parents") {
        Some(j) => j,
        None => {
            proof {
                assert forall|n: Node|
                    (#[trigger] node_bytes(n)).is_prefix_of(v@.skip(0)) implies false by {
                    lemma_node_parts(v@, 0, n);
                    vstd::std_specs::vec::axiom_spec_len(v);
                    assert(j1 as int == node_o1(n, 0));
                    assert(j2 as int == node_o2(n, 0));
                    assert(j3 as int == node_o3(n, 0));
                };
            }
            return None;
        },
    };
    let (n_parents, j5) = match parse_arr(v, j4) {
        Some(p) => p,
        None => {
            proof {
                assert forall|n: Node|
                    (#[trigger] node_bytes(n)).is_prefix_of(v@.skip(0)) implies false by {
                    lemma_node_parts(v@, 0, n);
                    vstd::std_specs::vec::axiom_spec_len(v);
                    assert(j1 as int == node_o1(n, 0));
                    assert(j2 as int == node_o2(n, 0));
                    assert(j3 as int == node_o3(n, 0));
                    assert(j4 as int == node_o4(n, 0));
                };
            }
            return None;
        },
    };
    let (parents, j6) = match parse_cid_list(v, j5, n_parents) {
        Some(p) => p,
        None => {
            proof {
                assert forall|n: Node|
                    (#[trigger] node_bytes(n)).is_prefix_of(v@.skip(0)) implies false by {
                    lemma_node_parts(v@, 0, n);
                    vstd::std_specs::vec::axiom_spec_len(v);
                    assert(j1 as int == node_o1(n, 0));
                    assert(j2 as int == node_o2(n, 0));
                    assert(j3 as int == node_o3(n, 0));
                    assert(j4 as int == node_o4(n, 0));
                    lemma_enc_cid_seq_len_lower(n.parents@);
                    assert(n_parents == n.parents@.len());
                    assert(j5 as int == node_o5(n, 0));
                };
            }
            return None;
        },
    };
    let r = Some((payload, parents, j6));
    proof {
        assert forall|n: Node|
            (#[trigger] node_bytes(n)).is_prefix_of(v@.skip(0)) implies (r matches Some(p) && p.0@
            == n.payload@ && cid_seq_eq(p.1@, n.parents@) && p.2 == node_o6(n, 0)) by {
            lemma_node_parts(v@, 0, n);
            vstd::std_specs::vec::axiom_spec_len(v);
            assert(j1 as int == node_o1(n, 0));
            assert(j2 as int == node_o2(n, 0));
            assert(j3 as int == node_o3(n, 0));
            assert(j4 as int == node_o4(n, 0));
            lemma_enc_cid_seq_len_lower(n.parents@);
            assert(n_parents == n.parents@.len());
            assert(j5 as int == node_o5(n, 0));
            assert(j6 as int == node_o6(n, 0));
        };
    }
    r
}

/// Parses the back of a node record: genesis, timestamp and metadata.
#[verifier::rlimit(100)]
#[verifier::spinoff_prover]
fn parse_node_back(v: &Vec<u8>, i: usize) -> (r: Option<
    (Option<ContentId>, u64, ContentMetadata, usize),
>)
    requires
        i <= v@.len(),
    ensures
        forall|n: Node|
            wf_node(n) && (#[trigger] node_bytes(n)).is_prefix_of(v@.skip(0)) && i == node_o6(
                n,
                0,
            ) ==> (r matches Some(p) && opt_cid_eq(p.0, n.genesis) && p.1 == n.timestamp
                && meta_eq(p.2, n.metadata) && p.3 == node_o12(n, 0)),
        r matches Some(p) ==> p.3 <= v@.len() && wf_metadata(p.2),
{
    let j7 = match expect_key(v, i, "genesis") {
        Some(j) => j,
        None => {
            proof {
                assert forall|n: Node|
                    wf_node(n) && (#[trigger] node_bytes(n)).is_prefix_of(v@.skip(0)) && i
                    == node_o6(n, 0) implies false by {
                    lemma_node_parts(v@, 0, n);
                    vstd::std_specs::vec::axiom_spec_len(&v);
                };
            }
            return None;
        },
    };
    let (genesis, j8) = match parse_genesis(v, j7) {
        Some(p) => p,
        None => {
            proof {
                assert forall|n: Node|
                    wf_node(n) && (#[trigger] node_bytes(n)).is_prefix_of(v@.skip(0)) && i
                    == node_o6(n, 0) implies false by {
                    lemma_node_parts(v@, 0, n);
                    vstd::std_specs::vec::axiom_spec_len(v);
                    assert(j7 as int == node_o7(n, 0));
                };
            }
            return None;
        },
    };
    let j9 = match expect_key(v, j8, "timestamp") {
        Some(j) => j,
        None => {
            proof {
                assert forall|n: Node|
                    wf_node(n) && (#[trigger] node_bytes(n)).is_prefix_of(v@.skip(0)) && i
                    == node_o6(n, 0) implies false by {
                    lemma_node_parts(v@, 0, n);
                    vstd::std_specs::vec::axiom_spec_len(v);
                    assert(j7 as int == node_o7(n, 0));
                    assert(j8 as int == node_o8(n, 0));
                };
            }
            return None;
        },
    };
    let (timestamp, j10) = match parse_uint(v, j9) {
        Some(p) => p,
        None => {
            proof {
                assert forall|n: Node|
                    wf_node(n) && (#[trigger] node_bytes(n)).is_prefix_of(v@.skip(0)) && i
                    == node_o6(n, 0) implies false by {
                    lemma_node_parts(v@, 0, n);
                    vstd::std_specs::vec::axiom_spec_len(v);
                    assert(j7 as int == node_o7(n, 0));
                    assert(j8 as int == node_o8(n, 0));
                    assert(j9 as int == node_o9(n, 0));
                };
            }
            return None;
        },
    };
    let j11 = match expect_key(v, j10, "metadata") {
        Some(j) => j,
        None => {
            proof {
                assert forall|n: Node|
                    wf_node(n) && (#[trigger] node_bytes(n)).is_prefix_of(v@.skip(0)) && i
                    == node_o6(n, 0) implies false by {
                    lemma_node_parts(v@, 0, n);
                    vstd::std_specs::vec::axiom_spec_len(v);
                    assert(j7 as int == node_o7(n, 0));
                    assert(j8 as int == node_o8(n, 0));
                    assert(j9 as int == node_o9(n, 0));
                    assert(j10 as int == node_o10(n, 0));
                };
            }
            return None;
        },
    };
    let (metadata, j12) = match parse_metadata(v, j11) {
        Some(p) => p,
        None => {
            proof {
                assert forall|n: Node|
                    wf_node(n) && (#[trigger] node_bytes(n)).is_prefix_of(v@.skip(0)) && i
                    == node_o6(n, 0) implies false by {
                    lemma_node_parts(v@, 0, n);
                    vstd::std_specs::vec::axiom_spec_len(v);
                    assert(j7 as int == node_o7(n, 0));
                    assert(j8 as int == node_o8(n, 0));
                    assert(j9 as int == node_o9(n, 0));
                    assert(j10 as int == node_o10(n, 0));
                    assert(j11 as int == node_o11(n, 0));
                    assert(enc_metadata(n.metadata).is_prefix_of(v@.skip(j11 as int)));
                };
            }
            return None;
        },
    };
    let r = Some((genesis, timestamp, metadata, j12));
    proof {
        assert forall|n: Node|
            wf_node(n) && (#[trigger] node_bytes(n)).is_prefix_of(v@.skip(0)) && i == node_o6(
                n,
                0,
            ) implies (r matches Some(p) && opt_cid_eq(p.0, n.genesis) && p.1 == n.timestamp
            && meta_eq(p.2, n.metadata) && p.3 == node_o12(n, 0)) by {
            lemma_node_parts(v@, 0, n);
            vstd::std_specs::vec::axiom_spec_len(v);
            assert(j7 as int == node_o7(n, 0));
            assert(j8 as int == node_o8(n, 0));
            assert(j9 as int == node_o9(n, 0));
            assert(j10 as int == node_o10(n, 0));
            assert(j11 as int == node_o11(n, 0));
            assert(enc_metadata(n.metadata).is_prefix_of(v@.skip(j11 as int)));
            assert(j12 as int == node_o12(n, 0));
        };
    }
    r
}

impl Node {
    /// Reads a node back from its canonical bytes: the encoding of any
    /// well-formed node decodes to that node, content for content.
    pub fn from_bytes(buf: &[u8]) -> (r: Result<Node, DaslError>)
        ensures
            forall|n: Node|
                wf_node(n) && buf@ == node_bytes(n) ==> (r matches Ok(m) && node_eq(m, n)),
            r matches Ok(m) ==> wf_node(m),
    {
        let v = vstd::slice::slice_to_vec(buf);
        proof {
            assert(v@.skip(0) =~= v@);
        }
        let (payload, parents, j6) = match parse_node_front(&v) {
            Some(p) => p,
            None => {
                return Err(DaslError::Deserialization);
            },
        };
        let (genesis, timestamp, metadata, j12) = match parse_node_back(&v, j6) {
            Some(p) => p,
            None => {
                return Err(DaslError::Deserialization);
            },
        };
        if j12 != v.len() {
            proof {
                assert forall|n: Node|
                    wf_node(n) && v@ == node_bytes(n) implies false by {
                    lemma_node_parts(v@, 0, n);
                    vstd::std_specs::vec::axiom_spec_len(&v);
                };
            }
            return Err(DaslError::Deserialization);
        }
        let m = Node { payload, parents, genesis, timestamp, metadata };
        let r = Ok::<Node, DaslError>(m);
        proof {
            assert forall|n: Node|
                wf_node(n) && v@ == node_bytes(n) implies (r matches Ok(mm) && node_eq(
                mm,
                n,
            )) by {
                lemma_node_parts(v@, 0, n);
                vstd::std_specs::vec::axiom_spec_len(&v);
            };
        }
        r
    }
}

/// Two nodes collide on their identifier exactly when the digests of
/// their canonical bytes collide: the identifier envelope itself never
/// conflates distinct digests.
pub proof fn lemma_cid_collision_is_digest_collision(a: Node, b: Node)
    ensures
        (node_cid(a) == node_cid(b)) <==> (crate::cid::sha256_of(node_bytes(a))
            == crate::cid::sha256_of(node_bytes(b))),
{
    let da = crate::cid::sha256_of(node_bytes(a));
    let db = crate::cid::sha256_of(node_bytes(b));
    assert(crate::cid::cid_header().len() == 4);
    assert(node_cid(a) == crate::cid::cid_header() + da);
    assert(node_cid(b) == crate::cid::cid_header() + db);
    if node_cid(a) == node_cid(b) {
        assert(node_cid(a).len() == 4 + da.len());
        assert(node_cid(b).len() == 4 + db.len());
        assert(da.len() == db.len());
        assert(da =~= db) by {
            assert forall|t: int| 0 <= t < da.len() implies da[t] == db[t] by {
                assert((crate::cid::cid_header() + da)[4 + t] == da[t]);
                assert((crate::cid::cid_header() + db)[4 + t] == db[t]);
            };
        };
    }
    if da == db {
        assert(node_cid(a) =~= node_cid(b));
    }
}

/// Two identifier lists of one length, encoded at the same place, name
/// the same identifiers.
proof fn lemma_enc_cid_seq_unique(s: Seq<u8>, ps1: Seq<ContentId>, ps2: Seq<ContentId>)
    requires
        s.len() < 0x10000000000000000,
        ps1.len() == ps2.len(),
        enc_cid_seq(ps1).is_prefix_of(s),
        enc_cid_seq(ps2).is_prefix_of(s),
    ensures
        cid_seq_eq(ps1, ps2),
        enc_cid_seq(ps1) == enc_cid_seq(ps2),
    decreases ps1.len(),
{
    if ps1.len() == 0 {
        assert(enc_cid_seq(ps1) =~= enc_cid_seq(ps2));
    } else {
        lemma_cid_list_step(s, 0, ps1);
        lemma_cid_list_step(s, 0, ps2);
        crate::codec::lemma_enc_blob_unique(s, ps1[0]@, ps2[0]@);
        let off = enc_blob(ps1[0]@).len() as int;
        lemma_enc_cid_seq_unique(s.skip(off), ps1.drop_first(), ps2.drop_first());
        assert forall|t: int| 0 <= t < ps1.len() implies ps1[t]@ == ps2[t]@ by {
            if t > 0 {
                assert(ps1.drop_first()[t - 1]@ == ps2.drop_first()[t - 1]@);
            }
        };
        assert(enc_cid_seq(ps1) =~= enc_cid_seq(ps2));
    }
}

/// Two genesis fields encoded at the same place agree.
proof fn lemma_enc_genesis_unique(s: Seq<u8>, g1: Option<ContentId>, g2: Option<ContentId>)
    requires
        s.len() < 0x10000000000000000,
        enc_genesis(g1).is_prefix_of(s),
        enc_genesis(g2).is_prefix_of(s),
    ensures
        opt_cid_eq(g1, g2),
        enc_genesis(g1) == enc_genesis(g2),
{
    match (g1, g2) {
        (None, None) => {},
        (Some(c1), Some(c2)) => {
            crate::codec::lemma_enc_blob_unique(s, c1@, c2@);
        },
        (None, Some(c2)) => {
            assert(enc_nil()[0] == s[0]);
            lemma_blob_first_byte_not_nil(s, 0, c2@);
        },
        (Some(c1), None) => {
            assert(enc_nil()[0] == s[0]);
            lemma_blob_first_byte_not_nil(s, 0, c1@);
        },
    }
}

/// Canonical encodings of well-formed nodes never collide: two nodes
/// with the same canonical bytes hold the same content, field for
/// field. With that, changing any field changes the canonical bytes,
/// and a change of identifier can only come from a digest collision.
pub proof fn lemma_node_bytes_injective(a: Node, b: Node)
    requires
        wf_node(a),
        wf_node(b),
        node_bytes(a).len() < 0x10000000000000000,
        node_bytes(a) == node_bytes(b),
    ensures
        node_eq(a, b),
{
    let s = node_bytes(a);
    assert(s.skip(0) =~= s);
    assert(node_bytes(a).is_prefix_of(s.skip(0)));
    assert(node_bytes(b).is_prefix_of(s.skip(0)));
    lemma_node_parts(s, 0, a);
    lemma_node_parts(s, 0, b);

    // the payload sits behind constant segments, so at one offset
    assert(node_o2(a, 0) == node_o2(b, 0));
    crate::codec::lemma_enc_str_unique(s.skip(node_o2(a, 0)), a.payload@, b.payload@);
    assert(node_o3(a, 0) == node_o3(b, 0));
    assert(node_o4(a, 0) == node_o4(b, 0));

    // equal parent counts, then equal parent lists
    lemma_enc_cid_seq_len_lower(a.parents@);
    lemma_enc_cid_seq_len_lower(b.parents@);
    crate::codec::lemma_header_unique(
        s.skip(node_o4(a, 0)),
        4,
        a.parents@.len() as u64,
        b.parents@.len() as u64,
    );
    assert(a.parents@.len() == b.parents@.len());
    assert(node_o5(a, 0) == node_o5(b, 0));
    lemma_enc_cid_seq_unique(s.skip(node_o5(a, 0)), a.parents@, b.parents@);
    assert(node_o6(a, 0) == node_o6(b, 0));
    assert(node_o7(a, 0) == node_o7(b, 0));

    lemma_enc_genesis_unique(s.skip(node_o7(a, 0)), a.genesis, b.genesis);
    assert(node_o8(a, 0) == node_o8(b, 0));
    assert(node_o9(a, 0) == node_o9(b, 0));

    crate::codec::lemma_enc_uint_unique(s.skip(node_o9(a, 0)), a.timestamp, b.timestamp);
    assert(node_o10(a, 0) == node_o10(b, 0));
    assert(node_o11(a, 0) == node_o11(b, 0));

    crate::metadata::lemma_enc_metadata_unique(s.skip(node_o11(a, 0)), a.metadata, b.metadata);
}

} // verus!

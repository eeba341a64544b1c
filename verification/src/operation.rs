//! CRDT operations and their canonical encoding.
//!
//! An operation records one user action on a content family: a create,
//! update, delete or merge. Its lexicographically sortable identifier is
//! the storage key, its timestamp is the reducer's ordering key, and its
//! optional node timestamp marks an import, carrying the exact timestamp
//! the rebuilt DAG node must repeat so its identifier matches the source
//! replica. The canonical encoding is a deterministic CBOR array with the
//! fields in the fixed order `id`, `genesis`, `kind`, `payload`,
//! `timestamp`, `author`, `parents`, `node_timestamp`.

use vstd::prelude::*;
use crate::cid::ContentId;
use crate::codec::{
    enc_arr, enc_str, enc_blob, enc_uint, enc_nil, push_header, push_str, push_blob, push_uint,
    push_nil, parse_arr, parse_str, parse_blob, parse_uint, parse_nil, lemma_prefix_split,
    lemma_skip_skip, lemma_header_shape, cbor_header, str_eq, lemma_concat_assoc,
};
use crate::errors::DaslError;
use crate::node::{enc_cid_seq, cid_seq_eq, lemma_enc_cid_seq_snoc};

verus! {

/// The lexicographically sortable unique identifier of an operation.
#[derive(Clone, Debug, Hash)]
pub struct OperationId {
    pub bytes: Vec<u8>,
}

impl View for OperationId {
    type V = Seq<u8>;

    open spec fn view(&self) -> Seq<u8> {
        self.bytes@
    }
}

impl OperationId {
    /// A well-formed identifier holds exactly sixteen bytes.
    pub open spec fn wf(&self) -> bool {
        self@.len() == 16
    }
}

/// What `ulid::Ulid::from_string` decodes a text to, as bytes: a
/// function of the text alone.
pub uninterp spec fn ulid_parsed(s: Seq<char>) -> Option<Seq<u8>>;

/// Relies on `ulid::Ulid::generate`: a fresh sixteen-byte sortable
/// identifier. Its value draws on the clock and on randomness, so
/// nothing more is promised of it.
#[verifier::external_body]
fn fresh_ulid_bytes() -> (r: Vec<u8>)
    ensures
        r@.len() == 16,
{
    ulid::Ulid::generate().to_bytes().to_vec()
}

/// Relies on `ulid::Ulid::from_string`: the sixteen decoded bytes are a
/// function of the text alone; a malformed text yields nothing.
#[verifier::external_body]
fn parse_ulid_bytes(s: &str) -> (r: Option<Vec<u8>>)
    ensures
        match r {
            Some(b) => ulid_parsed(s@) == Some(b@) && b@.len() == 16,
            None => ulid_parsed(s@) is None,
        },
{
    ulid::Ulid::from_string(s).ok().map(|u| u.to_bytes().to_vec())
}

impl OperationId {
    /// A freshly generated sortable identifier.
    pub fn fresh() -> (r: OperationId)
        ensures
            r.wf(),
    {
        OperationId { bytes: fresh_ulid_bytes() }
    }

    /// Reads an identifier from its canonical text.
    pub fn from_text(s: &str) -> (r: Option<OperationId>)
        ensures
            match r {
                Some(id) => ulid_parsed(s@) == Some(id@) && id.wf(),
                None => ulid_parsed(s@) is None,
            },
    {
        match parse_ulid_bytes(s) {
            Some(bytes) => Some(OperationId { bytes }),
            None => None,
        }
    }

    /// A copy of the identifier naming the same bytes.
    pub fn duplicate(&self) -> (r: OperationId)
        ensures
            r@ == self@,
    {
        OperationId { bytes: vstd::slice::slice_to_vec(self.bytes.as_slice()) }
    }
}

impl PartialEq for OperationId {
    fn eq(&self, other: &Self) -> (r: bool) {
        let r = self.bytes == other.bytes;
        proof {
            if r {
                assert(self.bytes@ =~= other.bytes@);
            }
        }
        r
    }
}

impl vstd::std_specs::cmp::PartialEqSpecImpl for OperationId {
    open spec fn obeys_eq_spec() -> bool {
        true
    }

    open spec fn eq_spec(&self, other: &Self) -> bool {
        self.bytes@ == other.bytes@
    }
}

/// The abstract kind of an operation, without its payload.
#[derive(Clone, Copy, Debug, PartialEq, Eq, Structural)]
pub enum OperationKind {
    Create,
    Update,
    Delete,
    Merge,
}

/// The kind of an operation together with its payload. Deletes carry
/// none.
#[derive(Clone, Debug)]
pub enum OperationType {
    Create(String),
    Update(String),
    Delete,
    Merge(String),
}

impl OperationType {
    /// The abstract kind of this operation type.
    pub fn as_kind(&self) -> (r: OperationKind)
        ensures
            r == self.kind_spec(),
    {
        match self {
            OperationType::Create(_) => OperationKind::Create,
            OperationType::Update(_) => OperationKind::Update,
            OperationType::Delete => OperationKind::Delete,
            OperationType::Merge(_) => OperationKind::Merge,
        }
    }

    /// The abstract kind, at the specification level.
    pub open spec fn kind_spec(&self) -> OperationKind {
        match *self {
            OperationType::Create(_) => OperationKind::Create,
            OperationType::Update(_) => OperationKind::Update,
            OperationType::Delete => OperationKind::Delete,
            OperationType::Merge(_) => OperationKind::Merge,
        }
    }

    /// The payload carried by this operation type, if any.
    pub open spec fn payload_spec(&self) -> Option<Seq<char>> {
        match *self {
            OperationType::Create(p) => Some(p@),
            OperationType::Update(p) => Some(p@),
            OperationType::Delete => None,
            OperationType::Merge(p) => Some(p@),
        }
    }

    /// The numeric tag the canonical encoding uses for this kind.
    pub open spec fn tag_spec(&self) -> u64 {
        match *self {
            OperationType::Create(_) => 0,
            OperationType::Update(_) => 1,
            OperationType::Delete => 2,
            OperationType::Merge(_) => 3,
        }
    }
}

impl OperationType {
    /// A copy of the operation type with the same payload.
    pub fn duplicate(&self) -> (r: OperationType)
        ensures
            r == *self,
    {
        match self {
            OperationType::Create(p) => OperationType::Create(p.clone()),
            OperationType::Update(p) => OperationType::Update(p.clone()),
            OperationType::Delete => OperationType::Delete,
            OperationType::Merge(p) => OperationType::Merge(p.clone()),
        }
    }
}

/// Two operation types of the same kind carrying the same payload.
pub open spec fn kind_eq(a: OperationType, b: OperationType) -> bool {
    a.kind_spec() == b.kind_spec() && a.payload_spec() == b.payload_spec()
}

impl PartialEq for OperationType {
    fn eq(&self, other: &Self) -> (r: bool) {
        match (self, other) {
            (OperationType::Create(x), OperationType::Create(y)) => str_eq(
                x.as_str(),
                y.as_str(),
            ),
            (OperationType::Update(x), OperationType::Update(y)) => str_eq(
                x.as_str(),
                y.as_str(),
            ),
            (OperationType::Delete, OperationType::Delete) => true,
            (OperationType::Merge(x), OperationType::Merge(y)) => str_eq(x.as_str(), y.as_str()),
            _ => false,
        }
    }
}

impl vstd::std_specs::cmp::PartialEqSpecImpl for OperationType {
    open spec fn obeys_eq_spec() -> bool {
        true
    }

    open spec fn eq_spec(&self, other: &Self) -> bool {
        kind_eq(*self, *other)
    }
}

/// One CRDT operation on a content family.
#[derive(Clone, Debug)]
pub struct Operation {
    /// Unique sortable identifier; the storage key.
    pub id: OperationId,
    /// The genesis identifier of the family the operation acts on.
    pub genesis: ContentId,
    /// What the operation does, with its payload.
    pub kind: OperationType,
    /// The reducer's ordering key, monotonic within a replica.
    pub timestamp: u64,
    /// Who performed the operation.
    pub author: String,
    /// Parent identifiers for the rebuilt DAG node; may be empty, in
    /// which case the repository fills it from the current heads.
    pub parents: Vec<ContentId>,
    /// Present exactly on imports: the timestamp the rebuilt node must
    /// carry so its identifier matches the source replica.
    pub node_timestamp: Option<u64>,
}

/// Two operations with the same content, field by field.
pub open spec fn op_eq(a: Operation, b: Operation) -> bool {
    &&& a.id@ == b.id@
    &&& a.genesis@ == b.genesis@
    &&& kind_eq(a.kind, b.kind)
    &&& a.timestamp == b.timestamp
    &&& a.author@ == b.author@
    &&& cid_seq_eq(a.parents@, b.parents@)
    &&& a.node_timestamp == b.node_timestamp
}

/// A well-formed operation: its identifier holds sixteen bytes.
pub open spec fn wf_operation(op: Operation) -> bool {
    op.id.wf()
}

/// Encoding of the payload slot: null on a delete.
pub open spec fn enc_op_payload(kind: OperationType) -> Seq<u8> {
    match kind.payload_spec() {
        None => enc_nil(),
        Some(p) => enc_str(p),
    }
}

/// Encoding of the import slot: null when the operation is no import.
pub open spec fn enc_opt_uint(o: Option<u64>) -> Seq<u8> {
    match o {
        None => enc_nil(),
        Some(v) => enc_uint(v),
    }
}

/// The canonical encoding of an operation: an eight-item CBOR array with
/// the fields in fixed order.
pub open spec fn operation_bytes(op: Operation) -> Seq<u8> {
    enc_arr(8) + (enc_blob(op.id@) + (enc_blob(op.genesis@) + (enc_uint(op.kind.tag_spec()) + (
    enc_op_payload(op.kind) + (enc_uint(op.timestamp) + (enc_str(op.author@) + (enc_arr(
        op.parents@.len() as u64,
    ) + (enc_cid_seq(op.parents@) + enc_opt_uint(op.node_timestamp)))))))))
}

impl PartialEq for Operation {
    fn eq(&self, other: &Self) -> (r: bool) {
        if !(self.id == other.id) {
            return false;
        }
        if !(self.genesis == other.genesis) {
            return false;
        }
        if !(self.kind == other.kind) {
            return false;
        }
        if self.timestamp != other.timestamp {
            return false;
        }
        if !str_eq(self.author.as_str(), other.author.as_str()) {
            return false;
        }
        match (&self.node_timestamp, &other.node_timestamp) {
            (Option::None, Option::None) => {},
            (Option::Some(x), Option::Some(y)) => {
                if *x != *y {
                    return false;
                }
            },
            _ => {
                return false;
            },
        }
        if self.parents.len() != other.parents.len() {
            return false;
        }
        let mut t: usize = 0;
        while t < self.parents.len()
            invariant
                0 <= t <= self.parents@.len(),
                self.parents@.len() == other.parents@.len(),
                forall|j: int| 0 <= j < t ==> self.parents@[j]@ == other.parents@[j]@,
            decreases self.parents@.len() - t,
        {
            if !(self.parents[t] == other.parents[t]) {
                return false;
            }
            t = t + 1;
        }
        true
    }
}

impl vstd::std_specs::cmp::PartialEqSpecImpl for Operation {
    open spec fn obeys_eq_spec() -> bool {
        true
    }

    open spec fn eq_spec(&self, other: &Self) -> bool {
        op_eq(*self, *other)
    }
}

impl Operation {
    /// A copy of the operation with the same content.
    pub fn duplicate(&self) -> (r: Operation)
        ensures
            op_eq(r, *self),
            r.kind == self.kind,
            r.author == self.author,
            r.timestamp == self.timestamp,
            r.node_timestamp == self.node_timestamp,
    {
        Operation {
            id: self.id.duplicate(),
            genesis: self.genesis.duplicate(),
            kind: self.kind.duplicate(),
            timestamp: self.timestamp,
            author: self.author.clone(),
            parents: crate::cid::dup_cid_vec(&self.parents),
            node_timestamp: match &self.node_timestamp {
                Option::None => None,
                Option::Some(v) => Some(*v),
            },
        }
    }

    /// Builds an operation with empty parents and no import timestamp.
    pub fn new(
        id: OperationId,
        genesis: ContentId,
        kind: OperationType,
        author: String,
        timestamp: u64,
    ) -> (r: Operation)
        ensures
            r.id == id,
            r.genesis == genesis,
            r.kind == kind,
            r.timestamp == timestamp,
            r.author == author,
            r.parents@.len() == 0,
            r.node_timestamp is None,
    {
        Operation {
            id,
            genesis,
            kind,
            timestamp,
            author,
            parents: Vec::new(),
            node_timestamp: None,
        }
    }

    /// Whether this operation is of the given kind.
    pub fn is_type(&self, kind: OperationKind) -> (r: bool)
        ensures
            r == (self.kind.kind_spec() == kind),
    {
        self.kind.as_kind() == kind
    }

    /// The payload of the operation; deletes have none.
    pub fn payload(&self) -> (r: Option<&String>)
        ensures
            match r {
                Some(p) => self.kind.payload_spec() == Some(p@),
                None => self.kind.payload_spec() is None,
            },
    {
        match &self.kind {
            OperationType::Create(v) => Some(v),
            OperationType::Update(v) => Some(v),
            OperationType::Merge(v) => Some(v),
            OperationType::Delete => None,
        }
    }

    /// The canonical bytes of this operation.
    pub fn to_bytes(&self) -> (r: Vec<u8>)
        ensures
            r@ == operation_bytes(*self),
    {
        let mut out: Vec<u8> = Vec::new();
        push_operation(&mut out, self);
        out
    }
}

/// Appends the canonical encoding of an operation.
pub fn push_operation(out: &mut Vec<u8>, op: &Operation)
    ensures
        final(out)@ == old(out)@ + operation_bytes(*op),
{
    push_header(out, 4, 8);
    let ghost s1 = out@;
    push_blob(out, &op.id.bytes);
    let ghost s2 = out@;
    push_blob(out, &op.genesis.bytes);
    let ghost s3 = out@;
    match &op.kind {
        OperationType::Create(_) => push_uint(out, 0),
        OperationType::Update(_) => push_uint(out, 1),
        OperationType::Delete => push_uint(out, 2),
        OperationType::Merge(_) => push_uint(out, 3),
    }
    let ghost s4 = out@;
    match &op.kind {
        OperationType::Create(p) => push_str(out, p.as_str()),
        OperationType::Update(p) => push_str(out, p.as_str()),
        OperationType::Delete => push_nil(out),
        OperationType::Merge(p) => push_str(out, p.as_str()),
    }
    let ghost s5 = out@;
    push_uint(out, op.timestamp);
    let ghost s6 = out@;
    push_str(out, op.author.as_str());
    let ghost s7 = out@;
    push_header(out, 4, op.parents.len() as u64);
    let ghost s8 = out@;
    let mut t: usize = 0;
    while t < op.parents.len()
        invariant
            0 <= t <= op.parents@.len(),
            out@ == s8 + enc_cid_seq(op.parents@.subrange(0, t as int)),
        decreases op.parents@.len() - t,
    {
        push_blob(out, &op.parents[t].bytes);
        t = t + 1;
        proof {
            assert(op.parents@.subrange(0, t as int) =~= op.parents@.subrange(
                0,
                t - 1 as int,
            ).push(op.parents@[t - 1]));
            lemma_enc_cid_seq_snoc(op.parents@.subrange(0, t - 1 as int), op.parents@[t - 1]);
        }
    }
    proof {
        assert(op.parents@.subrange(0, op.parents@.len() as int) =~= op.parents@);
    }
    let ghost s9 = out@;
    match &op.node_timestamp {
        Option::None => push_nil(out),
        Option::Some(v) => push_uint(out, *v),
    }
    proof {
        let a1 = enc_arr(8);
        let a2 = enc_blob(op.id@);
        let a3 = enc_blob(op.genesis@);
        let a4 = enc_uint(op.kind.tag_spec());
        let a5 = enc_op_payload(op.kind);
        let a6 = enc_uint(op.timestamp);
        let a7 = enc_str(op.author@);
        let a8 = enc_arr(op.parents@.len() as u64);
        let a9 = enc_cid_seq(op.parents@);
        let a10 = enc_opt_uint(op.node_timestamp);
        let t10 = a10;
        let t9 = a9 + t10;
        let t8 = a8 + t9;
        let t7 = a7 + t8;
        let t6 = a6 + t7;
        let t5 = a5 + t6;
        let t4 = a4 + t5;
        let t3 = a3 + t4;
        let t2 = a2 + t3;
        let t1 = a1 + t2;
        assert(out@ == s9 + t10);
        assert(out@ == s8 + t9) by {
            lemma_concat_assoc(s8, a9, t10);
        };
        assert(out@ == s7 + t8) by {
            lemma_concat_assoc(s7, a8, t9);
        };
        assert(out@ == s6 + t7) by {
            lemma_concat_assoc(s6, a7, t8);
        };
        assert(out@ == s5 + t6) by {
            lemma_concat_assoc(s5, a6, t7);
        };
        assert(out@ == s4 + t5) by {
            lemma_concat_assoc(s4, a5, t6);
        };
        assert(out@ == s3 + t4) by {
            lemma_concat_assoc(s3, a4, t5);
        };
        assert(out@ == s2 + t3) by {
            lemma_concat_assoc(s2, a3, t4);
        };
        assert(out@ == s1 + t2) by {
            lemma_concat_assoc(s1, a2, t3);
        };
        assert(out@ == old(out)@ + t1) by {
            lemma_concat_assoc(old(out)@, a1, t2);
        };
        assert(operation_bytes(*op) == t1);
    }
}

/// Offsets of the segments inside an operation's canonical encoding.
pub open spec fn op_o1(op: Operation, i: int) -> int {
    i + enc_arr(8).len()
}

pub open spec fn op_o2(op: Operation, i: int) -> int {
    op_o1(op, i) + enc_blob(op.id@).len()
}

pub open spec fn op_o3(op: Operation, i: int) -> int {
    op_o2(op, i) + enc_blob(op.genesis@).len()
}

pub open spec fn op_o4(op: Operation, i: int) -> int {
    op_o3(op, i) + enc_uint(op.kind.tag_spec()).len()
}

pub open spec fn op_o5(op: Operation, i: int) -> int {
    op_o4(op, i) + enc_op_payload(op.kind).len()
}

pub open spec fn op_o6(op: Operation, i: int) -> int {
    op_o5(op, i) + enc_uint(op.timestamp).len()
}

pub open spec fn op_o7(op: Operation, i: int) -> int {
    op_o6(op, i) + enc_str(op.author@).len()
}

pub open spec fn op_o8(op: Operation, i: int) -> int {
    op_o7(op, i) + enc_arr(op.parents@.len() as u64).len()
}

pub open spec fn op_o9(op: Operation, i: int) -> int {
    op_o8(op, i) + enc_cid_seq(op.parents@).len()
}

pub open spec fn op_o10(op: Operation, i: int) -> int {
    op_o9(op, i) + enc_opt_uint(op.node_timestamp).len()
}

/// From an operation prefix at `i`: every segment of the encoding is a
/// prefix at its own offset.
proof fn lemma_op_parts(s: Seq<u8>, i: int, op: Operation)
    requires
        0 <= i <= s.len(),
        operation_bytes(op).is_prefix_of(s.skip(i)),
    ensures
        enc_arr(8).is_prefix_of(s.skip(i)),
        enc_blob(op.id@).is_prefix_of(s.skip(op_o1(op, i))),
        enc_blob(op.genesis@).is_prefix_of(s.skip(op_o2(op, i))),
        enc_uint(op.kind.tag_spec()).is_prefix_of(s.skip(op_o3(op, i))),
        enc_op_payload(op.kind).is_prefix_of(s.skip(op_o4(op, i))),
        enc_uint(op.timestamp).is_prefix_of(s.skip(op_o5(op, i))),
        enc_str(op.author@).is_prefix_of(s.skip(op_o6(op, i))),
        enc_arr(op.parents@.len() as u64).is_prefix_of(s.skip(op_o7(op, i))),
        enc_cid_seq(op.parents@).is_prefix_of(s.skip(op_o8(op, i))),
        enc_opt_uint(op.node_timestamp).is_prefix_of(s.skip(op_o9(op, i))),
        op_o10(op, i) == i + operation_bytes(op).len(),
        op_o10(op, i) <= s.len(),
{
    let a1 = enc_arr(8);
    let a2 = enc_blob(op.id@);
    let a3 = enc_blob(op.genesis@);
    let a4 = enc_uint(op.kind.tag_spec());
    let a5 = enc_op_payload(op.kind);
    let a6 = enc_uint(op.timestamp);
    let a7 = enc_str(op.author@);
    let a8 = enc_arr(op.parents@.len() as u64);
    let a9 = enc_cid_seq(op.parents@);
    let a10 = enc_opt_uint(op.node_timestamp);
    let t10 = a10;
    let t9 = a9 + t10;
    let t8 = a8 + t9;
    let t7 = a7 + t8;
    let t6 = a6 + t7;
    let t5 = a5 + t6;
    let t4 = a4 + t5;
    let t3 = a3 + t4;
    let t2 = a2 + t3;
    assert(operation_bytes(op) == a1 + t2);
    lemma_prefix_split(s.skip(i), a1, t2);
    lemma_skip_skip(s, i, a1.len() as int);
    lemma_prefix_split(s.skip(op_o1(op, i)), a2, t3);
    lemma_skip_skip(s, op_o1(op, i), a2.len() as int);
    lemma_prefix_split(s.skip(op_o2(op, i)), a3, t4);
    lemma_skip_skip(s, op_o2(op, i), a3.len() as int);
    lemma_prefix_split(s.skip(op_o3(op, i)), a4, t5);
    lemma_skip_skip(s, op_o3(op, i), a4.len() as int);
    lemma_prefix_split(s.skip(op_o4(op, i)), a5, t6);
    lemma_skip_skip(s, op_o4(op, i), a5.len() as int);
    lemma_prefix_split(s.skip(op_o5(op, i)), a6, t7);
    lemma_skip_skip(s, op_o5(op, i), a6.len() as int);
    lemma_prefix_split(s.skip(op_o6(op, i)), a7, t8);
    lemma_skip_skip(s, op_o6(op, i), a7.len() as int);
    lemma_prefix_split(s.skip(op_o7(op, i)), a8, t9);
    lemma_skip_skip(s, op_o7(op, i), a8.len() as int);
    lemma_prefix_split(s.skip(op_o8(op, i)), a9, t10);
    lemma_skip_skip(s, op_o8(op, i), a9.len() as int);
}

/// The first byte of an unsigned integer item is never the null byte.
proof fn lemma_uint_first_byte_not_nil(s: Seq<u8>, i: int, v: u64)
    requires
        0 <= i <= s.len(),
        enc_uint(v).is_prefix_of(s.skip(i)),
    ensures
        i < s.len(),
        s[i] != 0xf6,
{
    lemma_header_shape(0, v);
    assert(enc_uint(v)[0] == cbor_header(0, v)[0]);
    assert(enc_uint(v)[0] == s.skip(i)[0]);
    assert(s.skip(i)[0] == s[i]);
    assert(s[i] / 32 == 0);
}

/// Parses the import slot: null or an unsigned integer.
fn parse_opt_uint(buf: &Vec<u8>, i: usize) -> (r: Option<(Option<u64>, usize)>)
    requires
        i <= buf@.len(),
    ensures
        forall|o: Option<u64>|
            (#[trigger] enc_opt_uint(o)).is_prefix_of(buf@.skip(i as int)) ==> (r matches Some(p)
                && p.0 == o && p.1 == i + enc_opt_uint(o).len()),
        r matches Some(p) ==> i < p.1 <= buf@.len(),
{
    match parse_nil(buf, i) {
        Some(j) => {
            let r = Some((None, j));
            proof {
                assert forall|o: Option<u64>|
                    (#[trigger] enc_opt_uint(o)).is_prefix_of(buf@.skip(i as int)) implies (r
                matches Some(p) && p.0 == o && p.1 == i + enc_opt_uint(o).len()) by {
                    match o {
                        Option::Some(v) => lemma_uint_first_byte_not_nil(buf@, i as int, v),
                        Option::None => (),
                    }
                };
            }
            r
        },
        None => {
            match parse_uint(buf, i) {
                Some((v, j)) => {
                    let r = Some((Some(v), j));
                    proof {
                        assert forall|o: Option<u64>|
                            (#[trigger] enc_opt_uint(o)).is_prefix_of(
                                buf@.skip(i as int),
                            ) implies (r matches Some(p) && p.0 == o && p.1 == i + enc_opt_uint(
                            o,
                        ).len()) by {
                            match o {
                                Option::None => {
                                    assert(enc_nil().is_prefix_of(buf@.skip(i as int)));
                                },
                                Option::Some(w) => {
                                    vstd::std_specs::vec::axiom_spec_len(buf);
                                    assert(enc_uint(w).is_prefix_of(buf@.skip(i as int)));
                                    assert(i + enc_uint(w).len() <= buf@.len());
                                },
                            }
                        };
                    }
                    r
                },
                None => {
                    proof {
                        assert forall|o: Option<u64>|
                            (#[trigger] enc_opt_uint(o)).is_prefix_of(
                                buf@.skip(i as int),
                            ) implies false by {
                            if o is None {
                                assert(enc_nil().is_prefix_of(buf@.skip(i as int)));
                            }
                        };
                    }
                    None
                },
            }
        },
    }
}

/// Parses the front of an operation record: the array header, the
/// identifier, the genesis and the kind with its payload.
#[verifier::rlimit(100)]
#[verifier::spinoff_prover]
fn parse_operation_front(v: &Vec<u8>) -> (r: Option<(OperationId, ContentId, OperationType, usize)>)
    ensures
        forall|op: Operation|
            wf_operation(op) && (#[trigger] operation_bytes(op)).is_prefix_of(v@.skip(0)) ==> (r
                matches Some(p) && p.0@ == op.id@ && p.1@ == op.genesis@ && kind_eq(p.2, op.kind)
                && p.3 == op_o5(op, 0)),
        r matches Some(p) ==> p.3 <= v@.len() && p.0.wf(),
{
    let (count, j1) = match parse_arr(v, 0) {
        Some(p) => p,
        None => {
            proof {
                assert forall|op: Operation|
                    wf_operation(op) && (#[trigger] operation_bytes(op)).is_prefix_of(
                        v@.skip(0),
                    ) implies false by {
                    lemma_op_parts(v@, 0, op);
                    vstd::std_specs::vec::axiom_spec_len(v);
                };
            }
            return None;
        },
    };
    if count != 8 {
        proof {
            assert forall|op: Operation|
                wf_operation(op) && (#[trigger] operation_bytes(op)).is_prefix_of(
                    v@.skip(0),
                ) implies false by {
                lemma_op_parts(v@, 0, op);
                vstd::std_specs::vec::axiom_spec_len(v);
            };
        }
        return None;
    }
    let (id_bytes, j2) = match parse_blob(v, j1) {
        Some(p) => p,
        None => {
            proof {
                assert forall|op: Operation|
                    wf_operation(op) && (#[trigger] operation_bytes(op)).is_prefix_of(
                        v@.skip(0),
                    ) implies false by {
                    lemma_op_parts(v@, 0, op);
                    vstd::std_specs::vec::axiom_spec_len(v);
                    assert(j1 as int == op_o1(op, 0));
                };
            }
            return None;
        },
    };
    if id_bytes.len() != 16 {
        proof {
            assert forall|op: Operation|
                wf_operation(op) && (#[trigger] operation_bytes(op)).is_prefix_of(
                    v@.skip(0),
                ) implies false by {
                lemma_op_parts(v@, 0, op);
                vstd::std_specs::vec::axiom_spec_len(v);
                assert(j1 as int == op_o1(op, 0));
                assert(id_bytes@ == op.id@);
            };
        }
        return None;
    }
    let (genesis_bytes, j3) = match parse_blob(v, j2) {
        Some(p) => p,
        None => {
            proof {
                assert forall|op: Operation|
                    wf_operation(op) && (#[trigger] operation_bytes(op)).is_prefix_of(
                        v@.skip(0),
                    ) implies false by {
                    lemma_op_parts(v@, 0, op);
                    vstd::std_specs::vec::axiom_spec_len(v);
                    assert(j1 as int == op_o1(op, 0));
                    assert(j2 as int == op_o2(op, 0));
                };
            }
            return None;
        },
    };
    let (tag, j4) = match parse_uint(v, j3) {
        Some(p) => p,
        None => {
            proof {
                assert forall|op: Operation|
                    wf_operation(op) && (#[trigger] operation_bytes(op)).is_prefix_of(
                        v@.skip(0),
                    ) implies false by {
                    lemma_op_parts(v@, 0, op);
                    vstd::std_specs::vec::axiom_spec_len(v);
                    assert(j1 as int == op_o1(op, 0));
                    assert(j2 as int == op_o2(op, 0));
                    assert(j3 as int == op_o3(op, 0));
                };
            }
            return None;
        },
    };
    if tag > 3 {
        proof {
            assert forall|op: Operation|
                wf_operation(op) && (#[trigger] operation_bytes(op)).is_prefix_of(
                    v@.skip(0),
                ) implies false by {
                lemma_op_parts(v@, 0, op);
                vstd::std_specs::vec::axiom_spec_len(v);
                assert(j1 as int == op_o1(op, 0));
                assert(j2 as int == op_o2(op, 0));
                assert(j3 as int == op_o3(op, 0));
                assert(tag == op.kind.tag_spec());
            };
        }
        return None;
    }
    if tag == 2 {
        let j5 = match parse_nil(v, j4) {
            Some(j) => j,
            None => {
                proof {
                    assert forall|op: Operation|
                        wf_operation(op) && (#[trigger] operation_bytes(op)).is_prefix_of(
                            v@.skip(0),
                        ) implies false by {
                        lemma_op_parts(v@, 0, op);
                        vstd::std_specs::vec::axiom_spec_len(v);
                        assert(j1 as int == op_o1(op, 0));
                        assert(j2 as int == op_o2(op, 0));
                        assert(j3 as int == op_o3(op, 0));
                        assert(tag == op.kind.tag_spec());
                        assert(j4 as int == op_o4(op, 0));
                        assert(enc_op_payload(op.kind) == enc_nil());
                    };
                }
                return None;
            },
        };
        let r = Some(
            (
                OperationId { bytes: id_bytes },
                ContentId { bytes: genesis_bytes },
                OperationType::Delete,
                j5,
            ),
        );
        proof {
            assert forall|op: Operation|
                wf_operation(op) && (#[trigger] operation_bytes(op)).is_prefix_of(
                    v@.skip(0),
                ) implies (r matches Some(p) && p.0@ == op.id@ && p.1@ == op.genesis@ && kind_eq(
                p.2,
                op.kind,
            ) && p.3 == op_o5(op, 0)) by {
                lemma_op_parts(v@, 0, op);
                vstd::std_specs::vec::axiom_spec_len(v);
                assert(j1 as int == op_o1(op, 0));
                assert(j2 as int == op_o2(op, 0));
                assert(j3 as int == op_o3(op, 0));
                assert(tag == op.kind.tag_spec());
                assert(j4 as int == op_o4(op, 0));
                assert(enc_op_payload(op.kind) == enc_nil());
                assert(j5 as int == op_o5(op, 0));
            };
        }
        return r;
    }
    let (payload, j5) = match parse_str(v, j4) {
        Some(p) => p,
        None => {
            proof {
                assert forall|op: Operation|
                    wf_operation(op) && (#[trigger] operation_bytes(op)).is_prefix_of(
                        v@.skip(0),
                    ) implies false by {
                    lemma_op_parts(v@, 0, op);
                    vstd::std_specs::vec::axiom_spec_len(v);
                    assert(j1 as int == op_o1(op, 0));
                    assert(j2 as int == op_o2(op, 0));
                    assert(j3 as int == op_o3(op, 0));
                    assert(tag == op.kind.tag_spec());
                    assert(j4 as int == op_o4(op, 0));
                    assert(op.kind.payload_spec() matches Some(pp)
                        && enc_op_payload(op.kind) == enc_str(pp));
                };
            }
            return None;
        },
    };
    let kind = if tag == 0 {
        OperationType::Create(payload)
    } else if tag == 1 {
        OperationType::Update(payload)
    } else {
        OperationType::Merge(payload)
    };
    let r = Some(
        (OperationId { bytes: id_bytes }, ContentId { bytes: genesis_bytes }, kind, j5),
    );
    proof {
        assert forall|op: Operation|
            wf_operation(op) && (#[trigger] operation_bytes(op)).is_prefix_of(
                v@.skip(0),
            ) implies (r matches Some(p) && p.0@ == op.id@ && p.1@ == op.genesis@ && kind_eq(
            p.2,
            op.kind,
        ) && p.3 == op_o5(op, 0)) by {
            lemma_op_parts(v@, 0, op);
            vstd::std_specs::vec::axiom_spec_len(v);
            assert(j1 as int == op_o1(op, 0));
            assert(j2 as int == op_o2(op, 0));
            assert(j3 as int == op_o3(op, 0));
            assert(tag == op.kind.tag_spec());
            assert(j4 as int == op_o4(op, 0));
            assert(op.kind.payload_spec() matches Some(pp) && enc_op_payload(op.kind) == enc_str(
                pp,
            ));
            assert(j5 as int == op_o5(op, 0));
        };
    }
    r
}

/// Parses the back of an operation record: timestamp, author, parents
/// and the import slot.
#[verifier::rlimit(100)]
#[verifier::spinoff_prover]
fn parse_operation_back(v: &Vec<u8>, i: usize) -> (r: Option<
    (u64, String, Vec<ContentId>, Option<u64>, usize),
>)
    requires
        i <= v@.len(),
    ensures
        forall|op: Operation|
            wf_operation(op) && (#[trigger] operation_bytes(op)).is_prefix_of(v@.skip(0)) && i
                == op_o5(op, 0) ==> (r matches Some(p) && p.0 == op.timestamp && p.1@ == op.author@
                && cid_seq_eq(p.2@, op.parents@) && p.3 == op.node_timestamp && p.4 == op_o10(
                op,
                0,
            )),
        r matches Some(p) ==> p.4 <= v@.len(),
{
    let (timestamp, j6) = match parse_uint(v, i) {
        Some(p) => p,
        None => {
            proof {
                assert forall|op: Operation|
                    wf_operation(op) && (#[trigger] operation_bytes(op)).is_prefix_of(v@.skip(0))
                        && i == op_o5(op, 0) implies false by {
                    lemma_op_parts(v@, 0, op);
                    vstd::std_specs::vec::axiom_spec_len(v);
                };
            }
            return None;
        },
    };
    let (author, j7) = match parse_str(v, j6) {
        Some(p) => p,
        None => {
            proof {
                assert forall|op: Operation|
                    wf_operation(op) && (#[trigger] operation_bytes(op)).is_prefix_of(v@.skip(0))
                        && i == op_o5(op, 0) implies false by {
                    lemma_op_parts(v@, 0, op);
                    vstd::std_specs::vec::axiom_spec_len(v);
                    assert(j6 as int == op_o6(op, 0));
                };
            }
            return None;
        },
    };
    let (n_parents, j8) = match parse_arr(v, j7) {
        Some(p) => p,
        None => {
            proof {
                assert forall|op: Operation|
                    wf_operation(op) && (#[trigger] operation_bytes(op)).is_prefix_of(v@.skip(0))
                        && i == op_o5(op, 0) implies false by {
                    lemma_op_parts(v@, 0, op);
                    vstd::std_specs::vec::axiom_spec_len(v);
                    assert(j6 as int == op_o6(op, 0));
                    assert(j7 as int == op_o7(op, 0));
                };
            }
            return None;
        },
    };
    let (parents, j9) = match crate::node::parse_cid_list(v, j8, n_parents) {
        Some(p) => p,
        None => {
            proof {
                assert forall|op: Operation|
                    wf_operation(op) && (#[trigger] operation_bytes(op)).is_prefix_of(v@.skip(0))
                        && i == op_o5(op, 0) implies false by {
                    lemma_op_parts(v@, 0, op);
                    vstd::std_specs::vec::axiom_spec_len(v);
                    assert(j6 as int == op_o6(op, 0));
                    assert(j7 as int == op_o7(op, 0));
                    crate::node::lemma_enc_cid_seq_len_lower(op.parents@);
                    assert(n_parents == op.parents@.len());
                    assert(j8 as int == op_o8(op, 0));
                };
            }
            return None;
        },
    };
    let (node_timestamp, j10) = match parse_opt_uint(v, j9) {
        Some(p) => p,
        None => {
            proof {
                assert forall|op: Operation|
                    wf_operation(op) && (#[trigger] operation_bytes(op)).is_prefix_of(v@.skip(0))
                        && i == op_o5(op, 0) implies false by {
                    lemma_op_parts(v@, 0, op);
                    vstd::std_specs::vec::axiom_spec_len(v);
                    assert(j6 as int == op_o6(op, 0));
                    assert(j7 as int == op_o7(op, 0));
                    crate::node::lemma_enc_cid_seq_len_lower(op.parents@);
                    assert(n_parents == op.parents@.len());
                    assert(j8 as int == op_o8(op, 0));
                    assert(j9 as int == op_o9(op, 0));
                };
            }
            return None;
        },
    };
    let r = Some((timestamp, author, parents, node_timestamp, j10));
    proof {
        assert forall|op: Operation|
            wf_operation(op) && (#[trigger] operation_bytes(op)).is_prefix_of(v@.skip(0)) && i
                == op_o5(op, 0) implies (r matches Some(p) && p.0 == op.timestamp && p.1@
            == op.author@ && cid_seq_eq(p.2@, op.parents@) && p.3 == op.node_timestamp && p.4
            == op_o10(op, 0)) by {
            lemma_op_parts(v@, 0, op);
            vstd::std_specs::vec::axiom_spec_len(v);
            assert(j6 as int == op_o6(op, 0));
            assert(j7 as int == op_o7(op, 0));
            crate::node::lemma_enc_cid_seq_len_lower(op.parents@);
            assert(n_parents == op.parents@.len());
            assert(j8 as int == op_o8(op, 0));
            assert(j9 as int == op_o9(op, 0));
            assert(j10 as int == op_o10(op, 0));
        };
    }
    r
}

impl Operation {
    /// Reads an operation back from its canonical bytes: the encoding of
    /// any well-formed operation decodes to that operation, content for
    /// content.
    pub fn from_bytes(buf: &[u8]) -> (r: Result<Operation, DaslError>)
        ensures
            forall|op: Operation|
                wf_operation(op) && buf@ == operation_bytes(op) ==> (r matches Ok(m) && op_eq(
                    m,
                    op,
                )),
            r matches Ok(m) ==> wf_operation(m),
    {
        let v = vstd::slice::slice_to_vec(buf);
        proof {
            assert(v@.skip(0) =~= v@);
        }
        let (id, genesis, kind, j5) = match parse_operation_front(&v) {
            Some(p) => p,
            None => {
                return Err(DaslError::Deserialization);
            },
        };
        let (timestamp, author, parents, node_timestamp, j10) = match parse_operation_back(
            &v,
            j5,
        ) {
            Some(p) => p,
            None => {
                return Err(DaslError::Deserialization);
            },
        };
        if j10 != v.len() {
            proof {
                assert forall|op: Operation|
                    wf_operation(op) && v@ == operation_bytes(op) implies false by {
                    lemma_op_parts(v@, 0, op);
                    vstd::std_specs::vec::axiom_spec_len(&v);
                };
            }
            return Err(DaslError::Deserialization);
        }
        let m = Operation { id, genesis, kind, timestamp, author, parents, node_timestamp };
        let r = Ok::<Operation, DaslError>(m);
        proof {
            assert forall|op: Operation|
                wf_operation(op) && v@ == operation_bytes(op) implies (r matches Ok(mm) && op_eq(
                mm,
                op,
            )) by {
                lemma_op_parts(v@, 0, op);
                vstd::std_specs::vec::axiom_spec_len(&v);
            };
        }
        r
    }
}

} // verus!

//! The last-write-wins reducer.
//!
//! Given the operations of one content family, the reducer emits the
//! payload of the operation with the maximum `(timestamp, id)` pair: the
//! monotonic timestamp decides first, the lexicographic identifier order
//! breaks ties, and among fully equal keys the later entry wins. A
//! winning delete yields no payload.

use vstd::prelude::*;
use crate::operation::{Operation, OperationType};
use crate::order::{lex_lt, bytes_lt, lemma_lex_total, lemma_lex_irrefl, lemma_lex_trans};

verus! {

/// Strict order on the reducer's key: timestamp first, identifier bytes
/// second.
pub open spec fn key_lt(a: Operation, b: Operation) -> bool {
    a.timestamp < b.timestamp || (a.timestamp == b.timestamp && lex_lt(a.id@, b.id@))
}

/// Non-strict order on the reducer's key.
pub open spec fn key_le(a: Operation, b: Operation) -> bool {
    key_lt(a, b) || (a.timestamp == b.timestamp && a.id@ == b.id@)
}

/// The winning position of a sequence of operations: everything earlier
/// compares no higher, everything later compares strictly lower, so among
/// equal keys the last entry wins.
pub open spec fn is_last_max(s: Seq<Operation>, i: int) -> bool {
    &&& 0 <= i < s.len()
    &&& forall|j: int| 0 <= j < i ==> key_le(#[trigger] s[j], s[i])
    &&& forall|j: int| i < j < s.len() ==> key_lt(#[trigger] s[j], s[i])
}

/// Whether the reducer's answer repeats the payload of the operation.
pub open spec fn opt_payload_eq(r: Option<String>, op: Operation) -> bool {
    match (r, op.kind.payload_spec()) {
        (None, None) => true,
        (Some(s), Some(p)) => s@ == p,
        _ => false,
    }
}

pub proof fn lemma_key_le_le(a: Operation, b: Operation, c: Operation)
    requires
        key_le(a, b),
        key_le(b, c),
    ensures
        key_le(a, c),
{
    if a.timestamp == b.timestamp && b.timestamp == c.timestamp {
        if lex_lt(a.id@, b.id@) && lex_lt(b.id@, c.id@) {
            lemma_lex_trans(a.id@, b.id@, c.id@);
        }
    }
}

pub proof fn lemma_key_le_lt(a: Operation, b: Operation, c: Operation)
    requires
        key_le(a, b),
        key_lt(b, c),
    ensures
        key_lt(a, c),
{
    if a.timestamp == b.timestamp && b.timestamp == c.timestamp {
        if lex_lt(a.id@, b.id@) && lex_lt(b.id@, c.id@) {
            lemma_lex_trans(a.id@, b.id@, c.id@);
        }
    }
}

pub proof fn lemma_key_lt_le(a: Operation, b: Operation, c: Operation)
    requires
        key_lt(a, b),
        key_le(b, c),
    ensures
        key_lt(a, c),
{
    if a.timestamp == b.timestamp && b.timestamp == c.timestamp {
        if lex_lt(a.id@, b.id@) && lex_lt(b.id@, c.id@) {
            lemma_lex_trans(a.id@, b.id@, c.id@);
        }
    }
}

/// Two operations always compare: one key is no higher, or the other is
/// strictly lower.
pub proof fn lemma_key_total(a: Operation, b: Operation)
    ensures
        key_le(a, b) || key_lt(b, a),
{
    if a.timestamp == b.timestamp {
        lemma_lex_total(a.id@, b.id@);
    }
}

/// A key never compares strictly below itself.
pub proof fn lemma_key_irrefl(a: Operation)
    ensures
        !key_lt(a, a),
{
    lemma_lex_irrefl(a.id@);
}

/// The winning position is unique.
pub proof fn lemma_last_max_unique(s: Seq<Operation>, i: int, j: int)
    requires
        is_last_max(s, i),
        is_last_max(s, j),
    ensures
        i == j,
{
    if i < j {
        assert(key_lt(s[j], s[i]));
        assert(key_le(s[i], s[j]));
        lemma_key_lt_le(s[j], s[i], s[j]);
        lemma_key_irrefl(s[j]);
    } else if j < i {
        assert(key_lt(s[i], s[j]));
        assert(key_le(s[j], s[i]));
        lemma_key_lt_le(s[i], s[j], s[i]);
        lemma_key_irrefl(s[i]);
    }
}

/// Every non-empty sequence of operations has a winning position.
pub proof fn lemma_last_max_exists(s: Seq<Operation>)
    requires
        s.len() > 0,
    ensures
        exists|i: int| is_last_max(s, i),
    decreases s.len(),
{
    if s.len() == 1 {
        assert(is_last_max(s, 0));
    } else {
        let front = s.drop_last();
        lemma_last_max_exists(front);
        let i = choose|i: int| is_last_max(front, i);
        let last = s.len() - 1;
        lemma_key_total(s[last], s[i]);
        if key_le(s[i], s[last]) {
            assert forall|j: int| 0 <= j < last implies key_le(#[trigger] s[j], s[last]) by {
                assert(s[j] == front[j]);
                if j < i {
                    lemma_key_le_le(s[j], s[i], s[last]);
                } else if j == i {
                } else {
                    assert(key_lt(front[j], front[i]));
                    lemma_key_lt_le(s[j], s[i], s[last]);
                }
            };
            assert(is_last_max(s, last));
        } else {
            assert(key_lt(s[last], s[i]));
            assert forall|j: int| 0 <= j < i implies key_le(#[trigger] s[j], s[i]) by {
                assert(s[j] == front[j]);
            };
            assert forall|j: int| i < j < s.len() implies key_lt(#[trigger] s[j], s[i]) by {
                if j < last {
                    assert(s[j] == front[j]);
                }
            };
            assert(is_last_max(s, i));
        }
    }
}

/// The winning position only depends on timestamps and identifiers, so
/// it carries over to a copy of the sequence, entry for entry.
pub proof fn lemma_last_max_congruent(a: Seq<Operation>, b: Seq<Operation>, i: int)
    requires
        a.len() == b.len(),
        forall|j: int| 0 <= j < a.len() ==> crate::operation::op_eq(#[trigger] a[j], b[j]),
        is_last_max(a, i),
    ensures
        is_last_max(b, i),
{
    assert forall|j: int| 0 <= j < i implies key_le(#[trigger] b[j], b[i]) by {
        assert(crate::operation::op_eq(a[j], b[j]));
        assert(crate::operation::op_eq(a[i], b[i]));
        assert(key_le(a[j], a[i]));
    };
    assert forall|j: int| i < j < b.len() implies key_lt(#[trigger] b[j], b[i]) by {
        assert(crate::operation::op_eq(a[j], b[j]));
        assert(crate::operation::op_eq(a[i], b[i]));
        assert(key_lt(a[j], a[i]));
    };
}

/// Last-write-wins: picks the operation with the highest `(timestamp,
/// id)` key, ties broken towards the later entry, and emits its payload.
pub struct LwwReducer;

/// Whether `a`'s key is less than or equal to `b`'s.
pub fn op_key_le(a: &Operation, b: &Operation) -> (r: bool)
    ensures
        r == key_le(*a, *b),
{
    if a.timestamp < b.timestamp {
        return true;
    }
    if a.timestamp > b.timestamp {
        return false;
    }
    let r = !bytes_lt(&b.id.bytes, &a.id.bytes);
    proof {
        lemma_lex_total(a.id@, b.id@);
        lemma_lex_irrefl(a.id@);
        if lex_lt(a.id@, b.id@) && lex_lt(b.id@, a.id@) {
            lemma_lex_trans(a.id@, b.id@, a.id@);
        }
    }
    r
}

impl LwwReducer {
    /// Reduces a sequence of operations to the payload of the winning
    /// one; an empty sequence or a winning delete yields nothing.
    pub fn reduce(ops: &Vec<Operation>) -> (r: Option<String>)
        ensures
            ops@.len() == 0 ==> r is None,
            forall|i: int| is_last_max(ops@, i) ==> opt_payload_eq(r, ops@[i]),
    {
        if ops.len() == 0 {
            return None;
        }
        let mut bi: usize = 0;
        let mut t: usize = 1;
        while t < ops.len()
            invariant
                0 < ops@.len(),
                0 <= bi < t <= ops@.len(),
                forall|j: int| 0 <= j < bi ==> key_le(#[trigger] ops@[j], ops@[bi as int]),
                forall|j: int| bi < j < t ==> key_lt(#[trigger] ops@[j], ops@[bi as int]),
            decreases ops@.len() - t,
        {
            if op_key_le(&ops[bi], &ops[t]) {
                proof {
                    assert forall|j: int| 0 <= j < t implies key_le(
                        #[trigger] ops@[j],
                        ops@[t as int],
                    ) by {
                        if j < bi {
                            lemma_key_le_le(ops@[j], ops@[bi as int], ops@[t as int]);
                        } else if j == bi {
                        } else {
                            lemma_key_lt_le(ops@[j], ops@[bi as int], ops@[t as int]);
                        }
                    };
                }
                bi = t;
            } else {
                proof {
                    lemma_key_total(ops@[bi as int], ops@[t as int]);
                }
            }
            t = t + 1;
        }
        proof {
            assert(is_last_max(ops@, bi as int));
            assert forall|i: int| is_last_max(ops@, i) implies i == bi as int by {
                lemma_last_max_unique(ops@, i, bi as int);
            };
        }
        match &ops[bi].kind {
            OperationType::Create(p) => Some(p.as_str().to_owned()),
            OperationType::Update(p) => Some(p.as_str().to_owned()),
            OperationType::Merge(p) => Some(p.as_str().to_owned()),
            OperationType::Delete => None,
        }
    }
}

} // verus!

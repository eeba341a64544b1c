//! The operation log and the CRDT state over it.
//!
//! `CrdtState` keeps the ordered log of operations. The state of a
//! content family is what the last-write-wins reducer yields on the
//! family's slice of the log; validation refuses an update, delete or
//! merge for a family whose log holds no create yet.

use vstd::prelude::*;
use crate::cid::ContentId;
use crate::errors::{CrdtError, ValidationError};
use crate::operation::{Operation, OperationId, OperationKind};
use crate::reducer::{LwwReducer, is_last_max, opt_payload_eq};

verus! {

/// The operations of one family, in log order.
pub open spec fn family_ops(s: Seq<Operation>, g: Seq<u8>) -> Seq<Operation>
    decreases s.len(),
{
    if s.len() == 0 {
        Seq::empty()
    } else {
        let rest = family_ops(s.drop_last(), g);
        if s.last().genesis@ == g {
            rest.push(s.last())
        } else {
            rest
        }
    }
}

/// Whether the log holds a create for the family.
pub open spec fn has_create(s: Seq<Operation>, g: Seq<u8>) -> bool {
    exists|j: int|
        0 <= j < s.len() && (#[trigger] s[j]).genesis@ == g && s[j].kind.kind_spec()
            == OperationKind::Create
}

/// Whether an operation may be applied: creates always, everything else
/// only to a family that has one.
pub open spec fn valid_against(s: Seq<Operation>, op: Operation) -> bool {
    op.kind.kind_spec() == OperationKind::Create || has_create(s, op.genesis@)
}

/// The persisted, ordered operation log with the reducer over it.
#[derive(Debug)]
pub struct CrdtState {
    /// The log, in application order. The repository mints a fresh
    /// identifier for every operation it commits.
    pub ops: Vec<Operation>,
}

impl CrdtState {
    /// An empty log.
    pub fn new() -> (r: CrdtState)
        ensures
            r.ops@.len() == 0,
    {
        CrdtState { ops: Vec::new() }
    }

    /// Appends an operation to the log without validation.
    pub fn apply(&mut self, op: Operation) -> (r: Result<(), CrdtError>)
        ensures
            r is Ok,
            final(self).ops@ == old(self).ops@.push(op),
    {
        self.ops.push(op);
        Ok(())
    }

    /// Appends an operation after checking that its family already has a
    /// create; refuses it otherwise and leaves the log unchanged.
    pub fn apply_with_validation(&mut self, op: Operation) -> (r: Result<(), CrdtError>)
        ensures
            valid_against(old(self).ops@, op) ==> r is Ok && final(self).ops@ == old(
                self,
            ).ops@.push(op),
            !valid_against(old(self).ops@, op) ==> r == Err::<(), CrdtError>(
                CrdtError::Validation(ValidationError::MissingCreate),
            ) && final(self).ops@ == old(self).ops@,
    {
        let valid = match self.validate_operation(&op) {
            Ok(b) => b,
            Err(e) => {
                return Err(e);
            },
        };
        if valid {
            self.apply(op)
        } else {
            Err(CrdtError::Validation(ValidationError::MissingCreate))
        }
    }

    /// The operations of one family, in log order.
    pub fn get_operations_by_genesis(&self, genesis: &ContentId) -> (r: Vec<Operation>)
        ensures
            r@.len() == family_ops(self.ops@, genesis@).len(),
            forall|j: int|
                0 <= j < r@.len() ==> crate::operation::op_eq(
                    #[trigger] r@[j],
                    family_ops(self.ops@, genesis@)[j],
                ),
    {
        let mut out: Vec<Operation> = Vec::new();
        let mut t: usize = 0;
        proof {
            assert(self.ops@.subrange(0, 0) =~= Seq::<Operation>::empty());
        }
        while t < self.ops.len()
            invariant
                0 <= t <= self.ops@.len(),
                out@.len() == family_ops(self.ops@.subrange(0, t as int), genesis@).len(),
                forall|j: int|
                    0 <= j < out@.len() ==> crate::operation::op_eq(
                        #[trigger] out@[j],
                        family_ops(self.ops@.subrange(0, t as int), genesis@)[j],
                    ),
            decreases self.ops@.len() - t,
        {
            if self.ops[t].genesis == *genesis {
                out.push(self.ops[t].duplicate());
            }
            t = t + 1;
            proof {
                assert(self.ops@.subrange(0, t as int).drop_last() =~= self.ops@.subrange(
                    0,
                    t - 1 as int,
                ));
                assert(self.ops@.subrange(0, t as int).last() == self.ops@[t - 1]);
            }
        }
        proof {
            assert(self.ops@.subrange(0, self.ops@.len() as int) =~= self.ops@);
        }
        out
    }

    /// The state of a family: the payload of the operation with the
    /// maximum `(timestamp, id)` key, or nothing after a winning delete
    /// or on an unknown family.
    pub fn get_state(&self, genesis: &ContentId) -> (r: Option<String>)
        ensures
            family_ops(self.ops@, genesis@).len() == 0 ==> r is None,
            forall|i: int|
                is_last_max(family_ops(self.ops@, genesis@), i) ==> opt_payload_eq(
                    r,
                    family_ops(self.ops@, genesis@)[i],
                ),
    {
        let fam = self.get_operations_by_genesis(genesis);
        let r = LwwReducer::reduce(&fam);
        proof {
            let whole = family_ops(self.ops@, genesis@);
            assert forall|i: int| is_last_max(whole, i) implies opt_payload_eq(r, whole[i]) by {
                crate::reducer::lemma_last_max_congruent(whole, fam@, i);
                assert(opt_payload_eq(r, fam@[i]));
                assert(crate::operation::op_eq(fam@[i], whole[i]));
            };
        }
        r
    }

    /// Looks an operation up by its identifier; yields the first match.
    pub fn get_operation(&self, op_id: &OperationId) -> (r: Result<Option<Operation>, CrdtError>)
        ensures
            r matches Ok(o) && match o {
                Some(found) => exists|j: int|
                    0 <= j < self.ops@.len() && crate::operation::op_eq(
                        found,
                        #[trigger] self.ops@[j],
                    ) && self.ops@[j].id@ == op_id@,
                None => forall|j: int|
                    0 <= j < self.ops@.len() ==> (#[trigger] self.ops@[j]).id@ != op_id@,
            },
    {
        let mut t: usize = 0;
        while t < self.ops.len()
            invariant
                0 <= t <= self.ops@.len(),
                forall|j: int| 0 <= j < t ==> (#[trigger] self.ops@[j]).id@ != op_id@,
            decreases self.ops@.len() - t,
        {
            if self.ops[t].id == *op_id {
                let found = self.ops[t].duplicate();
                return Ok(Some(found));
            }
            t = t + 1;
        }
        Ok(None)
    }

    /// Removes the first operation carrying the identifier, if any.
    pub fn delete_operation(&mut self, op_id: &OperationId) -> (r: Result<(), CrdtError>)
        ensures
            r is Ok,
            (forall|j: int|
                0 <= j < old(self).ops@.len() ==> (#[trigger] old(self).ops@[j]).id@ != op_id@)
                ==> final(self).ops@ == old(self).ops@,
            (exists|j: int| 0 <= j < old(self).ops@.len() && (#[trigger] old(self).ops@[j]).id@
                == op_id@) ==> exists|j: int|
                0 <= j < old(self).ops@.len() && (#[trigger] old(self).ops@[j]).id@ == op_id@
                    && final(self).ops@ == old(self).ops@.remove(j),
    {
        let mut t: usize = 0;
        while t < self.ops.len()
            invariant
                0 <= t <= self.ops@.len(),
                *self == *old(self),
                forall|j: int| 0 <= j < t ==> (#[trigger] self.ops@[j]).id@ != op_id@,
            decreases self.ops@.len() - t,
        {
            if self.ops[t].id == *op_id {
                self.ops.remove(t);
                return Ok(());
            }
            t = t + 1;
        }
        Ok(())
    }

    /// Whether the operation may be applied: a create always, an update,
    /// delete or merge only when its family's log already has a create.
    pub fn validate_operation(&self, op: &Operation) -> (r: Result<bool, CrdtError>)
        ensures
            r matches Ok(b) && b == valid_against(self.ops@, *op),
    {
        if self.is_kind_create(op) {
            return Ok(true);
        }
        let mut t: usize = 0;
        while t < self.ops.len()
            invariant
                0 <= t <= self.ops@.len(),
                forall|j: int|
                    0 <= j < t ==> !((#[trigger] self.ops@[j]).genesis@ == op.genesis@
                        && self.ops@[j].kind.kind_spec() == OperationKind::Create),
            decreases self.ops@.len() - t,
        {
            if self.ops[t].genesis == op.genesis && self.ops[t].is_type(OperationKind::Create) {
                return Ok(true);
            }
            t = t + 1;
        }
        Ok(false)
    }

    /// Whether the operation is a create.
    fn is_kind_create(&self, op: &Operation) -> (r: bool)
        ensures
            r == (op.kind.kind_spec() == OperationKind::Create),
    {
        op.is_type(OperationKind::Create)
    }
}

} // verus!

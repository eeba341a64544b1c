//! The shared persistent key-value store.
//!
//! One embedded LevelDB instance holds both the operation log (keys
//! `0x01 || id`) and the DAG node records (keys `0x10 || cid`). All
//! writes of a commit are staged into a single write batch and published
//! atomically; a batch that is never committed changes nothing. Only one
//! batch may be active at a time.

use vstd::prelude::*;
use rusty_leveldb::LdbIterator;
use crate::cid::ContentId;
use crate::errors::BatchError;
use crate::operation::OperationId;

verus! {

#[verifier::external_type_specification]
#[verifier::external_body]
pub struct ExDb(rusty_leveldb::DB);

#[verifier::external_type_specification]
#[verifier::external_body]
pub struct ExWriteBatch(rusty_leveldb::WriteBatch);

#[verifier::external_type_specification]
#[verifier::external_body]
pub struct ExStatus(rusty_leveldb::Status);

/// The key-value pairs the database holds; named abstractly, the
/// `rusty_leveldb` crate maintains them.
pub uninterp spec fn db_contents(db: rusty_leveldb::DB) -> Map<Seq<u8>, Seq<u8>>;

/// The effect of a write batch: for each touched key, the staged value,
/// or `None` for a staged delete. Within one batch the last write to a
/// key wins.
pub uninterp spec fn batch_writes(b: rusty_leveldb::WriteBatch) -> Map<Seq<u8>, Option<Seq<u8>>>;

/// Whether the handle has absorbed a failed batch write. `DB::write`
/// inserts the batch into the memtable before the fallible log write, so
/// after a failure the entries linger above the published sequence
/// number: a later successful write would surface them, and re-writing
/// one of their keys can trip an internal assertion. A wounded handle
/// must take no further writes.
pub uninterp spec fn db_wounded(db: rusty_leveldb::DB) -> bool;

/// The contents after a batch is applied: staged puts land, staged
/// deletes remove, everything else stays.
pub open spec fn apply_writes(
    m: Map<Seq<u8>, Seq<u8>>,
    w: Map<Seq<u8>, Option<Seq<u8>>>,
) -> Map<Seq<u8>, Seq<u8>> {
    Map::new(
        |k: Seq<u8>|
            if w.dom().contains(k) {
                w[k] is Some
            } else {
                m.dom().contains(k)
            },
        |k: Seq<u8>|
            if w.dom().contains(k) {
                w[k]->0
            } else {
                m[k]
            },
    )
}

/// A store with nothing published.
pub open spec fn no_contents() -> Map<Seq<u8>, Seq<u8>> {
    Map::empty()
}

/// A batch with nothing staged.
pub open spec fn no_writes() -> Map<Seq<u8>, Option<Seq<u8>>> {
    Map::empty()
}

/// Relies on `rusty_leveldb::in_memory` and `DB::open`: a fresh
/// database over the in-memory environment opens with no contents and
/// has taken no failed write.
#[verifier::external_body]
fn open_memory_db() -> (r: Result<rusty_leveldb::DB, rusty_leveldb::Status>)
    ensures
        r matches Ok(db) ==> db_contents(db) == no_contents() && !db_wounded(db),
{
    rusty_leveldb::DB::open("store", rusty_leveldb::in_memory())
}

/// Relies on `rusty_leveldb::WriteBatch::default`: a fresh batch stages
/// nothing.
#[verifier::external_body]
fn new_write_batch() -> (r: rusty_leveldb::WriteBatch)
    ensures
        batch_writes(r) == no_writes(),
{
    rusty_leveldb::WriteBatch::default()
}

/// Relies on `rusty_leveldb::WriteBatch::put`: stages a write of `value`
/// under `key`, overriding an earlier staged write to the same key.
#[verifier::external_body]
fn batch_put(b: &mut rusty_leveldb::WriteBatch, key: &Vec<u8>, value: &Vec<u8>)
    ensures
        batch_writes(*final(b)) == batch_writes(*old(b)).insert(key@, Some(value@)),
{
    b.put(key.as_slice(), value.as_slice());
}

/// Relies on `rusty_leveldb::DB::write` on a handle that has taken no
/// failed write: a successful call publishes every staged write of the
/// batch atomically; a failed call publishes nothing at the current
/// sequence number, but wounds the handle, whose entries would surface
/// under a later write. The caller never writes to a wounded handle
/// again.
#[verifier::external_body]
fn db_write(db: &mut rusty_leveldb::DB, batch: rusty_leveldb::WriteBatch) -> (r: Result<
    (),
    rusty_leveldb::Status,
>)
    requires
        !db_wounded(*old(db)),
    ensures
        r is Ok ==> db_contents(*final(db)) == apply_writes(
            db_contents(*old(db)),
            batch_writes(batch),
        ) && !db_wounded(*final(db)),
        r is Err ==> db_contents(*final(db)) == db_contents(*old(db)),
{
    db.write(batch, true)
}

/// An entry list that lists a map in full: every pair is stored, every
/// stored key appears, and no key appears twice.
pub open spec fn snapshot_lists(
    m: Map<Seq<u8>, Seq<u8>>,
    entries: Seq<(Vec<u8>, Vec<u8>)>,
) -> bool {
    &&& forall|i: int|
        0 <= i < entries.len() ==> m.contains_pair((#[trigger] entries[i]).0@, entries[i].1@)
    &&& forall|k: Seq<u8>|
        #[trigger] m.dom().contains(k) ==> exists|i: int|
            0 <= i < entries.len() && (#[trigger] entries[i]).0@ == k
    &&& forall|i: int, j: int|
        0 <= i < j < entries.len() ==> (#[trigger] entries[i]).0@ != (#[trigger] entries[j]).0@
}

/// Relies on `rusty_leveldb::DB::new_iter` and the iterator's `next`:
/// one pass over a snapshot yields every stored pair exactly once;
/// reading changes nothing.
#[verifier::external_body]
fn db_snapshot(db: &mut rusty_leveldb::DB) -> (r: Result<
    Vec<(Vec<u8>, Vec<u8>)>,
    rusty_leveldb::Status,
>)
    ensures
        db_contents(*final(db)) == db_contents(*old(db)),
        db_wounded(*final(db)) == db_wounded(*old(db)),
        r matches Ok(entries) ==> snapshot_lists(db_contents(*old(db)), entries@),
{
    let mut it = db.new_iter()?;
    let mut out: Vec<(Vec<u8>, Vec<u8>)> = Vec::new();
    while let Some((k, v)) = it.next() {
        out.push((k, v));
    }
    Ok(out)
}

/// The storage key of an operation record: the log namespace byte in
/// front of the operation identifier.
pub open spec fn op_key_spec(id: Seq<u8>) -> Seq<u8> {
    seq![0x01u8] + id
}

/// The storage key of a DAG node record: the node namespace byte in
/// front of the content identifier.
pub open spec fn node_key_spec(c: Seq<u8>) -> Seq<u8> {
    seq![0x10u8] + c
}

/// Builds the storage key of an operation record.
pub fn op_key(id: &OperationId) -> (r: Vec<u8>)
    ensures
        r@ == op_key_spec(id@),
{
    let mut key: Vec<u8> = Vec::new();
    key.push(0x01);
    let mut body = vstd::slice::slice_to_vec(id.bytes.as_slice());
    key.append(&mut body);
    proof {
        assert(key@ =~= op_key_spec(id@));
    }
    key
}

/// Builds the storage key of a DAG node record.
pub fn node_key(cid: &ContentId) -> (r: Vec<u8>)
    ensures
        r@ == node_key_spec(cid@),
{
    let mut key: Vec<u8> = Vec::new();
    key.push(0x10);
    let mut body = vstd::slice::slice_to_vec(cid.bytes.as_slice());
    key.append(&mut body);
    proof {
        assert(key@ =~= node_key_spec(cid@));
    }
    key
}

/// The shared store handle with its single write-batch slot. A store
/// whose batch commit has failed once is poisoned: it refuses every
/// further batch, so the database never takes a write after a failure.
pub struct Store {
    db: rusty_leveldb::DB,
    batch: Option<rusty_leveldb::WriteBatch>,
    poisoned: bool,
}

impl Store {
    /// The published key-value pairs.
    pub closed spec fn committed(&self) -> Map<Seq<u8>, Seq<u8>> {
        db_contents(self.db)
    }

    /// Whether the store still publishes: no batch commit has failed.
    pub closed spec fn healthy(&self) -> bool {
        !self.poisoned
    }

    /// The poison flag truly covers the handle: an unpoisoned store's
    /// database has absorbed no failed write.
    pub closed spec fn wf(&self) -> bool {
        !self.poisoned ==> !db_wounded(self.db)
    }

    /// The writes staged in the active batch; empty without one.
    pub closed spec fn staged(&self) -> Map<Seq<u8>, Option<Seq<u8>>> {
        match self.batch {
            Some(b) => batch_writes(b),
            None => Map::empty(),
        }
    }

    /// Whether a batch is active.
    pub closed spec fn batch_active(&self) -> bool {
        self.batch is Some
    }

    /// Opens a fresh in-memory store.
    pub fn open_memory() -> (r: Result<Store, BatchError>)
        ensures
            r matches Ok(st) ==> st.wf() && st.healthy() && st.committed() == no_contents()
                && !st.batch_active(),
    {
        match open_memory_db() {
            Ok(db) => Ok(Store { db, batch: None, poisoned: false }),
            Err(_) => Err(BatchError::Commit),
        }
    }

    /// Wraps an already opened database; its contents carry over. The
    /// handle must come straight from `rusty_leveldb::DB::open`: one
    /// that has already absorbed a failed write is not accepted, since
    /// its next write could surface the failed batch's entries.
    pub fn attach(db: rusty_leveldb::DB) -> (r: Store)
        requires
            !db_wounded(db),
        ensures
            r.wf(),
            r.healthy(),
            r.committed() == db_contents(db),
            !r.batch_active(),
    {
        Store { db, batch: None, poisoned: false }
    }

    /// Opens a batch; refused while another one is active or once the
    /// store is poisoned by a failed commit.
    pub fn begin_batch(&mut self) -> (r: Result<(), BatchError>)
        requires
            old(self).wf(),
        ensures
            final(self).wf(),
            final(self).healthy() == old(self).healthy(),
            !old(self).healthy() ==> r == Err::<(), BatchError>(BatchError::Commit)
                && final(self).committed() == old(self).committed()
                && final(self).batch_active() == old(self).batch_active()
                && final(self).staged() == old(self).staged(),
            old(self).healthy() && old(self).batch_active() ==> r == Err::<(), BatchError>(
                BatchError::AlreadyActive,
            ) && final(self).committed() == old(self).committed() && final(self).batch_active()
                && final(self).staged() == old(self).staged(),
            old(self).healthy() && !old(self).batch_active() ==> r == Ok::<(), BatchError>(())
                && final(self).committed() == old(self).committed() && final(self).batch_active()
                && final(self).staged() == no_writes(),
    {
        if self.poisoned {
            return Err(BatchError::Commit);
        }
        if self.batch.is_some() {
            return Err(BatchError::AlreadyActive);
        }
        self.batch = Some(new_write_batch());
        Ok(())
    }

    /// Stages a write into the active batch.
    pub fn stage_put(&mut self, key: &Vec<u8>, value: &Vec<u8>)
        requires
            old(self).wf(),
            old(self).batch_active(),
        ensures
            final(self).wf(),
            final(self).healthy() == old(self).healthy(),
            final(self).committed() == old(self).committed(),
            final(self).batch_active(),
            final(self).staged() == old(self).staged().insert(key@, Some(value@)),
    {
        match &mut self.batch {
            Option::Some(b) => batch_put(b, key, value),
            Option::None => {
                proof {
                    assert(false);
                }
            },
        }
    }

    /// Publishes the active batch atomically. On failure nothing is
    /// published and the store is poisoned: it takes no further batch,
    /// so the failed write's entries can never surface. Either way the
    /// batch slot is free again.
    pub fn commit_batch(&mut self) -> (r: Result<(), BatchError>)
        requires
            old(self).wf(),
            old(self).healthy(),
            old(self).batch_active(),
        ensures
            final(self).wf(),
            !final(self).batch_active(),
            r is Ok ==> final(self).healthy() && final(self).committed() == apply_writes(
                old(self).committed(),
                old(self).staged(),
            ),
            r is Err ==> r == Err::<(), BatchError>(BatchError::Commit) && final(self).committed()
                == old(self).committed() && !final(self).healthy(),
    {
        let b = match self.batch.take() {
            Some(b) => b,
            None => {
                proof {
                    assert(false);
                }
                return Err(BatchError::Commit);
            },
        };
        match db_write(&mut self.db, b) {
            Ok(()) => Ok(()),
            Err(_) => {
                self.poisoned = true;
                Err(BatchError::Commit)
            },
        }
    }

    /// Discards the active batch, if any; its staged writes are lost.
    pub fn abort_batch(&mut self)
        requires
            old(self).wf(),
        ensures
            final(self).wf(),
            final(self).healthy() == old(self).healthy(),
            final(self).committed() == old(self).committed(),
            !final(self).batch_active(),
    {
        self.batch = None;
    }

    /// A full snapshot of the published contents: every stored pair
    /// exactly once.
    #[verifier::rlimit(50)]
    #[verifier::spinoff_prover]
    pub fn snapshot(&mut self) -> (r: Result<Vec<(Vec<u8>, Vec<u8>)>, BatchError>)
        requires
            old(self).wf(),
        ensures
            final(self).wf(),
            final(self).healthy() == old(self).healthy(),
            final(self).committed() == old(self).committed(),
            final(self).batch_active() == old(self).batch_active(),
            final(self).staged() == old(self).staged(),
            r matches Ok(entries) ==> snapshot_lists(old(self).committed(), entries@),
    {
        match db_snapshot(&mut self.db) {
            Ok(entries) => Ok(entries),
            Err(_) => Err(BatchError::Commit),
        }
    }
}

} // verus!

//! The embedded key-value engine: snapshot isolation over the tree.
//!
//! Committed versions are published in memory and handed out as log records;
//! a checkpoint moves those that every live snapshot sees into the tree.

pub mod batch;
pub mod batch_laws;
pub mod checkpoint;
pub mod copying;
pub mod laws;
pub mod scans;
pub mod view_laws;

use crate::btree::{contents, tree_ok, BTree, FillFactor};
use crate::bytes::copy_bytes;
use crate::error::{Error, Result};
use crate::lsm::version::{seen, Version};
use crate::page::{MetaData, MAX_KEY_SIZE};
use crate::pager::{Pager, DEFAULT_CACHE_PAGES};
use crate::txn::{
    began, conflicts, records, replay, sees, staged, stamped, Commit, Record, Says, Sight,
    Timeline, VersionStore, Write,
};
use vstd::prelude::*;

verus! {

/// Longest key that a caller may name.
pub const MAX_KEY_LEN: usize = 0x10_0000;

/// Longest value that a caller may store.
pub const MAX_VALUE_LEN: usize = 0xA0_0000;

/// Tunable engine parameters.
#[derive(Debug, Clone, Copy)]
pub struct Options {
    /// Clean-page cache capacity, in pages.
    pub cache_pages: usize,
    /// B+Tree split thresholds.
    pub fill_factor: FillFactor,
    /// Merge, flush and checkpoint once the log exceeds this many bytes.
    pub checkpoint_bytes: u64,
    /// `fsync` the log on every commit. When disabled a commit is still handed
    /// to the operating system before it is reported: it survives the app
    /// crashing, but not the machine losing power.
    pub sync_on_commit: bool,
    /// Record spans for engine operations.
    pub tracing: bool,
}

impl Default for Options {
    fn default() -> (o: Self)
        ensures
            o.cache_pages == DEFAULT_CACHE_PAGES,
            o.fill_factor == (FillFactor { min: 2032, max: 4064 }),
            o.checkpoint_bytes == 4 * 1024 * 1024,
            o.sync_on_commit,
            !o.tracing,
    {
        Options {
            cache_pages: DEFAULT_CACHE_PAGES,
            fill_factor: FillFactor::default(),
            checkpoint_bytes: 4 * 1024 * 1024,
            sync_on_commit: true,
            tracing: false,
        }
    }
}

/// Runtime statistics, useful for tests and diagnostics.
#[derive(Debug, Clone, Copy, PartialEq, Eq, Structural)]
pub struct Stats {
    /// Pages allocated in the file.
    pub page_count: u32,
    /// Live transactions.
    pub active_txns: usize,
    /// Keys with unmerged in-memory versions.
    pub pending_keys: usize,
    /// Current log size in bytes.
    pub wal_bytes: u64,
    /// Latest commit timestamp.
    pub commit_ts: u64,
    /// Every version at or below this timestamp is in the durable tree.
    pub tree_ts: u64,
    /// Page reads served from memory.
    pub cache_hits: u64,
    /// Page reads that had to decode a page from the file.
    pub cache_misses: u64,
}

/// The embedded database.
pub struct Database {
    /// The pages of its file.
    pub pager: Pager,
    /// Committed versions and live transactions.
    pub versions: VersionStore,
    /// How the tree splits.
    pub tree: BTree,
    /// Log size at which the next automatic checkpoint runs.
    pub next_auto_checkpoint: u64,
    /// The options in force.
    pub options: Options,
}

// ---- what is seen -----------------------------------------------------------------------

/// What a map holds under a key.
pub open spec fn held_in(m: Map<Seq<u8>, Seq<u8>>, k: Seq<u8>) -> Option<Seq<u8>> {
    if m.contains_key(k) {
        Some(m[k])
    } else {
        None
    }
}

/// What a snapshot sees of a key: its newest version, or what the tree holds.
pub open spec fn look(
    versions: Map<Version, Says>,
    tree: Map<Seq<u8>, Seq<u8>>,
    k: Seq<u8>,
    snapshot: u64,
) -> Option<Seq<u8>> {
    match seen(versions, k, snapshot) {
        Some(s) => s,
        None => held_in(tree, k),
    }
}

/// What a transaction sees of a key: its own write, or what its snapshot sees.
pub open spec fn look_txn(t: Timeline, tree: Map<Seq<u8>, Seq<u8>>, id: u64, k: Seq<u8>) -> Option<
    Seq<u8>,
> {
    match sees(t, id, k) {
        Some(s) => s,
        None => held_in(tree, k),
    }
}

/// What a new snapshot sees.
pub open spec fn latest(t: Timeline, tree: Map<Seq<u8>, Seq<u8>>) -> Map<Seq<u8>, Seq<u8>> {
    Map::new(
        |k: Seq<u8>| look(t.versions, tree, k, (t.next_ts - 1) as u64) is Some,
        |k: Seq<u8>| look(t.versions, tree, k, (t.next_ts - 1) as u64)->0,
    )
}

/// A key and a value that may be written.
pub open spec fn writable(key: Seq<u8>, value: Seq<u8>) -> bool {
    0 < key.len() <= MAX_KEY_SIZE && value.len() <= MAX_VALUE_LEN
}

/// A key that may be named.
pub open spec fn nameable(key: Seq<u8>) -> bool {
    0 < key.len() <= MAX_KEY_LEN
}

/// Refuses keys that are empty or absurdly long.
pub fn validate_key_len(len: usize) -> (r: Result<()>)
    ensures
        match r {
            Ok(_) => 0 < len <= MAX_KEY_LEN,
            Err(e) => e is InvalidArgument && !(0 < len <= MAX_KEY_LEN),
        },
{
    if len == 0 {
        return Err(Error::invalid("key must not be empty"));
    }
    if len > MAX_KEY_LEN {
        return Err(Error::invalid("key is longer than 1 MiB"));
    }
    Ok(())
}

/// Refuses values that are too long.
pub fn validate_value_len(len: usize) -> (r: Result<()>)
    ensures
        match r {
            Ok(_) => len <= MAX_VALUE_LEN,
            Err(e) => e is InvalidArgument && len > MAX_VALUE_LEN,
        },
{
    if len > MAX_VALUE_LEN {
        return Err(Error::invalid("value is longer than 10 MiB"));
    }
    Ok(())
}

/// Refuses writes that cannot be stored.
pub fn validate_write(key: &[u8], value: &[u8]) -> (r: Result<()>)
    ensures
        match r {
            Ok(_) => writable(key@, value@),
            Err(e) => e is InvalidArgument && !writable(key@, value@),
        },
{
    validate_key_len(key.len())?;
    validate_value_len(value.len())?;
    if key.len() > MAX_KEY_SIZE {
        return Err(Error::invalid("key exceeds the 1024-byte structural limit"));
    }
    Ok(())
}

// ---- recovery ---------------------------------------------------------------------------

/// The commits of a log that are newer than `ts`.
pub open spec fn newer(log: Seq<Record>, ts: u64) -> Seq<Record>
    decreases log.len(),
{
    if log.len() == 0 {
        Seq::empty()
    } else if log.last().0 > ts {
        newer(log.drop_last(), ts).push(log.last())
    } else {
        newer(log.drop_last(), ts)
    }
}

/// The time of the next commit after a log.
pub open spec fn due(first: u64, log: Seq<Record>) -> u64
    decreases log.len(),
{
    if log.len() == 0 {
        first
    } else {
        let p = due(first, log.drop_last());
        if log.last().0 < p {
            p
        } else {
            (log.last().0 + 1) as u64
        }
    }
}

/// A database that was just opened.
pub struct Opened {
    /// The database.
    pub database: Database,
    /// How many commits of the log its tree did not hold yet.
    pub replayed: usize,
}

impl Database {
    /// The pager and the versions are in good order.
    pub open spec fn inv(&self) -> bool {
        &&& self.pager.inv()
        &&& self.versions.wf()
    }

    /// So is the tree, and nothing is staged.
    pub open spec fn wf(&self) -> bool {
        &&& self.inv()
        &&& tree_ok(self.pager@, 64)
        &&& self.pager.dirty() == Map::<u32, Seq<u8>>::empty()
    }

    /// What the tree holds.
    pub open spec fn stored(&self) -> Map<Seq<u8>, Seq<u8>> {
        contents(self.pager@)
    }

    /// What a new snapshot sees.
    pub open spec fn live(&self) -> Map<Seq<u8>, Seq<u8>> {
        latest(self.versions@, self.stored())
    }

    /// Opens the database that a file and the commits of its log make up;
    /// `max_txn_id` is the highest transaction id in the log.
    ///
    /// Anything at or below the tree's own time is already in the tree. Where
    /// commits were replayed, a checkpoint has to follow, so that a second
    /// crash does not have to replay the same records.
    pub fn open(pager: Pager, log: &Vec<Commit>, max_txn_id: u64, options: Options) -> (r: Result<
        Opened,
    >)
        requires
            pager.inv(),
        ensures
            match r {
                Ok(o) => {
                    let db = o.database;
                    let ts = pager@.meta.tree_ts;
                    let fresh = newer(records(log@), ts);
                    &&& db.pager == pager
                    &&& db.options == options
                    &&& db.next_auto_checkpoint == options.checkpoint_bytes
                    &&& db.inv()
                    &&& tree_ok(pager@, 64) && pager.dirty() == Map::<u32, Seq<u8>>::empty() ==> db.wf()
                    &&& db.versions@.versions == replay(Map::empty(), fresh)
                    &&& db.versions@.txns == Map::<u64, Sight>::empty()
                    &&& db.versions@.next_ts == due((ts + 1) as u64, fresh)
                    &&& o.replayed == fresh.len()
                    &&& db.versions@.next_txn == if max_txn_id < pager@.meta.next_txn_id {
                        pager@.meta.next_txn_id
                    } else if max_txn_id == u64::MAX {
                        u64::MAX
                    } else {
                        (max_txn_id + 1) as u64
                    }
                },
                Err(e) => e is Corruption && (pager@.meta.tree_ts == u64::MAX || exists|i: int|
                    0 <= i < log@.len() && (#[trigger] log@[i]).ts == u64::MAX),
            },
    {
        let meta: MetaData = pager.meta();
        if meta.tree_ts == u64::MAX {
            return Err(Error::corrupt("the tree's time is out of range"));
        }
        let mut versions: VersionStore = VersionStore::new(meta.tree_ts + 1, meta.next_txn_id);
        versions.observe_txn_id(max_txn_id);
        let ghost next_txn = versions.next_txn;
        let ghost all = records(log@);
        let mut replayed: usize = 0;
        let mut i: usize = 0;
        proof {
            assert(all.take(0) =~= Seq::empty());
        }
        while i < log.len()
            invariant
                i <= log@.len(),
                all == records(log@),
                versions.wf(),
                versions@.versions == replay(Map::empty(), newer(all.take(i as int), meta.tree_ts)),
                versions@.txns == Map::<u64, Sight>::empty(),
                versions@.next_ts == due(
                    (meta.tree_ts + 1) as u64,
                    newer(all.take(i as int), meta.tree_ts),
                ),
                versions@.next_txn == next_txn,
                replayed == newer(all.take(i as int), meta.tree_ts).len(),
                replayed <= i,
            decreases log@.len() - i,
        {
            proof {
                assert(all.take(i + 1).drop_last() =~= all.take(i as int));
                assert(all.take(i + 1).last() == log@[i as int]@);
                let fresh = newer(all.take(i as int), meta.tree_ts);
                assert(fresh.push(log@[i as int]@).drop_last() =~= fresh);
            }
            if log[i].ts > meta.tree_ts {
                if log[i].ts == u64::MAX {
                    return Err(Error::corrupt("a commit's time is out of range"));
                }
                versions.apply_recovered(&log[i]);
                replayed += 1;
            }
            i += 1;
        }
        assert(all.take(i as int) =~= all);
        let tree: BTree = BTree::new(options.fill_factor);
        Ok(
            Opened {
                database: Database {
                    pager,
                    versions,
                    tree,
                    next_auto_checkpoint: options.checkpoint_bytes,
                    options,
                },
                replayed,
            },
        )
    }

    // ---- transactions ---------------------------------------------------------------------

    /// Begins a transaction and returns its id.
    ///
    /// A `read_only` transaction cannot stage writes; it is the cheapest way
    /// to get a stable snapshot. Every transaction pins its snapshot until it
    /// commits or rolls back.
    pub fn begin(&mut self, read_only: bool) -> (r: Result<u64>)
        requires
            old(self).inv(),
        ensures
            final(self).inv(),
            final(self).pager == old(self).pager,
            final(self).next_auto_checkpoint == old(self).next_auto_checkpoint,
            final(self).options == old(self).options,
            final(self).tree == old(self).tree,
            match r {
                Ok(id) => id == old(self).versions@.next_txn && final(self).versions@ == (Timeline {
                    txns: old(self).versions@.txns.insert(
                        id,
                        Sight {
                            snapshot: (old(self).versions@.next_ts - 1) as u64,
                            read_only,
                            writes: Map::empty(),
                        },
                    ),
                    next_txn: (id + 1) as u64,
                    ..old(self).versions@
                }),
                Err(e) => e is Full && old(self).versions@.next_txn == u64::MAX
                    && final(self).versions@ == old(self).versions@,
            },
            r is Ok ==> final(self).versions@ == began(old(self).versions@, read_only),
    {
        self.versions.begin(read_only)
    }

    /// Stages an insert (or overwrite) in a transaction.
    pub fn insert(&mut self, txn_id: u64, key: &[u8], value: &[u8]) -> (r: Result<()>)
        requires
            old(self).inv(),
        ensures
            final(self).inv(),
            final(self).pager == old(self).pager,
            final(self).next_auto_checkpoint == old(self).next_auto_checkpoint,
            final(self).options == old(self).options,
            final(self).tree == old(self).tree,
            match r {
                Ok(_) => writable(key@, value@) && old(self).versions@.txns.contains_key(txn_id)
                    && !old(self).versions@.txns[txn_id].read_only && final(self).versions@ == (
                Timeline {
                    txns: old(self).versions@.txns.insert(
                        txn_id,
                        Sight {
                            writes: old(self).versions@.txns[txn_id].writes.insert(
                                key@,
                                Some(value@),
                            ),
                            ..old(self).versions@.txns[txn_id]
                        },
                    ),
                    ..old(self).versions@
                }),
                Err(e) => final(self).versions@ == old(self).versions@ && if !writable(
                    key@,
                    value@,
                ) {
                    e is InvalidArgument
                } else if !old(self).versions@.txns.contains_key(txn_id) {
                    e == Error::TxnNotFound(txn_id)
                } else {
                    e is InvalidArgument && old(self).versions@.txns[txn_id].read_only
                },
            },
            r is Ok ==> final(self).versions@ == staged(
                old(self).versions@,
                txn_id,
                key@,
                Some(value@),
            ),
    {
        validate_write(key, value)?;
        self.versions.stage(txn_id, copy_bytes(key), Write::Put(copy_bytes(value)))
    }

    /// Stages a delete in a transaction.
    ///
    /// Reports an absent key when the key is not visible to the transaction,
    /// so callers can distinguish "removed" from "was never there".
    pub fn delete(&mut self, txn_id: u64, key: &[u8]) -> (r: Result<()>)
        requires
            old(self).inv(),
        ensures
            final(self).inv(),
            final(self).pager@ == old(self).pager@,
            final(self).pager.dirty() == old(self).pager.dirty(),
            final(self).next_auto_checkpoint == old(self).next_auto_checkpoint,
            final(self).options == old(self).options,
            final(self).tree == old(self).tree,
            r is Err ==> final(self).versions@ == old(self).versions@,
            r is Ok ==> old(self).versions@.txns.contains_key(txn_id)
                && !old(self).versions@.txns[txn_id].read_only && final(self).versions@ == (
            Timeline {
                txns: old(self).versions@.txns.insert(
                    txn_id,
                    Sight {
                        writes: old(self).versions@.txns[txn_id].writes.insert(key@, None),
                        ..old(self).versions@.txns[txn_id]
                    },
                ),
                ..old(self).versions@
            }),
            r is Ok ==> final(self).versions@ == staged(old(self).versions@, txn_id, key@, None),
            old(self).wf() ==> match r {
                Ok(_) => nameable(key@) && look_txn(
                    old(self).versions@,
                    old(self).stored(),
                    txn_id,
                    key@,
                ) is Some,
                Err(e) => if !nameable(key@) {
                    e is InvalidArgument
                } else if !old(self).versions@.txns.contains_key(txn_id) {
                    e == Error::TxnNotFound(txn_id)
                } else if old(self).versions@.txns[txn_id].read_only {
                    e is InvalidArgument
                } else {
                    e is NotFound && look_txn(
                        old(self).versions@,
                        old(self).stored(),
                        txn_id,
                        key@,
                    ) is None
                },
            },
    {
        validate_key_len(key.len())?;
        self.versions.check_writable(txn_id)?;
        let visible: bool = match self.versions.read(txn_id, key)? {
            Some(v) => v.is_some(),
            None => self.tree.contains(&mut self.pager, key)?,
        };
        if !visible {
            return Err(Error::NotFound);
        }
        self.versions.stage(txn_id, copy_bytes(key), Write::Delete)
    }

    /// Reads a key as of a transaction, its own writes included.
    pub fn get(&mut self, txn_id: u64, key: &[u8]) -> (r: Result<Vec<u8>>)
        requires
            old(self).inv(),
        ensures
            final(self).inv(),
            final(self).pager@ == old(self).pager@,
            final(self).pager.dirty() == old(self).pager.dirty(),
            final(self).versions == old(self).versions,
            final(self).next_auto_checkpoint == old(self).next_auto_checkpoint,
            final(self).options == old(self).options,
            final(self).tree == old(self).tree,
            old(self).wf() ==> match r {
                Ok(v) => nameable(key@) && old(self).versions@.txns.contains_key(txn_id)
                    && look_txn(old(self).versions@, old(self).stored(), txn_id, key@) == Some(v@),
                Err(e) => if !nameable(key@) {
                    e is InvalidArgument
                } else if !old(self).versions@.txns.contains_key(txn_id) {
                    e == Error::TxnNotFound(txn_id)
                } else {
                    e is NotFound && look_txn(
                        old(self).versions@,
                        old(self).stored(),
                        txn_id,
                        key@,
                    ) is None
                },
            },
    {
        validate_key_len(key.len())?;
        match self.versions.read(txn_id, key)? {
            Some(Some(v)) => Ok(v),
            Some(None) => Err(Error::NotFound),
            None => self.tree.get(&mut self.pager, key),
        }
    }

    /// Reads a key in an implicit, immediately released snapshot.
    pub fn get_auto(&mut self, key: &[u8]) -> (r: Result<Vec<u8>>)
        requires
            old(self).inv(),
        ensures
            final(self).inv(),
            final(self).pager@ == old(self).pager@,
            final(self).pager.dirty() == old(self).pager.dirty(),
            final(self).versions == old(self).versions,
            final(self).next_auto_checkpoint == old(self).next_auto_checkpoint,
            final(self).options == old(self).options,
            final(self).tree == old(self).tree,
            old(self).wf() ==> match r {
                Ok(v) => nameable(key@) && held_in(old(self).live(), key@) == Some(v@),
                Err(e) => if nameable(key@) {
                    e is NotFound && held_in(old(self).live(), key@) is None
                } else {
                    e is InvalidArgument
                },
            },
    {
        validate_key_len(key.len())?;
        let snapshot: u64 = self.versions.current_ts();
        match self.versions.visible(key, snapshot) {
            Some(Some(v)) => Ok(v),
            Some(None) => Err(Error::NotFound),
            None => self.tree.get(&mut self.pager, key),
        }
    }

    /// Rolls a transaction back.
    pub fn rollback(&mut self, txn_id: u64) -> (r: Result<()>)
        requires
            old(self).inv(),
        ensures
            final(self).inv(),
            final(self).pager == old(self).pager,
            final(self).next_auto_checkpoint == old(self).next_auto_checkpoint,
            final(self).options == old(self).options,
            final(self).tree == old(self).tree,
            match r {
                Ok(_) => old(self).versions@.txns.contains_key(txn_id) && final(self).versions@ == (
                Timeline { txns: old(self).versions@.txns.remove(txn_id), ..old(self).versions@ }),
                Err(e) => e == Error::TxnNotFound(txn_id)
                    && !old(self).versions@.txns.contains_key(txn_id) && final(self).versions@
                    == old(self).versions@,
            },
    {
        self.versions.rollback(txn_id)
    }

    /// What has to be in the log before a transaction may commit; nothing for
    /// one that has written nothing, which ends here.
    ///
    /// A transaction that conflicts can never commit, since its snapshot is
    /// stale for good: it is aborted here rather than left open.
    pub fn prepare_commit(&mut self, txn_id: u64) -> (r: Result<Option<Commit>>)
        requires
            old(self).inv(),
        ensures
            final(self).inv(),
            final(self).pager == old(self).pager,
            final(self).next_auto_checkpoint == old(self).next_auto_checkpoint,
            final(self).options == old(self).options,
            final(self).tree == old(self).tree,
            match r {
                Ok(Some(c)) => old(self).versions@.txns.contains_key(txn_id)
                    && !nothing_to_commit(old(self).versions@, txn_id) && !conflicts(
                    old(self).versions@,
                    txn_id,
                ) && c@ == (
                    old(self).versions@.next_ts,
                    old(self).versions@.txns[txn_id].writes,
                ) && final(self).versions@ == old(self).versions@,
                Ok(None) => old(self).versions@.txns.contains_key(txn_id) && nothing_to_commit(
                    old(self).versions@,
                    txn_id,
                ) && final(self).versions@ == ended(old(self).versions@, txn_id),
                Err(e) => if old(self).versions@.txns.contains_key(txn_id) {
                    e is Conflict && !nothing_to_commit(old(self).versions@, txn_id) && conflicts(
                        old(self).versions@,
                        txn_id,
                    ) && final(self).versions@ == ended(old(self).versions@, txn_id)
                } else {
                    e == Error::TxnNotFound(txn_id) && final(self).versions@ == old(self).versions@
                },
            },
    {
        let c: Commit = self.versions.record(txn_id)?;
        let writable: bool = self.versions.check_writable(txn_id).is_ok();
        if !writable || c.writes.len() == 0 {
            self.versions.rollback(txn_id)?;
            return Ok(None);
        }
        match self.versions.detect_conflict(txn_id) {
            Ok(_) => Ok(Some(c)),
            Err(e) => {
                self.versions.rollback(txn_id)?;
                Err(e)
            },
        }
    }

    /// Commits a transaction; the record that it leaves has to be in the log
    /// already.
    pub fn commit(&mut self, txn_id: u64) -> (r: Result<Option<Commit>>)
        requires
            old(self).inv(),
        ensures
            final(self).inv(),
            final(self).pager == old(self).pager,
            final(self).next_auto_checkpoint == old(self).next_auto_checkpoint,
            final(self).options == old(self).options,
            final(self).tree == old(self).tree,
            match r {
                Ok(Some(c)) => old(self).versions@.txns.contains_key(txn_id)
                    && !nothing_to_commit(old(self).versions@, txn_id) && !conflicts(
                    old(self).versions@,
                    txn_id,
                ) && old(self).versions@.next_ts < u64::MAX && c@ == (
                    old(self).versions@.next_ts,
                    old(self).versions@.txns[txn_id].writes,
                ) && final(self).versions@ == committed(old(self).versions@, txn_id),
                Ok(None) => old(self).versions@.txns.contains_key(txn_id) && nothing_to_commit(
                    old(self).versions@,
                    txn_id,
                ) && final(self).versions@ == ended(old(self).versions@, txn_id),
                Err(e) => if !old(self).versions@.txns.contains_key(txn_id) {
                    e == Error::TxnNotFound(txn_id) && final(self).versions@ == old(self).versions@
                } else if conflicts(old(self).versions@, txn_id) {
                    e is Conflict && !nothing_to_commit(old(self).versions@, txn_id)
                        && final(self).versions@ == ended(old(self).versions@, txn_id)
                } else {
                    e is Full && old(self).versions@.next_ts == u64::MAX && final(self).versions@
                        == old(self).versions@
                },
            },
    {
        match self.prepare_commit(txn_id)? {
            Some(_) => Ok(Some(self.versions.commit(txn_id)?)),
            None => Ok(None),
        }
    }
}

/// The transaction has nothing to make durable.
pub open spec fn nothing_to_commit(t: Timeline, id: u64) -> bool {
    t.txns[id].read_only || t.txns[id].writes =~= Map::<Seq<u8>, Says>::empty()
}

/// A transaction less.
pub open spec fn ended(t: Timeline, id: u64) -> Timeline {
    Timeline { txns: t.txns.remove(id), ..t }
}

/// The writes of a transaction become versions of the next time.
pub open spec fn committed(t: Timeline, id: u64) -> Timeline {
    Timeline {
        versions: stamped(t.versions, t.next_ts, t.txns[id].writes),
        txns: t.txns.remove(id),
        next_ts: (t.next_ts + 1) as u64,
        ..t
    }
}

} // verus!

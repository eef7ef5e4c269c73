//! The LSM engine: MemTable rotation, flush, and compaction execution.
//!
//! This is the layer the rest of the database talks to. It owns the active
//! MemTable, the frozen tables awaiting flush, and the [`LevelManifest`]
//! describing what is on disk.
//!
//! # Write path
//!
//! ```text
//!   put(key, value, seqno)
//!        │
//!        ├─ active MemTable insert          (caller has already logged it)
//!        └─ if size >= budget: rotate       (active becomes frozen)
//! ```
//!
//! # Read path
//!
//! Newest-to-oldest: active MemTable, frozen MemTables (newest first), then
//! each level via [`LevelManifest::lookup_order`]. The first **definitive**
//! answer wins; [`Lookup::Deleted`] is definitive, which is what stops a
//! tombstone from being overtaken by a stale value in a lower level.
//!
//! # Durability contract
//!
//! The engine hands out the bytes of every new table together with the grown
//! manifest log. The table goes to stable storage before the log does, so a
//! crash in between leaves an orphaned file rather than a manifest entry that
//! points at a partial table.

use crate::error::Error;
use crate::lsm::bloom::{filter_bytes, BloomFilter};
use crate::lsm::compaction::{consulted, metas, LevelConfig};
use crate::lsm::edit::{edit_bytes, Edit, ManifestEdit, SerializableMeta};
use crate::lsm::entry::fits;
use crate::lsm::levels::{
    added, count_of, lemma_slot_splits, padded, size_of_all, slot_for, with_table, LevelManifest,
};
use crate::lsm::manifest::{frame_of, frames, Manifest, MAX_RECORD_BYTES};
use crate::lsm::memtable::{MemTable, ENTRY_OVERHEAD};
use crate::lsm::merge::{clipped, CompactionStats};
use crate::lsm::sstable::{
    filters, keys_ascend, lemma_not_before, opened, readable, summary, table_bytes, SSTable,
    SSTableWriter, Summary, TableMeta,
};
use crate::lsm::table_laws::{
    law_opened_tables_hold_what_was_written, law_written_tables_can_be_read,
};
use crate::lsm::version::{
    in_order, items, lemma_listed, seen, slot_of, version_lt, versions, InternalKey, Item, Lookup, ValueSlot,
    Version,
};
use vstd::prelude::*;

verus! {

/// Tunables for the LSM engine.
#[derive(Debug, Clone, Copy)]
pub struct LsmOptions {
    /// Rotate the active MemTable once it reaches this many bytes.
    pub memtable_bytes: usize,
    /// Level layout and compaction triggers.
    pub levels: LevelConfig,
}

impl Default for LsmOptions {
    fn default() -> (o: Self)
        ensures
            o.memtable_bytes == 4 * 1024 * 1024,
            o.levels.l0_compaction_trigger == 4,
            o.levels.base_level_bytes == 8 * 1024 * 1024,
            o.levels.size_multiplier == 10,
            o.levels.max_levels == 7,
    {
        LsmOptions { memtable_bytes: 4 * 1024 * 1024, levels: LevelConfig::default() }
    }
}

/// Aggregate engine counters, for metrics and tests.
#[derive(Debug, Clone, Copy, PartialEq, Eq)]
pub struct LsmStats {
    /// Bytes held by the active MemTable.
    pub active_bytes: usize,
    /// MemTables frozen and awaiting flush.
    pub frozen_count: usize,
    /// Live SSTables across all levels.
    pub table_count: usize,
    /// Total bytes across all SSTables.
    pub disk_bytes: u64,
    /// Flushes completed since open.
    pub flushes: u64,
    /// Compactions completed since open.
    pub compactions: u64,
}

/// A table that a flush made.
#[derive(Debug)]
pub struct Flushed {
    /// Its summary.
    pub meta: TableMeta,
    /// Its bytes.
    pub file: Vec<u8>,
}

/// What a compaction did.
#[derive(Debug)]
pub struct Compacted {
    /// The work performed.
    pub stats: CompactionStats,
    /// The table that was written, if any entry was left.
    pub output: Option<Flushed>,
    /// The tables whose files may go.
    pub retired: Vec<u64>,
}

/// The hybrid engine's LSM half.
#[derive(Debug)]
pub struct LsmEngine {
    /// Tunables.
    pub options: LsmOptions,
    /// The MemTable that takes writes.
    pub active: MemTable,
    /// Frozen tables, oldest first; the flush path drains from the front.
    pub frozen: Vec<MemTable>,
    /// The live tables.
    pub manifest: LevelManifest,
    /// Durable record of the level set.
    pub log: Manifest,
    /// Highest sequence number durably reflected in the SSTables.
    pub checkpoint_seqno: u64,
    /// Open tables, one per id.
    pub open_tables: Vec<SSTable>,
    /// Flushes completed since open.
    pub flushes: u64,
    /// Compactions completed since open.
    pub compactions: u64,
}

/// What the first layer says that says anything of a key.
pub open spec fn first_answer(
    layers: Seq<Map<Version, Option<Seq<u8>>>>,
    key: Seq<u8>,
    snapshot: u64,
) -> Option<Option<Seq<u8>>>
    decreases layers.len(),
{
    if layers.len() == 0 {
        None
    } else {
        match seen(layers[0], key, snapshot) {
            Some(a) => Some(a),
            None => first_answer(layers.subrange(1, layers.len() as int), key, snapshot),
        }
    }
}

/// MemTables as layers, last first.
pub open spec fn frozen_layers(v: Seq<MemTable>) -> Seq<Map<Version, Option<Seq<u8>>>>
    decreases v.len(),
{
    if v.len() == 0 {
        Seq::empty()
    } else {
        seq![v.last()@] + frozen_layers(v.drop_last())
    }
}

/// The table of an id is open.
pub open spec fn is_open(tables: Seq<SSTable>, id: u64) -> bool {
    exists|i: int| 0 <= i < tables.len() && (#[trigger] tables[i]).meta.id == id
}

/// Tables as layers, those that are open.
pub open spec fn disk_layers(
    order: Seq<Summary>,
    tables: Seq<SSTable>,
    runs: Map<u64, Seq<Item>>,
) -> Seq<Map<Version, Option<Seq<u8>>>>
    decreases order.len(),
{
    if order.len() == 0 {
        Seq::empty()
    } else {
        let rest = disk_layers(order.subrange(1, order.len() as int), tables, runs);
        if is_open(tables, order[0].id) {
            seq![versions(runs[order[0].id])] + rest
        } else {
            rest
        }
    }
}

/// Each open table holds the run named for its id.
pub open spec fn tables_hold(tables: Seq<SSTable>, runs: Map<u64, Seq<Item>>) -> bool {
    forall|i: int| 0 <= i < tables.len() ==> (#[trigger] tables[i]).holds(runs[tables[i].meta.id])
}

/// Open tables are sound, and their ids are used ones, each once.
pub open spec fn tables_ok(tables: Seq<SSTable>, next: u64) -> bool {
    &&& forall|i: int|
        0 <= i < tables.len() ==> (#[trigger] tables[i]).wf() && tables[i].meta.id < next
    &&& forall|i: int, j: int|
        0 <= i < j < tables.len() ==> (#[trigger] tables[i]).meta.id != (
        #[trigger] tables[j]).meta.id
}

/// The ids of the live tables are used ones.
pub open spec fn ids_below(levels: Seq<Seq<Summary>>, next: u64) -> bool {
    forall|l: int, i: int|
        0 <= l < levels.len() && 0 <= i < levels[l].len() ==> (#[trigger] levels[l][i]).id < next
}

/// An answer as the value of a lookup.
pub open spec fn answer_of(r: Option<Option<Vec<u8>>>) -> Option<Option<Seq<u8>>> {
    match r {
        Some(Some(v)) => Some(Some(v@)),
        Some(None) => Some(None),
        None => None,
    }
}

pub proof fn lemma_answer_step(
    a: Seq<Map<Version, Option<Seq<u8>>>>,
    b: Seq<Map<Version, Option<Seq<u8>>>>,
    key: Seq<u8>,
    snapshot: u64,
)
    ensures
        first_answer(a + b, key, snapshot) == match first_answer(a, key, snapshot) {
            Some(x) => Some(x),
            None => first_answer(b, key, snapshot),
        },
    decreases a.len(),
{
    if a.len() == 0 {
        assert(a + b =~= b);
    } else {
        let rest = a.subrange(1, a.len() as int);
        lemma_answer_step(rest, b, key, snapshot);
        assert((a + b).subrange(1, (a + b).len() as int) =~= rest + b);
        assert((a + b)[0] == a[0]);
    }
}

/// One layer's answer.
fn answer(l: Lookup) -> (r: Option<Option<Vec<u8>>>)
    ensures
        answer_of(r) == l@,
{
    match l {
        Lookup::Found(v) => Some(Some(v)),
        Lookup::Deleted => Some(None),
        Lookup::Absent => None,
    }
}

/// Writes a sorted list of entries as a table.
pub(crate) fn write_table(
    entries: &Vec<(InternalKey, ValueSlot)>,
    expected_keys: usize,
    id: u64,
    level: u32,
) -> (r: (Vec<u8>, TableMeta))
    requires
        in_order(items(entries@)),
    ensures
        exists|f: BloomFilter| #[trigger]
            filters(f, items(entries@)) && r.0@ == table_bytes(items(entries@), filter_bytes(f)),
        keys_ascend(items(entries@)),
        r.1@ == summary(items(entries@), id, level, r.0@.len() as int),
{
    let ghost run = items(entries@);
    let mut w: SSTableWriter = SSTableWriter::create(expected_keys);
    let mut i: usize = 0;
    assert(run.subrange(0, 0) =~= Seq::<Item>::empty());
    while i < entries.len()
        invariant
            i <= entries@.len(),
            run == items(entries@),
            in_order(run),
            w.wf(),
            w@ == run.subrange(0, i as int),
        decreases entries@.len() - i,
    {
        let ghost e = run[i as int];
        proof {
            assert(e == (entries@[i as int].0@, slot_of(entries@[i as int].1)));
            if i > 0 {
                assert(w@.last() == run[i - 1]);
                assert(version_lt(run[i - 1].0, run[i as int].0));
                lemma_not_before(run[i - 1].0.0, e.0.0);
            }
        }
        let done: Result<(), Error> = w.append(&entries[i].0, &entries[i].1);
        assert(done is Ok);
        assert(run.subrange(0, i + 1) =~= run.subrange(0, i as int).push(e));
        i += 1;
    }
    assert(run.subrange(0, i as int) =~= run);
    let ghost f = w.filter();
    let (file, meta): (Vec<u8>, TableMeta) = w.finish(id, level);
    assert(filters(f, run));
    (file, meta)
}

impl LsmEngine {
    /// The parts are sound.
    pub open spec fn wf(&self) -> bool {
        &&& self.active.wf()
        &&& forall|i: int| 0 <= i < self.frozen@.len() ==> (#[trigger] self.frozen@[i]).wf()
        &&& self.manifest.wf()
        &&& self.log.wf()
        &&& tables_ok(self.open_tables@, self.manifest.next_table_id)
        &&& ids_below(self.manifest@, self.manifest.next_table_id)
    }

    /// What is in memory, newest first.
    pub open spec fn memory(&self) -> Seq<Map<Version, Option<Seq<u8>>>> {
        seq![self.active@] + frozen_layers(self.frozen@)
    }

    /// The layers that a lookup consults, in order.
    pub open spec fn layers(&self, runs: Map<u64, Seq<Item>>, key: Seq<u8>) -> Seq<
        Map<Version, Option<Seq<u8>>>,
    > {
        self.memory() + disk_layers(consulted(self.manifest@, key), self.open_tables@, runs)
    }

    /// Highest sequence number durably captured in the SSTables.
    ///
    /// Log records at or below this are already folded into tables and need not
    /// be replayed.
    #[must_use]
    pub fn checkpoint_seqno(&self) -> (n: u64)
        ensures
            n == self.checkpoint_seqno,
    {
        self.checkpoint_seqno
    }

    /// Records that everything up to `seqno` is durable in the tables.
    pub fn set_checkpoint(&mut self, seqno: u64)
        requires
            old(self).wf(),
        ensures
            final(self).wf(),
            if seqno <= old(self).checkpoint_seqno {
                *final(self) == *old(self)
            } else {
                &&& final(self).checkpoint_seqno == seqno
                &&& final(self).log.log@ == old(self).log.log@ + frame_of(Edit::Durable(seqno))
                &&& final(self).log.edits_written == old(self).log.edits_written + 1
                &&& *final(self) == (LsmEngine {
                    log: final(self).log,
                    checkpoint_seqno: seqno,
                    ..*old(self)
                })
            },
    {
        if seqno <= self.checkpoint_seqno {
            return;
        }
        let edit: ManifestEdit = ManifestEdit::Checkpoint { seqno };
        assert(edit_bytes(edit@).len() == 12);
        let done: Result<(), Error> = self.log.append(&edit);
        assert(done is Ok);
        self.checkpoint_seqno = seqno;
    }

    /// The level manifest.
    #[must_use]
    pub fn manifest(&self) -> (m: &LevelManifest)
        ensures
            *m == self.manifest,
    {
        &self.manifest
    }

    /// Current counters.
    #[must_use]
    pub fn stats(&self) -> (s: LsmStats)
        ensures
            s.active_bytes == self.active.size_bytes,
            s.frozen_count == self.frozen@.len(),
            s.table_count == if count_of(self.manifest@) > usize::MAX {
                usize::MAX as int
            } else {
                count_of(self.manifest@) as int
            },
            s.disk_bytes == clipped(size_of_all(self.manifest@)),
            s.flushes == self.flushes,
            s.compactions == self.compactions,
    {
        LsmStats {
            active_bytes: self.active.size_bytes(),
            frozen_count: self.frozen.len(),
            table_count: self.manifest.table_count(),
            disk_bytes: self.manifest.total_bytes(),
            flushes: self.flushes,
            compactions: self.compactions,
        }
    }

    /// Everything but the MemTables is the same.
    pub open spec fn same_tables(&self, other: &LsmEngine) -> bool {
        *self == (LsmEngine { active: self.active, frozen: self.frozen, ..*other })
    }

    /// A write of `v` and `slot` went to the active MemTable, which was frozen
    /// if it reached its budget.
    pub open spec fn wrote(&self, was: &LsmEngine, v: Version, slot: Option<Seq<u8>>) -> bool {
        let m = was.active@.insert(v, slot);
        if self.frozen@.len() == was.frozen@.len() {
            &&& self.frozen == was.frozen
            &&& self.active@ == m
            &&& self.active.size_bytes < self.options.memtable_bytes
        } else {
            &&& self.frozen@.len() == was.frozen@.len() + 1
            &&& self.frozen@.drop_last() == was.frozen@
            &&& self.frozen@.last()@ == m
            &&& self.frozen@.last().size_bytes >= self.options.memtable_bytes
            &&& self.active@ == Map::<Version, Option<Seq<u8>>>::empty()
        }
    }

    /// Records `key = value` at `seqno`, rotating the MemTable when full.
    ///
    /// The caller must already have made the corresponding log record durable.
    pub fn put(&mut self, key: Vec<u8>, value: Vec<u8>, seqno: u64)
        requires
            old(self).wf(),
            old(self).active.size_bytes + key@.len() + value@.len() + ENTRY_OVERHEAD <= usize::MAX,
        ensures
            final(self).wf(),
            final(self).same_tables(old(self)),
            final(self).wrote(old(self), (key@, seqno), Some(value@)),
    {
        self.active.insert(key, value, seqno);
        proof {
            lemma_some_version(self.active, (key@, seqno));
        }
        self.maybe_rotate();
        assert(self.frozen@.len() > old(self).frozen@.len() ==> self.frozen@.drop_last()
            =~= old(self).frozen@);
    }

    /// Records a tombstone for `key` at `seqno`.
    pub fn delete(&mut self, key: Vec<u8>, seqno: u64)
        requires
            old(self).wf(),
            old(self).active.size_bytes + key@.len() + ENTRY_OVERHEAD <= usize::MAX,
        ensures
            final(self).wf(),
            final(self).same_tables(old(self)),
            final(self).wrote(old(self), (key@, seqno), None),
    {
        self.active.delete(key, seqno);
        proof {
            lemma_some_version(self.active, (key@, seqno));
        }
        self.maybe_rotate();
        assert(self.frozen@.len() > old(self).frozen@.len() ==> self.frozen@.drop_last()
            =~= old(self).frozen@);
    }

    /// Freezes the active MemTable when it exceeds its budget.
    fn maybe_rotate(&mut self)
        requires
            old(self).wf(),
            old(self).active.entries@.len() > 0,
        ensures
            final(self).wf(),
            final(self).same_tables(old(self)),
            if old(self).active.size_bytes >= old(self).options.memtable_bytes {
                &&& final(self).frozen@ == old(self).frozen@.push(old(self).active)
                &&& final(self).active@ == Map::<Version, Option<Seq<u8>>>::empty()
            } else {
                *final(self) == *old(self)
            },
    {
        if self.active.size_bytes() >= self.options.memtable_bytes {
            self.rotate();
        }
    }

    /// Freezes the active MemTable unconditionally, if it holds anything.
    pub fn rotate(&mut self)
        requires
            old(self).wf(),
        ensures
            final(self).wf(),
            final(self).same_tables(old(self)),
            if old(self).active.entries@.len() == 0 {
                *final(self) == *old(self)
            } else {
                &&& final(self).frozen@ == old(self).frozen@.push(old(self).active)
                &&& final(self).active@ == Map::<Version, Option<Seq<u8>>>::empty()
            },
    {
        if self.active.is_empty() {
            return;
        }
        let mut table: MemTable = MemTable::new();
        std::mem::swap(&mut table, &mut self.active);
        self.frozen.push(table);
    }

    /// True when a flush would do work.
    #[must_use]
    pub fn needs_flush(&self) -> (r: bool)
        ensures
            r == (self.frozen@.len() > 0),
    {
        self.frozen.len() > 0
    }

    /// The place of the open table of an id.
    pub(crate) fn find_open(&self, id: u64) -> (r: Option<usize>)
        ensures
            match r {
                Some(i) => i < self.open_tables@.len() && self.open_tables@[i as int].meta.id == id,
                None => !is_open(self.open_tables@, id),
            },
    {
        let mut i: usize = 0;
        while i < self.open_tables.len()
            invariant
                i <= self.open_tables@.len(),
                forall|k: int|
                    0 <= k < i ==> (#[trigger] self.open_tables@[k]).meta.id != id,
            decreases self.open_tables@.len() - i,
        {
            if self.open_tables[i].meta.id == id {
                return Some(i);
            }
            i += 1;
        }
        None
    }

    /// Reads `key` as visible to `snapshot`.
    ///
    /// Returns `Ok(None)` when the LSM has no opinion — the caller should then
    /// consult the B+Tree. A visible tombstone returns `Ok(Some(None))`, which
    /// means "definitively deleted; do not fall through".
    pub fn get(&self, key: &[u8], snapshot: u64) -> (r: Result<Option<Option<Vec<u8>>>, Error>)
        requires
            self.wf(),
        ensures
            r is Err ==> r->Err_0 is Corruption,
            first_answer(self.memory(), key@, snapshot) is Some ==> r is Ok && answer_of(r->Ok_0)
                == first_answer(self.memory(), key@, snapshot),
            forall|runs: Map<u64, Seq<Item>>| #[trigger]
                tables_hold(self.open_tables@, runs) ==> r is Ok && answer_of(r->Ok_0)
                    == first_answer(self.layers(runs, key@), key@, snapshot),
    {
        let ghost mem = self.memory();
        proof {
            assert forall|runs: Map<u64, Seq<Item>>| #[trigger]
                tables_hold(self.open_tables@, runs) implies first_answer(
                self.layers(runs, key@),
                key@,
                snapshot,
            ) == match first_answer(mem, key@, snapshot) {
                Some(x) => Some(x),
                None => first_answer(
                    disk_layers(consulted(self.manifest@, key@), self.open_tables@, runs),
                    key@,
                    snapshot,
                ),
            } by {
                lemma_answer_step(
                    mem,
                    disk_layers(consulted(self.manifest@, key@), self.open_tables@, runs),
                    key@,
                    snapshot,
                );
            }
        }
        let found: Option<Option<Vec<u8>>> = self.get_from_memory(key, snapshot);
        if found.is_some() {
            return Ok(found);
        }
        let order: Vec<TableMeta> = self.manifest.lookup_order(key);
        let ghost all = metas(order@);
        let mut i: usize = 0;
        assert(all.subrange(0, all.len() as int) =~= all);
        while i < order.len()
            invariant
                i <= order@.len(),
                all == metas(order@),
                all == consulted(self.manifest@, key@),
                self.wf(),
                first_answer(self.memory(), key@, snapshot) is None,
                forall|runs: Map<u64, Seq<Item>>| #[trigger]
                    tables_hold(self.open_tables@, runs) ==> first_answer(
                        self.layers(runs, key@),
                        key@,
                        snapshot,
                    ) == first_answer(
                        disk_layers(
                            all.subrange(i as int, all.len() as int),
                            self.open_tables@,
                            runs,
                        ),
                        key@,
                        snapshot,
                    ),
            decreases order@.len() - i,
        {
            let ghost rest = all.subrange(i as int, all.len() as int);
            let ghost next = all.subrange(i + 1, all.len() as int);
            proof {
                assert(rest[0] == order@[i as int]@);
                assert(rest.subrange(1, rest.len() as int) =~= next);
            }
            match self.find_open(order[i].id) {
                Some(p) => {
                    let got: Result<Lookup, Error> = self.open_tables[p].get(key, snapshot);
                    proof {
                        assert forall|runs: Map<u64, Seq<Item>>| #[trigger]
                            tables_hold(self.open_tables@, runs) implies {
                            let l = versions(runs[rest[0].id]);
                            let more = disk_layers(next, self.open_tables@, runs);
                            &&& got is Ok
                            &&& got->Ok_0@ == seen(l, key@, snapshot)
                            &&& first_answer(self.layers(runs, key@), key@, snapshot) == match seen(
                                l,
                                key@,
                                snapshot,
                            ) {
                                Some(x) => Some(x),
                                None => first_answer(more, key@, snapshot),
                            }
                        } by {
                            assert(self.open_tables@[p as int].holds(
                                runs[self.open_tables@[p as int].meta.id],
                            ));
                            let l = versions(runs[rest[0].id]);
                            let more = disk_layers(next, self.open_tables@, runs);
                            assert(is_open(self.open_tables@, rest[0].id));
                            assert((seq![l] + more).subrange(1, (seq![l] + more).len() as int)
                                =~= more);
                        }
                    }
                    match got {
                        Err(e) => {
                            proof {
                                assert forall|runs: Map<u64, Seq<Item>>| !(#[trigger] tables_hold(
                                    self.open_tables@,
                                    runs,
                                )) by {
                                    if tables_hold(self.open_tables@, runs) {
                                        assert(self.open_tables@[p as int].holds(
                                            runs[self.open_tables@[p as int].meta.id],
                                        ));
                                    }
                                }
                            }
                            return Err(e);
                        },
                        Ok(l) => {
                            let a: Option<Option<Vec<u8>>> = answer(l);
                            if a.is_some() {
                                return Ok(a);
                            }
                        },
                    }
                },
                None => {},
            }
            i += 1;
        }
        Ok(None)
    }

    /// Reads `key` from the MemTables, newest first.
    fn get_from_memory(&self, key: &[u8], snapshot: u64) -> (r: Option<Option<Vec<u8>>>)
        requires
            self.wf(),
        ensures
            answer_of(r) == first_answer(self.memory(), key@, snapshot),
            r is Some <==> answer_of(r) is Some,
    {
        let ghost mem = self.memory();
        let ghost rest = frozen_layers(self.frozen@);
        assert(mem.subrange(1, mem.len() as int) =~= rest);
        let a: Option<Option<Vec<u8>>> = answer(self.active.get(key, snapshot));
        if a.is_some() {
            return a;
        }
        let mut i: usize = self.frozen.len();
        assert(self.frozen@.subrange(0, i as int) =~= self.frozen@);
        while i > 0
            invariant
                i <= self.frozen@.len(),
                self.wf(),
                mem == self.memory(),
                first_answer(mem, key@, snapshot) == first_answer(
                    frozen_layers(self.frozen@.subrange(0, i as int)),
                    key@,
                    snapshot,
                ),
            decreases i,
        {
            i -= 1;
            proof {
                let v = self.frozen@.subrange(0, i + 1);
                assert(v.drop_last() =~= self.frozen@.subrange(0, i as int));
                assert(v.last() == self.frozen@[i as int]);
                let l = frozen_layers(v);
                assert(l.subrange(1, l.len() as int) =~= frozen_layers(v.drop_last()));
            }
            let b: Option<Option<Vec<u8>>> = answer(self.frozen[i].get(key, snapshot));
            if b.is_some() {
                return b;
            }
        }
        None
    }
}

/// The highest sequence number of a MemTable; nothing if it is empty.
pub open spec fn top_seqno(t: MemTable) -> u64 {
    if t.entries@.len() == 0 {
        0
    } else {
        t.max_seqno
    }
}

/// The file of a table that holds a list.
pub open spec fn is_file_of(file: Seq<u8>, run: Seq<Item>) -> bool {
    exists|f: BloomFilter| #[trigger]
        filters(f, run) && file == table_bytes(run, filter_bytes(f))
}

/// All entries are small enough to be read back.
pub open spec fn all_fit(run: Seq<Item>) -> bool {
    forall|i: int| 0 <= i < run.len() ==> fits(#[trigger] run[i])
}

/// What the log gains when a table is flushed.
pub open spec fn flush_edits(m: Summary, top: u64, checkpoint: u64) -> Seq<u8> {
    frame_of(Edit::Add(m)) + if top > checkpoint {
        frame_of(Edit::Durable(top))
    } else {
        Seq::empty()
    }
}

/// A file that was written and opened holds what was written.
pub(crate) proof fn lemma_opened_file(file: Seq<u8>, run: Seq<Item>, id: u64, level: u32, t: SSTable)
    requires
        is_file_of(file, run),
        file.len() <= usize::MAX,
        in_order(run),
        all_fit(run),
        opened(file, id, level, t),
    ensures
        t.holds(run),
{
    let f = choose|f: BloomFilter| #[trigger]
        filters(f, run) && file == table_bytes(run, filter_bytes(f));
    law_opened_tables_hold_what_was_written(run, f, id, level, t);
}

pub(crate) proof fn lemma_written_file(file: Seq<u8>, run: Seq<Item>)
    requires
        is_file_of(file, run),
        file.len() <= usize::MAX,
        keys_ascend(run),
        all_fit(run),
    ensures
        readable(file),
{
    let f = choose|f: BloomFilter| #[trigger]
        filters(f, run) && file == table_bytes(run, filter_bytes(f));
    law_written_tables_can_be_read(run, f);
}

/// A table with a used id keeps the ids used ones.
pub(crate) proof fn lemma_ids_added(levels: Seq<Seq<Summary>>, t: Summary, next: u64)
    requires
        ids_below(levels, next),
        t.id < next,
    ensures
        ids_below(added(levels, t), next),
{
    let p = padded(levels, t.level + 1);
    let now = added(levels, t);
    let v = p[t.level as int];
    lemma_slot_splits(v, t.min_key);
    assert forall|l: int, i: int|
        0 <= l < now.len() && 0 <= i < now[l].len() implies (#[trigger] now[l][i]).id < next by {
        if l != t.level {
            assert(now[l] == p[l]);
            if l < levels.len() {
                assert(p[l] == levels[l]);
                assert(levels[l][i].id < next);
            }
        } else {
            let w = with_table(v, t);
            assert(now[l] == w);
            let at = if t.level == 0 {
                v.len() as int
            } else {
                slot_for(v, t.min_key) as int
            };
            if i == at {
                assert(w[i] == t);
            } else {
                let k = if i < at {
                    i
                } else {
                    i - 1
                };
                assert(w[i] == v[k]);
                assert(l < levels.len());
                assert(levels[l][k].id < next);
            }
        }
    }
}

/// What a flush leaves alone, whether it succeeds or not: it takes the oldest
/// frozen MemTable and an id.
pub open spec fn takes_oldest(was: LsmEngine, now: LsmEngine) -> bool {
    &&& was.frozen@.len() > 0
    &&& now.frozen@ == was.frozen@.subrange(1, was.frozen@.len() as int)
    &&& now.active == was.active
    &&& now.options == was.options
    &&& now.compactions == was.compactions
    &&& now.manifest.next_table_id == was.manifest.next_table_id + 1
    &&& now.manifest.config == was.manifest.config
}

/// The oldest frozen MemTable becomes a table of L0: its file holds the
/// entries, it is live and open, and the log says so.
#[verifier::opaque]
pub open spec fn flushes_to(was: LsmEngine, now: LsmEngine, t: Flushed) -> bool {
    let mem = was.frozen@[0];
    let run = items(mem.entries@);
    let id = was.manifest.next_table_id;
    let top = top_seqno(mem);
    &&& takes_oldest(was, now)
    &&& is_file_of(t.file@, run)
    &&& t.meta@ == summary(run, id, 0, t.file@.len() as int)
    &&& frames(Edit::Add(t.meta@))
    &&& now.manifest@ == added(was.manifest@, t.meta@)
    &&& now.open_tables@.drop_last() == was.open_tables@
    &&& now.open_tables@.len() == was.open_tables@.len() + 1
    &&& opened(t.file@, id, 0, now.open_tables@.last())
    &&& all_fit(run) ==> now.open_tables@.last().holds(run)
    &&& now.log.log@ == was.log.log@ + flush_edits(t.meta@, top, was.checkpoint_seqno)
    &&& now.checkpoint_seqno == if top > was.checkpoint_seqno {
        top
    } else {
        was.checkpoint_seqno
    }
    &&& now.flushes == clipped(was.flushes + 1)
}

/// The oldest frozen MemTable cannot become a table: its key range is too large
/// for the log, or an entry is too large to be read back, which shows once the
/// log has the table.
#[verifier::opaque]
pub open spec fn flush_fails(was: LsmEngine, now: LsmEngine, e: Error) -> bool {
    let run = items(was.frozen@[0].entries@);
    &&& takes_oldest(was, now)
    &&& e is Full || e is Corruption
    &&& e is Corruption ==> !all_fit(run)
    &&& e is Full ==> !summary_fits(run) && now.log == was.log
    &&& e is Corruption ==> exists|size: int|
        now.log.log@ == was.log.log@ + frame_of(
            Edit::Add(#[trigger] summary(run, was.manifest.next_table_id, 0, size)),
        )
    &&& now.manifest@ == was.manifest@
    &&& now.open_tables == was.open_tables
    &&& now.checkpoint_seqno == was.checkpoint_seqno
    &&& now.flushes == was.flushes
}

/// Flushes, one after the other.
#[verifier::opaque]
pub open spec fn flushed_in_turn(was: LsmEngine, now: LsmEngine, ts: Seq<Flushed>) -> bool
    decreases ts.len(),
{
    if ts.len() == 0 {
        now == was
    } else {
        exists|mid: LsmEngine|
            flushed_in_turn(was, mid, ts.drop_last()) && #[trigger] flushes_to(
                mid,
                now,
                ts.last(),
            )
    }
}

/// One more flush.
proof fn lemma_flushed_next(
    was: LsmEngine,
    mid: LsmEngine,
    now: LsmEngine,
    ts: Seq<Flushed>,
    t: Flushed,
)
    requires
        flushed_in_turn(was, mid, ts),
        flushes_to(mid, now, t),
    ensures
        flushed_in_turn(was, now, ts.push(t)),
{
    let more = ts.push(t);
    assert(more.drop_last() =~= ts);
    assert(more.last() == t);
    reveal_with_fuel(flushed_in_turn, 2);
    assert(flushes_to(mid, now, more.last()));
}

impl LsmEngine {
    /// Flushes the oldest frozen MemTable into a new L0 SSTable.
    ///
    /// Ordering: the table's bytes go to stable storage, **then** the manifest
    /// log does. A crash between the two leaves an orphaned file that the next
    /// open reclaims; it can never leave a manifest entry pointing at a partial
    /// table.
    #[verifier::rlimit(80)]
    #[verifier::spinoff_prover]
    pub fn flush_one(&mut self) -> (r: Result<Option<Flushed>, Error>)
        requires
            old(self).wf(),
            old(self).manifest.next_table_id < u64::MAX,
        ensures
            final(self).wf(),
            old(self).frozen@.len() == 0 ==> *final(self) == *old(self) && r is Ok && r->Ok_0
                is None,
            old(self).frozen@.len() > 0 ==> match r {
                Ok(Some(t)) => flushes_to(*old(self), *final(self), t),
                Ok(None) => false,
                Err(e) => flush_fails(*old(self), *final(self), e),
            },
    {
        reveal(flushes_to);
        reveal(flush_fails);
        if self.frozen.len() == 0 {
            return Ok(None);
        }
        let mem: MemTable = self.frozen.remove(0);
        assert(self.frozen@ =~= old(self).frozen@.subrange(1, old(self).frozen@.len() as int));
        let ghost run = items(mem.entries@);
        let top: u64 = if mem.is_empty() {
            0
        } else {
            mem.max_seqno
        };
        let id: u64 = self.manifest.allocate_table_id();
        assert(ids_below(self.manifest@, id));
        let (file, meta): (Vec<u8>, TableMeta) = write_table(
            &mem.entries,
            mem.distinct_key_count(),
            id,
            0,
        );
        let n: usize = file.len();
        let edit: ManifestEdit = ManifestEdit::AddTable { meta: SerializableMeta::from_meta(&meta) };
        proof {
            lemma_meta_len(meta@);
        }
        match self.log.append(&edit) {
            Ok(_) => {},
            Err(e) => return Err(e),
        }
        let table: SSTable = match SSTable::open(file.as_slice(), id, 0) {
            Ok(t) => t,
            Err(e) => {
                proof {
                    if all_fit(run) {
                        lemma_written_file(file@, run);
                    }
                    assert(meta@ == summary(run, id, 0, file@.len() as int));
                }
                return Err(e);
            },
        };
        proof {
            if all_fit(run) {
                lemma_opened_file(file@, run, id, 0, table);
            }
            lemma_ids_added(self.manifest@, meta@, (id + 1) as u64);
        }
        let ghost base = self.log.log@;
        self.open_tables.push(table);
        assert(self.open_tables@.drop_last() =~= old(self).open_tables@);
        self.manifest.add_table(meta.copy());
        self.flushes = self.flushes.saturating_add(1);
        assert(tables_ok(self.open_tables@, self.manifest.next_table_id)) by {
            assert forall|i: int| 0 <= i < self.open_tables@.len() implies (
            #[trigger] self.open_tables@[i]).wf() && self.open_tables@[i].meta.id
                < self.manifest.next_table_id by {
                if i < old(self).open_tables@.len() {
                    assert(self.open_tables@[i] == old(self).open_tables@[i]);
                }
            }
            assert forall|i: int, j: int| 0 <= i < j < self.open_tables@.len() implies (
            #[trigger] self.open_tables@[i]).meta.id != (
            #[trigger] self.open_tables@[j]).meta.id by {
                assert(self.open_tables@[i] == old(self).open_tables@[i]);
                if j < old(self).open_tables@.len() {
                    assert(self.open_tables@[j] == old(self).open_tables@[j]);
                }
            }
        }
        if top > self.checkpoint_seqno {
            self.set_checkpoint(top);
        }
        assert(self.log.log@ =~= old(self).log.log@ + flush_edits(
            meta@,
            top,
            old(self).checkpoint_seqno,
        ));
        Ok(Some(Flushed { meta, file }))
    }

    /// Flushes the oldest frozen MemTable, of which there is one.
    fn flush_next(&mut self) -> (r: Result<Flushed, Error>)
        requires
            old(self).wf(),
            old(self).frozen@.len() > 0,
            old(self).manifest.next_table_id < u64::MAX,
        ensures
            final(self).wf(),
            takes_oldest(*old(self), *final(self)),
            match r {
                Ok(t) => flushes_to(*old(self), *final(self), t),
                Err(e) => flush_fails(*old(self), *final(self), e) && !flushable(
                    old(self).frozen@[0],
                ),
            },
    {
        let r: Result<Option<Flushed>, Error> = self.flush_one();
        reveal(flushes_to);
        reveal(flush_fails);
        match r {
            Ok(Some(t)) => Ok(t),
            Ok(None) => Err(Error::NotFound),
            Err(e) => Err(e),
        }
    }

    /// Flushes every pending MemTable, oldest first.
    pub fn flush_all(&mut self) -> (r: Result<Vec<Flushed>, Error>)
        requires
            old(self).wf(),
            old(self).manifest.next_table_id + old(self).frozen@.len() < u64::MAX,
        ensures
            final(self).wf(),
            match r {
                Ok(v) => {
                    &&& flushed_in_turn(*old(self), *final(self), v@)
                    &&& v@.len() == old(self).frozen@.len()
                    &&& final(self).frozen@.len() == 0
                },
                Err(e) => exists|mid: LsmEngine, ts: Seq<Flushed>| #[trigger]
                    flushed_in_turn(*old(self), mid, ts) && flush_fails(mid, *final(self), e),
            },
            (forall|i: int|
                0 <= i < old(self).frozen@.len() ==> flushable(#[trigger] old(self).frozen@[i]))
                ==> r is Ok,
    {
        let ghost all = self.frozen@;
        let ghost good = forall|i: int| 0 <= i < all.len() ==> flushable(#[trigger] all[i]);
        let mut out: Vec<Flushed> = Vec::new();
        assert(all.subrange(0, all.len() as int) =~= all);
        assert(flushed_in_turn(*old(self), *self, out@)) by {
            reveal(flushed_in_turn);
        }
        while self.frozen.len() > 0
            invariant
                self.wf(),
                flushed_in_turn(*old(self), *self, out@),
                all == old(self).frozen@,
                good == forall|i: int| 0 <= i < all.len() ==> flushable(#[trigger] all[i]),
                out@.len() + self.frozen@.len() == all.len(),
                self.frozen@ == all.subrange(out@.len() as int, all.len() as int),
                self.manifest.next_table_id + self.frozen@.len() < u64::MAX,
            decreases self.frozen@.len(),
        {
            let ghost k = out@.len() as int;
            let ghost mid = *self;
            let ghost done = out@;
            proof {
                assert(self.frozen@[0] == all[k]);
                if good {
                    assert(flushable(all[k]));
                }
            }
            match self.flush_next() {
                Ok(t) => {
                    out.push(t);
                    proof {
                        assert(mid.frozen@.subrange(1, mid.frozen@.len() as int) =~= all.subrange(
                            k + 1,
                            all.len() as int,
                        ));
                        lemma_flushed_next(*old(self), mid, *self, done, t);
                    }
                },
                Err(e) => {
                    assert(flushed_in_turn(*old(self), mid, done));
                    return Err(e);
                },
            }
        }
        Ok(out)
    }
}

/// A MemTable that can be flushed: its entries can be read back, and its
/// summary goes into a frame of the log.
pub open spec fn flushable(t: MemTable) -> bool {
    all_fit(items(t.entries@)) && summary_fits(items(t.entries@))
}

/// The smallest and the largest key of a list go into a frame of the log.
pub open spec fn summary_fits(run: Seq<Item>) -> bool {
    let m = summary(run, 0, 0, 0);
    m.min_key.len() + m.max_key.len() + 64 <= MAX_RECORD_BYTES
}

/// The length of an edit that adds a table depends on its keys alone.
pub(crate) proof fn lemma_meta_len(m: Summary)
    ensures
        edit_bytes(Edit::Add(m)).len() == 64 + m.min_key.len() + m.max_key.len(),
{
}

/// A MemTable that has a version has an entry.
proof fn lemma_some_version(t: MemTable, v: Version)
    requires
        t@.contains_key(v),
    ensures
        t.entries@.len() > 0,
{
    let i = lemma_listed(items(t.entries@), v);
}

} // verus!

//! Carrying out a compaction.

use crate::error::Error;
use crate::lsm::compaction::{copy_metas, is_due, meeting, metas, CompactionJob, Score};
use crate::lsm::edit::{edit_bytes, Edit, ManifestEdit, SerializableMeta};
use crate::lsm::engine::{
    all_fit, ids_below, is_file_of, is_open, lemma_ids_added, lemma_meta_len, lemma_written_file,
    summary_fits, tables_ok, write_table, Compacted, Flushed, LsmEngine,
};
use crate::lsm::entry::{entry_at, fits, stored};
use crate::lsm::layout::lemma_kept;
use crate::lsm::levels::{
    all_added, all_removed, drained, greatest_key, id_after, largest, least_key, most_urgent,
    removed, retired,
};
use crate::lsm::manifest::{frame_of, frames, Manifest, COMPACT_AFTER_EDITS};
use crate::lsm::merge::{
    clipped, joined, merge_runs, merged, payload, run_items, surviving, CompactionStats,
};
use crate::lsm::sstable::{opened, summary, SSTable, Summary, TableMeta};
use crate::lsm::version::{
    in_order, items, lemma_versions, versions, InternalKey, Item, ValueSlot, Version,
};
use vstd::prelude::*;

verus! {

/// The open table of an id.
pub open spec fn table_of(tables: Seq<SSTable>, id: u64) -> SSTable {
    tables[choose|i: int| 0 <= i < tables.len() && (#[trigger] tables[i]).meta.id == id]
}

/// What the open tables of a list hold, in order; none if one of them cannot be
/// read. Tables that are not open are left out.
pub open spec fn inputs(order: Seq<Summary>, tables: Seq<SSTable>) -> Option<Seq<Seq<Item>>>
    decreases order.len(),
{
    if order.len() == 0 {
        Some(Seq::empty())
    } else {
        let id = order.last().id;
        match inputs(order.drop_last(), tables) {
            None => None,
            Some(v) => if is_open(tables, id) {
                match stored(table_of(tables, id).data@, 0) {
                    Some(run) => Some(v.push(run)),
                    None => None,
                }
            } else {
                Some(v)
            },
        }
    }
}

/// The inputs of a merge, newest first: the source level's tables, the newest of
/// which is last, then the target level's.
pub open spec fn merge_order(source: Seq<Summary>, target: Seq<Summary>) -> Seq<Summary> {
    source.reverse() + target
}

/// The ids of a list of tables.
pub open spec fn ids_of(v: Seq<Summary>) -> Seq<u64> {
    Seq::new(v.len(), |i: int| v[i].id)
}

/// The frames that remove the tables of a list.
pub open spec fn removals(v: Seq<Summary>) -> Seq<u8>
    decreases v.len(),
{
    if v.len() == 0 {
        Seq::empty()
    } else {
        removals(v.drop_last()) + frame_of(Edit::Remove(v.last().level, v.last().id))
    }
}

/// The tables of all levels, one level behind the other.
pub open spec fn all_tables(levels: Seq<Seq<Summary>>) -> Seq<Summary>
    decreases levels.len(),
{
    if levels.len() == 0 {
        Seq::empty()
    } else {
        all_tables(levels.drop_last()) + levels.last()
    }
}

/// The log that says what the live tables are.
pub open spec fn snapshot_log(tables: Seq<Summary>, next: u64, checkpoint: u64) -> Seq<u8> {
    frame_of(Edit::Snapshot(tables, next)) + if checkpoint > 0 {
        frame_of(Edit::Durable(checkpoint))
    } else {
        Seq::empty()
    }
}

/// The outputs of a compaction.
pub open spec fn outputs_of(o: Option<Flushed>) -> Seq<Summary> {
    match o {
        Some(t) => seq![t.meta@],
        None => Seq::empty(),
    }
}

/// The frame that adds the output.
pub open spec fn additions(o: Option<Flushed>) -> Seq<u8> {
    match o {
        Some(t) => frame_of(Edit::Add(t.meta@)),
        None => Seq::empty(),
    }
}

/// The output holds what survives of the inputs, as a table of the level with
/// the next id; there is none if nothing survives.
pub open spec fn is_output(
    o: Option<Flushed>,
    kept: Map<Version, Option<Seq<u8>>>,
    id: u64,
    level: u32,
) -> bool {
    match o {
        Some(t) => exists|run: Seq<Item>| #[trigger]
            in_order(run) && versions(run) == kept && run.len() > 0 && is_file_of(t.file@, run)
                && t.meta@ == summary(run, id, level, t.file@.len() as int),
        None => kept == Map::<Version, Option<Seq<u8>>>::empty(),
    }
}

/// The open tables after a compaction: the inputs are gone, and the output is
/// there.
pub open spec fn swapped(
    before: Seq<SSTable>,
    after: Seq<SSTable>,
    gone: Seq<u64>,
    o: Option<Flushed>,
    level: u32,
) -> bool {
    match o {
        Some(t) => exists|new: SSTable| #[trigger]
            opened(t.file@, t.meta.id, level, new) && forall|x: SSTable| #[trigger]
                after.contains(x) <==> (before.contains(x) && !gone.contains(x.meta.id)) || x
                    == new,
        None => forall|x: SSTable| #[trigger]
            after.contains(x) <==> before.contains(x) && !gone.contains(x.meta.id),
    }
}

/// What a merge did, in numbers.
pub open spec fn counts(
    s: CompactionStats,
    ins: Seq<Seq<Item>>,
    o: Option<Flushed>,
) -> bool {
    &&& s.input_tables == ins.len()
    &&& s.entries_in == joined(ins).len()
    &&& s.entries_out == match o {
        Some(t) => t.meta.entry_count,
        None => 0,
    }
    &&& s.versions_dropped + s.tombstones_dropped + s.entries_out == s.entries_in
    &&& s.bytes_in == clipped(payload(joined(ins)) as int)
}

impl LsmEngine {
    /// What the open tables of a list hold.
    fn collect_runs(&self, order: &Vec<TableMeta>) -> (r: Result<
        Vec<Vec<(InternalKey, ValueSlot)>>,
        Error,
    >)
        requires
            self.wf(),
        ensures
            match r {
                Ok(v) => inputs(metas(order@), self.open_tables@) == Some(run_items(v@)),
                Err(e) => e is Corruption && inputs(metas(order@), self.open_tables@) is None,
            },
    {
        let ghost all = metas(order@);
        let ghost tables = self.open_tables@;
        let mut runs: Vec<Vec<(InternalKey, ValueSlot)>> = Vec::new();
        let mut i: usize = 0;
        assert(run_items(runs@) =~= Seq::<Seq<Item>>::empty());
        assert(all.subrange(0, 0) =~= Seq::<Summary>::empty());
        while i < order.len()
            invariant
                i <= order@.len(),
                all == metas(order@),
                tables == self.open_tables@,
                self.wf(),
                inputs(all.subrange(0, i as int), tables) == Some(run_items(runs@)),
            decreases order@.len() - i,
        {
            let ghost was = run_items(runs@);
            let ghost more = all.subrange(0, i + 1);
            proof {
                assert(more.drop_last() =~= all.subrange(0, i as int));
                assert(more.last() == order@[i as int]@);
            }
            match self.find_open(order[i].id) {
                Some(p) => {
                    proof {
                        let id = order@[i as int].id;
                        assert(tables[p as int].meta.id == id);
                        let q = choose|q: int|
                            0 <= q < tables.len() && (#[trigger] tables[q]).meta.id == id;
                        assert(p == q);
                    }
                    match self.open_tables[p].entries() {
                        Ok(v) => {
                            runs.push(v);
                            assert(run_items(runs@) =~= was.push(items(v@)));
                        },
                        Err(e) => {
                            proof {
                                lemma_inputs_prefix(all, tables, i + 1);
                            }
                            return Err(e);
                        },
                    }
                },
                None => {},
            }
            i += 1;
        }
        assert(all.subrange(0, i as int) =~= all);
        Ok(runs)
    }

    /// Closes the table of an id, if it is open.
    pub(crate) fn close(&mut self, id: u64)
        requires
            tables_ok(old(self).open_tables@, old(self).manifest.next_table_id),
        ensures
            *final(self) == (LsmEngine { open_tables: final(self).open_tables, ..*old(self) }),
            tables_ok(final(self).open_tables@, final(self).manifest.next_table_id),
            forall|x: SSTable| #[trigger]
                final(self).open_tables@.contains(x) <==> old(self).open_tables@.contains(x)
                    && x.meta.id != id,
    {
        let ghost was = self.open_tables@;
        match self.find_open(id) {
            Some(p) => {
                let _gone: SSTable = self.open_tables.remove(p);
                proof {
                    lemma_closed(was, p as int, self.manifest.next_table_id);
                }
            },
            None => {
                assert forall|x: SSTable| #[trigger] was.contains(x) implies x.meta.id != id by {
                    let i = choose|i: int| 0 <= i < was.len() && was[i] == x;
                    assert(was[i].meta.id != id);
                }
            },
        }
    }

    /// Closes the tables of a list, and notes their ids.
    fn close_all(&mut self, tables: &Vec<TableMeta>) -> (ids: Vec<u64>)
        requires
            tables_ok(old(self).open_tables@, old(self).manifest.next_table_id),
        ensures
            *final(self) == (LsmEngine { open_tables: final(self).open_tables, ..*old(self) }),
            tables_ok(final(self).open_tables@, final(self).manifest.next_table_id),
            ids@ == ids_of(metas(tables@)),
            forall|x: SSTable| #[trigger]
                final(self).open_tables@.contains(x) <==> old(self).open_tables@.contains(x)
                    && !ids@.contains(x.meta.id),
    {
        let ghost all = ids_of(metas(tables@));
        let mut ids: Vec<u64> = Vec::new();
        let mut i: usize = 0;
        while i < tables.len()
            invariant
                i <= tables@.len(),
                all == ids_of(metas(tables@)),
                *self == (LsmEngine { open_tables: self.open_tables, ..*old(self) }),
                tables_ok(self.open_tables@, self.manifest.next_table_id),
                ids@ == all.subrange(0, i as int),
                forall|x: SSTable| #[trigger]
                    self.open_tables@.contains(x) <==> old(self).open_tables@.contains(x)
                        && !ids@.contains(x.meta.id),
            decreases tables@.len() - i,
        {
            let id: u64 = tables[i].id;
            let ghost was = ids@;
            self.close(id);
            ids.push(id);
            proof {
                assert(all[i as int] == id);
                assert(ids@ =~= all.subrange(0, i + 1));
                assert forall|k: u64| #[trigger] ids@.contains(k) == (was.contains(k) || k
                    == id) by {
                    if was.contains(k) {
                        let j = choose|j: int| 0 <= j < was.len() && was[j] == k;
                        assert(ids@[j] == k);
                    }
                    assert(ids@[was.len() as int] == id);
                    if ids@.contains(k) {
                        let j = choose|j: int| 0 <= j < ids@.len() && ids@[j] == k;
                        if j < was.len() {
                            assert(was[j] == k);
                        }
                    }
                }
            }
            i += 1;
        }
        assert(ids@ =~= all);
        ids
    }

    /// Logs that the tables of a list are retired.
    fn log_removals(&mut self, tables: &Vec<TableMeta>)
        requires
            old(self).log.wf(),
        ensures
            *final(self) == (LsmEngine { log: final(self).log, ..*old(self) }),
            final(self).log.wf(),
            final(self).log.log@ == old(self).log.log@ + removals(metas(tables@)),
            final(self).log.edits_written == old(self).log.edits_written + tables@.len(),
    {
        let ghost all = metas(tables@);
        let ghost base = self.log.log@;
        let mut i: usize = 0;
        assert(all.subrange(0, 0) =~= Seq::<Summary>::empty());
        assert(base + removals(all.subrange(0, 0)) =~= base);
        while i < tables.len()
            invariant
                i <= tables@.len(),
                all == metas(tables@),
                base == old(self).log.log@,
                *self == (LsmEngine { log: self.log, ..*old(self) }),
                self.log.wf(),
                self.log.log@ == base + removals(all.subrange(0, i as int)),
                self.log.edits_written == old(self).log.edits_written + i,
            decreases tables@.len() - i,
        {
            let edit: ManifestEdit = ManifestEdit::RemoveTable {
                level: tables[i].level,
                id: tables[i].id,
            };
            assert(edit_bytes(edit@).len() == 16);
            let ghost was = self.log.log@;
            let done: Result<(), Error> = self.log.append(&edit);
            proof {
                assert(done is Ok);
                let more = all.subrange(0, i + 1);
                assert(more.drop_last() =~= all.subrange(0, i as int));
                assert(more.last() == tables@[i as int]@);
                assert(self.log.log@ =~= base + removals(more));
            }
            i += 1;
        }
        assert(all.subrange(0, i as int) =~= all);
    }

    /// Rewrites the manifest log as a snapshot once it has grown large.
    ///
    /// Without this the log grows without bound and startup replay slows down
    /// forever, which is the classic LSM manifest failure mode.
    fn maybe_compact_manifest(&mut self) -> (r: Result<(), Error>)
        requires
            old(self).wf(),
        ensures
            final(self).wf(),
            *final(self) == (LsmEngine { log: final(self).log, ..*old(self) }),
            ({
                let live = all_tables(old(self).manifest@);
                let next = old(self).manifest.next_table_id;
                let due = old(self).log.edits_written >= COMPACT_AFTER_EDITS;
                match r {
                    Ok(_) => (due ==> frames(Edit::Snapshot(live, next))) && final(self).log.log@
                        == if due {
                        snapshot_log(live, next, old(self).checkpoint_seqno)
                    } else {
                        old(self).log.log@
                    },
                    Err(e) => due && e is Full && !frames(Edit::Snapshot(live, next)),
                }
            }),
    {
        if self.log.edits_written() < COMPACT_AFTER_EDITS {
            return Ok(());
        }
        let ghost levels = self.manifest@;
        let mut live: Vec<TableMeta> = Vec::new();
        let mut l: usize = 0;
        assert(metas(live@) =~= all_tables(levels.subrange(0, 0)));
        while l < self.manifest.levels.len()
            invariant
                l <= self.manifest.levels@.len(),
                levels == self.manifest@,
                *self == *old(self),
                metas(live@) == all_tables(levels.subrange(0, l as int)),
            decreases self.manifest.levels@.len() - l,
        {
            let ghost was = metas(live@);
            let ghost v = levels[l as int];
            let mut some: Vec<TableMeta> = copy_metas(&self.manifest.levels[l]);
            live.append(&mut some);
            proof {
                let more = levels.subrange(0, l + 1);
                assert(more.drop_last() =~= levels.subrange(0, l as int));
                assert(more.last() == v);
                assert(metas(live@) =~= was + v);
            }
            l += 1;
        }
        assert(levels.subrange(0, l as int) =~= levels);
        match Manifest::compact(&live, self.manifest.peek_table_id(), self.checkpoint_seqno) {
            Ok(m) => {
                self.log = m;
                Ok(())
            },
            Err(e) => Err(e),
        }
    }
}

/// Lists the inputs of a merge, newest first.
fn order_inputs(job: &CompactionJob) -> (v: Vec<TableMeta>)
    ensures
        metas(v@) == merge_order(metas(job.source_tables@), metas(job.target_tables@)),
{
    let ghost source = metas(job.source_tables@);
    let mut v: Vec<TableMeta> = Vec::new();
    let mut i: usize = job.source_tables.len();
    let ghost n = source.len() as int;
    assert(metas(v@) =~= source.reverse().subrange(0, 0));
    while i > 0
        invariant
            i <= n,
            n == source.len(),
            source == metas(job.source_tables@),
            metas(v@) == source.reverse().subrange(0, n - i),
        decreases i,
    {
        i -= 1;
        let ghost was = metas(v@);
        v.push(job.source_tables[i].copy());
        assert(metas(v@) =~= was.push(source[i as int]));
        assert(source.reverse().subrange(0, n - i) =~= was.push(source[i as int]));
    }
    assert(source.reverse().subrange(0, n) =~= source.reverse());
    let mut rest: Vec<TableMeta> = copy_metas(&job.target_tables);
    let ghost (a, b) = (v@, rest@);
    v.append(&mut rest);
    assert(metas(v@) =~= metas(a) + metas(b));
    v
}

/// The tables that a due compaction drains and rewrites.
pub open spec fn job_tables(levels: Seq<Seq<Summary>>, level: u32) -> (Seq<Summary>, Seq<Summary>) {
    let source = drained(levels, level);
    (source, meeting(levels[level + 1], least_key(source), greatest_key(source)))
}

/// What is left of the inputs of a compaction.
pub open spec fn left_over(ins: Seq<Seq<Item>>, floor: u64, drop_tombstones: bool) -> Map<
    Version,
    Option<Seq<u8>>,
> {
    surviving(merged(joined(ins)), floor, drop_tombstones)
}

/// The inputs of a compaction.
pub open spec fn job_inputs(was: LsmEngine, level: u32) -> Option<Seq<Seq<Item>>> {
    let (source, target) = job_tables(was.manifest@, level);
    inputs(merge_order(source, target), was.open_tables@)
}

/// The output replaces the inputs among the live tables and the open ones, and
/// the log says so.
pub open spec fn exchanges(
    was: LsmEngine,
    now: LsmEngine,
    level: u32,
    output: Option<Flushed>,
    gone: Seq<u64>,
) -> bool {
    let (source, target) = job_tables(was.manifest@, level);
    let id = was.manifest.next_table_id;
    let outs = outputs_of(output);
    let up = (level + 1) as u32;
    let edits = was.log.edits_written + outs.len() + source.len() + target.len();
    &&& gone == ids_of(source + target)
    &&& now.manifest@ == all_added(
        all_removed(all_removed(was.manifest@, level, source), up, target),
        outs,
    )
    &&& now.manifest.next_table_id == id_after(id, outs)
    &&& swapped(was.open_tables@, now.open_tables@, gone, output, up)
    &&& now.log.log@ == if edits >= COMPACT_AFTER_EDITS {
        snapshot_log(all_tables(now.manifest@), now.manifest.next_table_id, was.checkpoint_seqno)
    } else {
        was.log.log@ + additions(output) + removals(source + target)
    }
    &&& output is Some ==> frames(Edit::Add((output->0).meta@))
    &&& edits >= COMPACT_AFTER_EDITS ==> frames(
        Edit::Snapshot(all_tables(now.manifest@), now.manifest.next_table_id),
    )
    &&& now.compactions == clipped(was.compactions + 1)
}

/// What a compaction of `level` does to the engine.
pub open spec fn compacts(
    was: LsmEngine,
    now: LsmEngine,
    level: u32,
    floor: u64,
    c: Compacted,
) -> bool {
    let ins = job_inputs(was, level);
    let drop_tombstones = level + 2 >= was.manifest.config.max_levels;
    &&& ins is Some
    &&& is_output(
        c.output,
        left_over(ins->0, floor, drop_tombstones),
        was.manifest.next_table_id,
        (level + 1) as u32,
    )
    &&& counts(c.stats, ins->0, c.output)
    &&& exchanges(was, now, level, c.output, c.retired@)
}

/// The job is the one to drain a level.
spec fn is_job(job: CompactionJob, levels: Seq<Seq<Summary>>, level: u32) -> bool {
    let (source, target) = job_tables(levels, level);
    &&& job.source_level == level
    &&& job.target_level == level + 1
    &&& level + 1 < levels.len() <= u32::MAX
    &&& metas(job.source_tables@) == source
    &&& metas(job.target_tables@) == target
}

/// The most urgent level of an engine, with its score.
pub open spec fn urgent(e: LsmEngine) -> (u32, Score) {
    most_urgent(e.manifest@, e.manifest.config, (e.manifest@.len() - 1) as nat)
}

/// A compaction of the most urgent level, which was due.
#[verifier::opaque]
pub open spec fn compacts_urgent(was: LsmEngine, now: LsmEngine, floor: u64, c: Compacted) -> bool {
    &&& was.wf()
    &&& now.wf()
    &&& now.same_memory(&was)
    &&& is_due(urgent(was).1)
    &&& compacts(was, now, urgent(was).0, floor, c)
}

/// A list of what is left that cannot become a table: its key range goes into no
/// frame of the log.
pub open spec fn too_wide(run: Seq<Item>, kept: Map<Version, Option<Seq<u8>>>) -> bool {
    in_order(run) && versions(run) == kept && !summary_fits(run)
}

/// A compaction that was due fails: an input cannot be read, and the live tables
/// are the same; or the log can take neither the output nor, once it is long,
/// the list of all tables.
#[verifier::opaque]
pub open spec fn compaction_fails(was: LsmEngine, now: LsmEngine, floor: u64, e: Error) -> bool {
    let level = urgent(was).0;
    let ins = job_inputs(was, level);
    let kept = left_over(ins->0, floor, level + 2 >= was.manifest.config.max_levels);
    let all = Edit::Snapshot(all_tables(now.manifest@), now.manifest.next_table_id);
    &&& is_due(urgent(was).1)
    &&& now.same_memory(&was)
    &&& {
        ||| e is Corruption && ins is None && now.manifest@ == was.manifest@
        ||| e is Full && ins is Some && ((exists|run: Seq<Item>| #[trigger] too_wide(run, kept))
            || !frames(all))
    }
}

/// Compactions, one after the other.
#[verifier::opaque]
pub open spec fn compacted_in_turn(
    was: LsmEngine,
    now: LsmEngine,
    floor: u64,
    cs: Seq<Compacted>,
) -> bool
    decreases cs.len(),
{
    if cs.len() == 0 {
        now == was
    } else {
        exists|mid: LsmEngine|
            compacted_in_turn(was, mid, floor, cs.drop_last()) && #[trigger] compacts_urgent(
                mid,
                now,
                floor,
                cs.last(),
            )
    }
}

/// One more compaction.
proof fn lemma_compacted_next(
    was: LsmEngine,
    mid: LsmEngine,
    now: LsmEngine,
    floor: u64,
    cs: Seq<Compacted>,
    c: Compacted,
)
    requires
        compacted_in_turn(was, mid, floor, cs),
        compacts_urgent(mid, now, floor, c),
    ensures
        compacted_in_turn(was, now, floor, cs.push(c)),
{
    let more = cs.push(c);
    assert(more.drop_last() =~= cs);
    assert(more.last() == c);
    reveal_with_fuel(compacted_in_turn, 2);
    assert(compacts_urgent(mid, now, floor, more.last()));
}

/// The last of some compactions.
pub(crate) proof fn lemma_compacted_last(
    was: LsmEngine,
    now: LsmEngine,
    floor: u64,
    cs: Seq<Compacted>,
) -> (mid: LsmEngine)
    requires
        compacted_in_turn(was, now, floor, cs),
        cs.len() > 0,
    ensures
        compacted_in_turn(was, mid, floor, cs.drop_last()),
        compacts_urgent(mid, now, floor, cs.last()),
{
    reveal_with_fuel(compacted_in_turn, 2);
    choose|mid: LsmEngine|
        compacted_in_turn(was, mid, floor, cs.drop_last()) && #[trigger] compacts_urgent(
            mid,
            now,
            floor,
            cs.last(),
        )
}

impl LsmEngine {
    /// What is in memory, the options and the other counters are the same.
    pub open spec fn same_memory(&self, other: &LsmEngine) -> bool {
        &&& self.active == other.active
        &&& self.frozen == other.frozen
        &&& self.options == other.options
        &&& self.manifest.config == other.manifest.config
        &&& self.checkpoint_seqno == other.checkpoint_seqno
        &&& self.flushes == other.flushes
    }

    /// Writes and opens the output of a merge, if there is anything to write.
    fn write_output(
        &mut self,
        entries: &Vec<(InternalKey, ValueSlot)>,
        level: u32,
    ) -> (r: Result<Option<Flushed>, Error>)
        requires
            old(self).wf(),
            old(self).manifest.next_table_id < u64::MAX,
            in_order(items(entries@)),
        ensures
            final(self).wf(),
            final(self).same_memory(old(self)),
            final(self).manifest@ == old(self).manifest@,
            final(self).compactions == old(self).compactions,
            match r {
                Ok(Some(t)) => {
                    let run = items(entries@);
                    let id = old(self).manifest.next_table_id;
                    &&& run.len() > 0
                    &&& is_file_of(t.file@, run)
                    &&& t.meta@ == summary(run, id, level, t.file@.len() as int)
                    &&& final(self).manifest.next_table_id == id + 1
                    &&& frames(Edit::Add(t.meta@))
                    &&& final(self).log.log@ == old(self).log.log@ + frame_of(Edit::Add(t.meta@))
                    &&& final(self).log.edits_written == old(self).log.edits_written + 1
                    &&& final(self).open_tables@.len() == old(self).open_tables@.len() + 1
                    &&& final(self).open_tables@.drop_last() == old(self).open_tables@
                    &&& opened(t.file@, id, level, final(self).open_tables@.last())
                },
                Ok(None) => entries@.len() == 0 && *final(self) == *old(self),
                Err(e) => {
                    &&& e is Corruption ==> !all_fit(items(entries@))
                    &&& e is Full ==> !summary_fits(items(entries@))
                    &&& e is Corruption || e is Full
                },
            },
    {
        if entries.len() == 0 {
            return Ok(None);
        }
        let ghost run = items(entries@);
        let id: u64 = self.manifest.allocate_table_id();
        assert(ids_below(self.manifest@, (id + 1) as u64)) by {
            assert(ids_below(self.manifest@, id));
        }
        let (file, meta): (Vec<u8>, TableMeta) = write_table(entries, entries.len(), id, level);
        let n: usize = file.len();
        let table: SSTable = match SSTable::open(file.as_slice(), id, level) {
            Ok(t) => t,
            Err(e) => {
                proof {
                    if all_fit(run) {
                        lemma_written_file(file@, run);
                    }
                }
                return Err(e);
            },
        };
        let ghost before = self.open_tables@;
        self.open_tables.push(table);
        proof {
            lemma_pushed(before, table, id);
        }
        assert(self.open_tables@.drop_last() =~= before);
        let edit: ManifestEdit = ManifestEdit::AddTable { meta: SerializableMeta::from_meta(&meta) };
        proof {
            lemma_meta_len(meta@);
        }
        match self.log.append(&edit) {
            Ok(_) => {},
            Err(e) => return Err(e),
        }
        Ok(Some(Flushed { meta, file }))
    }

    /// Runs one compaction if any level is over budget.
    ///
    /// `retain_floor` is the oldest sequence number a live snapshot can read;
    /// pass the engine's merge watermark. Returns what was done, or `None` when
    /// nothing was due.
    ///
    /// The whole swap is logged — additions before removals — so a crash
    /// mid-sequence leaves the old and new tables both live, which is redundant
    /// but correct.
    pub fn compact_once(&mut self, retain_floor: u64) -> (r: Result<Option<Compacted>, Error>)
        requires
            old(self).wf(),
            old(self).manifest.next_table_id < u64::MAX,
        ensures
            final(self).wf(),
            final(self).same_memory(old(self)),
            match r {
                Ok(None) => !is_due(urgent(*old(self)).1) && *final(self) == *old(self),
                Ok(Some(c)) => compacts_urgent(*old(self), *final(self), retain_floor, c),
                Err(e) => compaction_fails(*old(self), *final(self), retain_floor, e),
            },
    {
        reveal(compaction_fails);
        let job: CompactionJob = match self.manifest.pick_compaction() {
            Some(j) => j,
            None => return Ok(None),
        };
        let ghost was = *self;
        let ghost level = job.source_level;
        assert(is_job(job, was.manifest@, level));
        let (entries, stats): (Vec<(InternalKey, ValueSlot)>, CompactionStats) = match self.gather(
            &job,
            retain_floor,
        ) {
            Ok(x) => x,
            Err(e) => return Err(e),
        };
        let ghost kept = left_over(
            job_inputs(was, level)->0,
            retain_floor,
            level + 2 >= was.manifest.config.max_levels,
        );
        proof {
            lemma_output_fits(was, level, retain_floor, items(entries@));
        }
        let output: Option<Flushed> = match self.write_output(&entries, job.target_level) {
            Ok(o) => o,
            Err(e) => {
                assert(too_wide(items(entries@), kept));
                return Err(e);
            },
        };
        proof {
            lemma_is_output(entries@, output, kept, was.manifest.next_table_id, job.target_level);
        }
        let gone: Vec<u64> = match self.exchange(&job, &output, Ghost(was)) {
            Ok(v) => v,
            Err(e) => return Err(e),
        };
        reveal(compacts_urgent);
        Ok(Some(Compacted { stats, output, retired: gone }))
    }

    /// Merges the inputs of a job.
    fn gather(&self, job: &CompactionJob, retain_floor: u64) -> (r: Result<
        (Vec<(InternalKey, ValueSlot)>, CompactionStats),
        Error,
    >)
        requires
            self.wf(),
            is_job(*job, self.manifest@, job.source_level),
        ensures
            match r {
                Ok((v, stats)) => {
                    let ins = job_inputs(*self, job.source_level);
                    let drop_tombstones = job.source_level + 2 >= self.manifest.config.max_levels;
                    &&& ins is Some
                    &&& in_order(items(v@))
                    &&& versions(items(v@)) == left_over(ins->0, retain_floor, drop_tombstones)
                    &&& stats.input_tables == ins->0.len()
                    &&& stats.entries_in == joined(ins->0).len()
                    &&& stats.entries_out == v@.len()
                    &&& stats.versions_dropped + stats.tombstones_dropped + stats.entries_out
                        == stats.entries_in
                    &&& stats.bytes_in == clipped(payload(joined(ins->0)) as int)
                },
                Err(e) => e is Corruption && job_inputs(*self, job.source_level) is None,
            },
    {
        let order: Vec<TableMeta> = order_inputs(job);
        let runs: Vec<Vec<(InternalKey, ValueSlot)>> = match self.collect_runs(&order) {
            Ok(v) => v,
            Err(e) => return Err(e),
        };
        let drop_tombstones: bool = job.is_bottom_most(self.manifest.config());
        merge_runs(runs, retain_floor, drop_tombstones)
    }

    /// Puts the output in the place of the inputs.
    fn exchange(
        &mut self,
        job: &CompactionJob,
        output: &Option<Flushed>,
        Ghost(was): Ghost<LsmEngine>,
    ) -> (r: Result<Vec<u64>, Error>)
        requires
            old(self).wf(),
            was.wf(),
            is_job(*job, was.manifest@, job.source_level),
            old(self).manifest@ == was.manifest@,
            old(self).compactions == was.compactions,
            old(self).checkpoint_seqno == was.checkpoint_seqno,
            match *output {
                Some(t) => {
                    let id = was.manifest.next_table_id;
                    &&& t.meta.id == id
                    &&& t.meta.level == job.target_level
                    &&& id < u64::MAX
                    &&& frames(Edit::Add(t.meta@))
                    &&& old(self).manifest.next_table_id == id + 1
                    &&& old(self).log.log@ == was.log.log@ + frame_of(Edit::Add(t.meta@))
                    &&& old(self).log.edits_written == was.log.edits_written + 1
                    &&& old(self).open_tables@.len() == was.open_tables@.len() + 1
                    &&& old(self).open_tables@.drop_last() == was.open_tables@
                    &&& opened(t.file@, id, job.target_level, old(self).open_tables@.last())
                },
                None => *old(self) == was,
            },
        ensures
            final(self).wf(),
            final(self).same_memory(old(self)),
            match r {
                Ok(gone) => exchanges(was, *final(self), job.source_level, *output, gone@),
                Err(e) => e is Full && !frames(
                    Edit::Snapshot(
                        all_tables(final(self).manifest@),
                        final(self).manifest.next_table_id,
                    ),
                ),
            },
    {
        let ghost level = job.source_level;
        let ghost source = metas(job.source_tables@);
        let ghost target = metas(job.target_tables@);
        let ghost id = was.manifest.next_table_id;
        let ghost mid_tables = self.open_tables@;
        let inputs_list: Vec<TableMeta> = job.all_inputs();
        assert(self.log.log@ =~= was.log.log@ + additions(*output));
        self.log_removals(&inputs_list);
        let mut outputs: Vec<TableMeta> = Vec::new();
        if let Some(t) = output {
            outputs.push(t.meta.copy());
        }
        assert(metas(outputs@) =~= outputs_of(*output));
        let ghost cleared = all_removed(
            all_removed(was.manifest@, level, source),
            job.target_level,
            target,
        );
        proof {
            lemma_all_removed(was.manifest@, level, source, id);
            lemma_all_removed(
                all_removed(was.manifest@, level, source),
                job.target_level,
                target,
                id,
            );
            lemma_outputs(cleared, *output, id);
        }
        self.manifest.apply(job, outputs);
        let gone: Vec<u64> = self.close_all(&inputs_list);
        self.compactions = self.compactions.saturating_add(1);
        proof {
            lemma_gone_below(was.manifest@, level, id);
            lemma_swapped(
                was.open_tables@,
                mid_tables,
                self.open_tables@,
                gone@,
                *output,
                job.target_level,
                id,
            );
        }
        match self.maybe_compact_manifest() {
            Ok(_) => Ok(gone),
            Err(e) => Err(e),
        }
    }

    /// Compacts repeatedly until every level is inside its budget.
    ///
    /// `max_rounds` bounds the work so a pathological layout cannot spin.
    pub fn compact_until_stable(
        &mut self,
        retain_floor: u64,
        max_rounds: usize,
    ) -> (r: Result<Vec<Compacted>, Error>)
        requires
            old(self).wf(),
            old(self).manifest.next_table_id + max_rounds <= u64::MAX,
        ensures
            final(self).wf(),
            final(self).same_memory(old(self)),
            match r {
                Ok(v) => {
                    &&& compacted_in_turn(*old(self), *final(self), retain_floor, v@)
                    &&& v@.len() <= max_rounds
                    &&& v@.len() < max_rounds ==> !is_due(urgent(*final(self)).1)
                },
                Err(e) => exists|mid: LsmEngine, cs: Seq<Compacted>| #[trigger]
                    compacted_in_turn(*old(self), mid, retain_floor, cs) && compaction_fails(
                        mid,
                        *final(self),
                        retain_floor,
                        e,
                    ),
            },
    {
        let mut all: Vec<Compacted> = Vec::new();
        assert(compacted_in_turn(*old(self), *self, retain_floor, all@)) by {
            reveal(compacted_in_turn);
        }
        while all.len() < max_rounds
            invariant
                self.wf(),
                self.same_memory(old(self)),
                compacted_in_turn(*old(self), *self, retain_floor, all@),
                all@.len() <= max_rounds,
                self.manifest.next_table_id + (max_rounds - all@.len()) <= u64::MAX,
            decreases max_rounds - all@.len(),
        {
            let ghost mid = *self;
            let ghost done = all@;
            match self.compact_step(retain_floor) {
                Ok(Some(c)) => {
                    all.push(c);
                    proof {
                        lemma_compacted_next(*old(self), mid, *self, retain_floor, done, c);
                    }
                },
                Ok(None) => return Ok(all),
                Err(e) => {
                    assert(compacted_in_turn(*old(self), mid, retain_floor, done));
                    return Err(e);
                },
            }
        }
        Ok(all)
    }

    /// Runs one compaction if any level is over budget; takes one id at most.
    fn compact_step(&mut self, retain_floor: u64) -> (r: Result<Option<Compacted>, Error>)
        requires
            old(self).wf(),
            old(self).manifest.next_table_id < u64::MAX,
        ensures
            final(self).wf(),
            final(self).same_memory(old(self)),
            r is Ok ==> final(self).manifest.next_table_id <= old(self).manifest.next_table_id + 1,
            match r {
                Ok(None) => !is_due(urgent(*old(self)).1) && *final(self) == *old(self),
                Ok(Some(c)) => compacts_urgent(*old(self), *final(self), retain_floor, c),
                Err(e) => compaction_fails(*old(self), *final(self), retain_floor, e),
            },
    {
        let ghost id = self.manifest.next_table_id;
        let r: Result<Option<Compacted>, Error> = self.compact_once(retain_floor);
        proof {
            reveal(compacts_urgent);
            if r is Ok && r->Ok_0 is Some {
                let c = (r->Ok_0)->0;
                let outs = outputs_of(c.output);
                if outs.len() > 0 {
                    assert(outs.drop_last() =~= Seq::<Summary>::empty());
                    assert(id_after(id, outs.drop_last()) == id);
                }
            }
        }
        r
    }
}

/// Entries that were read are small enough to be read again.
proof fn lemma_stored_fit(data: Seq<u8>, pos: int)
    requires
        0 <= pos,
        stored(data, pos) is Some,
    ensures
        all_fit(stored(data, pos)->0),
    decreases data.len() - pos,
{
    if pos < data.len() {
        let (e, next) = entry_at(data, pos)->0;
        lemma_stored_fit(data, next);
        let rest = stored(data, next)->0;
        let all = seq![e] + rest;
        assert forall|i: int| 0 <= i < all.len() implies fits(#[trigger] all[i]) by {
            if i > 0 {
                assert(all[i] == rest[i - 1]);
            }
        }
    }
}

proof fn lemma_inputs_fit(order: Seq<Summary>, tables: Seq<SSTable>)
    requires
        inputs(order, tables) is Some,
    ensures
        forall|r: int|
            0 <= r < (inputs(order, tables)->0).len() ==> all_fit(
                #[trigger] (inputs(order, tables)->0)[r],
            ),
    decreases order.len(),
{
    if order.len() > 0 {
        lemma_inputs_fit(order.drop_last(), tables);
        let id = order.last().id;
        if is_open(tables, id) {
            lemma_stored_fit(table_of(tables, id).data@, 0);
        }
    }
}

/// What is left of the inputs can be read back.
proof fn lemma_output_fits(was: LsmEngine, level: u32, floor: u64, run: Seq<Item>)
    requires
        job_inputs(was, level) is Some,
        in_order(run),
        versions(run) == left_over(
            job_inputs(was, level)->0,
            floor,
            level + 2 >= was.manifest.config.max_levels,
        ),
    ensures
        all_fit(run),
{
    let ins = job_inputs(was, level)->0;
    let dropped = level + 2 >= was.manifest.config.max_levels;
    let (source, target) = job_tables(was.manifest@, level);
    lemma_inputs_fit(merge_order(source, target), was.open_tables@);
    assert forall|i: int| 0 <= i < run.len() implies fits(#[trigger] run[i]) by {
        let v = run[i].0;
        lemma_versions(run, i);
        assert(versions(run).contains_key(v));
        let (r, k) = lemma_kept(ins, floor, dropped, v);
        assert(all_fit(ins[r]));
        assert(fits(ins[r][k]));
    }
}

/// What was written is the output of the compaction.
proof fn lemma_is_output(
    entries: Seq<(InternalKey, ValueSlot)>,
    o: Option<Flushed>,
    kept: Map<Version, Option<Seq<u8>>>,
    id: u64,
    level: u32,
)
    requires
        in_order(items(entries)),
        versions(items(entries)) == kept,
        match o {
            Some(t) => items(entries).len() > 0 && is_file_of(t.file@, items(entries)) && t.meta@
                == summary(items(entries), id, level, t.file@.len() as int),
            None => entries.len() == 0,
        },
    ensures
        is_output(o, kept, id, level),
{
    if o is None {
        assert(kept =~= Map::<Version, Option<Seq<u8>>>::empty());
    }
}

/// A table with the next id joins the open ones.
proof fn lemma_pushed(tables: Seq<SSTable>, t: SSTable, id: u64)
    requires
        tables_ok(tables, id),
        t.wf(),
        t.meta.id == id,
        id < u64::MAX,
    ensures
        tables_ok(tables.push(t), (id + 1) as u64),
{
    let now = tables.push(t);
    assert forall|i: int| 0 <= i < now.len() implies (#[trigger] now[i]).wf() && now[i].meta.id < id
        + 1 by {
        if i < tables.len() {
            assert(now[i] == tables[i]);
        }
    }
    assert forall|i: int, j: int| 0 <= i < j < now.len() implies (#[trigger] now[i]).meta.id != (
    #[trigger] now[j]).meta.id by {
        assert(now[i] == tables[i]);
        if j < tables.len() {
            assert(now[j] == tables[j]);
        }
    }
}

/// What is left of a level was there.
proof fn lemma_retired(v: Seq<Summary>, id: u64)
    ensures
        forall|i: int|
            0 <= i < retired(v, id).len() ==> v.contains(#[trigger] retired(v, id)[i]),
    decreases v.len(),
{
    if v.len() > 0 {
        let rest = v.subrange(1, v.len() as int);
        let w = retired(v, id);
        lemma_retired(rest, id);
        assert forall|i: int| 0 <= i < w.len() implies v.contains(#[trigger] w[i]) by {
            if v[0].id == id {
                assert(w[i] == v[i + 1]);
            } else if i == 0 {
                assert(w[0] == v[0]);
            } else {
                let tail = retired(rest, id);
                assert(w[i] == tail[i - 1]);
                assert(rest.contains(tail[i - 1]));
                let k = choose|k: int| 0 <= k < rest.len() && rest[k] == tail[i - 1];
                assert(v[k + 1] == w[i]);
            }
        }
    }
}

/// Removing tables leaves used ids.
proof fn lemma_all_removed(levels: Seq<Seq<Summary>>, level: u32, ts: Seq<Summary>, next: u64)
    requires
        ids_below(levels, next),
    ensures
        ids_below(all_removed(levels, level, ts), next),
        all_removed(levels, level, ts).len() == levels.len(),
    decreases ts.len(),
{
    if ts.len() > 0 {
        lemma_all_removed(levels, level, ts.drop_last(), next);
        let before = all_removed(levels, level, ts.drop_last());
        let after = removed(before, level, ts.last().id);
        assert forall|l: int, i: int|
            0 <= l < after.len() && 0 <= i < after[l].len() implies (#[trigger] after[l][i]).id
            < next by {
            if l != level {
                assert(after[l] == before[l]);
                assert(before[l][i].id < next);
            } else {
                lemma_retired(before[l], ts.last().id);
                let w = retired(before[l], ts.last().id);
                assert(after[l] == w);
                assert(before[l].contains(w[i]));
                let k = choose|k: int| 0 <= k < before[l].len() && before[l][k] == w[i];
                assert(before[l][k].id < next);
            }
        }
    }
}

/// The output of a compaction takes the next id.
proof fn lemma_outputs(cleared: Seq<Seq<Summary>>, o: Option<Flushed>, id: u64)
    requires
        ids_below(cleared, id),
        o is Some ==> (o->0).meta.id == id && id < u64::MAX,
    ensures
        o is Some ==> ids_below(all_added(cleared, outputs_of(o)), (id + 1) as u64)
            && id_after((id + 1) as u64, outputs_of(o)) == id + 1 && id_after(id, outputs_of(o))
            == id + 1,
        o is None ==> all_added(cleared, outputs_of(o)) == cleared && id_after(id, outputs_of(o))
            == id,
{
    if o is Some {
        let outs = outputs_of(o);
        let m = outs.last();
        assert(outs.drop_last() =~= Seq::<Summary>::empty());
        assert(all_added(cleared, outs.drop_last()) == cleared);
        assert(id_after(id, outs.drop_last()) == id);
        assert(id_after((id + 1) as u64, outs.drop_last()) == id + 1);
        lemma_ids_added(cleared, m, (id + 1) as u64);
    }
}

pub(crate) proof fn lemma_meeting(v: Seq<Summary>, from: Seq<u8>, to: Seq<u8>)
    ensures
        forall|i: int|
            0 <= i < meeting(v, from, to).len() ==> v.contains(#[trigger] meeting(v, from, to)[i]),
    decreases v.len(),
{
    if v.len() > 0 {
        let less = meeting(v.drop_last(), from, to);
        let all = meeting(v, from, to);
        lemma_meeting(v.drop_last(), from, to);
        assert forall|i: int| 0 <= i < all.len() implies v.contains(#[trigger] all[i]) by {
            if i < less.len() {
                assert(all[i] == less[i]);
                assert(v.drop_last().contains(less[i]));
                let k = choose|k: int|
                    0 <= k < v.drop_last().len() && v.drop_last()[k] == less[i];
                assert(v[k] == all[i]);
            } else {
                assert(v[v.len() - 1] == all[i]);
            }
        }
    }
}

pub(crate) proof fn lemma_largest(v: Seq<Summary>)
    requires
        v.len() > 0,
    ensures
        0 <= largest(v) < v.len(),
    decreases v.len(),
{
    if v.len() > 1 {
        lemma_largest(v.drop_last());
    }
}

/// The tables that a compaction drains and rewrites are live ones.
proof fn lemma_gone_below(levels: Seq<Seq<Summary>>, level: u32, next: u64)
    requires
        ids_below(levels, next),
        level + 1 < levels.len(),
    ensures
        ({
            let (source, target) = job_tables(levels, level);
            forall|k: u64| #[trigger] ids_of(source + target).contains(k) ==> k < next
        }),
{
    let (source, target) = job_tables(levels, level);
    let all = source + target;
    let up = levels[level + 1];
    lemma_meeting(up, least_key(source), greatest_key(source));
    assert forall|k: u64| #[trigger] ids_of(all).contains(k) implies k < next by {
        let i = choose|i: int| 0 <= i < ids_of(all).len() && ids_of(all)[i] == k;
        if i < source.len() {
            let v = levels[level as int];
            assert(all[i] == source[i]);
            if level == 0 {
                assert(levels[0][i].id < next);
            } else if v.len() > 0 {
                lemma_largest(v);
                assert(levels[level as int][largest(v)].id < next);
            }
        } else {
            let t = target[i - source.len()];
            assert(all[i] == t);
            assert(up.contains(t));
            let q = choose|q: int| 0 <= q < up.len() && up[q] == t;
            assert(levels[level + 1][q].id < next);
        }
    }
}

/// Closing the inputs leaves the output open.
proof fn lemma_swapped(
    before: Seq<SSTable>,
    mid: Seq<SSTable>,
    after: Seq<SSTable>,
    gone: Seq<u64>,
    o: Option<Flushed>,
    level: u32,
    id: u64,
)
    requires
        match o {
            Some(t) => {
                &&& t.meta.id == id
                &&& mid.len() == before.len() + 1
                &&& mid.drop_last() == before
                &&& opened(t.file@, id, level, mid.last())
            },
            None => mid == before,
        },
        forall|k: u64| #[trigger] gone.contains(k) ==> k < id,
        forall|x: SSTable| #[trigger]
            after.contains(x) <==> mid.contains(x) && !gone.contains(x.meta.id),
    ensures
        swapped(before, after, gone, o, level),
{
    if let Some(t) = o {
        let new = mid.last();
        assert(new.meta.id == id) by {
            assert(new.meta@.id == id);
        }
        assert forall|x: SSTable| #[trigger] after.contains(x) <==> (before.contains(x)
            && !gone.contains(x.meta.id)) || x == new by {
            assert(after.contains(x) <==> mid.contains(x) && !gone.contains(x.meta.id));
            if mid.contains(x) {
                let i = choose|i: int| 0 <= i < mid.len() && mid[i] == x;
                if i < before.len() {
                    assert(before[i] == mid[i]);
                }
            }
            if before.contains(x) {
                let i = choose|i: int| 0 <= i < before.len() && before[i] == x;
                assert(mid[i] == before[i]);
            }
            assert(mid[mid.len() - 1] == new);
        }
        assert(opened(t.file@, t.meta.id, level, new));
    }
}

/// What cannot be read is not made readable by more tables.
proof fn lemma_inputs_prefix(all: Seq<Summary>, tables: Seq<SSTable>, n: int)
    requires
        0 <= n <= all.len(),
        inputs(all.subrange(0, n), tables) is None,
    ensures
        inputs(all, tables) is None,
    decreases all.len() - n,
{
    if n < all.len() {
        let more = all.subrange(0, n + 1);
        assert(more.drop_last() =~= all.subrange(0, n));
        lemma_inputs_prefix(all, tables, n + 1);
    } else {
        assert(all.subrange(0, n) =~= all);
    }
}

proof fn lemma_closed(tables: Seq<SSTable>, p: int, next: u64)
    requires
        tables_ok(tables, next),
        0 <= p < tables.len(),
    ensures
        tables_ok(tables.remove(p), next),
        forall|x: SSTable| #[trigger]
            tables.remove(p).contains(x) <==> tables.contains(x) && x.meta.id != tables[p].meta.id,
{
    let w = tables.remove(p);
    assert forall|i: int| 0 <= i < w.len() implies (#[trigger] w[i]).wf() && w[i].meta.id
        < next by {
        assert(w[i] == tables[if i < p {
            i
        } else {
            i + 1
        }]);
    }
    assert forall|i: int, j: int| 0 <= i < j < w.len() implies (#[trigger] w[i]).meta.id != (
    #[trigger] w[j]).meta.id by {
        let a = if i < p {
            i
        } else {
            i + 1
        };
        let b = if j < p {
            j
        } else {
            j + 1
        };
        assert(w[i] == tables[a] && w[j] == tables[b]);
    }
    assert forall|x: SSTable| #[trigger] w.contains(x) <==> tables.contains(x) && x.meta.id
        != tables[p].meta.id by {
        if w.contains(x) {
            let i = choose|i: int| 0 <= i < w.len() && w[i] == x;
            let a = if i < p {
                i
            } else {
                i + 1
            };
            assert(w[i] == tables[a]);
            assert(tables.contains(x));
            if a < p {
                assert(tables[a].meta.id != tables[p].meta.id);
            } else {
                assert(tables[p].meta.id != tables[a].meta.id);
            }
        }
        if tables.contains(x) && x.meta.id != tables[p].meta.id {
            let a = choose|a: int| 0 <= a < tables.len() && tables[a] == x;
            if a < p {
                assert(w[a] == x);
            } else {
                assert(w[a - 1] == x);
            }
        }
    }
}

} // verus!

//! Opening an engine from its manifest log and its table files.

use crate::bytes::copy_range;
use crate::error::Error;
use crate::lsm::compact::snapshot_log;
use crate::lsm::compaction::metas;
use crate::lsm::edit::Edit;
use crate::lsm::engine::{ids_below, lemma_ids_added, tables_ok, LsmEngine, LsmOptions};
use crate::lsm::layout::has_id;
use crate::lsm::levels::{all_added, id_after, LevelManifest};
use crate::lsm::manifest::{
    frames, law_cut_logs_are_whole, replayed, Manifest, ManifestState, Replayed,
    COMPACT_AFTER_EDITS,
};
use crate::lsm::memtable::MemTable;
use crate::lsm::sstable::{opened, readable, SSTable, Summary, TableMeta};
use crate::lsm::version::Version;
use vstd::prelude::*;

verus! {

/// The bytes of the file of an id; the first of several.
pub open spec fn file_for(files: Seq<(u64, Vec<u8>)>, id: u64) -> Option<Seq<u8>>
    decreases files.len(),
{
    if files.len() == 0 {
        None
    } else if files[0].0 == id {
        Some(files[0].1@)
    } else {
        file_for(files.subrange(1, files.len() as int), id)
    }
}

/// The table can be opened: its id and its level are in range, and its file is
/// there and is a table.
pub open spec fn loadable(files: Seq<(u64, Vec<u8>)>, t: Summary) -> bool {
    &&& t.id < u64::MAX
    &&& t.level < u32::MAX
    &&& file_for(files, t.id) is Some
    &&& readable(file_for(files, t.id)->0)
}

/// So many levels without tables.
pub open spec fn bare(n: u32) -> Seq<Seq<Summary>> {
    Seq::new(n as nat, |l: int| Seq::<Summary>::empty())
}

/// The table of a summary is open, and holds what its file holds.
pub open spec fn loaded(files: Seq<(u64, Vec<u8>)>, tables: Seq<SSTable>, t: Summary) -> bool {
    exists|i: int|
        0 <= i < tables.len() && (#[trigger] tables[i]).meta.id == t.id && opened(
            file_for(files, t.id)->0,
            t.id,
            tables[i].meta.level,
            tables[i],
        )
}

/// An open table is that of a summary of the list, and holds what its file holds.
pub open spec fn from_file(files: Seq<(u64, Vec<u8>)>, ts: Seq<Summary>, x: SSTable) -> bool {
    &&& has_id(ts, x.meta.id)
    &&& file_for(files, x.meta.id) is Some
    &&& opened(file_for(files, x.meta.id)->0, x.meta.id, x.meta.level, x)
}

/// The next id after recovery: past every id that the log remembers.
pub open spec fn next_after(s: Replayed) -> u64 {
    let n = id_after(1, s.tables);
    if s.next_table_id > n {
        s.next_table_id
    } else {
        n
    }
}

/// What a manifest log and the table files open as: the live tables are those
/// that the log names, nothing is in memory, and the log is kept without its
/// torn tail or, if it is long, rewritten.
pub open spec fn opens_as(
    log: Seq<u8>,
    files: Seq<(u64, Vec<u8>)>,
    options: LsmOptions,
    e: LsmEngine,
) -> bool {
    let s = replayed(log).0;
    let long = s.edits > COMPACT_AFTER_EDITS;
    &&& e.wf()
    &&& e.options == options
    &&& e.active@ == Map::<Version, Option<Seq<u8>>>::empty()
    &&& e.frozen@.len() == 0
    &&& e.manifest@ == all_added(bare(options.levels.max_levels), s.tables)
    &&& e.manifest.config == options.levels
    &&& e.manifest.next_table_id == next_after(s)
    &&& e.checkpoint_seqno == s.checkpoint
    &&& long ==> frames(Edit::Snapshot(s.tables, next_after(s)))
    &&& e.log.log@ == if long {
        snapshot_log(s.tables, next_after(s), s.checkpoint)
    } else {
        log.subrange(0, replayed(log).1)
    }
    &&& e.log.edits_written == 0
    &&& e.flushes == 0
    &&& e.compactions == 0
    &&& forall|i: int|
        0 <= i < s.tables.len() ==> loadable(files, #[trigger] s.tables[i]) && loaded(
            files,
            e.open_tables@,
            s.tables[i],
        )
    &&& forall|k: int|
        0 <= k < e.open_tables@.len() ==> from_file(files, s.tables, #[trigger] e.open_tables@[k])
}

/// The file of an id.
fn find_file(files: &Vec<(u64, Vec<u8>)>, id: u64) -> (r: Option<usize>)
    ensures
        match r {
            Some(i) => i < files@.len() && file_for(files@, id) == Some(files@[i as int].1@),
            None => file_for(files@, id) is None,
        },
{
    let mut i: usize = 0;
    assert(files@.subrange(0, files@.len() as int) =~= files@);
    while i < files.len()
        invariant
            i <= files@.len(),
            file_for(files@, id) == file_for(files@.subrange(i as int, files@.len() as int), id),
        decreases files@.len() - i,
    {
        proof {
            let rest = files@.subrange(i as int, files@.len() as int);
            assert(rest[0] == files@[i as int]);
            assert(rest.subrange(1, rest.len() as int) =~= files@.subrange(
                i + 1,
                files@.len() as int,
            ));
        }
        if files[i].0 == id {
            return Some(i);
        }
        i += 1;
    }
    None
}

/// A table with an id that no open table has joins the open ones.
proof fn lemma_joined(tables: Seq<SSTable>, t: SSTable, n: u64, m: u64)
    requires
        tables_ok(tables, n),
        n <= m,
        t.wf(),
        t.meta.id < m,
        forall|x: SSTable| #[trigger] tables.contains(x) ==> x.meta.id != t.meta.id,
    ensures
        tables_ok(tables.push(t), m),
{
    let now = tables.push(t);
    assert forall|i: int| 0 <= i < now.len() implies (#[trigger] now[i]).wf() && now[i].meta.id
        < m by {
        if i < tables.len() {
            assert(now[i] == tables[i]);
        }
    }
    assert forall|i: int, j: int| 0 <= i < j < now.len() implies (#[trigger] now[i]).meta.id != (
    #[trigger] now[j]).meta.id by {
        assert(now[i] == tables[i]);
        assert(tables.contains(tables[i]));
        if j < tables.len() {
            assert(now[j] == tables[j]);
        }
    }
}

impl LsmEngine {
    /// Opens the engine whose manifest log is `log` and whose table files are
    /// `files`.
    ///
    /// 1. Replays the manifest to learn which tables are live. A torn tail is
    ///    cut off, so that what is appended later can be replayed.
    /// 2. Opens each one, verifying its CRC. A table the manifest references but
    ///    which fails to open is a hard error — silently dropping it would lose
    ///    committed data.
    /// 3. Rewrites a log that has grown large.
    pub fn open(log: Vec<u8>, files: &Vec<(u64, Vec<u8>)>, options: LsmOptions) -> (r: Result<
        LsmEngine,
        Error,
    >)
        requires
            options.levels.max_levels > 0,
        ensures
            match r {
                Ok(e) => opens_as(log@, files@, options, e),
                Err(x) => {
                    let s = replayed(log@).0;
                    let long = s.edits > COMPACT_AFTER_EDITS;
                    ||| (x is Io || x is Corruption) && exists|i: int|
                        0 <= i < s.tables.len() && !loadable(files@, #[trigger] s.tables[i])
                    ||| x is Full && long && !frames(Edit::Snapshot(s.tables, next_after(s)))
                },
            },
    {
        let state: ManifestState = Manifest::recover(log.as_slice());
        let ghost s = replayed(log@).0;
        let good: usize = log.len() - state.truncated_bytes as usize;
        proof {
            law_cut_logs_are_whole(log@);
        }
        let whole: Vec<u8> = copy_range(log.as_slice(), 0, good);
        let mut e: LsmEngine = LsmEngine {
            options,
            active: MemTable::new(),
            frozen: Vec::new(),
            manifest: LevelManifest::new(options.levels),
            log: Manifest::open(whole),
            checkpoint_seqno: state.checkpoint_seqno,
            open_tables: Vec::new(),
            flushes: 0,
            compactions: 0,
        };
        let ghost empty = bare(options.levels.max_levels);
        assert(e.manifest@ =~= empty);
        assert(s.tables == metas(state.tables@));
        match e.load(&state.tables, files) {
            Ok(_) => {},
            Err(x) => {
                proof {
                    let i = choose|i: int|
                        0 <= i < s.tables.len() && !loadable(
                            files@,
                            #[trigger] metas(state.tables@)[i],
                        );
                    assert(!loadable(files@, s.tables[i]));
                }
                return Err(x);
            },
        }
        let ghost next = e.manifest.next_table_id;
        e.manifest.reserve_table_id(state.next_table_id);
        if state.edits_replayed > COMPACT_AFTER_EDITS {
            match Manifest::compact(
                &state.tables,
                e.manifest.peek_table_id(),
                state.checkpoint_seqno,
            ) {
                Ok(m) => {
                    e.log = m;
                },
                Err(x) => return Err(x),
            }
        }
        Ok(e)
    }

    /// Opens the live tables.
    fn load(&mut self, tables: &Vec<TableMeta>, files: &Vec<(u64, Vec<u8>)>) -> (r: Result<
        (),
        Error,
    >)
        requires
            old(self).wf(),
            old(self).open_tables@.len() == 0,
            old(self).manifest.next_table_id == 1,
        ensures
            final(self).wf(),
            match r {
                Ok(_) => {
                    &&& *final(self) == (LsmEngine {
                        manifest: final(self).manifest,
                        open_tables: final(self).open_tables,
                        ..*old(self)
                    })
                    &&& final(self).manifest@ == all_added(old(self).manifest@, metas(tables@))
                    &&& final(self).manifest.config == old(self).manifest.config
                    &&& final(self).manifest.next_table_id == id_after(1, metas(tables@))
                    &&& forall|i: int|
                        0 <= i < tables@.len() ==> loadable(
                            files@,
                            #[trigger] metas(tables@)[i],
                        ) && loaded(files@, final(self).open_tables@, metas(tables@)[i])
                    &&& forall|k: int|
                        0 <= k < final(self).open_tables@.len() ==> from_file(
                            files@,
                            metas(tables@),
                            #[trigger] final(self).open_tables@[k],
                        )
                },
                Err(x) => (x is Io || x is Corruption) && exists|i: int|
                    0 <= i < tables@.len() && !loadable(files@, #[trigger] metas(tables@)[i]),
            },
    {
        let ghost all = metas(tables@);
        let mut i: usize = 0;
        assert(all.subrange(0, 0) =~= Seq::<Summary>::empty());
        while i < tables.len()
            invariant
                i <= tables@.len(),
                all == metas(tables@),
                self.wf(),
                *self == (LsmEngine {
                    manifest: self.manifest,
                    open_tables: self.open_tables,
                    ..*old(self)
                }),
                self.manifest@ == all_added(old(self).manifest@, all.subrange(0, i as int)),
                self.manifest.config == old(self).manifest.config,
                self.manifest.next_table_id == id_after(1, all.subrange(0, i as int)),
                forall|k: int|
                    0 <= k < i ==> loadable(files@, #[trigger] all[k]) && loaded(
                        files@,
                        self.open_tables@,
                        all[k],
                    ),
                forall|k: int|
                    0 <= k < self.open_tables@.len() ==> from_file(
                        files@,
                        all,
                        #[trigger] self.open_tables@[k],
                    ),
            decreases tables@.len() - i,
        {
            let meta: &TableMeta = &tables[i];
            let ghost t = all[i as int];
            assert(t == meta@);
            if meta.id == u64::MAX || meta.level == u32::MAX {
                assert(!loadable(files@, all[i as int]));
                return Err(Error::corrupt("manifest names a table out of range"));
            }
            let at: usize = match find_file(files, meta.id) {
                Some(p) => p,
                None => {
                    assert(!loadable(files@, all[i as int]));
                    return Err(Error::Io("table file not found".to_owned()));
                },
            };
            let table: SSTable = match SSTable::open(files[at].1.as_slice(), meta.id, meta.level) {
                Ok(x) => x,
                Err(x) => {
                    assert(!loadable(files@, all[i as int]));
                    return Err(x);
                },
            };
            let ghost before = self.open_tables@;
            self.close(meta.id);
            let ghost mid = self.open_tables@;
            let ghost n = self.manifest.next_table_id;
            self.manifest.add_table(meta.copy());
            let ghost new = table;
            self.open_tables.push(table);
            proof {
                let more = all.subrange(0, i + 1);
                assert(more.drop_last() =~= all.subrange(0, i as int));
                assert(more.last() == t);
                assert(new.meta@.id == t.id);
                assert forall|x: SSTable| #[trigger] mid.contains(x) implies x.meta.id
                    != new.meta.id by {}
                lemma_joined(mid, new, n, self.manifest.next_table_id);
                assert(ids_below(
                    all_added(old(self).manifest@, all.subrange(0, i as int)),
                    self.manifest.next_table_id,
                ));
                lemma_ids_added(
                    all_added(old(self).manifest@, all.subrange(0, i as int)),
                    t,
                    self.manifest.next_table_id,
                );
                assert forall|k: int| 0 <= k < self.open_tables@.len() implies from_file(
                    files@,
                    all,
                    #[trigger] self.open_tables@[k],
                ) by {
                    if k < mid.len() {
                        assert(self.open_tables@[k] == mid[k]);
                        assert(mid.contains(mid[k]));
                        assert(before.contains(mid[k]));
                        let p = choose|p: int| 0 <= p < before.len() && before[p] == mid[k];
                        assert(from_file(files@, all, before[p]));
                    } else {
                        assert(self.open_tables@[k] == new);
                        assert(all[i as int].id == new.meta.id);
                    }
                }
                assert forall|k: int| 0 <= k < i + 1 implies loadable(files@, #[trigger] all[k])
                    && loaded(files@, self.open_tables@, all[k]) by {
                    let now = self.open_tables@;
                    if k < i && all[k].id != t.id {
                        assert(loaded(files@, before, all[k]));
                        let p = choose|p: int|
                            0 <= p < before.len() && (#[trigger] before[p]).meta.id == all[k].id
                                && opened(
                                file_for(files@, all[k].id)->0,
                                all[k].id,
                                before[p].meta.level,
                                before[p],
                            );
                        assert(before.contains(before[p]));
                        assert(mid.contains(before[p]));
                        let q = choose|q: int| 0 <= q < mid.len() && mid[q] == before[p];
                        assert(now[q] == before[p]);
                    } else {
                        assert(now[mid.len() as int] == new);
                        assert(new.meta@.level == t.level);
                    }
                }
            }
            i += 1;
        }
        assert(all.subrange(0, i as int) =~= all);
        Ok(())
    }
}

} // verus!

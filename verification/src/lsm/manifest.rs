//! Durable level manifest: the LSM's record of which SSTables are live.
//!
//! # Format
//!
//! An append-only log of *edits*:
//!
//! ```text
//!   [ len u32 ][ crc32 u32 ][ edit ... ]
//! ```
//!
//! Recovery replays every intact frame and stops at the first short or
//! bad-CRC frame. A torn tail is the expected state after a crash, not
//! corruption: the edit that was mid-write simply never happened.
//!
//! # Why edits rather than snapshots
//!
//! Appending one small record per flush/compaction costs a single write, where
//! rewriting the whole table list would cost O(tables) on every change. The log
//! is compacted ([`Manifest::compact`]) into a single `FullSnapshot` edit
//! whenever it grows past a threshold, so replay stays bounded.
//!
//! # Crash-consistency contract
//!
//! 1. Write the new SSTable and sync it.
//! 2. Append the manifest edit and sync it.  ← the commit point
//! 3. Only then unlink the inputs the edit obsoletes.
//!
//! A crash before step 2 leaves an orphaned file that no edit references. A
//! crash after step 2 but before step 3 leaves a file that is no longer
//! referenced. At no point can the manifest reference a file that does not
//! exist.

use crate::bytes::{
    begins, copy_bytes, get_u32, le32, lemma_u32_roundtrip, push_bytes, push_u32, u32_at,
};
use crate::checksum::{crc32, crc32_of};
use crate::error::Error;
use crate::lsm::compaction::metas;
use crate::lsm::edit::{
    edit_bytes, edit_ok, law_edit_bytes_are_readable, stored_metas, Edit, ManifestEdit,
    SerializableMeta,
};
use crate::lsm::sstable::{Summary, TableMeta};
use vstd::prelude::*;
use vstd::slice::slice_subrange;

verus! {

/// File name of the manifest inside the LSM directory.
pub const MANIFEST_FILE: &'static str = "MANIFEST";

/// Refuse to allocate for a frame larger than this (guards a corrupt length).
pub const MAX_RECORD_BYTES: u32 = 0x100_0000;

/// Compact the log once it exceeds this many edits.
pub const COMPACT_AFTER_EDITS: u64 = 1024;

/// The payload of the frame that starts at `pos` and the offset just past it,
/// if an intact frame starts there.
pub open spec fn frame_at(log: Seq<u8>, pos: int) -> Option<(Seq<u8>, int)> {
    if pos + 8 > log.len() {
        None
    } else {
        let len = u32_at(log, pos);
        let end = pos + 8 + len;
        if len == 0 || len > MAX_RECORD_BYTES || end > log.len() {
            None
        } else {
            let payload = log.subrange(pos + 8, end);
            if crc32(payload) != u32_at(log, pos + 4) {
                None
            } else {
                Some((payload, end))
            }
        }
    }
}

/// Bytes begin with an edit.
pub open spec fn holds_edit(b: Seq<u8>, e: Edit) -> bool {
    edit_ok(e) && begins(b, edit_bytes(e))
}

/// The edit that bytes begin with.
pub open spec fn edit_in(b: Seq<u8>) -> Option<Edit> {
    if exists|e: Edit| holds_edit(b, e) {
        Some(choose|e: Edit| holds_edit(b, e))
    } else {
        None
    }
}

/// The edit in the frame that starts at `pos` and the offset just past the
/// frame.
pub open spec fn next_edit(log: Seq<u8>, pos: int) -> Option<(Edit, int)> {
    match frame_at(log, pos) {
        Some((payload, end)) => match edit_in(payload) {
            Some(e) => Some((e, end)),
            None => None,
        },
        None => None,
    }
}

/// What a log says.
pub ghost struct Replayed {
    /// Live tables.
    pub tables: Seq<Summary>,
    /// Next table id to hand out.
    pub next_table_id: u64,
    /// Highest checkpointed sequence number.
    pub checkpoint: u64,
    /// Edits replayed.
    pub edits: nat,
}

/// What an empty log says.
pub open spec fn at_first() -> Replayed {
    Replayed { tables: Seq::empty(), next_table_id: 1, checkpoint: 0, edits: 0 }
}

/// The tables of other ids.
pub open spec fn other_ids(v: Seq<Summary>, id: u64) -> Seq<Summary>
    decreases v.len(),
{
    if v.len() == 0 {
        v
    } else {
        let less = other_ids(v.drop_last(), id);
        if v.last().id != id {
            less.push(v.last())
        } else {
            less
        }
    }
}

/// The tables but those of the id at the level.
pub open spec fn other_tables(v: Seq<Summary>, level: u32, id: u64) -> Seq<Summary>
    decreases v.len(),
{
    if v.len() == 0 {
        v
    } else {
        let less = other_tables(v.drop_last(), level, id);
        if !(v.last().id == id && v.last().level == level) {
            less.push(v.last())
        } else {
            less
        }
    }
}

/// The number after an id; the largest number is its own successor.
pub open spec fn following(id: u64) -> u64 {
    if id < u64::MAX {
        (id + 1) as u64
    } else {
        id
    }
}

/// The next free id once the ids of a list are taken.
pub open spec fn reserved(next: u64, v: Seq<Summary>) -> u64
    decreases v.len(),
{
    if v.len() == 0 {
        next
    } else {
        let n = reserved(next, v.drop_last());
        if following(v.last().id) > n {
            following(v.last().id)
        } else {
            n
        }
    }
}

/// What a log says with one more edit.
///
/// A compaction moves a table between levels, and the same id must not linger
/// at the old level; a snapshot supersedes everything before it.
pub open spec fn stepped(s: Replayed, e: Edit) -> Replayed {
    let done = Replayed { edits: s.edits + 1, ..s };
    match e {
        Edit::Add(m) => Replayed {
            tables: other_ids(s.tables, m.id).push(m),
            next_table_id: if following(m.id) > s.next_table_id {
                following(m.id)
            } else {
                s.next_table_id
            },
            ..done
        },
        Edit::Remove(level, id) => Replayed { tables: other_tables(s.tables, level, id), ..done },
        Edit::Snapshot(v, next) => Replayed {
            tables: v,
            next_table_id: reserved(
                if next > 1 {
                    next
                } else {
                    1
                },
                v,
            ),
            ..done
        },
        Edit::Durable(seqno) => Replayed {
            checkpoint: if seqno > s.checkpoint {
                seqno
            } else {
                s.checkpoint
            },
            ..done
        },
    }
}

/// What a log says from `pos` on, after what came before, and where its intact
/// frames end.
pub open spec fn replay(log: Seq<u8>, pos: int, s: Replayed) -> (Replayed, int)
    decreases log.len() - pos,
{
    match next_edit(log, pos) {
        Some((e, end)) => replay(log, end, stepped(s, e)),
        None => (s, pos),
    }
}

/// What a log says, and where its intact frames end.
pub open spec fn replayed(log: Seq<u8>) -> (Replayed, int) {
    replay(log, 0, at_first())
}

/// An edit in its frame.
pub open spec fn frame_of(e: Edit) -> Seq<u8> {
    let b = edit_bytes(e);
    le32(b.len() as u32) + le32(crc32(b)) + b
}

/// The edit is small enough for a frame.
pub open spec fn frames(e: Edit) -> bool {
    edit_bytes(e).len() <= MAX_RECORD_BYTES
}

/// The result of replaying a manifest log.
#[derive(Debug)]
pub struct ManifestState {
    /// Live tables, in no particular order.
    pub tables: Vec<TableMeta>,
    /// Next table id to hand out.
    pub next_table_id: u64,
    /// Highest checkpointed sequence number.
    pub checkpoint_seqno: u64,
    /// Edits successfully replayed.
    pub edits_replayed: u64,
    /// Bytes discarded from a torn tail.
    pub truncated_bytes: u64,
}

impl View for ManifestState {
    type V = Replayed;

    open spec fn view(&self) -> Replayed {
        Replayed {
            tables: metas(self.tables@),
            next_table_id: self.next_table_id,
            checkpoint: self.checkpoint_seqno,
            edits: self.edits_replayed as nat,
        }
    }
}

/// Append-only manifest log.
#[derive(Debug)]
pub struct Manifest {
    /// The log so far.
    pub log: Vec<u8>,
    /// Edits appended through this handle.
    pub edits_written: u64,
}

/// Bytes hold one edit at most.
proof fn lemma_edit_in(b: Seq<u8>, e: Edit)
    requires
        holds_edit(b, e),
    ensures
        edit_in(b) == Some(e),
{
    let d = choose|d: Edit| holds_edit(b, d);
    law_edit_bytes_are_readable(b, d, e);
}

/// Keeps the tables of other ids.
fn keep_other_ids(v: Vec<TableMeta>, id: u64) -> (out: Vec<TableMeta>)
    ensures
        metas(out@) == other_ids(metas(v@), id),
{
    let ghost all = metas(v@);
    let mut out: Vec<TableMeta> = Vec::new();
    let mut i: usize = 0;
    assert(metas(out@) =~= other_ids(all.subrange(0, 0), id));
    while i < v.len()
        invariant
            i <= v@.len(),
            all == metas(v@),
            metas(out@) == other_ids(all.subrange(0, i as int), id),
        decreases v@.len() - i,
    {
        let ghost was = metas(out@);
        proof {
            let more = all.subrange(0, i + 1);
            assert(more.drop_last() =~= all.subrange(0, i as int));
            assert(more.last() == v@[i as int]@);
        }
        if v[i].id != id {
            out.push(v[i].copy());
            assert(metas(out@) =~= was.push(v@[i as int]@));
        }
        i += 1;
    }
    assert(all.subrange(0, i as int) =~= all);
    out
}

/// Keeps the tables but those of the id at the level.
fn keep_other_tables(v: Vec<TableMeta>, level: u32, id: u64) -> (out: Vec<TableMeta>)
    ensures
        metas(out@) == other_tables(metas(v@), level, id),
{
    let ghost all = metas(v@);
    let mut out: Vec<TableMeta> = Vec::new();
    let mut i: usize = 0;
    assert(metas(out@) =~= other_tables(all.subrange(0, 0), level, id));
    while i < v.len()
        invariant
            i <= v@.len(),
            all == metas(v@),
            metas(out@) == other_tables(all.subrange(0, i as int), level, id),
        decreases v@.len() - i,
    {
        let ghost was = metas(out@);
        proof {
            let more = all.subrange(0, i + 1);
            assert(more.drop_last() =~= all.subrange(0, i as int));
            assert(more.last() == v@[i as int]@);
        }
        if !(v[i].id == id && v[i].level == level) {
            out.push(v[i].copy());
            assert(metas(out@) =~= was.push(v@[i as int]@));
        }
        i += 1;
    }
    assert(all.subrange(0, i as int) =~= all);
    out
}

/// The number after an id.
fn next_id(id: u64) -> (n: u64)
    ensures
        n == following(id),
{
    if id < u64::MAX {
        id + 1
    } else {
        id
    }
}

/// Turns stored summaries into summaries, and takes their ids.
fn install(tables: Vec<SerializableMeta>, next: u64) -> (r: (Vec<TableMeta>, u64))
    ensures
        metas(r.0@) == stored_metas(tables@),
        r.1 == reserved(next, stored_metas(tables@)),
{
    let ghost all = stored_metas(tables@);
    let mut live: Vec<TableMeta> = Vec::new();
    let mut n: u64 = next;
    let mut i: usize = 0;
    assert(metas(live@) =~= all.subrange(0, 0));
    while i < tables.len()
        invariant
            i <= tables@.len(),
            all == stored_metas(tables@),
            metas(live@) == all.subrange(0, i as int),
            n == reserved(next, all.subrange(0, i as int)),
        decreases tables@.len() - i,
    {
        let ghost was = metas(live@);
        let m: &SerializableMeta = &tables[i];
        let meta: TableMeta = TableMeta {
            id: m.id,
            level: m.level,
            min_key: copy_bytes(m.min_key.as_slice()),
            max_key: copy_bytes(m.max_key.as_slice()),
            min_seqno: m.min_seqno,
            max_seqno: m.max_seqno,
            entry_count: m.entry_count,
            file_bytes: m.file_bytes,
        };
        proof {
            let more = all.subrange(0, i + 1);
            assert(more.drop_last() =~= all.subrange(0, i as int));
            assert(more.last() == meta@);
            assert(more =~= was.push(meta@));
        }
        let after: u64 = next_id(meta.id);
        if after > n {
            n = after;
        }
        let ghost t = meta@;
        live.push(meta);
        assert(metas(live@) =~= was.push(t));
        i += 1;
    }
    assert(all.subrange(0, i as int) =~= all);
    (live, n)
}

impl ManifestState {
    /// Nothing was replayed yet.
    fn fresh() -> (s: ManifestState)
        ensures
            s@ == at_first(),
            s.truncated_bytes == 0,
    {
        let s: ManifestState = ManifestState {
            tables: Vec::new(),
            next_table_id: 1,
            checkpoint_seqno: 0,
            edits_replayed: 0,
            truncated_bytes: 0,
        };
        assert(metas(s.tables@) =~= Seq::<Summary>::empty());
        s
    }

    /// Replays one edit.
    fn step(self, edit: ManifestEdit) -> (s: ManifestState)
        requires
            self.edits_replayed < u64::MAX,
        ensures
            s@ == stepped(self@, edit@),
    {
        let mut s: ManifestState = self;
        s.edits_replayed = s.edits_replayed + 1;
        match edit {
            ManifestEdit::AddTable { meta } => {
                let after: u64 = next_id(meta.id);
                if after > s.next_table_id {
                    s.next_table_id = after;
                }
                let ghost m = meta@;
                let mut live: Vec<TableMeta> = keep_other_ids(s.tables, meta.id);
                let ghost was = metas(live@);
                live.push(meta.into_meta());
                assert(metas(live@) =~= was.push(m));
                s.tables = live;
            },
            ManifestEdit::RemoveTable { level, id } => {
                s.tables = keep_other_tables(s.tables, level, id);
            },
            ManifestEdit::FullSnapshot { tables, next_table_id } => {
                let first: u64 = if next_table_id > 1 {
                    next_table_id
                } else {
                    1
                };
                let (live, next): (Vec<TableMeta>, u64) = install(tables, first);
                s.tables = live;
                s.next_table_id = next;
            },
            ManifestEdit::Checkpoint { seqno } => {
                if seqno > s.checkpoint_seqno {
                    s.checkpoint_seqno = seqno;
                }
            },
        }
        s
    }
}

impl Manifest {
    /// Opens the manifest whose log is `log`, positioned to append.
    pub fn open(log: Vec<u8>) -> (m: Self)
        ensures
            m.log == log,
            m.edits_written == 0,
    {
        Manifest { log, edits_written: 0 }
    }

    /// Edits appended through this handle.
    #[must_use]
    pub fn edits_written(&self) -> (n: u64)
        ensures
            n == self.edits_written,
    {
        self.edits_written
    }

    /// Current size of the manifest in bytes.
    pub fn size(&self) -> (n: u64)
        ensures
            n == self.log@.len(),
    {
        self.log.len() as u64
    }

    /// The edits counted are in the log.
    pub open spec fn wf(&self) -> bool {
        8 * self.edits_written <= self.log@.len()
    }

    /// Appends `edit`.
    ///
    /// This is the commit point for a flush or compaction: once the log is on
    /// stable storage, the change survives a power loss.
    pub fn append(&mut self, edit: &ManifestEdit) -> (r: Result<(), Error>)
        requires
            old(self).wf(),
        ensures
            final(self).wf(),
            match r {
                Ok(_) => frames(edit@) && final(self).log@ == old(self).log@ + frame_of(edit@)
                    && final(self).edits_written == old(self).edits_written + 1,
                Err(e) => !frames(edit@) && e is Full && *final(self) == *old(self),
            },
    {
        let payload: Vec<u8> = match edit.encode() {
            Some(b) => b,
            None => return Err(Error::full("manifest edit cannot be encoded")),
        };
        if payload.len() > MAX_RECORD_BYTES as usize {
            return Err(Error::full("manifest edit exceeds the record limit"));
        }
        let ghost was = self.log@;
        let crc: u32 = crc32_of(payload.as_slice());
        push_u32(&mut self.log, payload.len() as u32);
        push_u32(&mut self.log, crc);
        push_bytes(&mut self.log, payload.as_slice());
        let n: usize = self.log.len();
        assert(self.log@ =~= was + frame_of(edit@));
        self.edits_written = self.edits_written + 1;
        Ok(())
    }

    /// Replays the manifest `log`, returning the live table set.
    ///
    /// A torn tail is left out rather than reported as an error — that is the
    /// expected state after a crash mid-append.
    pub fn recover(log: &[u8]) -> (s: ManifestState)
        ensures
            s@ == replayed(log@).0,
            s.truncated_bytes == log@.len() - replayed(log@).1,
            0 <= replayed(log@).1 <= log@.len(),
    {
        let n: usize = log.len();
        let mut state: ManifestState = ManifestState::fresh();
        let mut cursor: usize = 0;
        let mut going: bool = true;
        while going
            invariant
                n == log@.len(),
                cursor <= n,
                state.edits_replayed <= cursor,
                going ==> replayed(log@) == replay(log@, cursor as int, state@),
                !going ==> replayed(log@) == (state@, cursor as int),
            decreases
                    n - cursor,
                    if going {
                        1int
                    } else {
                        0
                    },
        {
            match Manifest::read_edit(log, cursor) {
                Some((edit, end)) => {
                    state = state.step(edit);
                    cursor = end;
                },
                None => {
                    going = false;
                },
            }
        }
        state.truncated_bytes = (n - cursor) as u64;
        state
    }

    /// Reads the edit in the frame that starts at `pos`.
    fn read_edit(log: &[u8], pos: usize) -> (r: Option<(ManifestEdit, usize)>)
        requires
            pos <= log@.len(),
        ensures
            match r {
                Some((e, end)) => next_edit(log@, pos as int) == Some((e@, end as int)) && pos
                    < end <= log@.len(),
                None => next_edit(log@, pos as int) is None,
            },
    {
        let n: usize = log.len();
        if n - pos < 8 {
            return None;
        }
        let len: u32 = get_u32(log, pos);
        let crc: u32 = get_u32(log, pos + 4);
        if len == 0 || len > MAX_RECORD_BYTES {
            return None;
        }
        let start: usize = pos + 8;
        if n - start < len as usize {
            return None;
        }
        let end: usize = start + len as usize;
        let payload: &[u8] = slice_subrange(log, start, end);
        if crc32_of(payload) != crc {
            return None;
        }
        match ManifestEdit::decode(payload) {
            Some(e) => {
                proof {
                    assert(holds_edit(payload@, e@));
                    lemma_edit_in(payload@, e@);
                }
                Some((e, end))
            },
            None => {
                assert(forall|e: Edit| !holds_edit(payload@, e));
                None
            },
        }
    }

    /// Rewrites the log as one `FullSnapshot`, bounding replay time.
    #[verifier::rlimit(60)]
    #[verifier::spinoff_prover]
    pub fn compact(
        tables: &Vec<TableMeta>,
        next_table_id: u64,
        checkpoint_seqno: u64,
    ) -> (r: Result<Manifest, Error>)
        ensures
            ({
                let e = Edit::Snapshot(metas(tables@), next_table_id);
                match r {
                    Ok(m) => {
                        &&& frames(e)
                        &&& m.edits_written == 0
                        &&& m.log@ == frame_of(e) + if checkpoint_seqno > 0 {
                            frame_of(Edit::Durable(checkpoint_seqno))
                        } else {
                            Seq::empty()
                        }
                    },
                    Err(x) => x is Full && !frames(e),
                }
            }),
    {
        let list: Vec<SerializableMeta> = store_metas(tables);
        let mut m: Manifest = Manifest::open(Vec::new());
        let edit: ManifestEdit = ManifestEdit::FullSnapshot { tables: list, next_table_id };
        match m.append(&edit) {
            Ok(_) => {},
            Err(e) => return Err(e),
        }
        assert(m.log@ =~= frame_of(edit@));
        if checkpoint_seqno > 0 {
            let mark: ManifestEdit = ManifestEdit::Checkpoint { seqno: checkpoint_seqno };
            assert(edit_bytes(mark@).len() == 12);
            match m.append(&mark) {
                Ok(_) => {},
                Err(e) => return Err(e),
            }
        }
        assert(m.log@ =~= frame_of(edit@) + if checkpoint_seqno > 0 {
            frame_of(Edit::Durable(checkpoint_seqno))
        } else {
            Seq::empty()
        });
        Ok(Manifest::open(m.log))
    }
}

/// Summaries in the form that the log stores.
fn store_metas(tables: &Vec<TableMeta>) -> (list: Vec<SerializableMeta>)
    ensures
        stored_metas(list@) == metas(tables@),
{
    let mut list: Vec<SerializableMeta> = Vec::new();
    let ghost all = metas(tables@);
    let mut i: usize = 0;
    assert(stored_metas(list@) =~= all.subrange(0, 0));
    while i < tables.len()
        invariant
            i <= tables@.len(),
            all == metas(tables@),
            stored_metas(list@) == all.subrange(0, i as int),
        decreases tables@.len() - i,
    {
        let ghost was = stored_metas(list@);
        list.push(SerializableMeta::from_meta(&tables[i]));
        assert(stored_metas(list@) =~= was.push(tables@[i as int]@));
        assert(all.subrange(0, i + 1) =~= was.push(tables@[i as int]@));
        i += 1;
    }
    assert(all.subrange(0, i as int) =~= all);
    list
}

/// An intact frame is read as its edit.
proof fn lemma_frame(log: Seq<u8>, pos: int, e: Edit)
    requires
        0 <= pos,
        frames(e),
        edit_ok(e),
        pos + frame_of(e).len() <= log.len(),
        log.subrange(pos, pos + frame_of(e).len()) == frame_of(e),
    ensures
        next_edit(log, pos) == Some((e, pos + frame_of(e).len())),
{
    let b = edit_bytes(e);
    let f = frame_of(e);
    let s = log.subrange(pos, pos + f.len());
    assert(b.len() >= 4);
    assert(log.subrange(pos, pos + 4) =~= s.subrange(0, 4));
    assert(f.subrange(0, 4) =~= le32(b.len() as u32));
    assert(log.subrange(pos + 4, pos + 8) =~= s.subrange(4, 8));
    assert(f.subrange(4, 8) =~= le32(crc32(b)));
    assert(log.subrange(pos + 8, pos + f.len()) =~= s.subrange(8, f.len() as int));
    assert(f.subrange(8, f.len() as int) =~= b);
    lemma_u32_roundtrip(log, pos, b.len() as u32);
    lemma_u32_roundtrip(log, pos + 4, crc32(b));
    assert(b =~= b + Seq::<u8>::empty());
    assert(begins(b, edit_bytes(e)));
    assert(holds_edit(b, e));
    lemma_edit_in(b, e);
}

/// Frames before `end` are read alike in a log and in what extends it.
proof fn lemma_same_frame(log: Seq<u8>, more: Seq<u8>, pos: int)
    requires
        0 <= pos,
        next_edit(log, pos) is Some,
    ensures
        next_edit(log + more, pos) == next_edit(log, pos),
{
    let longer = log + more;
    assert(u32_at(longer, pos) == u32_at(log, pos));
    assert(u32_at(longer, pos + 4) == u32_at(log, pos + 4));
    let end = pos + 8 + u32_at(log, pos);
    assert(longer.subrange(pos + 8, end) =~= log.subrange(pos + 8, end));
}

/// What a log says is what its intact frames say, then what comes behind them.
proof fn lemma_replay_on(log: Seq<u8>, more: Seq<u8>, pos: int, s: Replayed)
    requires
        0 <= pos <= log.len(),
        replay(log, pos, s).1 == log.len(),
    ensures
        replay(log + more, pos, s) == replay(log + more, log.len() as int, replay(log, pos, s).0),
    decreases log.len() - pos,
{
    match next_edit(log, pos) {
        Some((e, end)) => {
            lemma_same_frame(log, more, pos);
            lemma_replay_on(log, more, end, stepped(s, e));
        },
        None => {},
    }
}

/// Where the intact frames of a log end, they end in it.
proof fn lemma_replay_bounds(log: Seq<u8>, pos: int, s: Replayed)
    requires
        0 <= pos <= log.len(),
    ensures
        pos <= replay(log, pos, s).1 <= log.len(),
    decreases log.len() - pos,
{
    match next_edit(log, pos) {
        Some((e, end)) => lemma_replay_bounds(log, end, stepped(s, e)),
        None => {},
    }
}

proof fn lemma_replay_cut(log: Seq<u8>, pos: int, s: Replayed)
    requires
        0 <= pos <= log.len(),
    ensures
        replay(log.subrange(0, replay(log, pos, s).1), pos, s) == replay(log, pos, s),
    decreases log.len() - pos,
{
    let good = replay(log, pos, s).1;
    let cut = log.subrange(0, good);
    lemma_replay_bounds(log, pos, s);
    match next_edit(log, pos) {
        Some((e, end)) => {
            lemma_replay_bounds(log, end, stepped(s, e));
            lemma_replay_cut(log, end, stepped(s, e));
            assert(u32_at(cut, pos) == u32_at(log, pos));
            assert(u32_at(cut, pos + 4) == u32_at(log, pos + 4));
            assert(cut.subrange(pos + 8, end) =~= log.subrange(pos + 8, end));
            assert(next_edit(cut, pos) == next_edit(log, pos));
        },
        None => {
            assert(cut.len() == pos);
        },
    }
}

/// A log cut off where its intact frames end says the same, and is whole.
pub proof fn law_cut_logs_are_whole(log: Seq<u8>)
    ensures
        0 <= replayed(log).1 <= log.len(),
        replayed(log.subrange(0, replayed(log).1)) == replayed(log),
        log.subrange(0, replayed(log).1).len() == replayed(log).1,
{
    lemma_replay_bounds(log, 0, at_first());
    lemma_replay_cut(log, 0, at_first());
}

/// A log that is whole says, with one more edit appended, what it said and then
/// the edit; it stays whole.
pub proof fn law_appended_edits_are_replayed(log: Seq<u8>, e: Edit)
    requires
        replayed(log).1 == log.len(),
        edit_ok(e),
        frames(e),
    ensures
        replayed(log + frame_of(e)).0 == stepped(replayed(log).0, e),
        replayed(log + frame_of(e)).1 == (log + frame_of(e)).len(),
{
    let longer = log + frame_of(e);
    let n = log.len() as int;
    lemma_replay_on(log, frame_of(e), 0, at_first());
    assert(longer.subrange(n, n + frame_of(e).len()) =~= frame_of(e));
    lemma_frame(longer, n, e);
    let s = stepped(replayed(log).0, e);
    assert(next_edit(longer, longer.len() as int) is None);
    assert(replay(longer, longer.len() as int, s) == (s, longer.len() as int));
}

/// A torn tail is no edit: a log that is whole says the same with part of a
/// frame behind it, and its intact frames end where they did.
pub proof fn law_torn_tails_change_nothing(log: Seq<u8>, e: Edit, kept: int)
    requires
        replayed(log).1 == log.len(),
        frames(e),
        0 <= kept < frame_of(e).len(),
    ensures
        replayed(log + frame_of(e).subrange(0, kept)) == replayed(log),
{
    let part = frame_of(e).subrange(0, kept);
    let longer = log + part;
    let n = log.len() as int;
    lemma_replay_on(log, part, 0, at_first());
    assert(next_edit(longer, n) is None) by {
        if kept >= 8 {
            let b = edit_bytes(e);
            assert(longer.subrange(n, n + 4) =~= le32(b.len() as u32));
            lemma_u32_roundtrip(longer, n, b.len() as u32);
        }
    }
}

/// A compacted log says what it was made from: the tables, the next id, which
/// is past the ids of the tables, and the checkpoint.
pub proof fn law_compacted_logs_say_the_same(tables: Seq<Summary>, next: u64, checkpoint: u64)
    requires
        edit_ok(Edit::Snapshot(tables, next)),
        frames(Edit::Snapshot(tables, next)),
    ensures
        ({
            let log = frame_of(Edit::Snapshot(tables, next)) + if checkpoint > 0 {
                frame_of(Edit::Durable(checkpoint))
            } else {
                Seq::empty()
            };
            let s = replayed(log).0;
            &&& s.tables == tables
            &&& s.next_table_id == reserved(
                if next > 1 {
                    next
                } else {
                    1
                },
                tables,
            )
            &&& s.checkpoint == checkpoint
            &&& replayed(log).1 == log.len()
        }),
{
    let none = Seq::<u8>::empty();
    let e = Edit::Snapshot(tables, next);
    assert(next_edit(none, 0) is None);
    assert(replayed(none) == (at_first(), 0int));
    law_appended_edits_are_replayed(none, e);
    assert(none + frame_of(e) =~= frame_of(e));
    if checkpoint > 0 {
        let d = Edit::Durable(checkpoint);
        assert(edit_bytes(d).len() == 12);
        law_appended_edits_are_replayed(frame_of(e), d);
    } else {
        assert(frame_of(e) + none =~= frame_of(e));
    }
}

} // verus!

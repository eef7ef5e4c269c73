//! The write-ahead log: committed transactions, one checked frame each.
//!
//! A frame is the length of its payload, the payload's checksum and the
//! payload: the transaction's id, its commit time and its writes. A torn tail
//! is the expected state after a crash and is left out.

use crate::bytes::{
    copy_bytes, get_u32, get_u64, le32, le64, lemma_u32_roundtrip, lemma_u64_roundtrip, push_bytes,
    push_u32, push_u64, u32_at, u64_at,
};
use crate::checksum::{crc32, crc32_of};
use crate::database::batch::BatchOp;
use crate::error::{Error, Result};
use crate::interface::{
    allowed, batch_bytes, batch_of, change_bytes, changes, law_batches_are_read_back, parse_batch,
    Change, BATCH_DELETE, BATCH_PUT,
};
use crate::lsm::memtable::shown;
use crate::lsm::version::{slot_of, ValueSlot};
use crate::txn::{Commit, Says};
use vstd::prelude::*;
use vstd::slice::slice_subrange;

verus! {

/// A committed transaction in the log.
pub struct Logged {
    /// Its id.
    pub txn: u64,
    /// When it was committed.
    pub ts: u64,
    /// What it wrote.
    pub changes: Seq<Change>,
}

/// The writes of a list, as steps.
pub open spec fn steps(l: Seq<(Seq<u8>, Says)>) -> Seq<Change> {
    Seq::new(
        l.len(),
        |i: int|
            match l[i].1 {
                Some(v) => Change::Put(l[i].0, v),
                None => Change::Delete(l[i].0),
            },
    )
}

/// What a step says of its key.
pub open spec fn slot_said(c: Change) -> (Seq<u8>, Says) {
    match c {
        Change::Put(k, v) => (k, Some(v)),
        Change::Delete(k) => (k, None),
        Change::DeleteIfExists(k) => (k, None),
    }
}

/// Steps, as writes.
pub open spec fn slots(l: Seq<Change>) -> Seq<(Seq<u8>, Says)> {
    Seq::new(l.len(), |i: int| slot_said(l[i]))
}

/// The payload of a frame.
pub open spec fn payload_of(e: Logged) -> Seq<u8> {
    le64(e.txn) + (le64(e.ts) + batch_bytes(e.changes))
}

/// A frame.
pub open spec fn frame_of(e: Logged) -> Seq<u8> {
    let p = payload_of(e);
    le32(p.len() as u32) + (le32(crc32(p)) + p)
}

/// The transaction may be logged: its writes are within their limits, and all
/// of it fits into a frame.
pub open spec fn loggable(e: Logged) -> bool {
    &&& all_allowed(e.changes)
    &&& payload_of(e).len() <= u32::MAX
}

/// Every step is within its limits.
pub open spec fn all_allowed(l: Seq<Change>) -> bool {
    forall|i: int| 0 <= i < l.len() ==> allowed(#[trigger] l[i])
}

/// The transaction that a payload holds.
pub open spec fn logged_in(p: Seq<u8>) -> Option<Logged> {
    if p.len() < 16 {
        None
    } else {
        match batch_of(p.skip(16)) {
            Some(c) => Some(Logged { txn: u64_at(p, 0), ts: u64_at(p, 8), changes: c }),
            None => None,
        }
    }
}

/// The transaction in the frame that starts at `pos`, and where the frame
/// ends, if an intact frame starts there.
pub open spec fn logged_at(log: Seq<u8>, pos: int) -> Option<(Logged, int)> {
    let end = pos + 8 + u32_at(log, pos);
    if pos + 8 > log.len() || end > log.len() {
        None
    } else {
        let p = log.subrange(pos + 8, end);
        if crc32(p) != u32_at(log, pos + 4) {
            None
        } else {
            match logged_in(p) {
                Some(e) => Some((e, end)),
                None => None,
            }
        }
    }
}

/// The transactions from `pos` on, behind those before it, and where the
/// intact frames end.
pub open spec fn read_on(log: Seq<u8>, pos: int, l: Seq<Logged>) -> (Seq<Logged>, int)
    decreases log.len() - pos,
{
    match logged_at(log, pos) {
        Some((e, end)) => read_on(log, end, l.push(e)),
        None => (l, pos),
    }
}

/// The transactions of a log, and where its intact frames end.
pub open spec fn read_log(log: Seq<u8>) -> (Seq<Logged>, int) {
    read_on(log, 0, Seq::empty())
}

/// The highest transaction id of a list.
pub open spec fn top(l: Seq<Logged>) -> u64
    decreases l.len(),
{
    if l.len() == 0 {
        0
    } else if top(l.drop_last()) < l.last().txn {
        l.last().txn
    } else {
        top(l.drop_last())
    }
}

/// What a log gives back.
pub struct Recovery {
    /// The committed transactions, oldest first.
    pub committed: Vec<Commit>,
    /// The highest transaction id.
    pub max_txn_id: u64,
    /// Where the intact frames end: what lies behind is a torn tail.
    pub valid_bytes: usize,
}

/// Commits say what was logged.
pub open spec fn matches_log(v: Seq<Commit>, l: Seq<Logged>) -> bool {
    &&& v.len() == l.len()
    &&& forall|i: int|
        0 <= i < v.len() ==> (#[trigger] v[i]).ts == l[i].ts && shown(v[i].writes@) == slots(
            l[i].changes,
        )
}

fn push_change(out: &mut Vec<u8>, key: &[u8], slot: &ValueSlot)
    requires
        key@.len() <= u32::MAX,
        slot matches Some(v) ==> v@.len() <= u32::MAX,
    ensures
        final(out)@ == old(out)@ + change_bytes(
            match slot_of(*slot) {
                Some(v) => Change::Put(key@, v),
                None => Change::Delete(key@),
            },
        ),
{
    let ghost was = out@;
    match slot {
        Some(v) => {
            out.push(BATCH_PUT);
            push_u32(out, key.len() as u32);
            push_bytes(out, key);
            push_u32(out, v.len() as u32);
            push_bytes(out, v.as_slice());
            assert(out@ =~= was + change_bytes(Change::Put(key@, v@)));
        },
        None => {
            out.push(BATCH_DELETE);
            push_u32(out, key.len() as u32);
            push_bytes(out, key);
            assert(out@ =~= was + change_bytes(Change::Delete(key@)));
        },
    }
}

/// A batch grows at its end.
proof fn lemma_batch_push(l: Seq<Change>, c: Change)
    ensures
        batch_bytes(l.push(c)) == batch_bytes(l) + change_bytes(c),
    decreases l.len(),
{
    let now = l.push(c);
    if l.len() == 0 {
        assert(now.skip(1) =~= Seq::empty());
        assert(batch_bytes(now.skip(1)) =~= Seq::empty());
        assert(batch_bytes(now) =~= change_bytes(c));
        assert(batch_bytes(l) + change_bytes(c) =~= change_bytes(c));
    } else {
        assert(now.skip(1) =~= l.skip(1).push(c));
        lemma_batch_push(l.skip(1), c);
        assert(batch_bytes(now) =~= batch_bytes(l) + change_bytes(c));
    }
}

/// The frame that makes a commit durable once it is in the log.
pub fn log_commit(txn: u64, c: &Commit) -> (r: Result<Vec<u8>>)
    ensures
        ({
            let e = Logged { txn, ts: c.ts, changes: steps(shown(c.writes@)) };
            match r {
                Ok(out) => loggable(e) && out@ == frame_of(e),
                Err(x) => !loggable(e) && if all_allowed(e.changes) {
                    x is Full
                } else {
                    x is InvalidArgument
                },
            }
        }),
{
    let ghost l = shown(c.writes@);
    let ghost e = Logged { txn, ts: c.ts, changes: steps(l) };
    let mut p: Vec<u8> = Vec::new();
    push_u64(&mut p, txn);
    push_u64(&mut p, c.ts);
    let ghost head = p@;
    let mut i: usize = 0;
    proof {
        assert(steps(l.take(0)) =~= Seq::empty());
        assert(head =~= head + batch_bytes(steps(l.take(0))));
    }
    while i < c.writes.len()
        invariant
            l == shown(c.writes@),
            e.changes == steps(l),
            i <= c.writes@.len(),
            p@ == head + batch_bytes(steps(l.take(i as int))),
            forall|j: int| 0 <= j < i ==> allowed(#[trigger] e.changes[j]),
        decreases c.writes@.len() - i,
    {
        let value_len: usize = match &c.writes[i].1 {
            Some(v) => v.len(),
            None => 0,
        };
        proof {
            assert(l[i as int] == (c.writes@[i as int].0@, slot_of(c.writes@[i as int].1)));
        }
        if c.writes[i].0.len() == 0 || c.writes[i].0.len() > crate::database::MAX_KEY_LEN
            || value_len > crate::database::MAX_VALUE_LEN {
            assert(!allowed(e.changes[i as int]));
            return Err(Error::invalid("a write is beyond its limits"));
        }
        push_change(&mut p, c.writes[i].0.as_slice(), &c.writes[i].1);
        proof {
            let s = steps(l.take(i as int));
            assert(steps(l.take(i + 1)) =~= s.push(e.changes[i as int]));
            lemma_batch_push(s, e.changes[i as int]);
            assert(p@ =~= head + batch_bytes(steps(l.take(i + 1))));
        }
        i += 1;
    }
    proof {
        assert(l.take(i as int) =~= l);
        assert(p@ =~= payload_of(e));
    }
    if p.len() as u64 > 0xFFFF_FFFF {
        return Err(Error::full("a transaction is too large for the log"));
    }
    let mut out: Vec<u8> = Vec::new();
    push_u32(&mut out, p.len() as u32);
    push_u32(&mut out, crc32_of(p.as_slice()));
    push_bytes(&mut out, p.as_slice());
    assert(out@ =~= frame_of(e));
    Ok(out)
}

/// Turns the steps of a batch into writes.
fn into_writes(ops: &Vec<BatchOp>) -> (out: Vec<(Vec<u8>, ValueSlot)>)
    ensures
        shown(out@) == slots(changes(ops@)),
{
    let mut out: Vec<(Vec<u8>, ValueSlot)> = Vec::new();
    let mut i: usize = 0;
    while i < ops.len()
        invariant
            i <= ops@.len(),
            out@.len() == i,
            forall|j: int| 0 <= j < i ==> #[trigger] shown(out@)[j] == slot_said(ops@[j]@),
        decreases ops@.len() - i,
    {
        let ghost was = shown(out@);
        let w: (Vec<u8>, ValueSlot) = match &ops[i] {
            BatchOp::Put(k, v) => (copy_bytes(k.as_slice()), Some(copy_bytes(v.as_slice()))),
            BatchOp::Delete(k) => (copy_bytes(k.as_slice()), None),
            BatchOp::DeleteIfExists(k) => (copy_bytes(k.as_slice()), None),
        };
        out.push(w);
        assert(forall|j: int| 0 <= j < i ==> #[trigger] shown(out@)[j] == was[j]);
        i += 1;
    }
    assert(shown(out@) =~= slots(changes(ops@)));
    out
}

/// Reads the frame that starts at `pos`.
fn read_frame(log: &[u8], pos: usize) -> (r: Option<(u64, Commit, usize)>)
    requires
        pos <= log@.len(),
    ensures
        match r {
            Some((txn, c, end)) => logged_at(log@, pos as int) matches Some((e, n)) && e.txn == txn
                && e.ts == c.ts && shown(c.writes@) == slots(e.changes) && n == end && pos < end
                <= log@.len(),
            None => logged_at(log@, pos as int) is None,
        },
{
    let n: usize = log.len();
    if n - pos < 8 {
        return None;
    }
    let len: u32 = get_u32(log, pos);
    let crc: u32 = get_u32(log, pos + 4);
    let start: usize = pos + 8;
    if n - start < len as usize {
        return None;
    }
    let end: usize = start + len as usize;
    let p: &[u8] = slice_subrange(log, start, end);
    if crc32_of(p) != crc {
        return None;
    }
    if p.len() < 16 {
        return None;
    }
    let rest: &[u8] = slice_subrange(p, 16, p.len());
    assert(rest@ =~= p@.skip(16));
    match parse_batch(rest) {
        Ok(ops) => Some(
            (get_u64(p, 0), Commit { ts: get_u64(p, 8), writes: into_writes(&ops) }, end),
        ),
        Err(_) => None,
    }
}

/// Reads a log: its committed transactions up to the first frame that is not
/// intact.
pub fn recover(log: &[u8]) -> (r: Recovery)
    ensures
        matches_log(r.committed@, read_log(log@).0),
        r.max_txn_id == top(read_log(log@).0),
        r.valid_bytes == read_log(log@).1,
        r.valid_bytes <= log@.len(),
{
    let mut committed: Vec<Commit> = Vec::new();
    let mut max_txn_id: u64 = 0;
    let mut pos: usize = 0;
    let mut going: bool = true;
    let ghost mut l: Seq<Logged> = Seq::empty();
    while going
        invariant
            pos <= log@.len(),
            matches_log(committed@, l),
            max_txn_id == top(l),
            going ==> read_log(log@) == read_on(log@, pos as int, l),
            !going ==> read_log(log@) == (l, pos as int),
        decreases
                log@.len() - pos,
                if going {
                    1int
                } else {
                    0
                },
    {
        match read_frame(log, pos) {
            Some((txn, c, end)) => {
                proof {
                    let e = (logged_at(log@, pos as int)->0).0;
                    assert(l.push(e).drop_last() =~= l);
                    l = l.push(e);
                }
                committed.push(c);
                if txn > max_txn_id {
                    max_txn_id = txn;
                }
                pos = end;
            },
            None => {
                going = false;
            },
        }
    }
    Recovery { committed, max_txn_id, valid_bytes: pos }
}

// ---- laws -----------------------------------------------------------------------------------

/// A payload is read as its transaction.
proof fn lemma_payload(e: Logged)
    requires
        loggable(e),
    ensures
        logged_in(payload_of(e)) == Some(e),
{
    let p = payload_of(e);
    assert(p.subrange(0, 8) =~= le64(e.txn));
    assert(p.subrange(8, 16) =~= le64(e.ts));
    lemma_u64_roundtrip(p, 0, e.txn);
    lemma_u64_roundtrip(p, 8, e.ts);
    assert(p.skip(16) =~= batch_bytes(e.changes));
    law_batches_are_read_back(e.changes);
}

/// A frame's length and checksum are read back, and its payload stands behind
/// them.
proof fn lemma_head(log: Seq<u8>, pos: int, p: Seq<u8>)
    requires
        0 <= pos,
        p.len() <= u32::MAX,
        pos + 8 + p.len() <= log.len(),
        log.subrange(pos, pos + 8 + p.len()) == le32(p.len() as u32) + (le32(crc32(p)) + p),
    ensures
        u32_at(log, pos) == p.len(),
        u32_at(log, pos + 4) == crc32(p),
        log.subrange(pos + 8, pos + 8 + p.len()) == p,
{
    let f = le32(p.len() as u32) + (le32(crc32(p)) + p);
    let s = log.subrange(pos, pos + 8 + p.len());
    assert(log.subrange(pos, pos + 4) =~= s.subrange(0, 4));
    assert(f.subrange(0, 4) =~= le32(p.len() as u32));
    assert(log.subrange(pos + 4, pos + 8) =~= s.subrange(4, 8));
    assert(f.subrange(4, 8) =~= le32(crc32(p)));
    lemma_u32_roundtrip(log, pos, p.len() as u32);
    lemma_u32_roundtrip(log, pos + 4, crc32(p));
    assert(log.subrange(pos + 8, pos + 8 + p.len()) =~= s.subrange(8, 8int + p.len()));
    assert(f.subrange(8, 8int + p.len()) =~= p);
}

/// An intact frame is read as its transaction.
proof fn lemma_frame(log: Seq<u8>, pos: int, e: Logged)
    requires
        0 <= pos,
        loggable(e),
        pos + frame_of(e).len() <= log.len(),
        log.subrange(pos, pos + frame_of(e).len()) == frame_of(e),
    ensures
        logged_at(log, pos) == Some((e, pos + frame_of(e).len())),
{
    let p = payload_of(e);
    assert(frame_of(e).len() == 8 + p.len());
    lemma_head(log, pos, p);
    lemma_payload(e);
}

/// Frames before the end are read alike in a log and in what extends it.
proof fn lemma_same_frame(log: Seq<u8>, more: Seq<u8>, pos: int)
    requires
        0 <= pos,
        logged_at(log, pos) is Some,
    ensures
        logged_at(log + more, pos) == logged_at(log, pos),
{
    let longer = log + more;
    assert(u32_at(longer, pos) == u32_at(log, pos));
    assert(u32_at(longer, pos + 4) == u32_at(log, pos + 4));
    let end = pos + 8 + u32_at(log, pos);
    assert(longer.subrange(pos + 8, end) =~= log.subrange(pos + 8, end));
}

/// A whole log is read first, then what comes behind it.
proof fn lemma_read_on(log: Seq<u8>, more: Seq<u8>, pos: int, l: Seq<Logged>)
    requires
        0 <= pos <= log.len(),
        read_on(log, pos, l).1 == log.len(),
    ensures
        read_on(log + more, pos, l) == read_on(
            log + more,
            log.len() as int,
            read_on(log, pos, l).0,
        ),
    decreases log.len() - pos,
{
    match logged_at(log, pos) {
        Some((e, end)) => {
            lemma_same_frame(log, more, pos);
            lemma_read_on(log, more, end, l.push(e));
        },
        None => {},
    }
}

/// A transaction whose frame reached a whole log is recovered behind those
/// before it.
pub proof fn law_logged_transactions_are_recovered(log: Seq<u8>, e: Logged)
    requires
        read_log(log).1 == log.len(),
        loggable(e),
    ensures
        read_log(log + frame_of(e)).0 == read_log(log).0.push(e),
        read_log(log + frame_of(e)).1 == (log + frame_of(e)).len(),
{
    let longer = log + frame_of(e);
    let n = log.len() as int;
    lemma_read_on(log, frame_of(e), 0, Seq::empty());
    assert(longer.subrange(n, n + frame_of(e).len()) =~= frame_of(e));
    lemma_frame(longer, n, e);
    let l = read_log(log).0.push(e);
    assert(logged_at(longer, longer.len() as int) is None);
    assert(read_on(longer, longer.len() as int, l) == (l, longer.len() as int));
}

/// Part of a frame is no intact frame.
proof fn lemma_part(log: Seq<u8>, p: Seq<u8>, kept: int)
    requires
        p.len() <= u32::MAX,
        0 <= kept < 8 + p.len(),
    ensures
        ({
            let f = le32(p.len() as u32) + (le32(crc32(p)) + p);
            logged_at(log + f.subrange(0, kept), log.len() as int) is None
        }),
{
    let f = le32(p.len() as u32) + (le32(crc32(p)) + p);
    let longer = log + f.subrange(0, kept);
    let n = log.len() as int;
    assert(longer.len() == n + kept);
    if kept >= 8 {
        assert(longer.subrange(n, n + 4) =~= le32(p.len() as u32));
        lemma_u32_roundtrip(longer, n, p.len() as u32);
    }
}

/// A torn tail is no transaction: part of a frame behind a whole log is left
/// out.
pub proof fn law_torn_frames_are_left_out(log: Seq<u8>, e: Logged, kept: int)
    requires
        read_log(log).1 == log.len(),
        loggable(e),
        0 <= kept < frame_of(e).len(),
    ensures
        read_log(log + frame_of(e).subrange(0, kept)) == read_log(log),
{
    let part = frame_of(e).subrange(0, kept);
    let longer = log + part;
    let n = log.len() as int;
    lemma_read_on(log, part, 0, Seq::empty());
    lemma_part(log, payload_of(e), kept);
    assert(read_on(longer, n, read_log(log).0) == (read_log(log).0, n));
}

/// The writes of a commit come back as they were.
pub proof fn law_writes_come_back(l: Seq<(Seq<u8>, Says)>)
    ensures
        slots(steps(l)) == l,
{
    assert(slots(steps(l)) =~= l);
}

} // verus!

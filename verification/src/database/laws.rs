//! What holds of a database as a whole.

use crate::btree::grow::storable;
use crate::btree::repack::{law_stored_pairs_can_be_stored, taken};
use crate::btree::scan::overfull;
use crate::btree::{contents, tree_at, tree_ok, Tree};
use crate::database::checkpoint::{
    applied, lemma_newest, lemma_settled, settled, stops, turns,
};
use crate::database::{committed, ended, held_in, latest, look, look_txn, newer, Database};
use crate::lsm::version::{is_newest, items, lemma_listed, lemma_seen, seen, versions, Version};
use crate::error::Error;
use crate::overlay::Layer;
use crate::page::{meta_of, SENTINEL};
use crate::pager::{Flush, Pager};
use crate::txn::{
    after, conflicts, is_watermark, replay, stamped, Record, Says, Timeline, VersionStore,
};
use vstd::prelude::*;

verus! {

/// Every version is older than the next commit.
pub open spec fn past(t: Timeline) -> bool {
    &&& t.next_ts > 0
    &&& forall|v: Version| #[trigger] t.versions.contains_key(v) ==> v.1 < t.next_ts
}

/// The versions of a store are in the past, and so are its snapshots.
pub proof fn lemma_past(s: VersionStore)
    requires
        s.wf(),
    ensures
        past(s@),
        forall|id: u64| #[trigger]
            s@.txns.contains_key(id) ==> s@.txns[id].snapshot < s@.next_ts && id < s@.next_txn,
{
    assert forall|v: Version| #[trigger] s@.versions.contains_key(v) implies v.1 < s@.next_ts by {
        let i = lemma_listed(items(s.entries@), v);
        assert(items(s.entries@)[i].0 == s.entries@[i].0@);
    }
    assert forall|id: u64| #[trigger] s@.txns.contains_key(id) implies s@.txns[id].snapshot
        < s@.next_ts && id < s@.next_txn by {
        let i = choose|i: int| 0 <= i < s.active@.len() && (#[trigger] s.active@[i]).id == id;
        assert(s.active@[i].wf());
    }
}

/// Versions of a later time are not seen.
pub proof fn lemma_unstamped(
    m: Map<Version, Says>,
    ts: u64,
    w: Map<Seq<u8>, Says>,
    k: Seq<u8>,
    s: u64,
)
    requires
        s < ts || !w.contains_key(k),
    ensures
        seen(stamped(m, ts, w), k, s) == seen(m, k, s),
{
    let n = stamped(m, ts, w);
    if exists|x: u64| is_newest(m, k, s, x) {
        let x = choose|x: u64| is_newest(m, k, s, x);
        assert(is_newest(n, k, s, x)) by {
            assert(n.contains_key((k, x)));
            assert forall|t: u64| #[trigger] n.contains_key((k, t)) && t <= s implies t <= x by {
                assert(m.contains_key((k, t)));
            }
        }
        lemma_seen(m, k, s, x);
        lemma_seen(n, k, s, x);
    } else if exists|x: u64| is_newest(n, k, s, x) {
        let x = choose|x: u64| is_newest(n, k, s, x);
        assert(m.contains_key((k, x)));
        let y = lemma_newest(m, k, s, x);
    }
}

/// A commit shows its writes, all of them and at once, to every later
/// snapshot, and changes no other key.
pub proof fn law_commits_are_published(
    t: Timeline,
    tree: Map<Seq<u8>, Seq<u8>>,
    id: u64,
    k: Seq<u8>,
)
    requires
        past(t),
        t.next_ts < u64::MAX,
    ensures
        held_in(latest(committed(t, id), tree), k) == if t.txns[id].writes.contains_key(k) {
            t.txns[id].writes[k]
        } else {
            held_in(latest(t, tree), k)
        },
{
    let w = t.txns[id].writes;
    let ts = t.next_ts;
    let n = committed(t, id).versions;
    if w.contains_key(k) {
        assert(is_newest(n, k, ts, ts));
        lemma_seen(n, k, ts, ts);
    } else {
        lemma_unstamped(t.versions, ts, w, k, ts);
        lemma_between(t, k, (ts - 1) as u64, ts);
    }
}

/// Nothing lies beyond the latest commit.
proof fn lemma_between(t: Timeline, k: Seq<u8>, a: u64, b: u64)
    requires
        past(t),
        t.next_ts - 1 <= a <= b,
    ensures
        seen(t.versions, k, a) == seen(t.versions, k, b),
{
    let m = t.versions;
    if exists|x: u64| is_newest(m, k, b, x) {
        let x = choose|x: u64| is_newest(m, k, b, x);
        assert(m.contains_key((k, x)));
        assert(is_newest(m, k, a, x));
        lemma_seen(m, k, a, x);
        lemma_seen(m, k, b, x);
    } else if exists|x: u64| is_newest(m, k, a, x) {
        let x = choose|x: u64| is_newest(m, k, a, x);
        let y = lemma_newest(m, k, b, x);
    }
}

/// A live transaction sees the same before and after another one commits.
pub proof fn law_snapshots_are_stable(
    t: Timeline,
    tree: Map<Seq<u8>, Seq<u8>>,
    id: u64,
    other: u64,
    k: Seq<u8>,
)
    requires
        past(t),
        t.next_ts < u64::MAX,
        t.txns.contains_key(other),
        t.txns[other].snapshot < t.next_ts,
        other != id,
    ensures
        look_txn(committed(t, id), tree, other, k) == look_txn(t, tree, other, k),
{
    lemma_unstamped(t.versions, t.next_ts, t.txns[id].writes, k, t.txns[other].snapshot);
}

/// Of two transactions that write one key, and that both began before either
/// committed, the one that commits second conflicts.
pub proof fn law_second_writer_conflicts(t: Timeline, id: u64, other: u64, k: Seq<u8>)
    requires
        past(t),
        t.next_ts < u64::MAX,
        t.txns.contains_key(other),
        t.txns[other].snapshot < t.next_ts,
        other != id,
        t.txns[id].writes.contains_key(k),
        t.txns[other].writes.contains_key(k),
    ensures
        conflicts(committed(t, id), other),
{
    let v: Version = (k, t.next_ts);
    assert(committed(t, id).versions.contains_key(v));
}

/// What a transaction wrote is gone with it.
pub proof fn law_rollbacks_leave_nothing(t: Timeline, tree: Map<Seq<u8>, Seq<u8>>, id: u64)
    ensures
        latest(ended(t, id), tree) == latest(t, tree),
        forall|other: u64, k: Seq<u8>|
            other != id && t.txns.contains_key(other) ==> #[trigger] look_txn(
                ended(t, id),
                tree,
                other,
                k,
            ) == look_txn(t, tree, other, k),
{
    assert(latest(ended(t, id), tree) =~= latest(t, tree));
}

/// A checkpoint changes nothing that a live transaction sees.
pub proof fn law_checkpoints_keep_transactions(
    t: Timeline,
    tree: Map<Seq<u8>, Seq<u8>>,
    w: u64,
    id: u64,
    k: Seq<u8>,
)
    requires
        is_watermark(t, w),
        t.txns.contains_key(id),
    ensures
        look_txn(
            Timeline { versions: after(t.versions, w), ..t },
            settled(t.versions, tree, w),
            id,
            k,
        ) == look_txn(t, tree, id, k),
{
    lemma_settled(t.versions, tree, w, k, t.txns[id].snapshot);
}

/// A checkpoint changes nothing that a new snapshot sees.
pub proof fn law_checkpoints_keep_the_contents(
    t: Timeline,
    tree: Map<Seq<u8>, Seq<u8>>,
    w: u64,
)
    requires
        is_watermark(t, w),
    ensures
        latest(
            Timeline { versions: after(t.versions, w), ..t },
            settled(t.versions, tree, w),
        ) == latest(t, tree),
{
    let u = Timeline { versions: after(t.versions, w), ..t };
    let a = latest(u, settled(t.versions, tree, w));
    let b = latest(t, tree);
    assert forall|k: Seq<u8>|
        #![trigger a.dom().contains(k)]
        #![trigger a[k]]
        look(u.versions, settled(t.versions, tree, w), k, (t.next_ts - 1) as u64) == look(
            t.versions,
            tree,
            k,
            (t.next_ts - 1) as u64,
        ) by {
        lemma_settled(t.versions, tree, w, k, (t.next_ts - 1) as u64);
    }
    assert(a =~= b);
}

// ---- the log --------------------------------------------------------------------------------

/// A log holds every version that a tree of this time does not.
pub open spec fn logs(log: Seq<Record>, tree_ts: u64, versions: Map<Version, Says>) -> bool {
    replay(Map::empty(), newer(log, tree_ts)) == versions
}

/// A log with the record of a commit behind it holds what the commit wrote.
pub proof fn law_logged_commits_are_durable(
    log: Seq<Record>,
    tree_ts: u64,
    t: Timeline,
    id: u64,
)
    requires
        logs(log, tree_ts, t.versions),
        tree_ts < t.next_ts,
    ensures
        logs(log.push((t.next_ts, t.txns[id].writes)), tree_ts, committed(t, id).versions),
{
    let r: Record = (t.next_ts, t.txns[id].writes);
    let now = log.push(r);
    assert(now.drop_last() =~= log);
    let fresh = newer(log, tree_ts);
    assert(fresh.push(r).drop_last() =~= fresh);
}

/// Filtering a log by time is filtering its versions.
pub proof fn lemma_newer_replay(log: Seq<Record>, ts: u64)
    ensures
        replay(Map::empty(), newer(log, ts)) == after(replay(Map::empty(), log), ts),
    decreases log.len(),
{
    if log.len() == 0 {
        assert(after(Map::<Version, Says>::empty(), ts) =~= Map::<Version, Says>::empty());
    } else {
        let short = log.drop_last();
        let r = log.last();
        lemma_newer_replay(short, ts);
        let y = newer(short, ts);
        assert(y.push(r).drop_last() =~= y);
        let (m, n) = (replay(Map::empty(), short), replay(Map::empty(), y));
        if r.0 > ts {
            assert(stamped(n, r.0, r.1) =~= after(stamped(m, r.0, r.1), ts));
        } else {
            assert(after(stamped(m, r.0, r.1), ts) =~= after(m, ts));
        }
    }
}

/// Once a checkpoint's pages are on disk, the log of before still holds what
/// the tree does not: a crash before the log is rewritten loses nothing.
pub proof fn law_old_logs_serve_after_a_checkpoint(
    log: Seq<Record>,
    tree_ts: u64,
    versions: Map<Version, Says>,
    w: u64,
)
    requires
        logs(log, tree_ts, versions),
        tree_ts <= w,
    ensures
        logs(log, w, after(versions, w)),
{
    lemma_newer_replay(log, tree_ts);
    lemma_newer_replay(log, w);
    assert(after(after(replay(Map::empty(), log), tree_ts), w) =~= after(
        replay(Map::empty(), log),
        w,
    ));
}

/// The log that a checkpoint leaves holds what the tree does not.
pub proof fn law_rewritten_logs_serve(log: Seq<Record>, w: u64, versions: Map<Version, Says>)
    requires
        replay(Map::empty(), log) == after(versions, w),
    ensures
        logs(log, w, after(versions, w)),
{
    lemma_newer_replay(log, w);
    assert(after(after(versions, w), w) =~= after(versions, w));
}

/// Recovery brings back the contents: where the log holds every version that
/// the tree does not, a database opened from both shows what was committed.
pub proof fn law_recovery_restores_the_contents(
    log: Seq<Record>,
    tree_ts: u64,
    t: Timeline,
    tree: Map<Seq<u8>, Seq<u8>>,
    reopened: Timeline,
)
    requires
        past(t),
        past(reopened),
        logs(log, tree_ts, t.versions),
        reopened.versions == replay(Map::empty(), newer(log, tree_ts)),
    ensures
        latest(reopened, tree) == latest(t, tree),
{
    let (a, b) = (latest(reopened, tree), latest(t, tree));
    let (x, y) = ((reopened.next_ts - 1) as u64, (t.next_ts - 1) as u64);
    assert forall|k: Seq<u8>|
        #![trigger a.dom().contains(k)]
        #![trigger a[k]]
        seen(reopened.versions, k, x) == seen(t.versions, k, y) by {
        if x <= y {
            lemma_between(reopened, k, x, y);
        } else {
            lemma_between(t, k, y, x);
        }
    }
    assert(a =~= b);
}

/// A checkpoint is durable once its pages are written: a pager that opens on the
/// file they make sees what the database's own pager sees.
pub proof fn law_checkpoints_are_durable(
    was: Seq<Seq<u8>>,
    after: Database,
    flush: Flush,
    again: Pager,
)
    requires
        turns(was, after.pager.file(), after.pager@.meta, Some(flush)),
        after.pager.dirty() == Map::<u32, Seq<u8>>::empty(),
        again.file() == after.pager.file(),
        again.dirty() == Map::<u32, Seq<u8>>::empty(),
        meta_of(again.file()[0]) == Some(again@.meta),
    ensures
        again@ == after.pager@,
        contents(again@) == after.stored(),
{
}

// ---- checkpoints succeed --------------------------------------------------------------------

/// Every pair has a value that can be stored.
spec fn all_short(m: Map<Seq<u8>, Seq<u8>>) -> bool {
    forall|k: Seq<u8>| #[trigger] m.contains_key(k) ==> m[k].len() <= u32::MAX
}

/// Every pair that a layer puts can be stored.
pub open spec fn puts_storable(l: Layer) -> bool {
    forall|i: int|
        0 <= i < l.len() && (#[trigger] l[i]).1 is Some ==> storable(l[i].0, l[i].1->0)
}

proof fn lemma_applied_short(m: Map<Seq<u8>, Seq<u8>>, l: Layer)
    requires
        all_short(m),
        puts_storable(l),
    ensures
        all_short(applied(m, l)),
    decreases l.len(),
{
    if l.len() > 0 {
        let front = l.drop_last();
        assert forall|i: int| 0 <= i < front.len() && (#[trigger] front[i]).1 is Some implies storable(
            front[i].0,
            front[i].1->0,
        ) by {
            assert(front[i] == l[i]);
        }
        lemma_applied_short(m, front);
        assert(l.last() == l[l.len() - 1]);
        assert forall|k: Seq<u8>| #[trigger] applied(m, l).contains_key(k) implies applied(m, l)[k].len()
            <= u32::MAX by {
            if k != l.last().0 {
                assert(applied(m, front).contains_key(k));
            }
        }
    }
}

/// A checkpoint succeeds: where the versions can be stored, the pairs can be
/// counted, and there are ids left for the longest value, no entry of a merge
/// stops it, whatever the height of the tree and the number of entries.
pub proof fn law_checkpoints_succeed(db: Database, after: Pager, l: Layer, j: int, e: Error)
    requires
        db.wf(),
        0 <= j < l.len(),
        puts_storable(l),
        !overfull(applied(db.stored(), l.take(j))),
        SENTINEL - taken(db.pager, after) >= 1_058_983,
    ensures
        !stops(db.pager, after, db.stored(), l, j, e),
{
    let m = db.stored();
    let front = l.take(j);
    assert forall|i: int| 0 <= i < front.len() && (#[trigger] front[i]).1 is Some implies storable(
        front[i].0,
        front[i].1->0,
    ) by {
        assert(front[i] == l[i]);
    }
    assert forall|k: Seq<u8>| #[trigger] m.contains_key(k) implies m[k].len() <= u32::MAX by {
        let (t, h) = choose|t: Tree, h: nat| h <= 64 && #[trigger] tree_at(db.pager@, t, h);
        assert(tree_ok(db.pager@, 65));
        law_stored_pairs_can_be_stored(db.pager@, k);
    }
    lemma_applied_short(m, front);
}

} // verus!

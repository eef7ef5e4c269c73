//! What ranges hold, what scans list, and what transactions see.

use crate::btree::scan::{cut, listing, lower_ok, scanned, upper_ok, Bound, Entry};
use crate::bytes::{
    lemma_lex_asymmetric, lemma_lex_common_prefix, lemma_lex_irreflexive, lemma_lex_total,
    lemma_lex_transitive, lex_le, lex_lt,
};
use crate::database::checkpoint::next_due;
use crate::database::copying::complete;
use crate::database::laws::past;
use crate::database::scans::{cap, weight};
use crate::database::{
    committed, due, held_in, latest, look_txn, nameable, newer, nothing_to_commit, writable,
};
use crate::lsm::version::Version;
use crate::overlay::{among, picks, within};
use crate::prefix::starts;
use crate::txn::{
    began, conflicts, is_watermark, next_beyond, staged, Record, Says, Sight, Timeline,
};
use vstd::prelude::*;

verus! {

/// Of two keys that part at some byte the one with the smaller byte comes
/// first, whatever follows; what goes on comes behind what ends.
pub proof fn law_keys_are_ordered_by_bytes(
    p: Seq<u8>,
    x: u8,
    a: Seq<u8>,
    y: u8,
    b: Seq<u8>,
)
    requires
        x < y,
    ensures
        lex_lt(p + (seq![x] + a), p + (seq![y] + b)),
        !lex_lt(p + (seq![y] + b), p + (seq![x] + a)),
        lex_lt(p, p + (seq![x] + a)),
        !lex_lt(p + (seq![x] + a), p),
        !lex_lt(p, p),
{
    lemma_lex_common_prefix(p, seq![x] + a, seq![y] + b);
    lemma_lex_common_prefix(p, Seq::empty(), seq![x] + a);
    assert(p + Seq::<u8>::empty() =~= p);
    lemma_lex_asymmetric(p + (seq![x] + a), p + (seq![y] + b));
    lemma_lex_asymmetric(p, p + (seq![x] + a));
    lemma_lex_irreflexive(p);
}

/// An end of a range that is included is inside, one that is excluded is
/// outside; what comes before the lower end or behind the upper end is
/// outside, and what lies on the other side is inside. Without an end nothing
/// is outside.
pub proof fn law_ends_bound_ranges(end: Vec<u8>, k: Seq<u8>)
    ensures
        lower_ok(Bound::Unbounded, k) && upper_ok(Bound::Unbounded, k),
        lower_ok(Bound::Included(end), end@) && upper_ok(Bound::Included(end), end@),
        !lower_ok(Bound::Excluded(end), end@) && !upper_ok(Bound::Excluded(end), end@),
        lex_lt(end@, k) ==> lower_ok(Bound::Included(end), k) && lower_ok(Bound::Excluded(end), k),
        lex_lt(end@, k) ==> !upper_ok(Bound::Included(end), k) && !upper_ok(
            Bound::Excluded(end),
            k,
        ),
        lex_lt(k, end@) ==> upper_ok(Bound::Included(end), k) && upper_ok(Bound::Excluded(end), k),
        lex_lt(k, end@) ==> !lower_ok(Bound::Included(end), k) && !lower_ok(
            Bound::Excluded(end),
            k,
        ),
{
    lemma_lex_irreflexive(end@);
    if lex_lt(end@, k) {
        lemma_lex_asymmetric(end@, k);
    }
    if lex_lt(k, end@) {
        lemma_lex_asymmetric(k, end@);
    }
}

/// A key cuts a range in two: every key of the range is in one of the parts,
/// none in both.
pub proof fn law_ranges_can_be_cut(lo: Bound, cut: Vec<u8>, hi: Bound, k: Seq<u8>)
    requires
        within(lo, hi, k),
    ensures
        within(lo, Bound::Excluded(cut), k) != within(Bound::Included(cut), hi, k),
        within(lo, Bound::Included(cut), k) != within(Bound::Excluded(cut), hi, k),
{
    law_ends_bound_ranges(cut, k);
    lemma_lex_total(k, cut@);
}

/// A scan lists keys once, in order, each with its value; never more than the
/// limit; and it leaves out a key only when the limit is used up by keys that
/// come before it. A limit of zero is none.
pub proof fn law_scans_list_the_first(
    f: spec_fn(Seq<u8>) -> Option<Seq<u8>>,
    limit: usize,
    out: Seq<Entry>,
    k: Seq<u8>,
)
    requires
        picks(f, cap(limit), out),
    ensures
        limit > 0 ==> out.len() <= limit,
        forall|i: int| 0 <= i < out.len() ==> f((#[trigger] out[i]).0) == Some(out[i].1),
        forall|i: int, j: int|
            0 <= i < j < out.len() ==> lex_lt((#[trigger] out[i]).0, (#[trigger] out[j]).0),
        f(k) is Some ==> {
            ||| exists|i: int| 0 <= i < out.len() && (#[trigger] out[i]).0 == k
            ||| {
                &&& out.len() == limit || (limit == 0 && out.len() == usize::MAX)
                &&& forall|i: int| 0 <= i < out.len() ==> lex_lt((#[trigger] out[i]).0, k)
            }
        },
        f(k) is None ==> forall|i: int| 0 <= i < out.len() ==> (#[trigger] out[i]).0 != k,
{
    reveal(among);
    if f(k) is Some && !among(out, k) {
        assert forall|i: int| 0 <= i < out.len() implies lex_lt((#[trigger] out[i]).0, k) by {
            lemma_lex_total(out[i].0, k);
            if lex_le(k, out[i].0) {
                assert(among(out, k));
            }
        }
    }
    assert forall|i: int, j: int| 0 <= i < j < out.len() implies lex_lt(
        (#[trigger] out[i]).0,
        (#[trigger] out[j]).0,
    ) by {
        assert(lex_lt(out[i].0, out[j].0));
    }
}

/// A scan of the tree lists pairs of the tree that lie in the range, once and
/// in order, never more than the limit; and a key of the range is left out only
/// when the limit is used up by keys before it.
pub proof fn law_tree_scans_list_the_first(
    m: Map<Seq<u8>, Seq<u8>>,
    lo: Bound,
    hi: Bound,
    limit: int,
    out: Seq<Entry>,
    k: Seq<u8>,
)
    requires
        scanned(m, lo, hi, limit, out),
    ensures
        out.len() <= limit,
        forall|i: int|
            0 <= i < out.len() ==> m.contains_key((#[trigger] out[i]).0) && m[out[i].0]
                == out[i].1 && within(lo, hi, out[i].0),
        forall|i: int, j: int|
            0 <= i < j < out.len() ==> lex_lt((#[trigger] out[i]).0, (#[trigger] out[j]).0),
        m.contains_key(k) && within(lo, hi, k) ==> {
            ||| exists|i: int| 0 <= i < out.len() && (#[trigger] out[i]).0 == k
            ||| out.len() == limit && forall|i: int|
                0 <= i < out.len() ==> lex_lt((#[trigger] out[i]).0, k)
        },
{
    let (e, a, b) = choose|e: Seq<Entry>, a: int, b: int| #[trigger]
        cut(e, lo, hi, limit, out, a, b) && listing(m, e);
    assert forall|i: int| 0 <= i < out.len() implies m.contains_key((#[trigger] out[i]).0)
        && m[out[i].0] == out[i].1 && within(lo, hi, out[i].0) by {
        assert(out[i] == e[a + i]);
    }
    assert forall|i: int, j: int| 0 <= i < j < out.len() implies lex_lt(
        (#[trigger] out[i]).0,
        (#[trigger] out[j]).0,
    ) by {
        assert(out[i] == e[a + i] && out[j] == e[a + j]);
        assert(lex_lt(e[a + i].0, e[a + j].0));
    }
    if m.contains_key(k) && within(lo, hi, k) {
        let x = choose|x: int| 0 <= x < e.len() && (#[trigger] e[x]).0 == k;
        assert(x >= a);
        if x < b {
            assert(out[x - a] == e[x]);
        } else {
            assert forall|i: int| 0 <= i < out.len() implies lex_lt((#[trigger] out[i]).0, k) by {
                assert(out[i] == e[a + i]);
                assert(lex_lt(e[a + i].0, e[x].0));
            }
            if out.len() != limit {
                assert(!upper_ok(hi, e[b].0));
                if x > b {
                    assert(lex_lt(e[b].0, e[x].0));
                    lemma_upper_down(hi, e[b].0, k);
                }
            }
        }
    }
}

/// What comes before a key inside the upper end is inside too.
proof fn lemma_upper_down(hi: Bound, a: Seq<u8>, b: Seq<u8>)
    requires
        upper_ok(hi, b),
        lex_lt(a, b),
    ensures
        upper_ok(hi, a),
{
    match hi {
        Bound::Unbounded => {},
        Bound::Included(h) => {
            if b != h@ {
                lemma_lex_transitive(a, b, h@);
            }
        },
        Bound::Excluded(h) => {
            lemma_lex_transitive(a, b, h@);
        },
    }
}

/// A key starts with a prefix if it is the prefix with something behind it.
pub proof fn law_prefixes_begin_keys(p: Seq<u8>, rest: Seq<u8>, k: Seq<u8>)
    ensures
        starts(p + rest, p),
        starts(k, Seq::empty()),
        starts(k, p) <==> exists|more: Seq<u8>| k == #[trigger] (p + more),
{
    assert((p + rest).subrange(0, p.len() as int) =~= p);
    assert(k.subrange(0, 0) =~= Seq::<u8>::empty());
    if starts(k, p) {
        let more = k.skip(p.len() as int);
        assert(k =~= p + more);
    }
    if exists|more: Seq<u8>| k == #[trigger] (p + more) {
        let more = choose|more: Seq<u8>| k == #[trigger] (p + more);
        assert((p + more).subrange(0, p.len() as int) =~= p);
    }
}

/// Keys of one to 1024 bytes can be written, with values of up to ten times
/// 2^20 bytes; keys of one to 2^20 bytes can be named.
pub proof fn law_lengths_are_limited(k: Seq<u8>, v: Seq<u8>)
    ensures
        writable(k, v) <==> 1 <= k.len() <= 1024 && v.len() <= 10 * 1024 * 1024,
        nameable(k) <==> 1 <= k.len() <= 1024 * 1024,
        writable(k, v) ==> nameable(k),
{
}

/// A transaction reads its own writes, and otherwise what was committed last
/// when it began, whatever it has written elsewhere.
pub proof fn law_transactions_see_their_snapshot(
    t: Timeline,
    tree: Map<Seq<u8>, Seq<u8>>,
    id: u64,
    read_only: bool,
    writes: Map<Seq<u8>, Says>,
    k: Seq<u8>,
)
    requires
        t.next_ts > 0,
    ensures
        ({
            let mine = Timeline {
                txns: t.txns.insert(
                    id,
                    Sight { snapshot: (t.next_ts - 1) as u64, read_only, writes },
                ),
                ..t
            };
            look_txn(mine, tree, id, k) == if writes.contains_key(k) {
                writes[k]
            } else {
                held_in(latest(t, tree), k)
            }
        }),
{
}

/// A new transaction has an id of its own and sees what was committed last; it
/// takes nothing from the others.
pub proof fn law_transactions_begin_with_the_latest(
    t: Timeline,
    tree: Map<Seq<u8>, Seq<u8>>,
    read_only: bool,
    other: u64,
    k: Seq<u8>,
)
    requires
        0 < t.next_ts,
        t.next_txn < u64::MAX,
        other < t.next_txn,
    ensures
        look_txn(began(t, read_only), tree, t.next_txn, k) == held_in(latest(t, tree), k),
        began(t, read_only).txns[t.next_txn].read_only == read_only,
        !conflicts(began(t, read_only), t.next_txn),
        began(t, read_only).next_txn > t.next_txn,
        began(t, read_only).txns.contains_key(other) == t.txns.contains_key(other),
        look_txn(began(t, read_only), tree, other, k) == look_txn(t, tree, other, k),
        latest(began(t, read_only), tree) == latest(t, tree),
{
    assert(latest(began(t, read_only), tree) =~= latest(t, tree));
}

/// An id that was seen in use is not handed out again, as far as there are
/// others, and no id is passed over for it.
pub proof fn law_used_ids_are_passed(next: u64, id: u64)
    ensures
        next_beyond(next, id) >= next,
        next_beyond(next, id) > id || id == u64::MAX,
        next_beyond(next, id) == next || next_beyond(next, id) == id + 1 || id == u64::MAX,
        id < next ==> next_beyond(next, id) == next,
{
}

/// What a transaction writes it reads back at once, a removal as nothing; no
/// other key changes for it, nothing changes for other transactions, and
/// nothing is published before it commits.
pub proof fn law_writes_stay_in_their_transaction(
    t: Timeline,
    tree: Map<Seq<u8>, Seq<u8>>,
    id: u64,
    key: Seq<u8>,
    value: Seq<u8>,
    other: u64,
    k: Seq<u8>,
)
    requires
        t.txns.contains_key(id),
    ensures
        look_txn(staged(t, id, key, Some(value)), tree, id, key) == Some(value),
        look_txn(staged(t, id, key, None), tree, id, key) is None,
        k != key ==> look_txn(staged(t, id, key, Some(value)), tree, id, k) == look_txn(
            t,
            tree,
            id,
            k,
        ) && look_txn(staged(t, id, key, None), tree, id, k) == look_txn(t, tree, id, k),
        other != id ==> look_txn(staged(t, id, key, Some(value)), tree, other, k) == look_txn(
            t,
            tree,
            other,
            k,
        ) && look_txn(staged(t, id, key, None), tree, other, k) == look_txn(t, tree, other, k),
        latest(staged(t, id, key, Some(value)), tree) == latest(t, tree),
        latest(staged(t, id, key, None), tree) == latest(t, tree),
{
    assert(latest(staged(t, id, key, Some(value)), tree) =~= latest(t, tree));
    assert(latest(staged(t, id, key, None), tree) =~= latest(t, tree));
}

/// A transaction that shares no key with another one conflicts no more after
/// the other one commits than before; and one that began after the last commit
/// has no conflict at all.
pub proof fn law_other_keys_do_not_conflict(t: Timeline, id: u64, other: u64)
    requires
        past(t),
        t.next_ts < u64::MAX,
        t.txns.contains_key(other),
        other != id,
    ensures
        (forall|k: Seq<u8>|
            #![trigger t.txns[id].writes.contains_key(k)]
            t.txns[id].writes.contains_key(k) ==> !t.txns[other].writes.contains_key(k)) ==> (
        conflicts(committed(t, id), other) <==> conflicts(t, other)),
        t.txns[other].snapshot == t.next_ts - 1 ==> !conflicts(t, other),
{
    let n = committed(t, id);
    assert(n.txns[other] == t.txns[other]);
    if forall|k: Seq<u8>|
        #![trigger t.txns[id].writes.contains_key(k)]
        t.txns[id].writes.contains_key(k) ==> !t.txns[other].writes.contains_key(k) {
        if conflicts(n, other) {
            let v = choose|v: Version| #[trigger]
                n.versions.contains_key(v) && n.txns[other].writes.contains_key(v.0) && v.1
                    > n.txns[other].snapshot;
            assert(t.versions.contains_key(v));
        }
        if conflicts(t, other) {
            let v = choose|v: Version| #[trigger]
                t.versions.contains_key(v) && t.txns[other].writes.contains_key(v.0) && v.1
                    > t.txns[other].snapshot;
            assert(n.versions.contains_key(v));
        }
    }
    if t.txns[other].snapshot == t.next_ts - 1 && conflicts(t, other) {
        let v = choose|v: Version| #[trigger]
            t.versions.contains_key(v) && t.txns[other].writes.contains_key(v.0) && v.1
                > t.txns[other].snapshot;
        assert(v.1 < t.next_ts);
    }
}

/// A commit takes the next moment, ends its transaction and no other; there is
/// something to commit as soon as a transaction that may write has written.
pub proof fn law_commits_take_a_moment(t: Timeline, id: u64, other: u64, k: Seq<u8>)
    requires
        t.next_ts < u64::MAX,
    ensures
        committed(t, id).next_ts == t.next_ts + 1,
        !committed(t, id).txns.contains_key(id),
        other != id ==> committed(t, id).txns.contains_key(other) == t.txns.contains_key(other),
        !t.txns[id].read_only && t.txns[id].writes.contains_key(k) ==> !nothing_to_commit(t, id),
        nothing_to_commit(t, id) && !t.txns[id].read_only ==> !t.txns[id].writes.contains_key(k),
{
}

/// What is settled is what every live transaction sees: with none it is all
/// that was committed, and an older snapshot holds it back.
pub proof fn law_snapshots_hold_back_settling(t: Timeline, w: u64, id: u64)
    requires
        is_watermark(t, w),
    ensures
        w < t.next_ts,
        t.txns.contains_key(id) ==> w <= t.txns[id].snapshot,
        t.txns.dom() == Set::<u64>::empty() ==> w == t.next_ts - 1,
        w < t.next_ts - 1 ==> exists|other: u64| #[trigger]
            t.txns.contains_key(other) && t.txns[other].snapshot == w,
{
    if t.txns.dom() == Set::<u64>::empty() && w != t.next_ts - 1 {
        let other = choose|other: u64| #[trigger]
            t.txns.contains_key(other) && t.txns[other].snapshot == w;
        assert(t.txns.dom().contains(other));
    }
}

/// After a checkpoint the next one is due at the size that was asked for, or
/// at twice what the log still holds, whichever is more, as far as sixty-four
/// bits go.
pub proof fn law_checkpoints_back_off(wal_bytes: u64, configured: u64)
    ensures
        next_due(wal_bytes, configured) >= configured,
        next_due(wal_bytes, configured) / 2 >= wal_bytes || next_due(wal_bytes, configured)
            == u64::MAX,
        next_due(wal_bytes, configured) == configured || next_due(wal_bytes, configured)
            == u64::MAX || next_due(wal_bytes, configured) == 2 * wal_bytes,
        2 * wal_bytes <= configured ==> next_due(wal_bytes, configured) == configured,
        next_due(wal_bytes, configured) == u64::MAX ==> configured == u64::MAX || 2 * wal_bytes
            >= u64::MAX,
{
}

/// After a log has been read the next commit comes later than every commit in
/// it, no earlier than it would without the log, and no later than it must.
pub proof fn law_time_goes_on_after_a_log(first: u64, log: Seq<Record>)
    requires
        forall|i: int| 0 <= i < log.len() ==> (#[trigger] log[i]).0 < u64::MAX,
    ensures
        due(first, log) >= first,
        forall|i: int| 0 <= i < log.len() ==> (#[trigger] log[i]).0 < due(first, log),
        due(first, log) == first || exists|i: int|
            0 <= i < log.len() && (#[trigger] log[i]).0 + 1 == due(first, log),
    decreases log.len(),
{
    if log.len() > 0 {
        let less = log.drop_last();
        assert forall|i: int| 0 <= i < less.len() implies (#[trigger] less[i]).0 < u64::MAX by {
            assert(less[i] == log[i]);
        }
        law_time_goes_on_after_a_log(first, less);
        assert(log[log.len() - 1] == log.last());
        assert forall|i: int| 0 <= i < log.len() implies (#[trigger] log[i]).0 < due(
            first,
            log,
        ) by {
            if i < less.len() {
                assert(log[i] == less[i]);
            }
        }
        if due(first, log) == due(first, less) && due(first, less) != first {
            let i = choose|i: int|
                0 <= i < less.len() && (#[trigger] less[i]).0 + 1 == due(first, less);
            assert(log[i] == less[i]);
        }
    }
}

/// A commit of a log is applied again if it is newer than what the tree holds,
/// and only then, in the order of the log.
pub proof fn law_newer_commits_are_replayed(a: Seq<Record>, r: Record, b: Seq<Record>, ts: u64)
    ensures
        newer(Seq::empty(), ts) == Seq::<Record>::empty(),
        r.0 > ts ==> newer(a.push(r) + b, ts) == newer(a, ts).push(r) + newer(b, ts),
        r.0 <= ts ==> newer(a.push(r) + b, ts) == newer(a, ts) + newer(b, ts),
    decreases b.len(),
{
    let all = a.push(r) + b;
    if b.len() == 0 {
        assert(all =~= a.push(r));
        assert(a.push(r).drop_last() =~= a);
        assert(newer(b, ts) =~= Seq::<Record>::empty());
        assert(newer(a, ts).push(r) + newer(b, ts) =~= newer(a, ts).push(r));
        assert(newer(a, ts) + newer(b, ts) =~= newer(a, ts));
    } else {
        law_newer_commits_are_replayed(a, r, b.drop_last(), ts);
        assert(all.drop_last() =~= a.push(r) + b.drop_last());
        assert(all.last() == b.last());
        let head = if r.0 > ts {
            newer(a, ts).push(r)
        } else {
            newer(a, ts)
        };
        let tail = newer(b.drop_last(), ts);
        assert((head + tail).push(b.last()) =~= head + tail.push(b.last()));
    }
}

/// The bytes of pairs add up, a pair weighing its key and its value.
pub proof fn law_pairs_are_weighed(a: Seq<Entry>, e: Entry)
    ensures
        weight(Seq::empty()) == 0,
        weight(a.push(e)) == weight(a) + e.0.len() + e.1.len(),
{
    assert(a.push(e).drop_last() =~= a);
}

/// A batch of a copy ends only where nothing is left, or with 20,000 pairs, or
/// once it has eight times 2^20 bytes.
pub proof fn law_batches_are_filled(list: Seq<Entry>, n: int)
    requires
        complete(list, n),
    ensures
        n == list.len() || n == 20_000 || weight(list.take(n)) >= 8 * 1024 * 1024,
{
}

} // verus!

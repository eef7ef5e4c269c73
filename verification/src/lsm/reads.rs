//! What a read gives back of a write, through rotation, flush and merge.

use crate::lsm::compaction::{consulted, newest_first, only_one, spans_key};
use crate::lsm::engine::{
    disk_layers, first_answer, frozen_layers, ids_below, is_open, lemma_answer_step, tables_hold,
    LsmEngine,
};
use crate::lsm::levels::{added, padded};
use crate::lsm::memtable::MemTable;
use crate::lsm::merge::{
    is_first, joined, law_merge_keeps_reads, lemma_newest_exists, merged, surviving,
};
use crate::lsm::sstable::{summary, SSTable, Summary};
use crate::lsm::version::{
    in_order, is_newest, items, lemma_listed, lemma_seen, lemma_unseen, lemma_version_irreflexive,
    lemma_versions, lists,
    seen, version_lt, versions, Item, Version,
};
use vstd::prelude::*;

verus! {

/// The versions of all layers; of two entries of one version that of the first
/// layer counts.
pub open spec fn pooled(layers: Seq<Map<Version, Option<Seq<u8>>>>) -> Map<
    Version,
    Option<Seq<u8>>,
>
    decreases layers.len(),
{
    if layers.len() == 0 {
        Map::empty()
    } else {
        pooled(layers.subrange(1, layers.len() as int)).union_prefer_right(layers[0])
    }
}

/// Earlier layers hold newer versions of the key.
pub open spec fn layered(layers: Seq<Map<Version, Option<Seq<u8>>>>, key: Seq<u8>) -> bool {
    forall|i: int, j: int, s: u64, t: u64|
        0 <= i < j < layers.len() && #[trigger] layers[i].contains_key((key, s))
            && #[trigger] layers[j].contains_key((key, t)) ==> s >= t
}

/// Where earlier layers hold newer versions, the first layer that answers says
/// what a snapshot sees of all layers together: the newest write that is not
/// newer than the snapshot.
pub proof fn law_first_answer_is_the_newest(
    layers: Seq<Map<Version, Option<Seq<u8>>>>,
    key: Seq<u8>,
    snapshot: u64,
)
    requires
        layered(layers, key),
    ensures
        first_answer(layers, key, snapshot) == seen(pooled(layers), key, snapshot),
    decreases layers.len(),
{
    let all = pooled(layers);
    if layers.len() == 0 {
        lemma_nothing_seen(all, key, snapshot);
    } else {
        let top = layers[0];
        let rest = layers.subrange(1, layers.len() as int);
        let below = pooled(rest);
        assert(layered(rest, key)) by {
            assert forall|i: int, j: int, s: u64, t: u64|
                0 <= i < j < rest.len() && #[trigger] rest[i].contains_key((key, s))
                    && #[trigger] rest[j].contains_key((key, t)) implies s >= t by {
                assert(layers[i + 1] == rest[i]);
                assert(layers[j + 1] == rest[j]);
                assert(layers[i + 1].contains_key((key, s)));
                assert(layers[j + 1].contains_key((key, t)));
            }
        }
        law_first_answer_is_the_newest(rest, key, snapshot);
        if exists|s: u64| is_newest(top, key, snapshot, s) {
            let s = choose|s: u64| is_newest(top, key, snapshot, s);
            lemma_seen(top, key, snapshot, s);
            assert(is_newest(all, key, snapshot, s)) by {
                assert(top.contains_key((key, s)));
                assert(all.contains_key((key, s)));
                assert forall|t: u64| #[trigger] all.contains_key((key, t)) && t
                    <= snapshot implies t <= s by {
                    if !top.contains_key((key, t)) {
                        assert(below.contains_key((key, t)));
                        let j = lemma_pooled_from(rest, (key, t));
                        assert(layers[j + 1] == rest[j]);
                        assert(layers[0].contains_key((key, s)));
                        assert(layers[j + 1].contains_key((key, t)));
                    }
                }
            }
            lemma_seen(all, key, snapshot, s);
        } else {
            assert forall|t: u64| t <= snapshot implies !(#[trigger] top.contains_key(
                (key, t),
            )) by {
                if top.contains_key((key, t)) {
                    let s = lemma_newest_exists(top, key, snapshot, t);
                    assert(is_newest(top, key, snapshot, s));
                }
            }
            lemma_seen_alike(all, below, key, snapshot);
        }
    }
}

pub(crate) proof fn lemma_nothing_seen(m: Map<Version, Option<Seq<u8>>>, key: Seq<u8>, snapshot: u64)
    requires
        forall|t: u64| !(#[trigger] m.contains_key((key, t))) || t > snapshot,
    ensures
        seen(m, key, snapshot) is None,
{
    if exists|s: u64| is_newest(m, key, snapshot, s) {
        let s = choose|s: u64| is_newest(m, key, snapshot, s);
        assert(m.contains_key((key, s)));
    }
}

/// Two maps that have the same visible versions of a key show the same.
proof fn lemma_seen_alike(
    a: Map<Version, Option<Seq<u8>>>,
    b: Map<Version, Option<Seq<u8>>>,
    key: Seq<u8>,
    snapshot: u64,
)
    requires
        forall|t: u64|
            t <= snapshot ==> #[trigger] a.contains_key((key, t)) == b.contains_key((key, t)),
        forall|t: u64|
            t <= snapshot && #[trigger] a.contains_key((key, t)) ==> a[(key, t)] == b[(key, t)],
    ensures
        seen(a, key, snapshot) == seen(b, key, snapshot),
{
    if exists|s: u64| is_newest(a, key, snapshot, s) {
        let s = choose|s: u64| is_newest(a, key, snapshot, s);
        assert(a.contains_key((key, s)));
        assert(is_newest(b, key, snapshot, s)) by {
            assert forall|t: u64| #[trigger] b.contains_key((key, t)) && t <= snapshot implies t
                <= s by {
                assert(a.contains_key((key, t)));
            }
        }
        lemma_seen(a, key, snapshot, s);
        lemma_seen(b, key, snapshot, s);
    } else {
        if exists|s: u64| is_newest(b, key, snapshot, s) {
            let s = choose|s: u64| is_newest(b, key, snapshot, s);
            assert(b.contains_key((key, s)));
            assert(a.contains_key((key, s)));
            let u = lemma_newest_exists(a, key, snapshot, s);
            assert(is_newest(a, key, snapshot, u));
        }
    }
}

/// A version in the pool is in a layer.
pub(crate) proof fn lemma_pooled_from(
    layers: Seq<Map<Version, Option<Seq<u8>>>>,
    v: Version,
) -> (i: int)
    requires
        pooled(layers).contains_key(v),
    ensures
        0 <= i < layers.len(),
        layers[i].contains_key(v),
        layers[i][v] == pooled(layers)[v],
        forall|j: int| 0 <= j < i ==> !(#[trigger] layers[j]).contains_key(v),
    decreases layers.len(),
{
    if layers[0].contains_key(v) {
        0
    } else {
        let rest = layers.subrange(1, layers.len() as int);
        let i = lemma_pooled_from(rest, v);
        assert forall|j: int| 0 <= j < i + 1 implies !(#[trigger] layers[j]).contains_key(v) by {
            if j > 0 {
                assert(rest[j - 1] == layers[j]);
            }
        }
        i + 1
    }
}

proof fn lemma_pooled_has(layers: Seq<Map<Version, Option<Seq<u8>>>>, i: int, v: Version)
    requires
        0 <= i < layers.len(),
        layers[i].contains_key(v),
    ensures
        pooled(layers).contains_key(v),
    decreases layers.len(),
{
    if i > 0 {
        let rest = layers.subrange(1, layers.len() as int);
        assert(rest[i - 1] == layers[i]);
        lemma_pooled_has(rest, i - 1, v);
    }
}

/// Runs as layers.
pub open spec fn run_layers(ins: Seq<Seq<Item>>) -> Seq<Map<Version, Option<Seq<u8>>>> {
    Seq::new(ins.len(), |r: int| versions(ins[r]))
}

/// Where the first entry of run `r` stands among the joined ones.
pub open spec fn base_of(ins: Seq<Seq<Item>>, r: int) -> int {
    joined(ins.subrange(0, r)).len() as int
}

proof fn lemma_joined_at(ins: Seq<Seq<Item>>, r: int, i: int)
    requires
        0 <= r < ins.len(),
        0 <= i < ins[r].len(),
    ensures
        0 <= base_of(ins, r) + i < joined(ins).len(),
        joined(ins)[base_of(ins, r) + i] == ins[r][i],
    decreases ins.len(),
{
    if r == ins.len() - 1 {
        assert(ins.subrange(0, r) =~= ins.drop_last());
    } else {
        let less = ins.drop_last();
        assert(less.subrange(0, r) =~= ins.subrange(0, r));
        lemma_joined_at(less, r, i);
    }
}

pub(crate) proof fn lemma_joined_from(ins: Seq<Seq<Item>>, p: int) -> (r: (int, int))
    requires
        0 <= p < joined(ins).len(),
    ensures
        0 <= r.0 < ins.len(),
        0 <= r.1 < ins[r.0].len(),
        p == base_of(ins, r.0) + r.1,
        joined(ins)[p] == ins[r.0][r.1],
    decreases ins.len(),
{
    let less = ins.drop_last();
    let n = joined(less).len();
    let last = ins.len() - 1;
    assert(ins.subrange(0, last) =~= less);
    if p < n {
        let r = lemma_joined_from(less, p);
        assert(less.subrange(0, r.0) =~= ins.subrange(0, r.0));
        r
    } else {
        (last, p - n)
    }
}

proof fn lemma_base_grows(ins: Seq<Seq<Item>>, a: int, b: int)
    requires
        0 <= a < b <= ins.len(),
    ensures
        base_of(ins, a) + ins[a].len() <= base_of(ins, b),
    decreases b,
{
    let up = ins.subrange(0, b);
    assert(up.drop_last() =~= ins.subrange(0, b - 1));
    assert(up.last() == ins[b - 1]);
    if a < b - 1 {
        lemma_base_grows(ins, a, b - 1);
    }
}

/// Merging runs pools their versions, the first run's first.
pub proof fn law_merging_pools_the_runs(ins: Seq<Seq<Item>>)
    requires
        forall|r: int| 0 <= r < ins.len() ==> in_order(#[trigger] ins[r]),
    ensures
        merged(joined(ins)) == pooled(run_layers(ins)),
{
    let all = joined(ins);
    let layers = run_layers(ins);
    let (m, n) = (merged(all), pooled(layers));
    assert forall|v: Version| #[trigger] m.dom().contains(v) == n.dom().contains(v) && (
    m.dom().contains(v) ==> m[v] == n[v]) by {
        if n.dom().contains(v) {
            let r = lemma_pooled_from(layers, v);
            assert(layers[r] == versions(ins[r]));
            let i = lemma_listed(ins[r], v);
            lemma_versions(ins[r], i);
            lemma_joined_at(ins, r, i);
            let p = base_of(ins, r) + i;
            assert(lists(all, v));
            assert(is_first(all, p)) by {
                assert forall|q: int| 0 <= q < p implies (#[trigger] all[q]).0 != all[p].0 by {
                    if all[q].0 == v {
                        let (a, b) = lemma_joined_from(ins, q);
                        if a < r {
                            lemma_versions(ins[a], b);
                            assert(layers[a] == versions(ins[a]));
                            assert(layers[a].contains_key(v));
                        } else if a > r {
                            lemma_base_grows(ins, r, a);
                        } else {
                            assert(b < i);
                            assert(version_lt(ins[r][b].0, ins[r][i].0));
                            lemma_version_irreflexive(v);
                        }
                    }
                }
            }
            assert(all[p].0 == v);
            let c = choose|c: int| is_first(all, c) && (#[trigger] all[c]).0 == v;
            assert(is_first(all, c) && all[c].0 == v);
            if c < p {
                assert(all[c].0 != all[p].0);
            } else if p < c {
                assert(all[p].0 != all[c].0);
            }
        }
        if m.dom().contains(v) {
            let p = choose|p: int| 0 <= p < all.len() && (#[trigger] all[p]).0 == v;
            let (r, i) = lemma_joined_from(ins, p);
            lemma_versions(ins[r], i);
            assert(layers[r] == versions(ins[r]));
            lemma_pooled_has(layers, r, v);
        }
    }
    assert(m.dom() =~= n.dom());
    assert(m =~= n);
}

/// A merge answers as its inputs did, for every snapshot at or above the floor:
/// what the first of them said, or nothing where that was a tombstone and
/// tombstones were dropped.
pub proof fn law_merged_tables_answer_alike(
    ins: Seq<Seq<Item>>,
    floor: u64,
    drop_tombstones: bool,
    key: Seq<u8>,
    snapshot: u64,
)
    requires
        forall|r: int| 0 <= r < ins.len() ==> in_order(#[trigger] ins[r]),
        layered(run_layers(ins), key),
        snapshot >= floor,
    ensures
        ({
            let before = first_answer(run_layers(ins), key, snapshot);
            let after = seen(
                surviving(merged(joined(ins)), floor, drop_tombstones),
                key,
                snapshot,
            );
            after == before || (drop_tombstones && before == Some(None::<Seq<u8>>) && after
                is None)
        }),
{
    law_first_answer_is_the_newest(run_layers(ins), key, snapshot);
    law_merging_pools_the_runs(ins);
    law_merge_keeps_reads(merged(joined(ins)), floor, drop_tombstones, key, snapshot);
}

/// A write is read back: a snapshot at its sequence number, and every later one
/// until a newer write of the key, sees what was written.
pub proof fn law_writes_are_read_back(
    m: Map<Version, Option<Seq<u8>>>,
    key: Seq<u8>,
    seqno: u64,
    slot: Option<Seq<u8>>,
    snapshot: u64,
)
    requires
        seqno <= snapshot,
        forall|t: u64| #[trigger] m.contains_key((key, t)) && t <= snapshot ==> t <= seqno,
    ensures
        seen(m.insert((key, seqno), slot), key, snapshot) == Some(slot),
{
    let n = m.insert((key, seqno), slot);
    assert(is_newest(n, key, snapshot, seqno)) by {
        assert(n.contains_key((key, seqno)));
        assert forall|t: u64| #[trigger] n.contains_key((key, t)) && t <= snapshot implies t
            <= seqno by {
            if t != seqno {
                assert(m.contains_key((key, t)));
            }
        }
    }
    lemma_seen(n, key, snapshot, seqno);
}

/// A write does not change what is seen of other keys.
pub proof fn law_writes_leave_other_keys(
    m: Map<Version, Option<Seq<u8>>>,
    key: Seq<u8>,
    seqno: u64,
    slot: Option<Seq<u8>>,
    other: Seq<u8>,
    snapshot: u64,
)
    requires
        other != key,
    ensures
        seen(m.insert((key, seqno), slot), other, snapshot) == seen(m, other, snapshot),
{
    let n = m.insert((key, seqno), slot);
    assert forall|t: u64| #[trigger] n.contains_key((other, t)) == m.contains_key((other, t)) by {}
    lemma_seen_alike(n, m, other, snapshot);
}

/// A write shows to the snapshots from its own number up to that of the next
/// newer version of its key, and to no others.
pub proof fn law_writes_show_in_their_window(
    m: Map<Version, Option<Seq<u8>>>,
    key: Seq<u8>,
    seqno: u64,
    slot: Option<Seq<u8>>,
    snapshot: u64,
)
    ensures
        seen(m.insert((key, seqno), slot), key, snapshot) == if seqno <= snapshot && (forall|
            t: u64,
        | #[trigger]
            m.contains_key((key, t)) && t <= snapshot ==> t <= seqno) {
            Some(slot)
        } else {
            seen(m, key, snapshot)
        },
        m.dom().finite() ==> m.insert((key, seqno), slot).dom().len() == m.dom().len() + if m.contains_key(
            (key, seqno),
        ) {
            0nat
        } else {
            1nat
        },
{
    let n = m.insert((key, seqno), slot);
    if seqno <= snapshot && (forall|t: u64| #[trigger]
        m.contains_key((key, t)) && t <= snapshot ==> t <= seqno) {
        law_writes_are_read_back(m, key, seqno, slot, snapshot);
    } else {
        assert forall|s: u64| #[trigger]
            is_newest(n, key, snapshot, s) == is_newest(m, key, snapshot, s) by {
            if is_newest(n, key, snapshot, s) {
                assert forall|t: u64| #[trigger] m.contains_key((key, t)) && t <= snapshot implies t
                    <= s by {
                    assert(n.contains_key((key, t)));
                }
                if s == seqno {
                    let t = choose|t: u64| #[trigger]
                        m.contains_key((key, t)) && t <= snapshot && t > seqno;
                    assert(n.contains_key((key, t)));
                }
            }
            if is_newest(m, key, snapshot, s) {
                assert forall|t: u64| #[trigger] n.contains_key((key, t)) && t <= snapshot implies t
                    <= s by {
                    if t != seqno {
                        assert(m.contains_key((key, t)));
                    } else {
                        let u = choose|u: u64| #[trigger]
                            m.contains_key((key, u)) && u <= snapshot && u > seqno;
                        assert(m.contains_key((key, u)));
                    }
                }
            }
        }
        if exists|s: u64| is_newest(m, key, snapshot, s) {
            let s = choose|s: u64| is_newest(m, key, snapshot, s);
            assert(is_newest(n, key, snapshot, s));
            lemma_seen(m, key, snapshot, s);
            lemma_seen(n, key, snapshot, s);
            assert(s != seqno) by {
                if s == seqno {
                    let u = choose|u: u64| #[trigger]
                        m.contains_key((key, u)) && u <= snapshot && u > seqno;
                    assert(m.contains_key((key, u)));
                }
            }
        }
    }
    assert(n.dom() =~= m.dom().insert((key, seqno)));
}

/// Freezing the active MemTable changes no read.
pub proof fn law_rotation_keeps_reads(
    active: Map<Version, Option<Seq<u8>>>,
    frozen: Seq<MemTable>,
    t: MemTable,
    key: Seq<u8>,
    snapshot: u64,
)
    requires
        t@ == active,
    ensures
        first_answer(
            seq![Map::<Version, Option<Seq<u8>>>::empty()] + frozen_layers(frozen.push(t)),
            key,
            snapshot,
        ) == first_answer(seq![active] + frozen_layers(frozen), key, snapshot),
{
    let none = Map::<Version, Option<Seq<u8>>>::empty();
    let more = frozen.push(t);
    assert(more.drop_last() =~= frozen);
    let after = seq![none] + frozen_layers(more);
    assert(after.subrange(1, after.len() as int) =~= frozen_layers(more));
    assert(frozen_layers(more) =~= seq![active] + frozen_layers(frozen));
    lemma_nothing_seen(none, key, snapshot);
}

/// A flush changes no read: the table that is written answers in the place of
/// the MemTable that was frozen first.
pub proof fn law_flush_keeps_reads(
    before: LsmEngine,
    after: LsmEngine,
    runs: Map<u64, Seq<Item>>,
    key: Seq<u8>,
    snapshot: u64,
)
    requires
        before.wf(),
        before.frozen@.len() > 0,
        before.manifest.next_table_id < u64::MAX,
        tables_hold(before.open_tables@, runs),
        after.active == before.active,
        after.frozen@ == before.frozen@.subrange(1, before.frozen@.len() as int),
        after.open_tables@.len() == before.open_tables@.len() + 1,
        after.open_tables@.drop_last() == before.open_tables@,
        ({
            let run = items(before.frozen@[0].entries@);
            let id = before.manifest.next_table_id;
            let t = after.open_tables@.last();
            &&& t.meta.id == id
            &&& t.holds(run)
            &&& exists|size: int|
                after.manifest@ == #[trigger] added(before.manifest@, summary(run, id, 0, size))
        }),
    ensures
        ({
            let run = items(before.frozen@[0].entries@);
            let id = before.manifest.next_table_id;
            let now = runs.insert(id, run);
            &&& tables_hold(after.open_tables@, now)
            &&& first_answer(after.layers(now, key), key, snapshot) == first_answer(
                before.layers(runs, key),
                key,
                snapshot,
            )
        }),
{
    let mem = before.frozen@[0];
    let run = items(mem.entries@);
    let id = before.manifest.next_table_id;
    let now = runs.insert(id, run);
    let old_tables = before.open_tables@;
    let tables = after.open_tables@;
    let size = choose|size: int|
        after.manifest@ == #[trigger] added(before.manifest@, summary(run, id, 0, size));
    let m = summary(run, id, 0, size);
    assert forall|i: int| 0 <= i < tables.len() implies (#[trigger] tables[i]).holds(
        now[tables[i].meta.id],
    ) by {
        if i < old_tables.len() {
            assert(tables[i] == old_tables[i]);
            assert(old_tables[i].meta.id < id);
        }
    }
    // the MemTables: the oldest frozen one is gone
    let rest = frozen_layers(after.frozen@);
    lemma_frozen_first(before.frozen@);
    assert(frozen_layers(before.frozen@) =~= rest + seq![mem@]);
    assert(before.memory() =~= after.memory() + seq![mem@]);
    // the tables: the new one comes first where its range spans the key
    let order = consulted(before.manifest@, key);
    let longer = consulted(after.manifest@, key);
    lemma_consulted_added(before.manifest@, m, key);
    let disk = disk_layers(order, old_tables, runs);
    lemma_disk_same(order, old_tables, runs, tables, now, id, before.manifest@, key);
    let disk_now = disk_layers(longer, tables, now);
    assert(first_answer(disk_now, key, snapshot) == first_answer(
        seq![mem@] + disk,
        key,
        snapshot,
    )) by {
        let both = seq![mem@] + disk;
        assert(both.subrange(1, both.len() as int) =~= disk);
        if spans_key(m, key) {
            assert(longer =~= seq![m] + order);
            assert(longer.subrange(1, longer.len() as int) =~= order);
            assert(is_open(tables, id)) by {
                assert(tables[tables.len() - 1].meta.id == id);
            }
            assert(disk_now =~= both);
        } else {
            assert(disk_now == disk);
            lemma_outside(run, m, key, snapshot);
        }
    }
    lemma_answer_step(before.memory(), disk, key, snapshot);
    lemma_answer_step(after.memory(), seq![mem@], key, snapshot);
    lemma_answer_step(after.memory(), disk_now, key, snapshot);
    lemma_answer_step(seq![mem@], disk, key, snapshot);
}

proof fn lemma_frozen_first(v: Seq<MemTable>)
    requires
        v.len() > 0,
    ensures
        frozen_layers(v) == frozen_layers(v.subrange(1, v.len() as int)) + seq![v[0]@],
    decreases v.len(),
{
    let tail = v.subrange(1, v.len() as int);
    if v.len() == 1 {
        assert(v.drop_last() =~= Seq::<MemTable>::empty());
        assert(tail =~= Seq::<MemTable>::empty());
        assert(frozen_layers(v) =~= frozen_layers(tail) + seq![v[0]@]);
    } else {
        let less = v.drop_last();
        lemma_frozen_first(less);
        assert(tail.drop_last() =~= less.subrange(1, less.len() as int));
        assert(frozen_layers(v) =~= frozen_layers(tail) + seq![v[0]@]);
    }
}

/// A new table of L0 is consulted first, where it may hold the key.
proof fn lemma_consulted_added(levels: Seq<Seq<Summary>>, m: Summary, key: Seq<u8>)
    requires
        m.level == 0,
        levels.len() > 0,
    ensures
        consulted(added(levels, m), key) == if spans_key(m, key) {
            seq![m] + consulted(levels, key)
        } else {
            consulted(levels, key)
        },
    decreases levels.len(),
{
    let now = added(levels, m);
    assert(padded(levels, 1) == levels);
    if levels.len() == 1 {
        let v = levels[0];
        assert(now[0] == v.push(m));
        assert(v.push(m).drop_last() =~= v);
    } else {
        let less = levels.drop_last();
        lemma_consulted_added(less, m, key);
        assert(padded(less, 1) == less);
        assert(now.drop_last() =~= added(less, m));
        assert(now.last() == levels.last());
        let tail = only_one(levels.last(), key);
        assert((seq![m] + consulted(less, key)) + tail =~= seq![m] + (consulted(less, key) + tail));
    }
}

/// The tables that a lookup consults are live ones.
proof fn lemma_consulted_ids(levels: Seq<Seq<Summary>>, next: u64, key: Seq<u8>)
    requires
        ids_below(levels, next),
    ensures
        forall|i: int|
            0 <= i < consulted(levels, key).len() ==> (#[trigger] consulted(levels, key)[i]).id
                < next,
    decreases levels.len(),
{
    let order = consulted(levels, key);
    if levels.len() == 1 {
        assert forall|i: int| 0 <= i < levels[0].len() implies (#[trigger] levels[0][i]).id
            < next by {}
        lemma_newest_ids(levels[0], next, key);
    } else if levels.len() > 1 {
        let less = levels.drop_last();
        assert(ids_below(less, next)) by {
            assert forall|l: int, i: int|
                0 <= l < less.len() && 0 <= i < less[l].len() implies (#[trigger] less[l][i]).id
                < next by {
                assert(less[l] == levels[l]);
                assert(levels[l][i].id < next);
            }
        }
        lemma_consulted_ids(less, next, key);
        let top = levels.last();
        assert forall|i: int| 0 <= i < top.len() implies (#[trigger] top[i]).id < next by {
            assert(levels[levels.len() - 1][i].id < next);
        }
        lemma_one_ids(top, next, key);
        let head = consulted(less, key);
        assert forall|i: int| 0 <= i < order.len() implies (#[trigger] order[i]).id < next by {
            if i < head.len() {
                assert(order[i] == head[i]);
            } else {
                assert(order[i] == only_one(top, key)[i - head.len()]);
            }
        }
    }
}

proof fn lemma_newest_ids(v: Seq<Summary>, next: u64, key: Seq<u8>)
    requires
        forall|i: int| 0 <= i < v.len() ==> (#[trigger] v[i]).id < next,
    ensures
        forall|i: int|
            0 <= i < newest_first(v, key).len() ==> (#[trigger] newest_first(v, key)[i]).id < next,
    decreases v.len(),
{
    if v.len() > 0 {
        let less = v.drop_last();
        assert forall|i: int| 0 <= i < less.len() implies (#[trigger] less[i]).id < next by {
            assert(less[i] == v[i]);
        }
        lemma_newest_ids(less, next, key);
        let all = newest_first(v, key);
        assert forall|i: int| 0 <= i < all.len() implies (#[trigger] all[i]).id < next by {
            if spans_key(v.last(), key) {
                if i == 0 {
                    assert(all[0] == v[v.len() - 1]);
                } else {
                    assert(all[i] == newest_first(less, key)[i - 1]);
                }
            } else {
                assert(all[i] == newest_first(less, key)[i]);
            }
        }
    }
}

proof fn lemma_one_ids(v: Seq<Summary>, next: u64, key: Seq<u8>)
    requires
        forall|i: int| 0 <= i < v.len() ==> (#[trigger] v[i]).id < next,
    ensures
        forall|i: int|
            0 <= i < only_one(v, key).len() ==> (#[trigger] only_one(v, key)[i]).id < next,
    decreases v.len(),
{
    if v.len() > 0 && !spans_key(v[0], key) {
        let rest = v.subrange(1, v.len() as int);
        assert forall|i: int| 0 <= i < rest.len() implies (#[trigger] rest[i]).id < next by {
            assert(rest[i] == v[i + 1]);
        }
        lemma_one_ids(rest, next, key);
        let (a, b) = (only_one(v, key), only_one(rest, key));
        assert forall|i: int| 0 <= i < a.len() implies (#[trigger] a[i]).id < next by {
            assert(a[i] == b[i]);
        }
    } else if v.len() > 0 {
        let a = only_one(v, key);
        assert forall|i: int| 0 <= i < a.len() implies (#[trigger] a[i]).id < next by {
            assert(a[i] == v[0]);
        }
    }
}

/// Tables that were consulted before answer as they did.
proof fn lemma_disk_alike(
    order: Seq<Summary>,
    old_tables: Seq<SSTable>,
    runs: Map<u64, Seq<Item>>,
    tables: Seq<SSTable>,
    now: Map<u64, Seq<Item>>,
)
    requires
        forall|i: int|
            0 <= i < order.len() ==> is_open(tables, (#[trigger] order[i]).id) == is_open(
                old_tables,
                order[i].id,
            ) && now[order[i].id] == runs[order[i].id],
    ensures
        disk_layers(order, tables, now) == disk_layers(order, old_tables, runs),
    decreases order.len(),
{
    if order.len() > 0 {
        let rest = order.subrange(1, order.len() as int);
        assert forall|i: int| 0 <= i < rest.len() implies is_open(
            tables,
            (#[trigger] rest[i]).id,
        ) == is_open(old_tables, rest[i].id) && now[rest[i].id] == runs[rest[i].id] by {
            assert(rest[i] == order[i + 1]);
        }
        lemma_disk_alike(rest, old_tables, runs, tables, now);
        assert(is_open(tables, order[0].id) == is_open(old_tables, order[0].id));
    }
}

proof fn lemma_disk_same(
    order: Seq<Summary>,
    old_tables: Seq<SSTable>,
    runs: Map<u64, Seq<Item>>,
    tables: Seq<SSTable>,
    now: Map<u64, Seq<Item>>,
    id: u64,
    levels: Seq<Seq<Summary>>,
    key: Seq<u8>,
)
    requires
        ids_below(levels, id),
        order == consulted(levels, key),
        tables.len() == old_tables.len() + 1,
        tables.drop_last() == old_tables,
        tables.last().meta.id == id,
        forall|k: u64| k != id ==> #[trigger] now[k] == runs[k],
    ensures
        disk_layers(order, tables, now) == disk_layers(order, old_tables, runs),
{
    lemma_consulted_ids(levels, id, key);
    assert forall|i: int| 0 <= i < order.len() implies is_open(tables, (#[trigger] order[i]).id)
        == is_open(old_tables, order[i].id) && now[order[i].id] == runs[order[i].id] by {
        let k = order[i].id;
        assert(k < id);
        if is_open(old_tables, k) {
            let j = choose|j: int| 0 <= j < old_tables.len() && (#[trigger] old_tables[j]).meta.id
                == k;
            assert(tables[j] == old_tables[j]);
        }
        if is_open(tables, k) {
            let j = choose|j: int| 0 <= j < tables.len() && (#[trigger] tables[j]).meta.id == k;
            if j < old_tables.len() {
                assert(old_tables[j] == tables[j]);
            }
        }
    }
    lemma_disk_alike(order, old_tables, runs, tables, now);
}

/// A key outside the range of a table is not in it.
pub(crate) proof fn lemma_outside(run: Seq<Item>, m: Summary, key: Seq<u8>, snapshot: u64)
    requires
        in_order(run),
        run.len() > 0 ==> m.min_key == run[0].0.0 && m.max_key == run.last().0.0,
        !spans_key(m, key),
    ensures
        seen(versions(run), key, snapshot) is None,
{
    assert forall|i: int| 0 <= i < run.len() && (#[trigger] run[i]).0.0 == key implies run[i].0.1
        > snapshot by {
        if i > 0 {
            assert(version_lt(run[0].0, run[i].0));
        }
        if i < run.len() - 1 {
            assert(version_lt(run[i].0, run[run.len() - 1].0));
        }
    }
    lemma_unseen(run, key, snapshot);
}

} // verus!

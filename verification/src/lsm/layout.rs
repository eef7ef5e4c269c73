//! The layout of the levels, and that a compaction changes no read.

use crate::bytes::{lemma_lex_asymmetric, lemma_lex_total, lemma_lex_transitive, lex_le, lex_lt};
use crate::lsm::compact::{
    compacted_in_turn, compacts, compacts_urgent, inputs, job_inputs, job_tables, left_over, lemma_compacted_last,
    lemma_largest, lemma_meeting, merge_order,
    outputs_of, table_of, urgent,
};
use crate::lsm::compaction::{
    consulted, exceeds, is_due, meeting, newest_first, only_one, spans_key, LevelConfig,
};
use crate::lsm::engine::{
    all_fit, disk_layers, first_answer, flushes_to, is_file_of, is_open, lemma_answer_step,
    lemma_opened_file, tables_hold, Compacted, Flushed, LsmEngine,
};
use crate::lsm::entry::{fits, lemma_stored, place, stored};
use crate::lsm::levels::{
    added, all_added, all_removed, drained, greatest_key, largest, least_key,
    lemma_due_level_holds_tables, lemma_slot_splits, most_urgent, padded, retired, score_of,
    slot_for, with_table,
};
use crate::lsm::merge::{is_first, joined, merged};
use crate::lsm::reads::{
    law_merged_tables_answer_alike, layered, lemma_joined_from, lemma_nothing_seen, run_layers,
};
use crate::lsm::sstable::{opened, summary, SSTable, Summary};
use crate::lsm::version::{
    in_order, items, lemma_listed, lemma_versions, seen, version_lt, versions, Item, Version,
};
use vstd::prelude::*;

verus! {

/// What a table holds.
pub open spec fn contents(runs: Map<u64, Seq<Item>>, t: Summary) -> Map<Version, Option<Seq<u8>>> {
    versions(runs[t.id])
}

/// What a snapshot sees of a key in a table.
pub open spec fn sight(
    runs: Map<u64, Seq<Item>>,
    t: Summary,
    key: Seq<u8>,
    snapshot: u64,
) -> Option<Option<Seq<u8>>> {
    seen(contents(runs, t), key, snapshot)
}

/// Tables as layers.
pub open spec fn stack(v: Seq<Summary>, runs: Map<u64, Seq<Item>>) -> Seq<
    Map<Version, Option<Seq<u8>>>,
> {
    Seq::new(v.len(), |i: int| contents(runs, v[i]))
}

/// What the first table says that says anything of a key.
pub open spec fn says(
    v: Seq<Summary>,
    runs: Map<u64, Seq<Item>>,
    key: Seq<u8>,
    snapshot: u64,
) -> Option<Option<Seq<u8>>> {
    first_answer(stack(v, runs), key, snapshot)
}

/// The key range of a table covers what it holds.
pub open spec fn covers(runs: Map<u64, Seq<Item>>, t: Summary) -> bool {
    forall|v: Version| #[trigger] contents(runs, t).contains_key(v) ==> spans_key(t, v.0)
}

/// The key ranges of a level's tables do not meet.
pub open spec fn disjoint(v: Seq<Summary>) -> bool {
    forall|t: Summary, u: Summary, key: Seq<u8>|
        v.contains(t) && v.contains(u) && #[trigger] spans_key(t, key) && #[trigger] spans_key(
            u,
            key,
        ) ==> t == u
}

/// What one table holds of a key is no older than what another holds of it.
pub open spec fn newer(runs: Map<u64, Seq<Item>>, t: Summary, u: Summary) -> bool {
    forall|key: Seq<u8>, s: u64, r: u64| #[trigger]
        contents(runs, t).contains_key((key, s)) && #[trigger] contents(runs, u).contains_key(
            (key, r),
        ) ==> s >= r
}

/// Ids are used once.
pub open spec fn unique(levels: Seq<Seq<Summary>>) -> bool {
    &&& forall|l: int| 0 <= l < levels.len() ==> (#[trigger] levels[l]).no_duplicates()
    &&& forall|l: int, m: int, t: Summary, u: Summary|
        0 <= l < levels.len() && 0 <= m < levels.len() && #[trigger] levels[l].contains(t)
            && #[trigger] levels[m].contains(u) && t.id == u.id ==> l == m && t == u
}

/// The level invariants: key ranges are true, the tables of L1 and deeper
/// levels do not overlap, and data gets older from level to level, and in L0
/// from the last table to the first.
pub open spec fn laid(levels: Seq<Seq<Summary>>, runs: Map<u64, Seq<Item>>) -> bool {
    &&& unique(levels)
    &&& forall|l: int, t: Summary|
        0 <= l < levels.len() && #[trigger] levels[l].contains(t) ==> covers(runs, t)
    &&& forall|l: int| 1 <= l < levels.len() ==> disjoint(#[trigger] levels[l])
    &&& forall|l: int, m: int, t: Summary, u: Summary|
        0 <= l < m < levels.len() && #[trigger] levels[l].contains(t)
            && #[trigger] levels[m].contains(u) ==> newer(runs, t, u)
    &&& forall|i: int, j: int|
        0 <= i < j < levels[0].len() ==> newer(
            runs,
            #[trigger] levels[0][j],
            #[trigger] levels[0][i],
        )
}

impl LsmEngine {
    /// The live tables are open, hold the runs named for their ids, and are
    /// laid out in levels as the configuration says.
    pub open spec fn well_laid(&self, runs: Map<u64, Seq<Item>>) -> bool {
        &&& tables_hold(self.open_tables@, runs)
        &&& laid(self.manifest@, runs)
        &&& self.manifest@.len() <= self.manifest.config.max_levels
        &&& forall|l: int, t: Summary|
            0 <= l < self.manifest@.len() && #[trigger] self.manifest@[l].contains(t) ==> is_open(
                self.open_tables@,
                t.id,
            )
    }
}

/// `r` is what the tables say of a key of which at most one can say anything.
pub open spec fn is_told(
    v: Seq<Summary>,
    runs: Map<u64, Seq<Item>>,
    key: Seq<u8>,
    snapshot: u64,
    r: Option<Option<Seq<u8>>>,
) -> bool {
    &&& forall|t: Summary| #[trigger]
        v.contains(t) && sight(runs, t, key, snapshot) is Some ==> r == sight(
            runs,
            t,
            key,
            snapshot,
        )
    &&& r is Some ==> exists|t: Summary| #[trigger]
        v.contains(t) && sight(runs, t, key, snapshot) == r
}

proof fn lemma_sight_spans(runs: Map<u64, Seq<Item>>, t: Summary, key: Seq<u8>, snapshot: u64)
    requires
        covers(runs, t),
        sight(runs, t, key, snapshot) is Some,
    ensures
        spans_key(t, key),
{
    let m = contents(runs, t);
    if forall|s: u64| !(#[trigger] m.contains_key((key, s))) || s > snapshot {
        lemma_nothing_seen(m, key, snapshot);
    }
    let s = choose|s: u64| #[trigger] m.contains_key((key, s)) && s <= snapshot;
    assert(m.contains_key((key, s)));
}

proof fn lemma_contains_rest<A>(v: Seq<A>, t: A)
    requires
        v.len() > 0,
    ensures
        v.contains(t) <==> t == v[0] || v.subrange(1, v.len() as int).contains(t),
{
    let rest = v.subrange(1, v.len() as int);
    if v.contains(t) {
        let i = choose|i: int| 0 <= i < v.len() && v[i] == t;
        if i > 0 {
            assert(rest[i - 1] == t);
        }
    }
    if rest.contains(t) {
        let i = choose|i: int| 0 <= i < rest.len() && rest[i] == t;
        assert(v[i + 1] == t);
    }
    assert(v[0] == v[0]);
}

/// The first table of a list speaks first.
proof fn lemma_says_step(v: Seq<Summary>, runs: Map<u64, Seq<Item>>, key: Seq<u8>, snapshot: u64)
    requires
        v.len() > 0,
    ensures
        says(v, runs, key, snapshot) == match sight(runs, v[0], key, snapshot) {
            Some(a) => Some(a),
            None => says(v.subrange(1, v.len() as int), runs, key, snapshot),
        },
{
    let all = stack(v, runs);
    assert(all.subrange(1, all.len() as int) =~= stack(v.subrange(1, v.len() as int), runs));
}

/// What a list says is what one of its tables says.
proof fn lemma_says(v: Seq<Summary>, runs: Map<u64, Seq<Item>>, key: Seq<u8>, snapshot: u64)
    ensures
        ({
            let r = says(v, runs, key, snapshot);
            &&& r is Some ==> exists|t: Summary| #[trigger]
                v.contains(t) && sight(runs, t, key, snapshot) == r
            &&& r is None ==> forall|t: Summary| #[trigger]
                v.contains(t) ==> sight(runs, t, key, snapshot) is None
        }),
    decreases v.len(),
{
    if v.len() > 0 {
        let rest = v.subrange(1, v.len() as int);
        lemma_says_step(v, runs, key, snapshot);
        lemma_says(rest, runs, key, snapshot);
        let r = says(v, runs, key, snapshot);
        if r is Some {
            if sight(runs, v[0], key, snapshot) is Some {
                lemma_contains_rest(v, v[0]);
            } else {
                let t = choose|t: Summary| #[trigger]
                    rest.contains(t) && sight(runs, t, key, snapshot) == r;
                lemma_contains_rest(v, t);
            }
        } else {
            assert forall|t: Summary| #[trigger] v.contains(t) implies sight(
                runs,
                t,
                key,
                snapshot,
            ) is None by {
                lemma_contains_rest(v, t);
            }
        }
    }
}

/// Of a level whose tables do not overlap, the one that spans the key says it
/// all.
proof fn lemma_says_one(v: Seq<Summary>, runs: Map<u64, Seq<Item>>, key: Seq<u8>, snapshot: u64)
    requires
        disjoint(v),
        v.no_duplicates(),
        forall|t: Summary| #[trigger] v.contains(t) ==> covers(runs, t),
    ensures
        is_told(v, runs, key, snapshot, says(only_one(v, key), runs, key, snapshot)),
    decreases v.len(),
{
    let one = only_one(v, key);
    let r = says(one, runs, key, snapshot);
    lemma_says(one, runs, key, snapshot);
    if v.len() > 0 {
        let rest = v.subrange(1, v.len() as int);
        if spans_key(v[0], key) {
            assert(one[0] == v[0]);
            lemma_says_step(one, runs, key, snapshot);
            assert(stack(one.subrange(1, one.len() as int), runs) =~= Seq::empty());
            lemma_contains_rest(v, v[0]);
            assert forall|t: Summary| #[trigger] v.contains(t) && sight(
                runs,
                t,
                key,
                snapshot,
            ) is Some implies r == sight(runs, t, key, snapshot) by {
                lemma_sight_spans(runs, t, key, snapshot);
            }
        } else {
            assert(disjoint(rest) && rest.no_duplicates()) by {
                assert forall|t: Summary, u: Summary, k: Seq<u8>|
                    rest.contains(t) && rest.contains(u) && #[trigger] spans_key(t, k)
                        && #[trigger] spans_key(u, k) implies t == u by {
                    lemma_contains_rest(v, t);
                    lemma_contains_rest(v, u);
                }
                assert forall|i: int, j: int|
                    0 <= i < j < rest.len() implies rest[i] != rest[j] by {
                    assert(v[i + 1] != v[j + 1]);
                }
            }
            assert forall|t: Summary| #[trigger] rest.contains(t) implies covers(runs, t) by {
                lemma_contains_rest(v, t);
            }
            lemma_says_one(rest, runs, key, snapshot);
            assert forall|t: Summary| #[trigger] v.contains(t) && sight(
                runs,
                t,
                key,
                snapshot,
            ) is Some implies r == sight(runs, t, key, snapshot) by {
                lemma_contains_rest(v, t);
                lemma_sight_spans(runs, t, key, snapshot);
            }
            if r is Some {
                let t = choose|t: Summary| #[trigger]
                    rest.contains(t) && sight(runs, t, key, snapshot) == r;
                lemma_contains_rest(v, t);
            }
        }
    }
}

/// A list says the same without the tables that do not span the key.
proof fn lemma_says_newest(v: Seq<Summary>, runs: Map<u64, Seq<Item>>, key: Seq<u8>, snapshot: u64)
    requires
        forall|t: Summary| #[trigger] v.contains(t) ==> covers(runs, t),
    ensures
        says(newest_first(v, key), runs, key, snapshot) == says(v.reverse(), runs, key, snapshot),
    decreases v.len(),
{
    if v.len() > 0 {
        let less = v.drop_last();
        assert forall|t: Summary| #[trigger] less.contains(t) implies covers(runs, t) by {
            let i = choose|i: int| 0 <= i < less.len() && less[i] == t;
            assert(v[i] == t);
            assert(v.contains(t));
        }
        lemma_says_newest(less, runs, key, snapshot);
        let back = v.reverse();
        assert(back[0] == v.last());
        assert(back.subrange(1, back.len() as int) =~= less.reverse());
        lemma_says_step(back, runs, key, snapshot);
        assert(v.contains(v.last())) by {
            assert(v[v.len() - 1] == v.last());
        }
        let order = newest_first(v, key);
        if spans_key(v.last(), key) {
            assert(order[0] == v.last());
            assert(order.subrange(1, order.len() as int) =~= newest_first(less, key));
            lemma_says_step(order, runs, key, snapshot);
        } else if sight(runs, v.last(), key, snapshot) is Some {
            lemma_sight_spans(runs, v.last(), key, snapshot);
        }
    } else {
        assert(v.reverse() =~= newest_first(v, key));
    }
}

/// What the first `n` levels say of a key.
pub open spec fn chain(
    levels: Seq<Seq<Summary>>,
    n: nat,
    runs: Map<u64, Seq<Item>>,
    key: Seq<u8>,
    snapshot: u64,
) -> Option<Option<Seq<u8>>>
    decreases n,
{
    if n == 0 {
        None
    } else if n == 1 {
        says(newest_first(levels[0], key), runs, key, snapshot)
    } else {
        match chain(levels, (n - 1) as nat, runs, key, snapshot) {
            Some(a) => Some(a),
            None => says(only_one(levels[n - 1], key), runs, key, snapshot),
        }
    }
}

/// Levels that are the same say the same.
proof fn lemma_chain_alike(
    a: Seq<Seq<Summary>>,
    b: Seq<Seq<Summary>>,
    n: nat,
    ra: Map<u64, Seq<Item>>,
    rb: Map<u64, Seq<Item>>,
    key: Seq<u8>,
    snapshot: u64,
)
    requires
        n <= a.len(),
        n <= b.len(),
        forall|l: int| 0 <= l < n ==> #[trigger] a[l] == b[l],
        forall|l: int, t: Summary| 0 <= l < n && #[trigger] a[l].contains(t) ==> ra[t.id] == rb[t.id],
    ensures
        chain(a, n, ra, key, snapshot) == chain(b, n, rb, key, snapshot),
    decreases n,
{
    if n == 1 {
        assert(a[0] == b[0]);
        lemma_newest_within(a[0], key);
        lemma_says_alike(newest_first(a[0], key), a[0], ra, rb, key, snapshot);
    } else if n > 1 {
        lemma_chain_alike(a, b, (n - 1) as nat, ra, rb, key, snapshot);
        assert(a[n - 1] == b[n - 1]);
        lemma_one_within(a[n - 1], key);
        lemma_says_alike(only_one(a[n - 1], key), a[n - 1], ra, rb, key, snapshot);
    }
}

proof fn lemma_says_alike(
    v: Seq<Summary>,
    all: Seq<Summary>,
    ra: Map<u64, Seq<Item>>,
    rb: Map<u64, Seq<Item>>,
    key: Seq<u8>,
    snapshot: u64,
)
    requires
        forall|i: int| 0 <= i < v.len() ==> all.contains(#[trigger] v[i]),
        forall|t: Summary| #[trigger] all.contains(t) ==> ra[t.id] == rb[t.id],
    ensures
        says(v, ra, key, snapshot) == says(v, rb, key, snapshot),
{
    assert(stack(v, ra) =~= stack(v, rb)) by {
        assert forall|i: int| 0 <= i < v.len() implies ra[(#[trigger] v[i]).id] == rb[v[i].id] by {
            assert(all.contains(v[i]));
        }
    }
}

proof fn lemma_newest_within(v: Seq<Summary>, key: Seq<u8>)
    ensures
        forall|i: int|
            0 <= i < newest_first(v, key).len() ==> v.contains(#[trigger] newest_first(v, key)[i]),
    decreases v.len(),
{
    if v.len() > 0 {
        let less = v.drop_last();
        let all = newest_first(v, key);
        let tail = newest_first(less, key);
        lemma_newest_within(less, key);
        assert forall|i: int| 0 <= i < all.len() implies v.contains(#[trigger] all[i]) by {
            let j = if spans_key(v.last(), key) {
                i - 1
            } else {
                i
            };
            if j < 0 {
                assert(v[v.len() - 1] == all[i]);
            } else {
                assert(all[i] == tail[j]);
                assert(less.contains(tail[j]));
                let k = choose|k: int| 0 <= k < less.len() && less[k] == tail[j];
                assert(v[k] == all[i]);
            }
        }
    }
}

proof fn lemma_one_within(v: Seq<Summary>, key: Seq<u8>)
    ensures
        forall|i: int|
            0 <= i < only_one(v, key).len() ==> v.contains(#[trigger] only_one(v, key)[i]),
    decreases v.len(),
{
    if v.len() > 0 {
        let rest = v.subrange(1, v.len() as int);
        let one = only_one(v, key);
        lemma_one_within(rest, key);
        assert forall|i: int| 0 <= i < one.len() implies v.contains(#[trigger] one[i]) by {
            lemma_contains_rest(v, one[i]);
            if !spans_key(v[0], key) {
                assert(rest.contains(only_one(rest, key)[i]));
            }
        }
    }
}

/// Open tables are layers.
proof fn lemma_disk(order: Seq<Summary>, tables: Seq<SSTable>, runs: Map<u64, Seq<Item>>)
    requires
        forall|i: int| 0 <= i < order.len() ==> is_open(tables, (#[trigger] order[i]).id),
    ensures
        disk_layers(order, tables, runs) == stack(order, runs),
    decreases order.len(),
{
    if order.len() > 0 {
        let rest = order.subrange(1, order.len() as int);
        assert forall|i: int| 0 <= i < rest.len() implies is_open(
            tables,
            (#[trigger] rest[i]).id,
        ) by {
            assert(rest[i] == order[i + 1]);
        }
        lemma_disk(rest, tables, runs);
        assert(is_open(tables, order[0].id));
        assert(disk_layers(order, tables, runs) =~= stack(order, runs));
    } else {
        assert(disk_layers(order, tables, runs) =~= stack(order, runs));
    }
}

/// A lookup asks the levels one after the other.
pub(crate) proof fn lemma_consulted(
    levels: Seq<Seq<Summary>>,
    runs: Map<u64, Seq<Item>>,
    key: Seq<u8>,
    snapshot: u64,
)
    ensures
        says(consulted(levels, key), runs, key, snapshot) == chain(
            levels,
            levels.len(),
            runs,
            key,
            snapshot,
        ),
        forall|i: int|
            0 <= i < consulted(levels, key).len() ==> exists|l: int|
                0 <= l < levels.len() && (#[trigger] levels[l]).contains(
                    #[trigger] consulted(levels, key)[i],
                ),
    decreases levels.len(),
{
    let order = consulted(levels, key);
    if levels.len() == 1 {
        lemma_newest_within(levels[0], key);
    } else if levels.len() > 1 {
        let less = levels.drop_last();
        let last = only_one(levels.last(), key);
        let head = consulted(less, key);
        lemma_consulted(less, runs, key, snapshot);
        lemma_one_within(levels.last(), key);
        lemma_chain_alike(levels, less, less.len(), runs, runs, key, snapshot);
        assert(stack(order, runs) =~= stack(head, runs) + stack(last, runs));
        lemma_answer_step(stack(head, runs), stack(last, runs), key, snapshot);
        assert forall|i: int| 0 <= i < order.len() implies exists|l: int|
            0 <= l < levels.len() && (#[trigger] levels[l]).contains(#[trigger] order[i]) by {
            if i < head.len() {
                assert(order[i] == head[i]);
                let l = choose|l: int|
                    0 <= l < less.len() && (#[trigger] less[l]).contains(head[i]);
                assert(levels[l] == less[l]);
                assert(levels[l].contains(order[i]));
            } else {
                assert(order[i] == last[i - head.len()]);
                assert(levels[levels.len() - 1].contains(order[i]));
            }
        }
    } else {
        assert(stack(order, runs) =~= Seq::empty());
    }
}

/// A read of a well-laid engine: what is in memory, then the levels.
pub(crate) proof fn lemma_read(e: LsmEngine, runs: Map<u64, Seq<Item>>, key: Seq<u8>, snapshot: u64)
    requires
        e.well_laid(runs),
    ensures
        first_answer(e.layers(runs, key), key, snapshot) == match first_answer(
            e.memory(),
            key,
            snapshot,
        ) {
            Some(a) => Some(a),
            None => chain(e.manifest@, e.manifest@.len(), runs, key, snapshot),
        },
{
    let order = consulted(e.manifest@, key);
    let levels = e.manifest@;
    lemma_consulted(levels, runs, key, snapshot);
    assert forall|i: int| 0 <= i < order.len() implies is_open(
        e.open_tables@,
        (#[trigger] order[i]).id,
    ) by {
        let l = choose|l: int| 0 <= l < levels.len() && (#[trigger] levels[l]).contains(order[i]);
        assert(levels[l].contains(order[i]));
    }
    lemma_disk(order, e.open_tables@, runs);
    lemma_answer_step(e.memory(), stack(order, runs), key, snapshot);
}

// ---- the tables of a compaction --------------------------------------------------------------

/// A table that is retired is gone, and the others stay.
proof fn lemma_retired_holds(v: Seq<Summary>, id: u64)
    requires
        v.no_duplicates(),
        forall|t: Summary, u: Summary| #[trigger]
            v.contains(t) && #[trigger] v.contains(u) && t.id == u.id ==> t == u,
    ensures
        forall|t: Summary| #[trigger]
            retired(v, id).contains(t) <==> v.contains(t) && t.id != id,
        retired(v, id).no_duplicates(),
    decreases v.len(),
{
    if v.len() > 0 {
        let rest = v.subrange(1, v.len() as int);
        let w = retired(v, id);
        assert(rest.no_duplicates()) by {
            assert forall|i: int, j: int| 0 <= i < j < rest.len() implies rest[i] != rest[j] by {
                assert(v[i + 1] != v[j + 1]);
            }
        }
        assert forall|t: Summary, u: Summary| #[trigger]
            rest.contains(t) && #[trigger] rest.contains(u) && t.id == u.id implies t == u by {
            lemma_contains_rest(v, t);
            lemma_contains_rest(v, u);
        }
        lemma_retired_holds(rest, id);
        assert(!rest.contains(v[0])) by {
            if rest.contains(v[0]) {
                let i = choose|i: int| 0 <= i < rest.len() && rest[i] == v[0];
                assert(v[i + 1] == v[0]);
            }
        }
        let tail = retired(rest, id);
        assert forall|t: Summary| #[trigger] w.contains(t) <==> v.contains(t) && t.id != id by {
            lemma_contains_rest(v, t);
            lemma_contains_rest(v, v[0]);
            if v[0].id != id {
                assert(w.subrange(1, w.len() as int) =~= tail);
                lemma_contains_rest(w, t);
            }
        }
        if v[0].id != id {
            assert forall|i: int, j: int| 0 <= i < j < w.len() implies w[i] != w[j] by {
                assert(w[j] == tail[j - 1]);
                assert(tail.contains(tail[j - 1]));
                if i == 0 {
                    assert(rest.contains(tail[j - 1]));
                } else {
                    assert(w[i] == tail[i - 1]);
                }
            }
        }
    }
}

/// A level without the tables of a list.
proof fn lemma_all_removed_holds(levels: Seq<Seq<Summary>>, level: u32, ts: Seq<Summary>)
    requires
        level < levels.len(),
        unique(levels),
    ensures
        ({
            let now = all_removed(levels, level, ts);
            &&& now.len() == levels.len()
            &&& forall|l: int| 0 <= l < now.len() && l != level ==> #[trigger] now[l] == levels[l]
            &&& now[level as int].no_duplicates()
            &&& forall|t: Summary| #[trigger]
                now[level as int].contains(t) <==> levels[level as int].contains(t) && !has_id(
                    ts,
                    t.id,
                )
        }),
    decreases ts.len(),
{
    let v = levels[level as int];
    if ts.len() > 0 {
        let less = ts.drop_last();
        lemma_all_removed_holds(levels, level, less);
        let mid = all_removed(levels, level, less);
        let now = all_removed(levels, level, ts);
        let w = mid[level as int];
        assert forall|t: Summary, u: Summary| #[trigger]
            w.contains(t) && #[trigger] w.contains(u) && t.id == u.id implies t == u by {
            assert(v.contains(t) && v.contains(u));
        }
        lemma_retired_holds(w, ts.last().id);
        assert(now[level as int] == retired(w, ts.last().id));
        assert forall|t: Summary| #[trigger]
            now[level as int].contains(t) <==> v.contains(t) && !has_id(ts, t.id) by {
            if has_id(less, t.id) {
                let i = choose|i: int| 0 <= i < less.len() && (#[trigger] less[i]).id == t.id;
                assert(ts[i].id == t.id);
            }
            if ts.last().id == t.id {
                assert(ts[ts.len() - 1].id == t.id);
            }
            if has_id(ts, t.id) {
                let i = choose|i: int| 0 <= i < ts.len() && (#[trigger] ts[i]).id == t.id;
                if i < less.len() {
                    assert(less[i].id == t.id);
                }
            }
        }
    }
}

/// A list holds a table of an id.
pub open spec fn has_id(ts: Seq<Summary>, id: u64) -> bool {
    exists|i: int| 0 <= i < ts.len() && (#[trigger] ts[i]).id == id
}

/// Tables of a level are told apart by their ids.
proof fn lemma_has_id(v: Seq<Summary>, ts: Seq<Summary>, t: Summary)
    requires
        v.contains(t),
        forall|i: int| 0 <= i < ts.len() ==> v.contains(#[trigger] ts[i]),
        forall|a: Summary, b: Summary| #[trigger]
            v.contains(a) && #[trigger] v.contains(b) && a.id == b.id ==> a == b,
    ensures
        has_id(ts, t.id) <==> ts.contains(t),
{
    if has_id(ts, t.id) {
        let i = choose|i: int| 0 <= i < ts.len() && (#[trigger] ts[i]).id == t.id;
        assert(v.contains(ts[i]));
    }
    if ts.contains(t) {
        let i = choose|i: int| 0 <= i < ts.len() && ts[i] == t;
        assert(ts[i].id == t.id);
    }
}

/// A table of a level meets a range exactly if it is listed as meeting it.
proof fn lemma_meeting_holds(v: Seq<Summary>, from: Seq<u8>, to: Seq<u8>, t: Summary)
    ensures
        meeting(v, from, to).contains(t) <==> v.contains(t) && lex_le(t.min_key, to) && lex_le(
            from,
            t.max_key,
        ),
    decreases v.len(),
{
    if v.len() > 0 {
        let less = v.drop_last();
        let all = meeting(v, from, to);
        let some = meeting(less, from, to);
        lemma_meeting_holds(less, from, to, t);
        assert(v =~= less.push(v.last()));
        lemma_contains_push(less, v.last(), t);
        lemma_contains_push(some, v.last(), t);
    }
}

pub(crate) proof fn lemma_contains_push<A>(v: Seq<A>, x: A, t: A)
    ensures
        v.push(x).contains(t) <==> v.contains(t) || t == x,
{
    let w = v.push(x);
    if v.contains(t) {
        let i = choose|i: int| 0 <= i < v.len() && v[i] == t;
        assert(w[i] == t);
    }
    if w.contains(t) {
        let i = choose|i: int| 0 <= i < w.len() && w[i] == t;
        if i < v.len() {
            assert(v[i] == t);
        }
    }
    assert(w[v.len() as int] == x);
}

pub(crate) proof fn lemma_contains_insert<A>(v: Seq<A>, p: int, x: A)
    requires
        0 <= p <= v.len(),
    ensures
        forall|t: A| #[trigger] v.insert(p, x).contains(t) <==> v.contains(t) || t == x,
        v.no_duplicates() && !v.contains(x) ==> v.insert(p, x).no_duplicates(),
{
    let w = v.insert(p, x);
    assert forall|t: A| #[trigger] w.contains(t) <==> v.contains(t) || t == x by {
        if v.contains(t) {
            let i = choose|i: int| 0 <= i < v.len() && v[i] == t;
            if i < p {
                assert(w[i] == t);
            } else {
                assert(w[i + 1] == t);
            }
        }
        if w.contains(t) {
            let i = choose|i: int| 0 <= i < w.len() && w[i] == t;
            if i < p {
                assert(v[i] == t);
            } else if i > p {
                assert(v[i - 1] == t);
            }
        }
        assert(w[p] == x);
    }
    if v.no_duplicates() && !v.contains(x) {
        assert forall|i: int, j: int| 0 <= i < j < w.len() implies w[i] != w[j] by {
            let a = if i < p {
                i
            } else {
                i - 1
            };
            let b = if j < p {
                j
            } else {
                j - 1
            };
            if i != p {
                assert(w[i] == v[a]);
            }
            if j != p {
                assert(w[j] == v[b]);
            }
            if i != p && j != p {
                assert(a != b);
            }
        }
    }
}

/// The drained tables lie between their least and their greatest key.
proof fn lemma_hull(v: Seq<Summary>, t: Summary)
    requires
        v.contains(t),
    ensures
        lex_le(least_key(v), t.min_key),
        lex_le(t.max_key, greatest_key(v)),
    decreases v.len(),
{
    if v.len() == 1 {
        assert(v[0] == t);
    } else {
        let less = v.drop_last();
        assert(v =~= less.push(v.last()));
        lemma_contains_push(less, v.last(), t);
        if less.contains(t) {
            lemma_hull(less, t);
            lemma_le_trans(least_key(v), least_key(less), t.min_key);
            lemma_le_trans(t.max_key, greatest_key(less), greatest_key(v));
        } else {
            lemma_lex_total(least_key(less), t.min_key);
            lemma_lex_total(greatest_key(less), t.max_key);
        }
    }
}

proof fn lemma_le_trans(a: Seq<u8>, b: Seq<u8>, c: Seq<u8>)
    requires
        lex_le(a, b),
        lex_le(b, c),
    ensures
        lex_le(a, c),
{
    if a != b && b != c {
        lemma_lex_transitive(a, b, c);
    }
}

/// No key is at most one that is below it.
proof fn lemma_le_not_lt(a: Seq<u8>, b: Seq<u8>)
    requires
        lex_le(a, b),
    ensures
        !lex_lt(b, a),
{
    if lex_lt(b, a) {
        lemma_lex_asymmetric(b, a);
    }
}

/// What a compaction does to the levels: the drained tables of one level and
/// the tables below that they meet make room for at most one table.
spec fn traded(
    was: Seq<Seq<Summary>>,
    now: Seq<Seq<Summary>>,
    level: int,
    source: Seq<Summary>,
    target: Seq<Summary>,
    out: Option<Summary>,
) -> bool {
    &&& 0 <= level
    &&& level + 1 < was.len()
    &&& now.len() == was.len()
    &&& forall|l: int|
        0 <= l < was.len() && l != level && l != level + 1 ==> #[trigger] now[l] == was[l]
    &&& now[level].no_duplicates() && now[level + 1].no_duplicates()
    &&& forall|t: Summary| #[trigger]
        now[level].contains(t) <==> was[level].contains(t) && !source.contains(t)
    &&& forall|t: Summary| #[trigger]
        now[level + 1].contains(t) <==> (was[level + 1].contains(t) && !target.contains(t)) || out
            == Some(t)
    &&& forall|t: Summary| #[trigger] source.contains(t) ==> was[level].contains(t)
    &&& forall|t: Summary| #[trigger]
        target.contains(t) <==> was[level + 1].contains(t) && lex_le(
            t.min_key,
            greatest_key(source),
        ) && lex_le(least_key(source), t.max_key)
    &&& level == 0 ==> source == was[0]
    &&& level > 0 ==> source.len() == 1
}

/// A table that stays below spans no key of the range that was drained.
proof fn lemma_clear_of_source(
    was: Seq<Seq<Summary>>,
    now: Seq<Seq<Summary>>,
    level: int,
    source: Seq<Summary>,
    target: Seq<Summary>,
    out: Option<Summary>,
    s: Summary,
    u: Summary,
    key: Seq<u8>,
)
    requires
        traded(was, now, level, source, target, out),
        source.contains(s),
        was[level + 1].contains(u),
        !target.contains(u),
        spans_key(s, key),
    ensures
        !spans_key(u, key),
{
    if spans_key(u, key) {
        lemma_hull(source, s);
        lemma_le_trans(u.min_key, key, s.max_key);
        lemma_le_trans(u.min_key, s.max_key, greatest_key(source));
        lemma_le_trans(least_key(source), s.min_key, key);
        lemma_le_trans(least_key(source), key, u.max_key);
        assert(target.contains(u));
    }
}

/// The range of the output lies within those of the inputs.
spec fn within_inputs(o: Summary, source: Seq<Summary>, target: Seq<Summary>) -> bool {
    &&& exists|x: Summary|
        (source.contains(x) || target.contains(x)) && #[trigger] spans_key(x, o.min_key)
    &&& exists|x: Summary|
        (source.contains(x) || target.contains(x)) && #[trigger] spans_key(x, o.max_key)
}

/// A table that stays below does not overlap the output.
proof fn lemma_clear_of_output(
    was: Seq<Seq<Summary>>,
    now: Seq<Seq<Summary>>,
    level: int,
    source: Seq<Summary>,
    target: Seq<Summary>,
    o: Summary,
    u: Summary,
    key: Seq<u8>,
)
    requires
        traded(was, now, level, source, target, Some(o)),
        within_inputs(o, source, target),
        disjoint(was[level + 1]),
        was[level + 1].contains(u),
        !target.contains(u),
        spans_key(o, key),
    ensures
        !spans_key(u, key),
{
    let (a, b) = (least_key(source), greatest_key(source));
    if spans_key(u, key) {
        lemma_lex_total(u.min_key, b);
        lemma_lex_total(a, u.max_key);
        if lex_lt(u.max_key, a) {
            let x = choose|x: Summary|
                (source.contains(x) || target.contains(x)) && #[trigger] spans_key(x, o.min_key);
            lemma_le_trans(x.min_key, o.min_key, key);
            lemma_le_trans(key, u.max_key, a);
            if source.contains(x) {
                lemma_hull(source, x);
                lemma_le_trans(a, x.min_key, key);
                lemma_le_trans(a, key, u.max_key);
                lemma_le_not_lt(a, u.max_key);
            } else {
                lemma_le_trans(key, a, x.max_key);
                assert(spans_key(x, key));
                assert(x == u);
            }
        } else {
            assert(lex_lt(b, u.min_key));
            let x = choose|x: Summary|
                (source.contains(x) || target.contains(x)) && #[trigger] spans_key(x, o.max_key);
            lemma_le_trans(key, o.max_key, x.max_key);
            lemma_le_trans(b, u.min_key, key);
            if source.contains(x) {
                lemma_hull(source, x);
                lemma_le_trans(key, x.max_key, b);
                lemma_le_trans(u.min_key, key, b);
                lemma_le_not_lt(u.min_key, b);
            } else {
                lemma_le_trans(x.min_key, b, key);
                assert(spans_key(x, key));
                assert(x == u);
            }
        }
    }
}

/// The level below still does not overlap.
proof fn lemma_still_disjoint(
    was: Seq<Seq<Summary>>,
    now: Seq<Seq<Summary>>,
    level: int,
    source: Seq<Summary>,
    target: Seq<Summary>,
    out: Option<Summary>,
)
    requires
        traded(was, now, level, source, target, out),
        out is Some ==> within_inputs(out->0, source, target),
        disjoint(was[level + 1]),
    ensures
        disjoint(now[level + 1]),
{
    let up = now[level + 1];
    assert forall|t: Summary, u: Summary, key: Seq<u8>|
        up.contains(t) && up.contains(u) && #[trigger] spans_key(t, key) && #[trigger] spans_key(
            u,
            key,
        ) implies t == u by {
        if t != u {
            if out == Some(t) {
                lemma_clear_of_output(was, now, level, source, target, t, u, key);
            } else if out == Some(u) {
                lemma_clear_of_output(was, now, level, source, target, u, t, key);
            } else {
                assert(was[level + 1].contains(t) && was[level + 1].contains(u));
            }
        }
    }
}

/// What a level says of a key.
pub open spec fn level_says(
    levels: Seq<Seq<Summary>>,
    l: int,
    runs: Map<u64, Seq<Item>>,
    key: Seq<u8>,
    snapshot: u64,
) -> Option<Option<Seq<u8>>> {
    if l == 0 {
        says(newest_first(levels[0], key), runs, key, snapshot)
    } else {
        says(only_one(levels[l], key), runs, key, snapshot)
    }
}

/// The answer is the same, or a tombstone that was dropped.
pub open spec fn same_answer(
    before: Option<Option<Seq<u8>>>,
    after: Option<Option<Seq<u8>>>,
    dropped: bool,
) -> bool {
    after == before || (dropped && before == Some(None::<Seq<u8>>) && after is None)
}

/// What the output says of a key.
spec fn output_says(
    out: Option<Summary>,
    runs: Map<u64, Seq<Item>>,
    key: Seq<u8>,
    snapshot: u64,
) -> Option<Option<Seq<u8>>> {
    match out {
        Some(o) => sight(runs, o, key, snapshot),
        None => None,
    }
}

/// The tables of a trade, with what they hold before and after it.
spec fn trade_holds(
    was: Seq<Seq<Summary>>,
    now: Seq<Seq<Summary>>,
    level: int,
    source: Seq<Summary>,
    target: Seq<Summary>,
    out: Option<Summary>,
    runs: Map<u64, Seq<Item>>,
    after: Map<u64, Seq<Item>>,
) -> bool {
    &&& laid(was, runs)
    &&& traded(was, now, level, source, target, out)
    &&& out is Some ==> within_inputs(out->0, source, target) && covers(after, out->0)
    &&& forall|l: int, t: Summary|
        0 <= l < was.len() && #[trigger] was[l].contains(t) ==> after[t.id] == runs[t.id]
}

/// The tables that stay cover what they hold.
proof fn lemma_cover(
    was: Seq<Seq<Summary>>,
    now: Seq<Seq<Summary>>,
    level: int,
    source: Seq<Summary>,
    target: Seq<Summary>,
    out: Option<Summary>,
    runs: Map<u64, Seq<Item>>,
    after: Map<u64, Seq<Item>>,
)
    requires
        trade_holds(was, now, level, source, target, out, runs, after),
    ensures
        forall|l: int, t: Summary|
            0 <= l < now.len() && #[trigger] now[l].contains(t) ==> covers(after, t),
{
    assert forall|l: int, t: Summary|
        0 <= l < now.len() && #[trigger] now[l].contains(t) implies covers(after, t) by {
        if out != Some(t) || l != level + 1 {
            if l == level {
                assert(now[level].contains(t));
            } else if l == level + 1 {
                assert(now[level + 1].contains(t));
            } else {
                assert(now[l] == was[l]);
            }
            assert(was[l].contains(t));
            assert(covers(runs, t));
            assert(contents(after, t) == contents(runs, t));
        }
    }
}

/// The drained level says what it said, but for the drained tables.
proof fn lemma_drained_level(
    was: Seq<Seq<Summary>>,
    now: Seq<Seq<Summary>>,
    level: int,
    source: Seq<Summary>,
    target: Seq<Summary>,
    out: Option<Summary>,
    runs: Map<u64, Seq<Item>>,
    after: Map<u64, Seq<Item>>,
    key: Seq<u8>,
    snapshot: u64,
)
    requires
        trade_holds(was, now, level, source, target, out, runs, after),
    ensures
        ({
            let aw = level_says(was, level, runs, key, snapshot);
            let an = level_says(now, level, after, key, snapshot);
            let drained = says(source.reverse(), runs, key, snapshot);
            &&& an is Some ==> aw == an
            &&& an is None ==> aw == drained
        }),
{
    let aw = level_says(was, level, runs, key, snapshot);
    let an = level_says(now, level, after, key, snapshot);
    let back = source.reverse();
    assert forall|t: Summary| #[trigger] was[level].contains(t) implies covers(runs, t) by {}
    lemma_cover(was, now, level, source, target, out, runs, after);
    if level == 0 {
        lemma_says_newest(was[0], runs, key, snapshot);
        if now[0].len() > 0 {
            assert(now[0].contains(now[0][0]));
            assert(was[0].contains(now[0][0]));
        }
        assert(stack(newest_first(now[0], key), after) =~= Seq::empty());
    } else {
        lemma_says_one(was[level], runs, key, snapshot);
        assert(disjoint(now[level])) by {
            assert(disjoint(was[level]));
        }
        lemma_says_one(now[level], after, key, snapshot);
        let s = source[0];
        assert(source.contains(s));
        assert(back =~= seq![s]);
        lemma_says_step(back, runs, key, snapshot);
        assert(stack(back.subrange(1, 1), runs) =~= Seq::empty());
        if an is Some {
            let t = choose|t: Summary| #[trigger]
                now[level].contains(t) && sight(after, t, key, snapshot) == an;
            assert(was[level].contains(t));
            assert(sight(runs, t, key, snapshot) == an);
        } else {
            assert(was[level].contains(s));
            if aw is Some && sight(runs, s, key, snapshot) is None {
                let t = choose|t: Summary| #[trigger]
                    was[level].contains(t) && sight(runs, t, key, snapshot) == aw;
                if source.contains(t) {
                    assert(t == s);
                }
                assert(now[level].contains(t));
                assert(sight(after, t, key, snapshot) == aw);
            }
        }
    }
}

/// The two levels of a trade answer alike before and after it.
proof fn lemma_two_levels(
    was: Seq<Seq<Summary>>,
    now: Seq<Seq<Summary>>,
    level: int,
    source: Seq<Summary>,
    target: Seq<Summary>,
    out: Option<Summary>,
    runs: Map<u64, Seq<Item>>,
    after: Map<u64, Seq<Item>>,
    key: Seq<u8>,
    snapshot: u64,
    dropped: bool,
)
    requires
        trade_holds(was, now, level, source, target, out, runs, after),
        same_answer(
            says(merge_order(source, target), runs, key, snapshot),
            output_says(out, after, key, snapshot),
            dropped,
        ),
    ensures
        ({
            let aw = level_says(was, level, runs, key, snapshot);
            let an = level_says(now, level, after, key, snapshot);
            let before = match aw {
                Some(a) => Some(a),
                None => level_says(was, level + 1, runs, key, snapshot),
            };
            let then = match an {
                Some(a) => Some(a),
                None => level_says(now, level + 1, after, key, snapshot),
            };
            same_answer(before, then, dropped)
        }),
{
    let up = level + 1;
    let aw = level_says(was, level, runs, key, snapshot);
    let an = level_says(now, level, after, key, snapshot);
    let tu = level_says(was, up, runs, key, snapshot);
    let tn = level_says(now, up, after, key, snapshot);
    let back = source.reverse();
    let order = merge_order(source, target);
    let drained = says(back, runs, key, snapshot);
    let met = says(target, runs, key, snapshot);
    let all = says(order, runs, key, snapshot);
    let so = output_says(out, after, key, snapshot);
    lemma_drained_level(was, now, level, source, target, out, runs, after, key, snapshot);
    lemma_cover(was, now, level, source, target, out, runs, after);
    lemma_still_disjoint(was, now, level, source, target, out);
    assert forall|t: Summary| #[trigger] was[up].contains(t) implies covers(runs, t) by {}
    lemma_says_one(was[up], runs, key, snapshot);
    lemma_says_one(now[up], after, key, snapshot);
    assert(stack(order, runs) =~= stack(back, runs) + stack(target, runs));
    lemma_answer_step(stack(back, runs), stack(target, runs), key, snapshot);
    lemma_says(target, runs, key, snapshot);
    if an is None {
        if all is Some {
            if drained is None {
                let y = choose|y: Summary| #[trigger]
                    target.contains(y) && sight(runs, y, key, snapshot) == met;
                assert(was[up].contains(y));
                assert(tu == met);
            }
            if so is Some {
                assert(now[up].contains(out->0));
                assert(tn == so);
            } else if tn is Some {
                let t = choose|t: Summary| #[trigger]
                    now[up].contains(t) && sight(after, t, key, snapshot) == tn;
                assert(was[up].contains(t) && !target.contains(t));
                assert(sight(runs, t, key, snapshot) is Some);
                lemma_sight_spans(runs, t, key, snapshot);
                if drained is Some {
                    lemma_says(back, runs, key, snapshot);
                    let x = choose|x: Summary| #[trigger]
                        back.contains(x) && sight(runs, x, key, snapshot) == drained;
                    let i = choose|i: int| 0 <= i < back.len() && back[i] == x;
                    assert(source[source.len() - 1 - i] == x);
                    assert(source.contains(x));
                    assert(was[level].contains(x));
                    lemma_sight_spans(runs, x, key, snapshot);
                    lemma_clear_of_source(was, now, level, source, target, out, x, t, key);
                } else {
                    let y = choose|y: Summary| #[trigger]
                        target.contains(y) && sight(runs, y, key, snapshot) == met;
                    assert(was[up].contains(y));
                    lemma_sight_spans(runs, y, key, snapshot);
                    assert(y == t);
                }
            }
        } else {
            assert(so is None);
            if tn is Some {
                let t = choose|t: Summary| #[trigger]
                    now[up].contains(t) && sight(after, t, key, snapshot) == tn;
                assert(was[up].contains(t));
                assert(sight(runs, t, key, snapshot) == tn);
            } else if tu is Some {
                let t = choose|t: Summary| #[trigger]
                    was[up].contains(t) && sight(runs, t, key, snapshot) == tu;
                assert(!target.contains(t));
                assert(now[up].contains(t));
                assert(sight(after, t, key, snapshot) == tu);
            }
        }
    }
}

/// What the output holds, an input held.
spec fn drawn_from(
    out: Option<Summary>,
    source: Seq<Summary>,
    target: Seq<Summary>,
    runs: Map<u64, Seq<Item>>,
    after: Map<u64, Seq<Item>>,
) -> bool {
    out is Some ==> forall|v: Version| #[trigger]
        contents(after, out->0).contains_key(v) ==> exists|x: Summary|
            (source.contains(x) || target.contains(x)) && #[trigger] contents(
                runs,
                x,
            ).contains_key(v)
}

/// Data still gets older from level to level.
proof fn lemma_still_newer(
    was: Seq<Seq<Summary>>,
    now: Seq<Seq<Summary>>,
    level: int,
    source: Seq<Summary>,
    target: Seq<Summary>,
    out: Option<Summary>,
    runs: Map<u64, Seq<Item>>,
    after: Map<u64, Seq<Item>>,
    l: int,
    m: int,
    t: Summary,
    u: Summary,
)
    requires
        trade_holds(was, now, level, source, target, out, runs, after),
        drawn_from(out, source, target, runs, after),
        forall|k: int, x: Summary|
            0 <= k < was.len() && #[trigger] was[k].contains(x) ==> out != Some(x),
        0 <= l < m < now.len(),
        now[l].contains(t),
        now[m].contains(u),
    ensures
        newer(after, t, u),
{
    let up = level + 1;
    assert forall|key: Seq<u8>, s: u64, r: u64| #[trigger]
        contents(after, t).contains_key((key, s)) && #[trigger] contents(after, u).contains_key(
            (key, r),
        ) implies s >= r by {
        // where the version was before
        let (tl, t0) = if out == Some(t) && l == up {
            let x = choose|x: Summary|
                (source.contains(x) || target.contains(x)) && #[trigger] contents(
                    runs,
                    x,
                ).contains_key((key, s));
            if source.contains(x) {
                (level, x)
            } else {
                (up, x)
            }
        } else {
            (l, t)
        };
        let (ul, u0) = if out == Some(u) && m == up {
            let x = choose|x: Summary|
                (source.contains(x) || target.contains(x)) && #[trigger] contents(
                    runs,
                    x,
                ).contains_key((key, r));
            if target.contains(x) {
                (up, x)
            } else {
                (level, x)
            }
        } else {
            (m, u)
        };
        assert(was[tl].contains(t0)) by {
            if !(out == Some(t) && l == up) {
                if l != level && l != up {
                    assert(now[l] == was[l]);
                }
            }
        }
        assert(was[ul].contains(u0)) by {
            if !(out == Some(u) && m == up) {
                if m != level && m != up {
                    assert(now[m] == was[m]);
                }
            }
        }
        assert(contents(runs, t0).contains_key((key, s)));
        assert(contents(runs, u0).contains_key((key, r)));
        if tl < ul {
            assert(newer(runs, t0, u0));
        } else {
            // the drained table and one that stays beside it
            assert(tl == level && ul == level && l == level);
            assert(now[level].contains(t0));
            assert(!source.contains(t0));
            if level > 0 {
                assert(disjoint(was[level]));
                assert(covers(runs, t0) && covers(runs, u0));
                assert(spans_key(t0, key) && spans_key(u0, key));
            }
        }
    }
}

/// The level invariants outlast a trade.
proof fn lemma_still_laid(
    was: Seq<Seq<Summary>>,
    now: Seq<Seq<Summary>>,
    level: int,
    source: Seq<Summary>,
    target: Seq<Summary>,
    out: Option<Summary>,
    runs: Map<u64, Seq<Item>>,
    after: Map<u64, Seq<Item>>,
    next: u64,
)
    requires
        trade_holds(was, now, level, source, target, out, runs, after),
        drawn_from(out, source, target, runs, after),
        forall|k: int, x: Summary|
            0 <= k < was.len() && #[trigger] was[k].contains(x) ==> x.id < next,
        out is Some ==> (out->0).id == next,
    ensures
        laid(now, after),
{
    let up = level + 1;
    lemma_cover(was, now, level, source, target, out, runs, after);
    lemma_still_disjoint(was, now, level, source, target, out);
    assert(unique(now)) by {
        assert forall|l: int| 0 <= l < now.len() implies (#[trigger] now[l]).no_duplicates() by {
            if l != level && l != up {
                assert(now[l] == was[l]);
            }
        }
        assert forall|l: int, m: int, t: Summary, u: Summary|
            0 <= l < now.len() && 0 <= m < now.len() && #[trigger] now[l].contains(t)
                && #[trigger] now[m].contains(u) && t.id == u.id implies l == m && t == u by {
            if l != level && l != up {
                assert(now[l] == was[l]);
            }
            if m != level && m != up {
                assert(now[m] == was[m]);
            }
            if out != Some(t) && out != Some(u) {
                assert(was[l].contains(t) && was[m].contains(u));
            } else if out == Some(t) {
                assert(!was[m].contains(u));
                assert(!was[l].contains(t));
            } else {
                assert(!was[m].contains(u));
                assert(!was[l].contains(t));
            }
        }
    }
    assert forall|l: int| 1 <= l < now.len() implies disjoint(#[trigger] now[l]) by {
        if l == level {
            assert(disjoint(was[level]));
        } else if l != up {
            assert(now[l] == was[l]);
        }
    }
    assert forall|l: int, m: int, t: Summary, u: Summary|
        0 <= l < m < now.len() && #[trigger] now[l].contains(t)
            && #[trigger] now[m].contains(u) implies newer(after, t, u) by {
        lemma_still_newer(was, now, level, source, target, out, runs, after, l, m, t, u);
    }
    assert forall|i: int, j: int| 0 <= i < j < now[0].len() implies newer(
        after,
        #[trigger] now[0][j],
        #[trigger] now[0][i],
    ) by {
        assert(now[0].contains(now[0][i]));
        assert(now[0].contains(now[0][j]));
        if level == 0 {
            assert(was[0].contains(now[0][i]));
        } else {
            assert(now[0] == was[0]);
            assert(newer(runs, was[0][j], was[0][i]));
            assert(contents(after, was[0][j]) == contents(runs, was[0][j]));
            assert(contents(after, was[0][i]) == contents(runs, was[0][i]));
        }
    }
}

// ---- the law ------------------------------------------------------------------------------------

/// The inputs of a merge are what the tables hold.
proof fn lemma_inputs(order: Seq<Summary>, tables: Seq<SSTable>, runs: Map<u64, Seq<Item>>)
    requires
        tables_hold(tables, runs),
        forall|i: int| 0 <= i < order.len() ==> is_open(tables, (#[trigger] order[i]).id),
    ensures
        inputs(order, tables) == Some(Seq::new(order.len(), |i: int| runs[order[i].id])),
    decreases order.len(),
{
    let all = Seq::new(order.len(), |i: int| runs[order[i].id]);
    if order.len() == 0 {
        assert(all =~= Seq::empty());
    } else {
        let less = order.drop_last();
        let id = order.last().id;
        assert forall|i: int| 0 <= i < less.len() implies is_open(
            tables,
            (#[trigger] less[i]).id,
        ) by {
            assert(less[i] == order[i]);
        }
        lemma_inputs(less, tables, runs);
        assert(is_open(tables, order[order.len() - 1].id));
        let t = table_of(tables, id);
        let k = choose|i: int| 0 <= i < tables.len() && (#[trigger] tables[i]).meta.id == id;
        assert(tables[k].holds(runs[id]));
        let run = runs[id];
        lemma_stored(run, 0);
        assert(run.subrange(0, 0) =~= Seq::<Item>::empty());
        assert(place(run, 0) == 0);
        assert(run.subrange(0, run.len() as int) =~= run);
        assert(stored(t.data@, 0) == Some(run));
        assert(Seq::new(less.len(), |i: int| runs[less[i].id]).push(run) =~= all);
    }
}

/// The inputs of a merge come newest first.
proof fn lemma_layered_inputs(
    levels: Seq<Seq<Summary>>,
    level: int,
    source: Seq<Summary>,
    target: Seq<Summary>,
    runs: Map<u64, Seq<Item>>,
    key: Seq<u8>,
)
    requires
        laid(levels, runs),
        0 <= level,
        level + 1 < levels.len(),
        forall|t: Summary| #[trigger] source.contains(t) ==> levels[level].contains(t),
        forall|t: Summary| #[trigger] target.contains(t) ==> levels[level + 1].contains(t),
        target.no_duplicates(),
        level == 0 ==> source == levels[0],
        level > 0 ==> source.len() == 1,
    ensures
        layered(stack(merge_order(source, target), runs), key),
{
    let order = merge_order(source, target);
    let all = stack(order, runs);
    let n = source.len() as int;
    assert forall|i: int, j: int, s: u64, t: u64|
        0 <= i < j < all.len() && #[trigger] all[i].contains_key((key, s))
            && #[trigger] all[j].contains_key((key, t)) implies s >= t by {
        if i < n {
            assert(order[i] == source[n - 1 - i]);
            assert(source.contains(order[i]));
        } else {
            assert(order[i] == target[i - n]);
            assert(target.contains(order[i]));
        }
        if j < n {
            assert(order[j] == source[n - 1 - j]);
            assert(newer(runs, levels[0][n - 1 - i], levels[0][n - 1 - j]));
        } else {
            assert(order[j] == target[j - n]);
            assert(target.contains(order[j]));
            assert(levels[level + 1].contains(order[j]));
            if i < n {
                assert(levels[level].contains(order[i]));
                assert(newer(runs, order[i], order[j]));
            } else {
                assert(levels[level + 1].contains(order[i]));
                assert(covers(runs, order[i]) && covers(runs, order[j]));
                assert(spans_key(order[i], key) && spans_key(order[j], key));
                assert(disjoint(levels[level + 1]));
                assert(order[i] == order[j]);
            }
        }
    }
}

/// What a merge leaves was an entry of an input.
pub(crate) proof fn lemma_kept(ins: Seq<Seq<Item>>, floor: u64, dropped: bool, v: Version) -> (r: (int, int))
    requires
        left_over(ins, floor, dropped).contains_key(v),
    ensures
        0 <= r.0 < ins.len(),
        0 <= r.1 < ins[r.0].len(),
        ins[r.0][r.1] == (v, left_over(ins, floor, dropped)[v]),
{
    let all = joined(ins);
    let m = merged(all);
    assert(m.contains_key(v));
    let q = choose|q: int| 0 <= q < all.len() && (#[trigger] all[q]).0 == v;
    lemma_first(all, q);
    let p = choose|p: int| is_first(all, p) && (#[trigger] all[p]).0 == v;
    lemma_joined_from(ins, p)
}

/// A version that is listed is listed a first time.
proof fn lemma_first(all: Seq<Item>, q: int)
    requires
        0 <= q < all.len(),
    ensures
        exists|p: int| is_first(all, p) && (#[trigger] all[p]).0 == all[q].0,
    decreases q,
{
    if exists|k: int| 0 <= k < q && (#[trigger] all[k]).0 == all[q].0 {
        let k = choose|k: int| 0 <= k < q && (#[trigger] all[k]).0 == all[q].0;
        lemma_first(all, k);
        let p = choose|p: int| is_first(all, p) && (#[trigger] all[p]).0 == all[k].0;
        assert(is_first(all, p) && all[p].0 == all[q].0);
    } else {
        assert(is_first(all, q) && all[q].0 == all[q].0);
    }
}

/// The levels after a compaction.
proof fn lemma_traded(was: Seq<Seq<Summary>>, level: u32, out: Option<Summary>, next: u64)
    requires
        unique(was),
        level + 1 < was.len() <= u32::MAX,
        was[level as int].len() > 0,
        forall|k: int, x: Summary|
            0 <= k < was.len() && #[trigger] was[k].contains(x) ==> x.id < next,
        out is Some ==> (out->0).id == next && (out->0).level == level + 1,
    ensures
        ({
            let (source, target) = job_tables(was, level);
            let outs = match out {
                Some(o) => seq![o],
                None => Seq::empty(),
            };
            let up = (level + 1) as u32;
            &&& traded(
                was,
                all_added(all_removed(all_removed(was, level, source), up, target), outs),
                level as int,
                source,
                target,
                out,
            )
            &&& target.no_duplicates()
        }),
{
    let (source, target) = job_tables(was, level);
    let up = (level + 1) as u32;
    let v = was[level as int];
    let below = was[level + 1];
    let (a, b) = (least_key(source), greatest_key(source));
    assert forall|t: Summary| #[trigger] source.contains(t) implies v.contains(t) by {
        if level > 0 {
            lemma_largest(v);
            assert(v[largest(v)] == t);
        }
    }
    assert forall|t: Summary| #[trigger]
        target.contains(t) <==> below.contains(t) && lex_le(t.min_key, b) && lex_le(
            a,
            t.max_key,
        ) by {
        lemma_meeting_holds(below, a, b, t);
    }
    lemma_meeting_once(below, a, b);
    let mid = all_removed(was, level, source);
    lemma_all_removed_holds(was, level, source);
    assert(mid[up as int] == below);
    assert(unique(mid)) by {
        assert forall|l: int| 0 <= l < mid.len() implies (#[trigger] mid[l]).no_duplicates() by {
            if l != level {
                assert(mid[l] == was[l]);
            }
        }
        assert forall|l: int, m: int, t: Summary, u: Summary|
            0 <= l < mid.len() && 0 <= m < mid.len() && #[trigger] mid[l].contains(t)
                && #[trigger] mid[m].contains(u) && t.id == u.id implies l == m && t == u by {
            if l != level {
                assert(mid[l] == was[l]);
            }
            if m != level {
                assert(mid[m] == was[m]);
            }
            assert(was[l].contains(t) && was[m].contains(u));
        }
    }
    let less = all_removed(mid, up, target);
    lemma_all_removed_holds(mid, up, target);
    assert(less[level as int] == mid[level as int]);
    assert forall|t: Summary| #[trigger]
        less[level as int].contains(t) <==> v.contains(t) && !source.contains(t) by {
        if v.contains(t) {
            assert forall|i: int| 0 <= i < source.len() implies v.contains(
                #[trigger] source[i],
            ) by {
                assert(source.contains(source[i]));
            }
            lemma_has_id(v, source, t);
        }
    }
    assert forall|t: Summary| #[trigger]
        less[up as int].contains(t) <==> below.contains(t) && !target.contains(t) by {
        if below.contains(t) {
            assert forall|i: int| 0 <= i < target.len() implies below.contains(
                #[trigger] target[i],
            ) by {
                assert(target.contains(target[i]));
            }
            lemma_has_id(below, target, t);
        }
    }
    match out {
        Some(o) => {
            let outs = seq![o];
            assert(outs.drop_last() =~= Seq::empty());
            assert(all_added(less, outs.drop_last()) == less);
            let now = all_added(less, outs);
            let w = less[up as int];
            assert(now[up as int] == with_table(w, o));
            lemma_slot_splits(w, o.min_key);
            lemma_contains_insert(w, slot_for(w, o.min_key) as int, o);
            assert(!w.contains(o)) by {
                if w.contains(o) {
                    assert(below.contains(o));
                    assert(was[level + 1].contains(o));
                }
            }
        },
        None => {},
    }
}

/// No table meets a range twice.
proof fn lemma_meeting_once(v: Seq<Summary>, from: Seq<u8>, to: Seq<u8>)
    requires
        v.no_duplicates(),
    ensures
        meeting(v, from, to).no_duplicates(),
    decreases v.len(),
{
    if v.len() > 0 {
        let less = v.drop_last();
        let some = meeting(less, from, to);
        lemma_meeting_once(less, from, to);
        lemma_meeting_holds(less, from, to, v.last());
        assert(!less.contains(v.last())) by {
            if less.contains(v.last()) {
                let i = choose|i: int| 0 <= i < less.len() && less[i] == v.last();
                assert(v[i] == v[v.len() - 1]);
            }
        }
        let w = some.push(v.last());
        assert forall|i: int, j: int| 0 <= i < j < w.len() implies w[i] != w[j] by {
            if j == some.len() {
                assert(some.contains(some[i]));
            }
        }
    }
}

/// The level that is most urgent has the score that it is picked for.
pub(crate) proof fn lemma_urgent(levels: Seq<Seq<Summary>>, c: LevelConfig, n: nat)
    requires
        n < levels.len() <= u32::MAX,
        is_due(most_urgent(levels, c, n).1),
    ensures
        most_urgent(levels, c, n).0 < n,
        levels[most_urgent(levels, c, n).0 as int].len() > 0,
    decreases n,
{
    if n > 0 {
        let b = most_urgent(levels, c, (n - 1) as nat);
        let s = score_of(levels, c, (n - 1) as u32);
        if exceeds(s, b.1) {
            lemma_due_level_holds_tables(levels, c, (n - 1) as u32);
        } else {
            lemma_urgent(levels, c, (n - 1) as nat);
        }
    }
}

/// The run that the output holds.
spec fn output_run(o: Option<Flushed>, kept: Map<Version, Option<Seq<u8>>>, id: u64, level: u32) -> Seq<
    Item,
> {
    choose|run: Seq<Item>| #[trigger]
        in_order(run) && versions(run) == kept && run.len() > 0 && is_file_of((o->0).file@, run)
            && (o->0).meta@ == summary(run, id, level, (o->0).file@.len() as int)
}

/// What the tables hold after a compaction.
spec fn runs_after(
    runs: Map<u64, Seq<Item>>,
    o: Option<Flushed>,
    kept: Map<Version, Option<Seq<u8>>>,
    id: u64,
    level: u32,
) -> Map<u64, Seq<Item>> {
    match o {
        Some(_) => runs.insert(id, output_run(o, kept, id, level)),
        None => runs,
    }
}

/// The output as a live table.
spec fn table_out(o: Option<Flushed>) -> Option<Summary> {
    match o {
        Some(t) => Some(t.meta@),
        None => None,
    }
}

/// Everything that a compaction of a well-laid engine starts from.
spec fn may_compact(was: LsmEngine, level: u32, runs: Map<u64, Seq<Item>>) -> bool {
    &&& was.wf()
    &&& was.well_laid(runs)
    &&& level + 1 < was.manifest@.len() <= u32::MAX
    &&& was.manifest@[level as int].len() > 0
}

/// The tables of a job are live and open, and their runs are its inputs.
proof fn lemma_job(was: LsmEngine, level: u32, runs: Map<u64, Seq<Item>>)
    requires
        may_compact(was, level, runs),
    ensures
        ({
            let (source, target) = job_tables(was.manifest@, level);
            let order = merge_order(source, target);
            &&& job_inputs(was, level) == Some(
                Seq::new(order.len(), |i: int| runs[order[i].id]),
            )
            &&& forall|i: int|
                0 <= i < order.len() ==> (source.contains(#[trigger] order[i]) || target.contains(
                    order[i],
                )) && in_order(runs[order[i].id]) && all_fit(runs[order[i].id]) && covers(
                    runs,
                    order[i],
                )
        }),
{
    let levels = was.manifest@;
    let tables = was.open_tables@;
    let (source, target) = job_tables(levels, level);
    let order = merge_order(source, target);
    let v = levels[level as int];
    let below = levels[level + 1];
    let n = source.len() as int;
    lemma_meeting(below, least_key(source), greatest_key(source));
    assert forall|i: int| 0 <= i < order.len() implies (source.contains(#[trigger] order[i])
        || target.contains(order[i])) && is_open(tables, order[i].id) && covers(
        runs,
        order[i],
    ) by {
        if i < n {
            assert(order[i] == source[n - 1 - i]);
            assert(source.contains(order[i]));
            if level > 0 {
                lemma_largest(v);
                assert(v[largest(v)] == order[i]);
            }
            assert(v.contains(order[i]));
            assert(levels[level as int].contains(order[i]));
        } else {
            assert(order[i] == target[i - n]);
            assert(below.contains(order[i]));
            assert(levels[level + 1].contains(order[i]));
        }
    }
    lemma_inputs(order, tables, runs);
    assert forall|i: int| 0 <= i < order.len() implies in_order(runs[(#[trigger] order[i]).id])
        && all_fit(runs[order[i].id]) by {
        assert(is_open(tables, order[i].id));
        let k = choose|k: int| 0 <= k < tables.len() && (#[trigger] tables[k]).meta.id
            == order[i].id;
        assert(tables[k].holds(runs[tables[k].meta.id]));
    }
}

/// Every entry of the output was an entry of an input.
proof fn lemma_drawn(
    was: LsmEngine,
    level: u32,
    runs: Map<u64, Seq<Item>>,
    floor: u64,
    dropped: bool,
    v: Version,
) -> (x: Summary)
    requires
        may_compact(was, level, runs),
        left_over(job_inputs(was, level)->0, floor, dropped).contains_key(v),
    ensures
        ({
            let (source, target) = job_tables(was.manifest@, level);
            &&& source.contains(x) || target.contains(x)
            &&& contents(runs, x).contains_key(v)
            &&& spans_key(x, v.0)
            &&& fits((v, left_over(job_inputs(was, level)->0, floor, dropped)[v]))
        }),
{
    let (source, target) = job_tables(was.manifest@, level);
    let order = merge_order(source, target);
    lemma_job(was, level, runs);
    let ins = job_inputs(was, level)->0;
    let (r, i) = lemma_kept(ins, floor, dropped, v);
    let x = order[r];
    assert(ins[r] == runs[x.id]);
    assert(in_order(runs[x.id]) && all_fit(runs[x.id]) && covers(runs, x));
    lemma_versions(runs[x.id], i);
    assert(fits(runs[x.id][i]));
    x
}

/// The key range of a written table covers it.
proof fn lemma_summary_covers(run: Seq<Item>, t: Summary, runs: Map<u64, Seq<Item>>)
    requires
        in_order(run),
        run.len() > 0,
        runs[t.id] == run,
        t.min_key == run[0].0.0,
        t.max_key == run.last().0.0,
    ensures
        covers(runs, t),
{
    assert forall|v: Version| #[trigger] contents(runs, t).contains_key(v) implies spans_key(
        t,
        v.0,
    ) by {
        let i = lemma_listed(run, v);
        if i > 0 {
            assert(version_lt(run[0].0, run[i].0));
        }
        if i < run.len() - 1 {
            assert(version_lt(run[i].0, run[run.len() - 1].0));
        }
    }
}

/// A compaction trades tables as the level invariants need it.
proof fn lemma_trade(
    was: LsmEngine,
    now: LsmEngine,
    level: u32,
    floor: u64,
    c: Compacted,
    runs: Map<u64, Seq<Item>>,
    after: Map<u64, Seq<Item>>,
    kept: Map<Version, Option<Seq<u8>>>,
)
    requires
        may_compact(was, level, runs),
        compacts(was, now, level, floor, c),
        kept == left_over(
            job_inputs(was, level)->0,
            floor,
            level + 2 >= was.manifest.config.max_levels,
        ),
        after == runs_after(
            runs,
            c.output,
            kept,
            was.manifest.next_table_id,
            (level + 1) as u32,
        ),
    ensures
        ({
            let (source, target) = job_tables(was.manifest@, level);
            let out = table_out(c.output);
            &&& trade_holds(
                was.manifest@,
                now.manifest@,
                level as int,
                source,
                target,
                out,
                runs,
                after,
            )
            &&& drawn_from(out, source, target, runs, after)
            &&& target.no_duplicates()
            &&& forall|k: int, x: Summary|
                0 <= k < was.manifest@.len() && #[trigger] was.manifest@[k].contains(x) ==> x.id
                    < was.manifest.next_table_id
            &&& out is Some ==> (out->0).id == was.manifest.next_table_id && contents(
                after,
                out->0,
            ) == kept && in_order(after[(out->0).id]) && all_fit(after[(out->0).id])
                && is_file_of((c.output->0).file@, after[(out->0).id])
        }),
{
    let levels = was.manifest@;
    let (source, target) = job_tables(levels, level);
    let id = was.manifest.next_table_id;
    let up = (level + 1) as u32;
    let out = table_out(c.output);
    let dropped = level + 2 >= was.manifest.config.max_levels;
    assert forall|k: int, x: Summary|
        0 <= k < levels.len() && #[trigger] levels[k].contains(x) implies x.id < id by {
        let i = choose|i: int| 0 <= i < levels[k].len() && levels[k][i] == x;
        assert(levels[k][i].id < id);
    }
    if c.output is Some {
        let run = output_run(c.output, kept, id, up);
        let o = out->0;
        assert(in_order(run) && versions(run) == kept && run.len() > 0 && is_file_of(
            (c.output->0).file@,
            run,
        ) && o == summary(run, id, up, (c.output->0).file@.len() as int));
        lemma_summary_covers(run, o, after);
        lemma_versions(run, 0);
        lemma_versions(run, run.len() - 1);
        let x = lemma_drawn(was, level, runs, floor, dropped, run[0].0);
        assert(spans_key(x, o.min_key));
        let y = lemma_drawn(was, level, runs, floor, dropped, run[run.len() - 1].0);
        assert(spans_key(y, o.max_key));
        assert forall|v: Version| #[trigger] contents(after, o).contains_key(v) implies exists|
            x: Summary,
        |
            (source.contains(x) || target.contains(x)) && #[trigger] contents(
                runs,
                x,
            ).contains_key(v) by {
            let x = lemma_drawn(was, level, runs, floor, dropped, v);
            assert(contents(runs, x).contains_key(v));
        }
        assert forall|i: int| 0 <= i < run.len() implies fits(#[trigger] run[i]) by {
            lemma_versions(run, i);
            let x = lemma_drawn(was, level, runs, floor, dropped, run[i].0);
            assert(run[i] == (run[i].0, kept[run[i].0]));
        }
        assert(outputs_of(c.output) =~= seq![o]);
    } else {
        assert(outputs_of(c.output) =~= Seq::empty());
    }
    lemma_traded(levels, level, out, id);
}

/// The tables that are open after a compaction hold their runs, and the live
/// ones are among them.
proof fn lemma_open_after(
    was: LsmEngine,
    now: LsmEngine,
    level: u32,
    floor: u64,
    c: Compacted,
    runs: Map<u64, Seq<Item>>,
    after: Map<u64, Seq<Item>>,
    kept: Map<Version, Option<Seq<u8>>>,
)
    requires
        may_compact(was, level, runs),
        compacts(was, now, level, floor, c),
        kept == left_over(
            job_inputs(was, level)->0,
            floor,
            level + 2 >= was.manifest.config.max_levels,
        ),
        after == runs_after(
            runs,
            c.output,
            kept,
            was.manifest.next_table_id,
            (level + 1) as u32,
        ),
    ensures
        tables_hold(now.open_tables@, after),
        forall|l: int, t: Summary|
            0 <= l < now.manifest@.len() && #[trigger] now.manifest@[l].contains(t) ==> is_open(
                now.open_tables@,
                t.id,
            ),
{
    let (before, tables) = (was.open_tables@, now.open_tables@);
    let (levels, then) = (was.manifest@, now.manifest@);
    let (source, target) = job_tables(levels, level);
    let id = was.manifest.next_table_id;
    let up = (level + 1) as u32;
    let gone = c.retired@;
    let out = table_out(c.output);
    lemma_trade(was, now, level, floor, c, runs, after, kept);
    let fresh = choose|new: SSTable| #[trigger]
        opened((c.output->0).file@, (c.output->0).meta.id, up, new) && forall|x: SSTable| #[trigger]
            tables.contains(x) <==> (before.contains(x) && !gone.contains(x.meta.id)) || x == new;
    if c.output is Some {
        assert((c.output->0).file.len() == (c.output->0).file@.len());
        lemma_opened_file((c.output->0).file@, after[id], id, up, fresh);
        assert(fresh.meta@.id == id);
    }
    assert forall|i: int| 0 <= i < tables.len() implies (#[trigger] tables[i]).holds(
        after[tables[i].meta.id],
    ) by {
        let x = tables[i];
        assert(tables.contains(x));
        if !(c.output is Some && x == fresh) {
            assert(before.contains(x));
            let k = choose|k: int| 0 <= k < before.len() && before[k] == x;
            assert(before[k].holds(runs[before[k].meta.id]));
            assert(before[k].meta.id < id);
        }
    }
    assert forall|l: int, t: Summary|
        0 <= l < then.len() && #[trigger] then[l].contains(t) implies is_open(tables, t.id) by {
        if out == Some(t) {
            assert(tables.contains(fresh));
            let k = choose|k: int| 0 <= k < tables.len() && tables[k] == fresh;
            assert(tables[k].meta.id == t.id);
        } else {
            if l != level && l != level + 1 {
                assert(then[l] == levels[l]);
            }
            assert(levels[l].contains(t));
            assert(is_open(before, t.id));
            let k = choose|k: int| 0 <= k < before.len() && (#[trigger] before[k]).meta.id == t.id;
            assert(!gone.contains(t.id)) by {
                if gone.contains(t.id) {
                    let all = source + target;
                    let i = choose|i: int| 0 <= i < gone.len() && gone[i] == t.id;
                    assert(all[i].id == t.id);
                    if i < source.len() {
                        assert(source.contains(all[i]));
                        assert(levels[level as int].contains(all[i]));
                    } else {
                        assert(all[i] == target[i - source.len()]);
                        assert(target.contains(all[i]));
                        assert(levels[level + 1].contains(all[i]));
                    }
                    assert(all[i] == t);
                }
            }
            assert(before.contains(before[k]));
            assert(tables.contains(before[k]));
            let j = choose|j: int| 0 <= j < tables.len() && tables[j] == before[k];
            assert(tables[j].meta.id == t.id);
        }
    }
}

/// Levels behind which nothing changed answer alike.
proof fn lemma_chain_rest(
    a: Seq<Seq<Summary>>,
    b: Seq<Seq<Summary>>,
    k: nat,
    n: nat,
    ra: Map<u64, Seq<Item>>,
    rb: Map<u64, Seq<Item>>,
    key: Seq<u8>,
    snapshot: u64,
)
    requires
        2 <= k <= n <= a.len(),
        a.len() == b.len(),
        chain(a, k, ra, key, snapshot) == chain(b, k, rb, key, snapshot),
        forall|l: int| k <= l < n ==> #[trigger] a[l] == b[l],
        forall|l: int, t: Summary|
            0 <= l < a.len() && #[trigger] a[l].contains(t) ==> ra[t.id] == rb[t.id],
    ensures
        chain(a, n, ra, key, snapshot) == chain(b, n, rb, key, snapshot),
    decreases n,
{
    if k < n {
        lemma_chain_rest(a, b, k, (n - 1) as nat, ra, rb, key, snapshot);
        assert(a[n - 1] == b[n - 1]);
        lemma_one_within(a[n - 1], key);
        lemma_says_alike(only_one(a[n - 1], key), a[n - 1], ra, rb, key, snapshot);
    }
}

/// A read gives the same before and after, or nothing where a tombstone was
/// dropped.
pub open spec fn reads_alike(
    was: LsmEngine,
    runs: Map<u64, Seq<Item>>,
    now: LsmEngine,
    after: Map<u64, Seq<Item>>,
    key: Seq<u8>,
    snapshot: u64,
    dropped: bool,
) -> bool {
    same_answer(
        first_answer(was.layers(runs, key), key, snapshot),
        first_answer(now.layers(after, key), key, snapshot),
        dropped,
    )
}

/// One read before and after a compaction.
proof fn lemma_reads_alike(
    was: LsmEngine,
    now: LsmEngine,
    level: u32,
    floor: u64,
    c: Compacted,
    runs: Map<u64, Seq<Item>>,
    after: Map<u64, Seq<Item>>,
    kept: Map<Version, Option<Seq<u8>>>,
    key: Seq<u8>,
    snapshot: u64,
)
    requires
        may_compact(was, level, runs),
        compacts(was, now, level, floor, c),
        now.same_memory(&was),
        now.well_laid(after),
        snapshot >= floor,
        kept == left_over(
            job_inputs(was, level)->0,
            floor,
            level + 2 >= was.manifest.config.max_levels,
        ),
        after == runs_after(
            runs,
            c.output,
            kept,
            was.manifest.next_table_id,
            (level + 1) as u32,
        ),
    ensures
        reads_alike(
            was,
            runs,
            now,
            after,
            key,
            snapshot,
            level + 2 >= was.manifest.config.max_levels,
        ),
{
    let (levels, then) = (was.manifest@, now.manifest@);
    let (source, target) = job_tables(levels, level);
    let order = merge_order(source, target);
    let out = table_out(c.output);
    let dropped = level + 2 >= was.manifest.config.max_levels;
    let l = level as nat;
    lemma_trade(was, now, level, floor, c, runs, after, kept);
    lemma_job(was, level, runs);
    let ins = job_inputs(was, level)->0;
    lemma_layered_inputs(levels, level as int, source, target, runs, key);
    assert(run_layers(ins) =~= stack(order, runs));
    assert forall|r: int| 0 <= r < ins.len() implies in_order(#[trigger] ins[r]) by {
        assert(in_order(runs[order[r].id]));
    }
    law_merged_tables_answer_alike(ins, floor, dropped, key, snapshot);
    if out is None {
        lemma_nothing_seen(kept, key, snapshot);
    }
    lemma_two_levels(
        levels,
        then,
        level as int,
        source,
        target,
        out,
        runs,
        after,
        key,
        snapshot,
        dropped,
    );
    lemma_chain_alike(levels, then, l, runs, after, key, snapshot);
    assert(same_answer(
        chain(levels, l + 2, runs, key, snapshot),
        chain(then, l + 2, after, key, snapshot),
        dropped,
    )) by {
        reveal_with_fuel(chain, 3);
    }
    if chain(levels, l + 2, runs, key, snapshot) == chain(then, l + 2, after, key, snapshot) {
        lemma_chain_rest(levels, then, l + 2, levels.len(), runs, after, key, snapshot);
    }
    lemma_read(was, runs, key, snapshot);
    lemma_read(now, after, key, snapshot);
    assert(now.memory() == was.memory());
}

/// A compaction changes no read of a snapshot at or above the floor: it gives
/// the same answer, or none where that was a tombstone and the output is at
/// the bottom, where nothing older can show through. The level invariants
/// hold again.
pub proof fn law_compaction_keeps_reads(
    was: LsmEngine,
    now: LsmEngine,
    floor: u64,
    c: Compacted,
    runs: Map<u64, Seq<Item>>,
)
    requires
        was.well_laid(runs),
        compacts_urgent(was, now, floor, c),
    ensures
        exists|after: Map<u64, Seq<Item>>| #[trigger]
            now.well_laid(after) && forall|key: Seq<u8>, snapshot: u64|
                #![trigger first_answer(now.layers(after, key), key, snapshot)]
                snapshot >= floor ==> reads_alike(
                    was,
                    runs,
                    now,
                    after,
                    key,
                    snapshot,
                    urgent(was).0 + 2 >= was.manifest.config.max_levels,
                ),
{
    reveal(compacts_urgent);
    let n = (was.manifest@.len() - 1) as nat;
    let level = urgent(was).0;
    lemma_urgent(was.manifest@, was.manifest.config, n);
    let dropped = level + 2 >= was.manifest.config.max_levels;
    let (source, target) = job_tables(was.manifest@, level);
    let id = was.manifest.next_table_id;
    let kept = left_over(job_inputs(was, level)->0, floor, dropped);
    let after = runs_after(runs, c.output, kept, id, (level + 1) as u32);
    lemma_trade(was, now, level, floor, c, runs, after, kept);
    lemma_open_after(was, now, level, floor, c, runs, after, kept);
    lemma_still_laid(
        was.manifest@,
        now.manifest@,
        level as int,
        source,
        target,
        table_out(c.output),
        runs,
        after,
        id,
    );
    assert(now.well_laid(after));
    assert forall|key: Seq<u8>, snapshot: u64|
        #![trigger first_answer(now.layers(after, key), key, snapshot)]
        snapshot >= floor implies reads_alike(
        was,
        runs,
        now,
        after,
        key,
        snapshot,
        dropped,
    ) by {
        lemma_reads_alike(was, now, level, floor, c, runs, after, kept, key, snapshot);
    }
}

/// What an answer says of the value.
pub open spec fn value_in(a: Option<Option<Seq<u8>>>) -> Option<Seq<u8>> {
    match a {
        Some(v) => v,
        None => None,
    }
}

/// Reads find the same values before and after.
pub open spec fn same_values(
    was: LsmEngine,
    runs: Map<u64, Seq<Item>>,
    now: LsmEngine,
    after: Map<u64, Seq<Item>>,
    floor: u64,
) -> bool {
    forall|key: Seq<u8>, snapshot: u64|
        #![trigger first_answer(now.layers(after, key), key, snapshot)]
        snapshot >= floor ==> value_in(first_answer(now.layers(after, key), key, snapshot))
            == value_in(first_answer(was.layers(runs, key), key, snapshot))
}

/// However many compactions run, every snapshot at or above the floor finds
/// the same values, and the level invariants hold again.
pub proof fn law_compactions_keep_values(
    was: LsmEngine,
    now: LsmEngine,
    floor: u64,
    cs: Seq<Compacted>,
    runs: Map<u64, Seq<Item>>,
)
    requires
        was.well_laid(runs),
        compacted_in_turn(was, now, floor, cs),
    ensures
        exists|after: Map<u64, Seq<Item>>| #[trigger]
            now.well_laid(after) && same_values(was, runs, now, after, floor),
    decreases cs.len(),
{
    if cs.len() == 0 {
        reveal(compacted_in_turn);
        assert(now.well_laid(runs) && same_values(was, runs, now, runs, floor));
    } else {
        let mid = lemma_compacted_last(was, now, floor, cs);
        law_compactions_keep_values(was, mid, floor, cs.drop_last(), runs);
        let between = choose|m: Map<u64, Seq<Item>>| #[trigger]
            mid.well_laid(m) && same_values(was, runs, mid, m, floor);
        law_compaction_keeps_reads(mid, now, floor, cs.last(), between);
        let dropped = urgent(mid).0 + 2 >= mid.manifest.config.max_levels;
        let after = choose|after: Map<u64, Seq<Item>>| #[trigger]
            now.well_laid(after) && forall|key: Seq<u8>, snapshot: u64|
                #![trigger first_answer(now.layers(after, key), key, snapshot)]
                snapshot >= floor ==> reads_alike(mid, between, now, after, key, snapshot, dropped);
        assert(same_values(was, runs, now, after, floor)) by {
            assert forall|key: Seq<u8>, snapshot: u64|
                #![trigger first_answer(now.layers(after, key), key, snapshot)]
                snapshot >= floor implies value_in(
                first_answer(now.layers(after, key), key, snapshot),
            ) == value_in(first_answer(was.layers(runs, key), key, snapshot)) by {
                assert(reads_alike(mid, between, now, after, key, snapshot, dropped));
                assert(value_in(first_answer(mid.layers(between, key), key, snapshot)) == value_in(
                    first_answer(was.layers(runs, key), key, snapshot),
                ));
            }
        }
    }
}

/// One more table in L0, newer than the others.
proof fn lemma_one_more_table(
    before: LsmEngine,
    after: LsmEngine,
    runs: Map<u64, Seq<Item>>,
    size: int,
)
    requires
        before.wf(),
        before.well_laid(runs),
        before.frozen@.len() > 0,
        after.manifest.config == before.manifest.config,
        after.open_tables@.len() == before.open_tables@.len() + 1,
        after.open_tables@.drop_last() == before.open_tables@,
        ({
            let run = items(before.frozen@[0].entries@);
            let id = before.manifest.next_table_id;
            let t = after.open_tables@.last();
            let m = summary(run, id, 0, size);
            &&& run.len() > 0
            &&& t.meta.id == id
            &&& t.holds(run)
            &&& after.manifest@ == added(before.manifest@, m)
            &&& forall|l: int, u: Summary|
                0 <= l < before.manifest@.len() && #[trigger] before.manifest@[l].contains(u)
                    ==> newer(runs.insert(id, run), m, u)
        }),
    ensures
        after.well_laid(
            runs.insert(before.manifest.next_table_id, items(before.frozen@[0].entries@)),
        ),
{
    let run = items(before.frozen@[0].entries@);
    let id = before.manifest.next_table_id;
    let m = summary(run, id, 0, size);
    let now = runs.insert(id, run);
    let (was, then) = (before.manifest@, after.manifest@);
    let (old_tables, tables) = (before.open_tables@, after.open_tables@);
    assert(padded(was, 1) == was);
    assert(then =~= was.update(0, was[0].push(m)));
    assert forall|l: int, t: Summary| 0 <= l < was.len() && #[trigger] was[l].contains(t) implies t.id
        < id by {
        let i = choose|i: int| 0 <= i < was[l].len() && was[l][i] == t;
        assert(was[l][i].id < id);
    }
    assert forall|l: int, t: Summary|
        0 <= l < then.len() && #[trigger] then[l].contains(t) implies was[l].contains(t) || (l == 0
        && t == m) by {
        if l == 0 {
            lemma_contains_push(was[0], m, t);
        }
    }
    lemma_summary_covers(run, m, now);
    assert(unique(then)) by {
        assert forall|l: int| 0 <= l < then.len() implies (#[trigger] then[l]).no_duplicates() by {
            assert(was[l].no_duplicates());
            if l == 0 {
                assert forall|i: int, j: int| 0 <= i < j < then[0].len() implies then[0][i]
                    != then[0][j] by {
                    if j == was[0].len() {
                        assert(was[0].contains(was[0][i]));
                    }
                }
            }
        }
        assert forall|l: int, k: int, t: Summary, u: Summary|
            0 <= l < then.len() && 0 <= k < then.len() && #[trigger] then[l].contains(t)
                && #[trigger] then[k].contains(u) && t.id == u.id implies l == k && t == u by {}
    }
    assert forall|l: int, t: Summary|
        0 <= l < then.len() && #[trigger] then[l].contains(t) implies covers(now, t) by {
        if t != m {
            assert(covers(runs, t));
            assert(contents(now, t) == contents(runs, t));
        }
    }
    assert forall|l: int, k: int, t: Summary, u: Summary|
        0 <= l < k < then.len() && #[trigger] then[l].contains(t)
            && #[trigger] then[k].contains(u) implies newer(now, t, u) by {
        assert(was[k].contains(u));
        if was[l].contains(t) {
            assert(newer(runs, t, u));
            assert(contents(now, t) == contents(runs, t));
            assert(contents(now, u) == contents(runs, u));
        }
    }
    assert forall|i: int, j: int| 0 <= i < j < then[0].len() implies newer(
        now,
        #[trigger] then[0][j],
        #[trigger] then[0][i],
    ) by {
        assert(was[0].contains(was[0][i]));
        if j < was[0].len() {
            assert(was[0].contains(was[0][j]));
            assert(newer(runs, was[0][j], was[0][i]));
            assert(contents(now, was[0][j]) == contents(runs, was[0][j]));
            assert(contents(now, was[0][i]) == contents(runs, was[0][i]));
        }
    }
    assert(laid(then, now));
    assert forall|i: int| 0 <= i < tables.len() implies (#[trigger] tables[i]).holds(
        now[tables[i].meta.id],
    ) by {
        if i < old_tables.len() {
            assert(tables[i] == old_tables[i]);
            assert(old_tables[i].meta.id < id);
        }
    }
    assert forall|l: int, t: Summary|
        0 <= l < then.len() && #[trigger] then[l].contains(t) implies is_open(tables, t.id) by {
        if was[l].contains(t) {
            assert(is_open(old_tables, t.id));
            let k = choose|k: int|
                0 <= k < old_tables.len() && (#[trigger] old_tables[k]).meta.id == t.id;
            assert(tables[k].meta.id == t.id);
        } else {
            assert(tables[tables.len() - 1].meta.id == t.id);
        }
    }
}

/// The level invariants hold again after a flush, if what was frozen first is
/// no older than what the tables hold of its keys.
pub proof fn law_flush_keeps_the_layout(
    before: LsmEngine,
    after: LsmEngine,
    flushed: Flushed,
    runs: Map<u64, Seq<Item>>,
)
    requires
        before.wf(),
        before.well_laid(runs),
        flushes_to(before, after, flushed),
        ({
            let run = items(before.frozen@[0].entries@);
            let id = before.manifest.next_table_id;
            &&& run.len() > 0
            &&& all_fit(run)
            &&& forall|l: int, u: Summary|
                0 <= l < before.manifest@.len() && #[trigger] before.manifest@[l].contains(u)
                    ==> newer(runs.insert(id, run), flushed.meta@, u)
        }),
    ensures
        after.well_laid(
            runs.insert(before.manifest.next_table_id, items(before.frozen@[0].entries@)),
        ),
{
    reveal(flushes_to);
    lemma_one_more_table(before, after, runs, flushed.file@.len() as int);
}

} // verus!

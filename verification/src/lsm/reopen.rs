//! What the manifest log says of an engine, and what opening it again gives
//! back.

use crate::bytes::{lemma_lex_transitive, lex_le, lex_lt};
use crate::lsm::compact::{
    additions, all_tables, compacted_in_turn, compacts_urgent, job_inputs, job_tables, left_over,
    lemma_compacted_last, lemma_largest, lemma_meeting, outputs_of, removals, snapshot_log, urgent,
};
use crate::lsm::compaction::{consulted, is_due, spans_key};
use crate::lsm::edit::{edit_bytes, edit_ok, meta_bytes, metas_bytes, Edit};
use crate::lsm::engine::{
    all_fit, first_answer, flush_edits, flushes_to, is_file_of, is_open, lemma_meta_len,
    lemma_opened_file, lemma_written_file, tables_hold, top_seqno, Compacted, Flushed, LsmEngine,
    LsmOptions,
};
use crate::lsm::layout::{
    disjoint, laid, law_compaction_keeps_reads, law_compactions_keep_values, lemma_consulted,
    lemma_contains_insert, lemma_contains_push, lemma_read, lemma_urgent, same_values, stack,
    unique,
};
use crate::lsm::levels::{
    added, all_added, all_removed, by_key, greatest_key, id_after, least_key, lemma_ids_after,
    lemma_removed_by_key, lemma_slot, lemma_slot_splits, removed, retired, slot_for, with_table,
};
use crate::lsm::manifest::{
    at_first, frame_of, frames, law_appended_edits_are_replayed, law_compacted_logs_say_the_same,
    other_ids, other_tables, replayed, COMPACT_AFTER_EDITS,
};
use crate::lsm::reads::lemma_nothing_seen;
use crate::lsm::recovery::{bare, file_for, from_file, loadable, loaded, opens_as};
use crate::lsm::sstable::{keys_ascend, summary, SSTable, Summary};
use crate::lsm::version::{in_order, items, version_lt, versions, Item, Version};
use vstd::prelude::*;

verus! {

/// Tables as a log lists them: each under an id of its own below the next one,
/// at a level that there is, and with a smallest key no larger than its largest.
pub open spec fn listed(ts: Seq<Summary>, max: u32, next: u64) -> bool {
    &&& forall|i: int|
        0 <= i < ts.len() ==> (#[trigger] ts[i]).level < max && ts[i].id < next && lex_le(
            ts[i].min_key,
            ts[i].max_key,
        )
    &&& forall|i: int, j: int|
        0 <= i < j < ts.len() ==> (#[trigger] ts[i]).id != (#[trigger] ts[j]).id
}

/// The levels that a list of tables fills.
pub open spec fn filled(ts: Seq<Summary>, max: u32) -> Seq<Seq<Summary>> {
    all_added(bare(max), ts)
}

// ---- one level -------------------------------------------------------------------------------

/// Where the first table of an id stands; the end if there is none.
proof fn lemma_retired_at(v: Seq<Summary>, id: u64) -> (p: int)
    ensures
        0 <= p <= v.len(),
        forall|i: int| 0 <= i < p ==> (#[trigger] v[i]).id != id,
        p < v.len() ==> v[p].id == id && retired(v, id) == v.remove(p),
        p == v.len() ==> retired(v, id) == v,
    decreases v.len(),
{
    if v.len() == 0 {
        0
    } else if v[0].id == id {
        assert(v.subrange(1, v.len() as int) =~= v.remove(0));
        0
    } else {
        let rest = v.subrange(1, v.len() as int);
        let q = lemma_retired_at(rest, id);
        assert forall|i: int| 0 <= i < q + 1 implies (#[trigger] v[i]).id != id by {
            if i > 0 {
                assert(v[i] == rest[i - 1]);
            }
        }
        if q < rest.len() {
            assert(v[q + 1] == rest[q]);
            assert(seq![v[0]] + rest.remove(q) =~= v.remove(q + 1));
        } else {
            assert(seq![v[0]] + rest =~= v);
        }
        q + 1
    }
}

/// The first table of an id is the one that is retired.
proof fn lemma_retired_first(v: Seq<Summary>, id: u64, p: int)
    requires
        0 <= p < v.len(),
        v[p].id == id,
        forall|i: int| 0 <= i < p ==> (#[trigger] v[i]).id != id,
    ensures
        retired(v, id) == v.remove(p),
{
    let q = lemma_retired_at(v, id);
    if q < p {
        assert(v[q].id != id);
    } else if q > p {
        assert(v[p].id != id);
    }
}

/// A level in which no table has an id loses none.
proof fn lemma_none_retired(v: Seq<Summary>, id: u64)
    requires
        forall|i: int| 0 <= i < v.len() ==> (#[trigger] v[i]).id != id,
    ensures
        retired(v, id) == v,
{
    let p = lemma_retired_at(v, id);
    if p < v.len() {
        assert(v[p].id != id);
    }
}

/// Where a slot is.
proof fn lemma_slot_is(v: Seq<Summary>, key: Seq<u8>, n: int)
    requires
        0 <= n <= v.len(),
        forall|i: int| 0 <= i < n ==> lex_lt((#[trigger] v[i]).min_key, key),
        n < v.len() ==> !lex_lt(v[n].min_key, key),
    ensures
        slot_for(v, key) == n,
{
    lemma_slot_splits(v, key);
    let s = slot_for(v, key) as int;
    if s < n {
        assert(lex_lt(v[s].min_key, key));
    } else if s > n {
        assert(lex_lt(v[n].min_key, key));
    }
}

/// A table that joins and another that leaves do not meet.
proof fn lemma_joins_and_leaves(v: Seq<Summary>, t: Summary, id: u64)
    requires
        t.id != id,
        t.level > 0 ==> by_key(v),
    ensures
        retired(with_table(v, t), id) == with_table(retired(v, id), t),
{
    let w = with_table(v, t);
    let key = t.min_key;
    lemma_slot_splits(v, key);
    let n = if t.level == 0 {
        v.len() as int
    } else {
        slot_for(v, key) as int
    };
    assert(w =~= v.insert(n, t));
    let p = lemma_retired_at(v, id);
    if p == v.len() {
        assert forall|i: int| 0 <= i < w.len() implies (#[trigger] w[i]).id != id by {
            if i < n {
                assert(w[i] == v[i]);
            } else if i > n {
                assert(w[i] == v[i - 1]);
            }
        }
        lemma_none_retired(w, id);
    } else {
        let q = if p < n {
            p
        } else {
            p + 1
        };
        let less = v.remove(p);
        assert(w[q] == v[p]);
        assert forall|i: int| 0 <= i < q implies (#[trigger] w[i]).id != id by {
            if i < n {
                assert(w[i] == v[i]);
            } else if i > n {
                assert(w[i] == v[i - 1]);
            }
        }
        lemma_retired_first(w, id, q);
        let k = if p < n {
            n - 1
        } else {
            n
        };
        assert(w.remove(q) =~= less.insert(k, t));
        if t.level > 0 {
            assert forall|i: int| 0 <= i < k implies lex_lt((#[trigger] less[i]).min_key, key) by {
                if i < p {
                    assert(less[i] == v[i]);
                } else {
                    assert(less[i] == v[i + 1]);
                }
            }
            if k < less.len() {
                if p <= n {
                    let at = if p < n {
                        n
                    } else {
                        n + 1
                    };
                    assert(less[k] == v[at]);
                    if p == n {
                        assert(lex_le(v[n].min_key, v[n + 1].min_key));
                        if lex_lt(v[n + 1].min_key, key) && v[n].min_key != v[n + 1].min_key {
                            lemma_lex_transitive(v[n].min_key, v[n + 1].min_key, key);
                        }
                    }
                } else {
                    assert(less[k] == v[n]);
                }
            }
            lemma_slot_is(less, key, k);
        }
    }
}

// ---- all levels ------------------------------------------------------------------------------

/// The levels that a list fills: each holds the tables listed for it, and the
/// deeper ones are sorted.
proof fn lemma_filled(ts: Seq<Summary>, max: u32, next: u64)
    requires
        listed(ts, max, next),
    ensures
        filled(ts, max).len() == max,
        forall|l: int, t: Summary|
            0 <= l < max ==> (#[trigger] filled(ts, max)[l].contains(t) <==> ts.contains(t)
                && t.level == l),
        forall|l: int| 1 <= l < max ==> by_key(#[trigger] filled(ts, max)[l]),
    decreases ts.len(),
{
    let now = filled(ts, max);
    if ts.len() > 0 {
        let less = ts.drop_last();
        let t = ts.last();
        assert(ts =~= less.push(t));
        assert(listed(less, max, next)) by {
            assert forall|i: int| 0 <= i < less.len() implies (#[trigger] less[i]).level < max
                && less[i].id < next && lex_le(less[i].min_key, less[i].max_key) by {
                assert(less[i] == ts[i]);
            }
            assert forall|i: int, j: int| 0 <= i < j < less.len() implies (#[trigger] less[i]).id
                != (#[trigger] less[j]).id by {
                assert(less[i] == ts[i] && less[j] == ts[j]);
            }
        }
        lemma_filled(less, max, next);
        let was = filled(less, max);
        let at = t.level as int;
        assert(ts[ts.len() - 1].level < max);
        let v = was[at];
        assert(now == was.update(at, with_table(v, t)));
        lemma_slot_splits(v, t.min_key);
        assert forall|l: int, u: Summary| 0 <= l < max implies (#[trigger] now[l].contains(u)
            <==> ts.contains(u) && u.level == l) by {
            lemma_contains_push(less, t, u);
            if l == at {
                lemma_contains_push(v, t, u);
                lemma_contains_insert(v, slot_for(v, t.min_key) as int, t);
                assert(v.contains(u) <==> less.contains(u) && u.level == l);
            } else {
                assert(now[l] == was[l]);
                assert(was[l].contains(u) <==> less.contains(u) && u.level == l);
            }
        }
        assert forall|l: int| 1 <= l < max implies by_key(#[trigger] now[l]) by {
            assert(by_key(was[l]));
            if l == at {
                lemma_slot(v, t);
            }
        }
    } else {
        assert forall|l: int, t: Summary| 0 <= l < max implies (#[trigger] now[l].contains(t)
            <==> ts.contains(t) && t.level == l) by {
            assert(now[l] == Seq::<Summary>::empty());
        }
    }
}

/// A table joins the levels and another leaves them, in either order.
proof fn lemma_either_order(levels: Seq<Seq<Summary>>, t: Summary, level: u32, id: u64)
    requires
        t.level < levels.len(),
        level < levels.len(),
        t.id != id,
        forall|l: int| 1 <= l < levels.len() ==> by_key(#[trigger] levels[l]),
    ensures
        removed(added(levels, t), level, id) == added(removed(levels, level, id), t),
{
    let at = t.level as int;
    let v = levels[at];
    if at == level {
        if at > 0 {
            assert(by_key(levels[at]));
        }
        lemma_joins_and_leaves(v, t, id);
    }
    assert(removed(added(levels, t), level, id) =~= added(removed(levels, level, id), t));
}

/// What is left of a list.
proof fn lemma_left(ts: Seq<Summary>, level: u32, id: u64, max: u32, next: u64)
    requires
        listed(ts, max, next),
    ensures
        listed(other_tables(ts, level, id), max, next),
        forall|i: int|
            0 <= i < other_tables(ts, level, id).len() ==> ts.contains(
                #[trigger] other_tables(ts, level, id)[i],
            ),
        (forall|i: int| 0 <= i < ts.len() ==> (#[trigger] ts[i]).id != id) ==> other_tables(
            ts,
            level,
            id,
        ) == ts,
    decreases ts.len(),
{
    if ts.len() > 0 {
        let less = ts.drop_last();
        let t = ts.last();
        assert(ts =~= less.push(t));
        assert forall|i: int| 0 <= i < less.len() implies #[trigger] less[i] == ts[i] by {}
        assert(listed(less, max, next)) by {
            assert forall|i: int, j: int| 0 <= i < j < less.len() implies (#[trigger] less[i]).id
                != (#[trigger] less[j]).id by {
                assert(less[i] == ts[i] && less[j] == ts[j]);
            }
            assert forall|i: int| 0 <= i < less.len() implies (#[trigger] less[i]).level < max
                && less[i].id < next && lex_le(less[i].min_key, less[i].max_key) by {
                assert(less[i] == ts[i]);
            }
        }
        lemma_left(less, level, id, max, next);
        let some = other_tables(less, level, id);
        let all = other_tables(ts, level, id);
        assert(ts[ts.len() - 1] == t);
        assert forall|i: int| 0 <= i < all.len() implies ts.contains(#[trigger] all[i])
            && all[i].level < max && all[i].id < next && lex_le(
            all[i].min_key,
            all[i].max_key,
        ) by {
            if i < some.len() {
                assert(all[i] == some[i]);
                assert(less.contains(some[i]));
                let k = choose|k: int| 0 <= k < less.len() && less[k] == some[i];
                assert(ts[k] == all[i]);
            } else {
                assert(all[i] == t);
            }
        }
        assert forall|i: int, j: int| 0 <= i < j < all.len() implies (#[trigger] all[i]).id != (
        #[trigger] all[j]).id by {
            assert(all[i] == some[i]);
            if j < some.len() {
                assert(all[j] == some[j]);
            } else {
                assert(less.contains(some[i]));
                let k = choose|k: int| 0 <= k < less.len() && less[k] == some[i];
                assert(ts[k].id != ts[ts.len() - 1].id);
            }
        }
        if forall|i: int| 0 <= i < ts.len() ==> (#[trigger] ts[i]).id != id {
            assert forall|i: int| 0 <= i < less.len() implies (#[trigger] less[i]).id != id by {
                assert(less[i] == ts[i]);
            }
        }
    }
}

/// A table that leaves the list leaves the levels.
proof fn lemma_leaves(ts: Seq<Summary>, level: u32, id: u64, max: u32, next: u64)
    requires
        listed(ts, max, next),
        level < max,
    ensures
        filled(other_tables(ts, level, id), max) == removed(filled(ts, max), level, id),
    decreases ts.len(),
{
    let levels = filled(ts, max);
    lemma_filled(ts, max, next);
    if ts.len() == 0 {
        let v = levels[level as int];
        assert(v == Seq::<Summary>::empty());
        assert(removed(levels, level, id) =~= levels);
    } else {
        let less = ts.drop_last();
        let t = ts.last();
        assert(ts =~= less.push(t));
        assert(ts[ts.len() - 1] == t);
        assert(listed(less, max, next)) by {
            assert forall|i: int, j: int| 0 <= i < j < less.len() implies (#[trigger] less[i]).id
                != (#[trigger] less[j]).id by {
                assert(less[i] == ts[i] && less[j] == ts[j]);
            }
            assert forall|i: int| 0 <= i < less.len() implies (#[trigger] less[i]).level < max
                && less[i].id < next && lex_le(less[i].min_key, less[i].max_key) by {
                assert(less[i] == ts[i]);
            }
        }
        let was = filled(less, max);
        lemma_filled(less, max, next);
        if t.id == id && t.level == level {
            assert forall|i: int| 0 <= i < less.len() implies (#[trigger] less[i]).id != id by {
                assert(ts[i].id != ts[ts.len() - 1].id);
            }
            lemma_left(less, level, id, max, next);
            let v = was[level as int];
            assert forall|i: int| 0 <= i < v.len() implies (#[trigger] v[i]).id != id by {
                assert(v.contains(v[i]));
                assert(less.contains(v[i]));
                let k = choose|k: int| 0 <= k < less.len() && less[k] == v[i];
                assert(less[k].id != id);
            }
            lemma_slot_splits(v, t.min_key);
            let n = if t.level == 0 {
                v.len() as int
            } else {
                slot_for(v, t.min_key) as int
            };
            let w = with_table(v, t);
            assert(w =~= v.insert(n, t));
            assert forall|i: int| 0 <= i < n implies (#[trigger] w[i]).id != id by {
                assert(w[i] == v[i]);
            }
            lemma_retired_first(w, id, n);
            assert(w.remove(n) =~= v);
            assert(removed(levels, level, id) =~= was);
        } else {
            lemma_leaves(less, level, id, max, next);
            let some = other_tables(less, level, id);
            assert(other_tables(ts, level, id) == some.push(t));
            assert(some.push(t).drop_last() =~= some);
            if t.id == id {
                assert(removed(added(was, t), level, id) =~= added(removed(was, level, id), t));
            } else {
                lemma_either_order(was, t, level, id);
            }
        }
    }
}

/// The tables of a list without those of another.
pub open spec fn without(ts: Seq<Summary>, level: u32, gone: Seq<Summary>) -> Seq<Summary>
    decreases gone.len(),
{
    if gone.len() == 0 {
        ts
    } else {
        other_tables(without(ts, level, gone.drop_last()), level, gone.last().id)
    }
}

/// The tables that leave the list leave the levels.
proof fn lemma_all_leave(ts: Seq<Summary>, level: u32, gone: Seq<Summary>, max: u32, next: u64)
    requires
        listed(ts, max, next),
        level < max,
    ensures
        listed(without(ts, level, gone), max, next),
        filled(without(ts, level, gone), max) == all_removed(filled(ts, max), level, gone),
    decreases gone.len(),
{
    if gone.len() > 0 {
        lemma_all_leave(ts, level, gone.drop_last(), max, next);
        let mid = without(ts, level, gone.drop_last());
        lemma_left(mid, level, gone.last().id, max, next);
        lemma_leaves(mid, level, gone.last().id, max, next);
    }
}

/// Levels that lose tables keep their number and their order.
proof fn lemma_still_sorted(levels: Seq<Seq<Summary>>, level: u32, gone: Seq<Summary>)
    requires
        forall|l: int| 1 <= l < levels.len() ==> by_key(#[trigger] levels[l]),
    ensures
        all_removed(levels, level, gone).len() == levels.len(),
        forall|l: int|
            1 <= l < levels.len() ==> by_key(#[trigger] all_removed(levels, level, gone)[l]),
    decreases gone.len(),
{
    if gone.len() > 0 {
        lemma_still_sorted(levels, level, gone.drop_last());
        let was = all_removed(levels, level, gone.drop_last());
        let now = all_removed(levels, level, gone);
        let id = gone.last().id;
        assert forall|l: int| 1 <= l < levels.len() implies by_key(#[trigger] now[l]) by {
            assert(by_key(was[l]));
            if l == level {
                let p = lemma_retired_at(was[l], id);
                if p < was[l].len() {
                    lemma_removed_by_key(was[l], p);
                }
            }
        }
    }
}

/// A table joins the levels before others leave them, or after.
proof fn lemma_joins_first(levels: Seq<Seq<Summary>>, t: Summary, level: u32, gone: Seq<Summary>)
    requires
        t.level < levels.len(),
        level < levels.len(),
        forall|l: int| 1 <= l < levels.len() ==> by_key(#[trigger] levels[l]),
        forall|i: int| 0 <= i < gone.len() ==> (#[trigger] gone[i]).id != t.id,
    ensures
        all_removed(added(levels, t), level, gone) == added(all_removed(levels, level, gone), t),
    decreases gone.len(),
{
    if gone.len() > 0 {
        let less = gone.drop_last();
        assert forall|i: int| 0 <= i < less.len() implies (#[trigger] less[i]).id != t.id by {
            assert(less[i] == gone[i]);
        }
        lemma_joins_first(levels, t, level, less);
        lemma_still_sorted(levels, level, less);
        assert(gone[gone.len() - 1].id != t.id);
        lemma_either_order(all_removed(levels, level, less), t, level, gone.last().id);
    }
}

/// A table under a new id joins the list and the levels.
proof fn lemma_joins(ts: Seq<Summary>, m: Summary, max: u32, next: u64)
    requires
        listed(ts, max, next),
        m.id == next,
        next < u64::MAX,
        m.level < max,
        lex_le(m.min_key, m.max_key),
    ensures
        other_ids(ts, m.id) == ts,
        listed(ts.push(m), max, (next + 1) as u64),
        filled(ts.push(m), max) == added(filled(ts, max), m),
{
    lemma_no_such_id(ts, m.id);
    let now = ts.push(m);
    assert(now.drop_last() =~= ts);
    assert forall|i: int| 0 <= i < now.len() implies (#[trigger] now[i]).level < max && now[i].id
        < next + 1 && lex_le(now[i].min_key, now[i].max_key) by {
        if i < ts.len() {
            assert(now[i] == ts[i]);
        }
    }
    assert forall|i: int, j: int| 0 <= i < j < now.len() implies (#[trigger] now[i]).id != (
    #[trigger] now[j]).id by {
        assert(now[i] == ts[i]);
        if j < ts.len() {
            assert(now[j] == ts[j]);
        }
    }
}

proof fn lemma_no_such_id(ts: Seq<Summary>, id: u64)
    requires
        forall|i: int| 0 <= i < ts.len() ==> (#[trigger] ts[i]).id != id,
    ensures
        other_ids(ts, id) == ts,
    decreases ts.len(),
{
    if ts.len() > 0 {
        let less = ts.drop_last();
        assert forall|i: int| 0 <= i < less.len() implies (#[trigger] less[i]).id != id by {
            assert(less[i] == ts[i]);
        }
        lemma_no_such_id(less, id);
        assert(ts[ts.len() - 1].id != id);
        assert(less.push(ts.last()) =~= ts);
    }
}

// ---- all tables in one list ------------------------------------------------------------------

proof fn lemma_added_in_turn(levels: Seq<Seq<Summary>>, a: Seq<Summary>, b: Seq<Summary>)
    ensures
        all_added(levels, a + b) == all_added(all_added(levels, a), b),
    decreases b.len(),
{
    if b.len() == 0 {
        assert(a + b =~= a);
    } else {
        assert((a + b).drop_last() =~= a + b.drop_last());
        assert((a + b).last() == b.last());
        lemma_added_in_turn(levels, a, b.drop_last());
    }
}

/// Smallest keys ascend.
spec fn strictly(v: Seq<Summary>) -> bool {
    forall|i: int, j: int|
        0 <= i < j < v.len() ==> lex_lt((#[trigger] v[i]).min_key, (#[trigger] v[j]).min_key)
}

/// An empty level is filled in order.
proof fn lemma_level_filled(levels: Seq<Seq<Summary>>, l: int, v: Seq<Summary>)
    requires
        0 <= l < levels.len(),
        levels[l].len() == 0,
        forall|i: int| 0 <= i < v.len() ==> (#[trigger] v[i]).level == l,
        l > 0 ==> strictly(v),
    ensures
        all_added(levels, v) == levels.update(l, v),
    decreases v.len(),
{
    if v.len() == 0 {
        assert(levels[l] =~= v);
        assert(levels.update(l, v) =~= levels);
    } else {
        let less = v.drop_last();
        let t = v.last();
        assert forall|i: int| 0 <= i < less.len() implies (#[trigger] less[i]).level == l by {
            assert(less[i] == v[i]);
        }
        if l > 0 {
            assert forall|i: int, j: int| 0 <= i < j < less.len() implies lex_lt(
                (#[trigger] less[i]).min_key,
                (#[trigger] less[j]).min_key,
            ) by {
                assert(less[i] == v[i] && less[j] == v[j]);
            }
        }
        lemma_level_filled(levels, l, less);
        assert(v[v.len() - 1].level == l);
        if l > 0 {
            assert forall|i: int| 0 <= i < less.len() implies lex_lt(
                (#[trigger] less[i]).min_key,
                t.min_key,
            ) by {
                assert(less[i] == v[i]);
                assert(t == v[v.len() - 1]);
            }
            lemma_slot_is(less, t.min_key, less.len() as int);
        }
        assert(with_table(less, t) =~= v);
        assert(all_added(levels, v) =~= levels.update(l, v));
    }
}

/// The levels up to some depth.
spec fn upper(levels: Seq<Seq<Summary>>, k: int) -> Seq<Seq<Summary>> {
    Seq::new(
        levels.len(),
        |l: int|
            if l < k {
                levels[l]
            } else {
                Seq::empty()
            },
    )
}

/// Levels whose tables say at which level they are, under ids of their own,
/// the deeper ones strictly sorted.
spec fn orderly(levels: Seq<Seq<Summary>>, next: u64) -> bool {
    &&& unique(levels)
    &&& forall|l: int, t: Summary|
        0 <= l < levels.len() && #[trigger] levels[l].contains(t) ==> t.level == l && t.id < next
            && lex_le(t.min_key, t.max_key)
    &&& forall|l: int| 1 <= l < levels.len() ==> strictly(#[trigger] levels[l])
}

/// The tables of all levels, in one list, fill the levels again.
proof fn lemma_listed_again(levels: Seq<Seq<Summary>>, max: u32, next: u64, k: int)
    requires
        orderly(levels, next),
        levels.len() == max,
        0 <= k <= max,
    ensures
        ({
            let ts = all_tables(levels.subrange(0, k));
            &&& listed(ts, max, next)
            &&& filled(ts, max) == upper(levels, k)
            &&& forall|i: int|
                0 <= i < ts.len() ==> (#[trigger] ts[i]).level < k && levels[ts[i].level as int].contains(
                    ts[i],
                )
        }),
    decreases k,
{
    let some = levels.subrange(0, k);
    let ts = all_tables(some);
    if k == 0 {
        assert(upper(levels, 0) =~= bare(max));
    } else {
        lemma_listed_again(levels, max, next, k - 1);
        assert(some.drop_last() =~= levels.subrange(0, k - 1));
        let a = all_tables(levels.subrange(0, k - 1));
        let b = levels[k - 1];
        assert(some.last() == b);
        assert(ts == a + b);
        assert forall|i: int| 0 <= i < b.len() implies (#[trigger] b[i]).level == k - 1 by {
            assert(levels[k - 1].contains(b[i]));
        }
        lemma_added_in_turn(bare(max), a, b);
        lemma_level_filled(upper(levels, k - 1), k - 1, b);
        assert(upper(levels, k - 1).update(k - 1, b) =~= upper(levels, k));
        assert forall|i: int| 0 <= i < ts.len() implies (#[trigger] ts[i]).level < k
            && levels[ts[i].level as int].contains(ts[i]) && ts[i].id < next && lex_le(
            ts[i].min_key,
            ts[i].max_key,
        ) by {
            if i < a.len() {
                assert(ts[i] == a[i]);
            } else {
                assert(ts[i] == b[i - a.len()]);
                assert(levels[k - 1].contains(ts[i]));
            }
        }
        assert forall|i: int, j: int| 0 <= i < j < ts.len() implies (#[trigger] ts[i]).id != (
        #[trigger] ts[j]).id by {
            if j < a.len() {
                assert(ts[i] == a[i] && ts[j] == a[j]);
            } else {
                let u = b[j - a.len()];
                assert(ts[j] == u);
                assert(levels[k - 1].contains(u));
                if i < a.len() {
                    assert(ts[i] == a[i]);
                    assert(levels[a[i].level as int].contains(a[i]));
                } else {
                    let t = b[i - a.len()];
                    assert(ts[i] == t);
                    assert(levels[k - 1].contains(t));
                    assert(b.no_duplicates());
                }
            }
        }
    }
}

/// The levels that a list fills are orderly, if the tables of the deeper ones
/// do not overlap.
proof fn lemma_orderly(ts: Seq<Summary>, max: u32, next: u64)
    requires
        listed(ts, max, next),
        unique(filled(ts, max)),
        forall|l: int| 1 <= l < max ==> disjoint(#[trigger] filled(ts, max)[l]),
    ensures
        orderly(filled(ts, max), next),
{
    let levels = filled(ts, max);
    lemma_filled(ts, max, next);
    assert forall|l: int, t: Summary|
        0 <= l < levels.len() && #[trigger] levels[l].contains(t) implies t.level == l && t.id
        < next && lex_le(t.min_key, t.max_key) by {
        assert(ts.contains(t));
        let i = choose|i: int| 0 <= i < ts.len() && ts[i] == t;
        assert(ts[i].id < next);
    }
    assert forall|l: int| 1 <= l < levels.len() implies strictly(#[trigger] levels[l]) by {
        let v = levels[l];
        assert(by_key(v));
        assert(disjoint(v));
        assert(v.no_duplicates());
        assert forall|i: int, j: int| 0 <= i < j < v.len() implies lex_lt(
            (#[trigger] v[i]).min_key,
            (#[trigger] v[j]).min_key,
        ) by {
            assert(lex_le(v[i].min_key, v[j].min_key));
            if v[i].min_key == v[j].min_key {
                assert(levels[l].contains(v[i]) && levels[l].contains(v[j]));
                assert(spans_key(v[i], v[i].min_key));
                assert(spans_key(v[j], v[i].min_key));
                assert(v[i] == v[j]);
            }
        }
    }
}

// ---- the log ---------------------------------------------------------------------------------

/// Lengths that go into a frame can be stored.
proof fn lemma_stored(v: Seq<Summary>)
    ensures
        v.len() <= metas_bytes(v).len(),
        forall|i: int|
            0 <= i < v.len() ==> (#[trigger] v[i]).min_key.len() + v[i].max_key.len()
                <= metas_bytes(v).len(),
    decreases v.len(),
{
    if v.len() > 0 {
        let rest = v.subrange(1, v.len() as int);
        lemma_stored(rest);
        lemma_meta_len(v[0]);
        assert(edit_bytes(Edit::Add(v[0])).len() == 4 + meta_bytes(v[0]).len());
        assert forall|i: int| 0 <= i < v.len() implies (#[trigger] v[i]).min_key.len()
            + v[i].max_key.len() <= metas_bytes(v).len() by {
            if i > 0 {
                assert(v[i] == rest[i - 1]);
            }
        }
    }
}

proof fn lemma_snapshot_ok(v: Seq<Summary>, next: u64)
    requires
        frames(Edit::Snapshot(v, next)),
    ensures
        edit_ok(Edit::Snapshot(v, next)),
{
    lemma_stored(v);
    assert(edit_bytes(Edit::Snapshot(v, next)).len() == 20 + metas_bytes(v).len());
}

/// Removals are replayed.
proof fn lemma_removals(log: Seq<u8>, level: u32, gone: Seq<Summary>)
    requires
        replayed(log).1 == log.len(),
        forall|i: int| 0 <= i < gone.len() ==> (#[trigger] gone[i]).level == level,
    ensures
        ({
            let more = log + removals(gone);
            let (s, end) = replayed(more);
            &&& end == more.len()
            &&& s.tables == without(replayed(log).0.tables, level, gone)
            &&& s.checkpoint == replayed(log).0.checkpoint
        }),
    decreases gone.len(),
{
    if gone.len() == 0 {
        assert(log + removals(gone) =~= log);
    } else {
        let less = gone.drop_last();
        let t = gone.last();
        assert forall|i: int| 0 <= i < less.len() implies (#[trigger] less[i]).level == level by {
            assert(less[i] == gone[i]);
        }
        lemma_removals(log, level, less);
        assert(gone[gone.len() - 1].level == level);
        let e = Edit::Remove(t.level, t.id);
        assert(edit_bytes(e).len() == 16);
        law_appended_edits_are_replayed(log + removals(less), e);
        assert(log + removals(gone) =~= log + removals(less) + frame_of(e));
    }
}

proof fn lemma_removals_join(a: Seq<Summary>, b: Seq<Summary>)
    ensures
        removals(a + b) == removals(a) + removals(b),
    decreases b.len(),
{
    if b.len() == 0 {
        assert(a + b =~= a);
        assert(removals(a) + removals(b) =~= removals(a));
    } else {
        assert((a + b).drop_last() =~= a + b.drop_last());
        lemma_removals_join(a, b.drop_last());
        assert(removals(a + b) =~= removals(a) + removals(b));
    }
}

impl LsmEngine {
    /// The manifest log names the live tables and the checkpoint.
    pub open spec fn logged(&self) -> bool {
        let (s, end) = replayed(self.log.log@);
        let max = self.options.levels.max_levels;
        &&& end == self.log.log@.len()
        &&& s.checkpoint == self.checkpoint_seqno
        &&& self.manifest.config == self.options.levels
        &&& self.manifest@ == filled(s.tables, max)
        &&& listed(s.tables, max, self.manifest.next_table_id)
    }
}

/// A flush in the log.
proof fn lemma_flush_replayed(log: Seq<u8>, m: Summary, top: u64)
    requires
        replayed(log).1 == log.len(),
        other_ids(replayed(log).0.tables, m.id) == replayed(log).0.tables,
        frames(Edit::Add(m)),
    ensures
        ({
            let s = replayed(log).0;
            let more = log + flush_edits(m, top, s.checkpoint);
            let (now, end) = replayed(more);
            &&& end == more.len()
            &&& now.tables == s.tables.push(m)
            &&& now.checkpoint == if top > s.checkpoint {
                top
            } else {
                s.checkpoint
            }
        }),
{
    let e = Edit::Add(m);
    let s = replayed(log).0;
    lemma_meta_len(m);
    law_appended_edits_are_replayed(log, e);
    if top > s.checkpoint {
        let d = Edit::Durable(top);
        assert(edit_bytes(d).len() == 12);
        law_appended_edits_are_replayed(log + frame_of(e), d);
        assert(log + flush_edits(m, top, s.checkpoint) =~= log + frame_of(e) + frame_of(d));
    } else {
        assert(log + flush_edits(m, top, s.checkpoint) =~= log + frame_of(e));
    }
}

/// The first key of a list is no larger than its last.
proof fn lemma_key_range(run: Seq<Item>, id: u64, level: u32, size: int)
    requires
        in_order(run),
    ensures
        lex_le(summary(run, id, level, size).min_key, summary(run, id, level, size).max_key),
{
    if run.len() > 1 {
        assert(version_lt(run[0].0, run[run.len() - 1].0));
    }
}

/// The log names a new table once it is flushed.
#[verifier::spinoff_prover]
pub proof fn law_flushes_are_logged(was: LsmEngine, now: LsmEngine, t: Flushed)
    requires
        was.wf(),
        was.logged(),
        was.manifest.next_table_id < u64::MAX,
        flushes_to(was, now, t),
    ensures
        now.logged(),
{
    reveal(flushes_to);
    let mem = was.frozen@[0];
    let run = items(mem.entries@);
    assert(mem.wf());
    lemma_filled(
        replayed(was.log.log@).0.tables,
        was.options.levels.max_levels,
        was.manifest.next_table_id,
    );
    lemma_key_range(run, was.manifest.next_table_id, 0, t.file@.len() as int);
    lemma_joins(
        replayed(was.log.log@).0.tables,
        t.meta@,
        was.options.levels.max_levels,
        was.manifest.next_table_id,
    );
    lemma_flush_replayed(was.log.log@, t.meta@, top_seqno(mem));
}

/// The tables that the log names after a compaction.
spec fn tables_after(ts: Seq<Summary>, was: LsmEngine, o: Option<Flushed>) -> Seq<Summary> {
    let level = urgent(was).0;
    let (source, target) = job_tables(was.manifest@, level);
    let more = match o {
        Some(t) => ts.push(t.meta@),
        None => ts,
    };
    without(without(more, level, source), (level + 1) as u32, target)
}

/// What a compaction of a logged engine drains.
proof fn lemma_drains(was: LsmEngine)
    requires
        was.wf(),
        was.logged(),
        is_due(urgent(was).1),
    ensures
        ({
            let level = urgent(was).0;
            let (source, target) = job_tables(was.manifest@, level);
            let next = was.manifest.next_table_id;
            &&& level + 1 < was.manifest@.len() == was.options.levels.max_levels
            &&& forall|i: int|
                0 <= i < source.len() ==> (#[trigger] source[i]).level == level && source[i].id
                    < next
            &&& forall|i: int|
                0 <= i < target.len() ==> (#[trigger] target[i]).level == level + 1
                    && target[i].id < next
        }),
{
    let levels = was.manifest@;
    let level = urgent(was).0;
    let (source, target) = job_tables(levels, level);
    let next = was.manifest.next_table_id;
    let ts = replayed(was.log.log@).0.tables;
    let max = was.options.levels.max_levels;
    lemma_filled(ts, max, next);
    lemma_urgent(levels, was.manifest.config, (levels.len() - 1) as nat);
    lemma_largest(levels[level as int]);
    lemma_meeting(levels[level + 1], least_key(source), greatest_key(source));
    assert forall|l: int, t: Summary|
        0 <= l < levels.len() && #[trigger] levels[l].contains(t) implies t.level == l && t.id
        < next by {
        assert(ts.contains(t));
        let i = choose|i: int| 0 <= i < ts.len() && ts[i] == t;
        assert(ts[i].id < next);
    }
    assert forall|i: int| 0 <= i < source.len() implies (#[trigger] source[i]).level == level
        && source[i].id < next by {
        assert(levels[level as int].contains(source[i]));
    }
    assert forall|i: int| 0 <= i < target.len() implies (#[trigger] target[i]).level == level + 1
        && target[i].id < next by {
        assert(levels[level + 1].contains(target[i]));
    }
}

/// The live tables after a compaction are those that the log would name.
proof fn lemma_after(was: LsmEngine, now: LsmEngine, floor: u64, c: Compacted)
    requires
        was.wf(),
        was.logged(),
        was.manifest.next_table_id < u64::MAX,
        compacts_urgent(was, now, floor, c),
    ensures
        ({
            let ts = tables_after(replayed(was.log.log@).0.tables, was, c.output);
            let max = was.options.levels.max_levels;
            &&& listed(ts, max, now.manifest.next_table_id)
            &&& now.manifest@ == filled(ts, max)
            &&& c.output is Some ==> other_ids(
                replayed(was.log.log@).0.tables,
                (c.output->0).meta@.id,
            ) == replayed(was.log.log@).0.tables
        }),
{
    reveal(compacts_urgent);
    let level = urgent(was).0;
    let up = (level + 1) as u32;
    let (source, target) = job_tables(was.manifest@, level);
    let next = was.manifest.next_table_id;
    let max = was.options.levels.max_levels;
    let ts = replayed(was.log.log@).0.tables;
    let levels = was.manifest@;
    lemma_drains(was);
    lemma_filled(ts, max, next);
    let outs = outputs_of(c.output);
    let cleared = all_removed(all_removed(levels, level, source), up, target);
    match c.output {
        Some(t) => {
            let m = t.meta@;
            let kept = left_over(
                job_inputs(was, level)->0,
                floor,
                level + 2 >= was.manifest.config.max_levels,
            );
            let run = choose|run: Seq<Item>| #[trigger]
                in_order(run) && versions(run) == kept && run.len() > 0 && is_file_of(t.file@, run)
                    && m == summary(run, next, up, t.file@.len() as int);
            lemma_key_range(run, next, up, t.file@.len() as int);
            lemma_joins(ts, m, max, next);
            let n = (next + 1) as u64;
            lemma_all_leave(ts.push(m), level, source, max, n);
            lemma_all_leave(without(ts.push(m), level, source), up, target, max, n);
            lemma_joins_first(levels, m, level, source);
            lemma_still_sorted(levels, level, source);
            lemma_joins_first(all_removed(levels, level, source), m, up, target);
            assert(outs.drop_last() =~= Seq::<Summary>::empty());
            assert(all_added(cleared, outs.drop_last()) == cleared);
            assert(all_added(cleared, outs) == added(cleared, m));
            assert(id_after(next, outs.drop_last()) == next);
            assert(now.manifest.next_table_id == n);
        },
        None => {
            lemma_all_leave(ts, level, source, max, next);
            lemma_all_leave(without(ts, level, source), up, target, max, next);
            assert(all_added(cleared, outs) == cleared);
            assert(now.manifest.next_table_id == next);
        },
    }
}

/// A compaction in the log.
proof fn lemma_exchange_replayed(
    log: Seq<u8>,
    o: Option<Flushed>,
    level: u32,
    source: Seq<Summary>,
    up: u32,
    target: Seq<Summary>,
)
    requires
        replayed(log).1 == log.len(),
        o is Some ==> frames(Edit::Add((o->0).meta@)) && other_ids(
            replayed(log).0.tables,
            (o->0).meta@.id,
        ) == replayed(log).0.tables,
        forall|i: int| 0 <= i < source.len() ==> (#[trigger] source[i]).level == level,
        forall|i: int| 0 <= i < target.len() ==> (#[trigger] target[i]).level == up,
    ensures
        ({
            let s = replayed(log).0;
            let more = log + additions(o) + removals(source + target);
            let (now, end) = replayed(more);
            let begun = match o {
                Some(t) => s.tables.push(t.meta@),
                None => s.tables,
            };
            &&& end == more.len()
            &&& now.tables == without(without(begun, level, source), up, target)
            &&& now.checkpoint == s.checkpoint
        }),
{
    let begun = log + additions(o);
    match o {
        Some(t) => {
            lemma_meta_len(t.meta@);
            law_appended_edits_are_replayed(log, Edit::Add(t.meta@));
        },
        None => {
            assert(begun =~= log);
        },
    }
    lemma_removals(begun, level, source);
    lemma_removals(begun + removals(source), up, target);
    lemma_removals_join(source, target);
    assert(begun + removals(source + target) =~= begun + removals(source) + removals(target));
}

/// A rewritten log names the tables of orderly levels.
proof fn lemma_rewritten(ts: Seq<Summary>, max: u32, next: u64, checkpoint: u64)
    requires
        listed(ts, max, next),
        unique(filled(ts, max)),
        forall|l: int| 1 <= l < max ==> disjoint(#[trigger] filled(ts, max)[l]),
        frames(Edit::Snapshot(all_tables(filled(ts, max)), next)),
    ensures
        ({
            let log = snapshot_log(all_tables(filled(ts, max)), next, checkpoint);
            let (s, end) = replayed(log);
            &&& end == log.len()
            &&& listed(s.tables, max, next)
            &&& filled(s.tables, max) == filled(ts, max)
            &&& s.checkpoint == checkpoint
        }),
{
    let levels = filled(ts, max);
    lemma_filled(ts, max, next);
    lemma_orderly(ts, max, next);
    lemma_listed_again(levels, max, next, max as int);
    assert(levels.subrange(0, max as int) =~= levels);
    assert(upper(levels, max as int) =~= levels);
    lemma_snapshot_ok(all_tables(levels), next);
    law_compacted_logs_say_the_same(all_tables(levels), next, checkpoint);
}

/// The layout after a compaction.
proof fn lemma_layout_after(
    was: LsmEngine,
    now: LsmEngine,
    floor: u64,
    c: Compacted,
    runs: Map<u64, Seq<Item>>,
)
    requires
        was.well_laid(runs),
        compacts_urgent(was, now, floor, c),
    ensures
        unique(now.manifest@),
        forall|l: int| 1 <= l < now.manifest@.len() ==> disjoint(#[trigger] now.manifest@[l]),
{
    law_compaction_keeps_reads(was, now, floor, c, runs);
    let after = choose|after: Map<u64, Seq<Item>>| #[trigger] now.well_laid(after);
    assert(laid(now.manifest@, after));
}

/// What a compaction did to the log.
proof fn lemma_log_after(was: LsmEngine, now: LsmEngine, floor: u64, c: Compacted)
    requires
        compacts_urgent(was, now, floor, c),
    ensures
        ({
            let (source, target) = job_tables(was.manifest@, urgent(was).0);
            &&& was.wf()
            &&& is_due(urgent(was).1)
            &&& now.checkpoint_seqno == was.checkpoint_seqno
            &&& now.options == was.options
            &&& now.manifest.config == was.manifest.config
            &&& c.output is Some ==> frames(Edit::Add((c.output->0).meta@))
            &&& {
                ||| now.log.log@ == was.log.log@ + additions(c.output) + removals(source + target)
                ||| {
                    let all = all_tables(now.manifest@);
                    let next = now.manifest.next_table_id;
                    &&& frames(Edit::Snapshot(all, next))
                    &&& now.log.log@ == snapshot_log(all, next, was.checkpoint_seqno)
                }
            }
        }),
{
    reveal(compacts_urgent);
}

/// A compaction is logged: the log names the tables that are live after it,
/// whether it was appended to or rewritten.
#[verifier::spinoff_prover]
pub proof fn law_compaction_is_logged(
    was: LsmEngine,
    now: LsmEngine,
    floor: u64,
    c: Compacted,
    runs: Map<u64, Seq<Item>>,
)
    requires
        was.logged(),
        was.well_laid(runs),
        was.manifest.next_table_id < u64::MAX,
        compacts_urgent(was, now, floor, c),
    ensures
        now.logged(),
{
    let level = urgent(was).0;
    let (source, target) = job_tables(was.manifest@, level);
    let log = was.log.log@;
    let max = was.options.levels.max_levels;
    lemma_log_after(was, now, floor, c);
    lemma_layout_after(was, now, floor, c, runs);
    lemma_drains(was);
    lemma_after(was, now, floor, c);
    let then = tables_after(replayed(log).0.tables, was, c.output);
    if now.log.log@ == log + additions(c.output) + removals(source + target) {
        lemma_exchange_replayed(log, c.output, level, source, (level + 1) as u32, target);
    } else {
        lemma_filled(then, max, now.manifest.next_table_id);
        lemma_rewritten(then, max, now.manifest.next_table_id, was.checkpoint_seqno);
    }
}

/// However many compactions run, the log names the live tables.
pub proof fn law_compactions_are_logged(
    was: LsmEngine,
    now: LsmEngine,
    floor: u64,
    cs: Seq<Compacted>,
    runs: Map<u64, Seq<Item>>,
)
    requires
        was.logged(),
        was.well_laid(runs),
        was.manifest.next_table_id + cs.len() <= u64::MAX,
        compacted_in_turn(was, now, floor, cs),
    ensures
        now.logged(),
        now.manifest.next_table_id <= was.manifest.next_table_id + cs.len(),
    decreases cs.len(),
{
    if cs.len() == 0 {
        reveal(compacted_in_turn);
    } else {
        let mid = lemma_compacted_last(was, now, floor, cs);
        let less = cs.drop_last();
        law_compactions_are_logged(was, mid, floor, less, runs);
        law_compactions_keep_values(was, mid, floor, less, runs);
        let between = choose|m: Map<u64, Seq<Item>>| #[trigger]
            mid.well_laid(m) && same_values(was, runs, mid, m, floor);
        law_compaction_is_logged(mid, now, floor, cs.last(), between);
        lemma_next_id(mid, now, floor, cs.last());
    }
}

/// A compaction takes one id at most.
proof fn lemma_next_id(was: LsmEngine, now: LsmEngine, floor: u64, c: Compacted)
    requires
        was.manifest.next_table_id < u64::MAX,
        compacts_urgent(was, now, floor, c),
    ensures
        now.manifest.next_table_id <= was.manifest.next_table_id + 1,
{
    reveal(compacts_urgent);
    let next = was.manifest.next_table_id;
    let outs = outputs_of(c.output);
    if c.output is Some {
        assert(outs.drop_last() =~= Seq::<Summary>::empty());
        assert(id_after(next, outs.drop_last()) == next);
    } else {
        assert(id_after(next, outs) == next);
    }
}

// ---- opening again ---------------------------------------------------------------------------

/// The files of the live tables are there, as they were written.
pub open spec fn keeps_files(
    files: Seq<(u64, Vec<u8>)>,
    ts: Seq<Summary>,
    runs: Map<u64, Seq<Item>>,
) -> bool {
    forall|i: int|
        0 <= i < ts.len() ==> file_for(files, (#[trigger] ts[i]).id) is Some && is_file_of(
            file_for(files, ts[i].id)->0,
            runs[ts[i].id],
        )
}

/// A file fits in memory.
proof fn lemma_file_len(files: Seq<(u64, Vec<u8>)>, id: u64)
    requires
        file_for(files, id) is Some,
    ensures
        (file_for(files, id)->0).len() <= usize::MAX,
    decreases files.len(),
{
    if files[0].0 == id {
        let v = files[0].1;
        assert(v@.len() == v.len());
    } else {
        lemma_file_len(files.subrange(1, files.len() as int), id);
    }
}

/// The run of a table that the log names.
proof fn lemma_named_run(e: LsmEngine, runs: Map<u64, Seq<Item>>, i: int)
    requires
        e.logged(),
        e.well_laid(runs),
        0 <= i < replayed(e.log.log@).0.tables.len(),
    ensures
        ({
            let t = replayed(e.log.log@).0.tables[i];
            &&& in_order(runs[t.id])
            &&& all_fit(runs[t.id])
            &&& keys_ascend(runs[t.id])
            &&& t.id < u64::MAX
            &&& t.level < u32::MAX
        }),
{
    let ts = replayed(e.log.log@).0.tables;
    let max = e.options.levels.max_levels;
    let t = ts[i];
    lemma_filled(ts, max, e.manifest.next_table_id);
    assert(ts.contains(t));
    assert(e.manifest@[t.level as int].contains(t));
    assert(is_open(e.open_tables@, t.id));
    let k = choose|k: int|
        0 <= k < e.open_tables@.len() && (#[trigger] e.open_tables@[k]).meta.id == t.id;
    let run = runs[t.id];
    assert(e.open_tables@[k].holds(run));
    assert forall|a: int, b: int| 0 <= a < b < run.len() implies lex_le(
        (#[trigger] run[a]).0.0,
        (#[trigger] run[b]).0.0,
    ) by {
        assert(version_lt(run[a].0, run[b].0));
    }
}

/// An engine can be opened again from its log and the files of its tables: each
/// table that the log names can be loaded. A torn tail of the log does no harm.
pub proof fn law_logged_tables_can_be_opened(
    e: LsmEngine,
    files: Seq<(u64, Vec<u8>)>,
    tail: Seq<u8>,
    runs: Map<u64, Seq<Item>>,
)
    requires
        e.logged(),
        e.well_laid(runs),
        keeps_files(files, replayed(e.log.log@).0.tables, runs),
        replayed(e.log.log@ + tail) == replayed(e.log.log@),
    ensures
        ({
            let ts = replayed(e.log.log@ + tail).0.tables;
            forall|i: int| 0 <= i < ts.len() ==> loadable(files, #[trigger] ts[i])
        }),
{
    let ts = replayed(e.log.log@).0.tables;
    assert forall|i: int| 0 <= i < ts.len() implies loadable(files, #[trigger] ts[i]) by {
        lemma_named_run(e, runs, i);
        lemma_file_len(files, ts[i].id);
        lemma_written_file(file_for(files, ts[i].id)->0, runs[ts[i].id]);
    }
}

/// The tables that are open again hold what they held.
proof fn lemma_open_again(
    e: LsmEngine,
    files: Seq<(u64, Vec<u8>)>,
    runs: Map<u64, Seq<Item>>,
    tables: Seq<SSTable>,
)
    requires
        e.logged(),
        e.well_laid(runs),
        keeps_files(files, replayed(e.log.log@).0.tables, runs),
        forall|k: int|
            0 <= k < tables.len() ==> from_file(
                files,
                replayed(e.log.log@).0.tables,
                #[trigger] tables[k],
            ),
    ensures
        tables_hold(tables, runs),
{
    let ts = replayed(e.log.log@).0.tables;
    assert forall|k: int| 0 <= k < tables.len() implies (#[trigger] tables[k]).holds(
        runs[tables[k].meta.id],
    ) by {
        let x = tables[k];
        assert(from_file(files, ts, x));
        let i = choose|i: int| 0 <= i < ts.len() && (#[trigger] ts[i]).id == x.meta.id;
        lemma_named_run(e, runs, i);
        lemma_file_len(files, ts[i].id);
        lemma_opened_file(
            file_for(files, ts[i].id)->0,
            runs[ts[i].id],
            x.meta.id,
            x.meta.level,
            x,
        );
    }
}

/// An engine that is opened again, after it was closed or cut off in the middle
/// of an append to its log, has the tables that it had, at their levels, and
/// the checkpoint. Every read that was answered from the tables is answered
/// alike; what was in memory alone is gone.
#[verifier::spinoff_prover]
pub proof fn law_reopening_keeps_the_tables(
    e: LsmEngine,
    again: LsmEngine,
    files: Seq<(u64, Vec<u8>)>,
    tail: Seq<u8>,
    runs: Map<u64, Seq<Item>>,
)
    requires
        e.logged(),
        e.well_laid(runs),
        keeps_files(files, replayed(e.log.log@).0.tables, runs),
        replayed(e.log.log@ + tail) == replayed(e.log.log@),
        opens_as(e.log.log@ + tail, files, e.options, again),
    ensures
        again.manifest@ == e.manifest@,
        again.checkpoint_seqno == e.checkpoint_seqno,
        again.logged(),
        again.well_laid(runs),
        forall|key: Seq<u8>, snapshot: u64|
            #![trigger first_answer(again.layers(runs, key), key, snapshot)]
            first_answer(e.memory(), key, snapshot) is None ==> first_answer(
                again.layers(runs, key),
                key,
                snapshot,
            ) == first_answer(e.layers(runs, key), key, snapshot),
{
    let log = e.log.log@;
    let s = replayed(log).0;
    let ts = s.tables;
    let max = e.options.levels.max_levels;
    let next = again.manifest.next_table_id;
    lemma_filled(ts, max, e.manifest.next_table_id);
    lemma_open_again(e, files, runs, again.open_tables@);
    assert forall|l: int, t: Summary|
        0 <= l < again.manifest@.len() && #[trigger] again.manifest@[l].contains(
            t,
        ) implies is_open(again.open_tables@, t.id) by {
        assert(e.manifest@[l].contains(t));
        assert(ts.contains(t));
        let i = choose|i: int| 0 <= i < ts.len() && ts[i] == t;
        assert(loaded(files, again.open_tables@, ts[i]));
    }
    assert(again.well_laid(runs));
    assert(listed(ts, max, next)) by {
        assert forall|i: int| 0 <= i < ts.len() implies (#[trigger] ts[i]).id < u64::MAX by {}
        lemma_ids_after(1, ts);
    }
    assert((log + tail).subrange(0, log.len() as int) =~= log);
    if s.edits > COMPACT_AFTER_EDITS {
        lemma_snapshot_ok(ts, next);
        law_compacted_logs_say_the_same(ts, next, s.checkpoint);
    }
    assert forall|key: Seq<u8>, snapshot: u64|
        #![trigger first_answer(again.layers(runs, key), key, snapshot)]
        first_answer(e.memory(), key, snapshot) is None implies first_answer(
        again.layers(runs, key),
        key,
        snapshot,
    ) == first_answer(e.layers(runs, key), key, snapshot) by {
        lemma_read(e, runs, key, snapshot);
        lemma_read(again, runs, key, snapshot);
        lemma_memory_empty(again, key, snapshot);
    }
}

/// Nothing is in the memory of an engine that was just opened.
proof fn lemma_memory_empty(e: LsmEngine, key: Seq<u8>, snapshot: u64)
    requires
        e.active@ == Map::<Version, Option<Seq<u8>>>::empty(),
        e.frozen@.len() == 0,
    ensures
        first_answer(e.memory(), key, snapshot) is None,
{
    let m = e.memory();
    assert(m =~= seq![e.active@]);
    lemma_nothing_seen(m[0], key, snapshot);
    assert(m.subrange(1, 1) =~= Seq::empty());
    reveal_with_fuel(first_answer, 3);
}

/// An engine that starts without a log has no table, and the log says so.
pub proof fn law_new_engines_are_empty(
    files: Seq<(u64, Vec<u8>)>,
    options: LsmOptions,
    e: LsmEngine,
    runs: Map<u64, Seq<Item>>,
)
    requires
        opens_as(Seq::empty(), files, options, e),
    ensures
        e.logged(),
        e.well_laid(runs),
        forall|key: Seq<u8>, snapshot: u64|
            #![trigger first_answer(e.layers(runs, key), key, snapshot)]
            first_answer(e.layers(runs, key), key, snapshot) is None,
{
    let none = Seq::<u8>::empty();
    assert(replayed(none) == (at_first(), 0int));
    assert(none.subrange(0, 0) =~= none);
    assert(e.open_tables@.len() == 0) by {
        if e.open_tables@.len() > 0 {
            assert(from_file(files, Seq::empty(), e.open_tables@[0]));
        }
    }
    assert(e.manifest@ == bare(options.levels.max_levels));
    assert forall|key: Seq<u8>, snapshot: u64|
        #![trigger first_answer(e.layers(runs, key), key, snapshot)]
        first_answer(e.layers(runs, key), key, snapshot) is None by {
        lemma_read(e, runs, key, snapshot);
        lemma_memory_empty(e, key, snapshot);
        lemma_consulted(e.manifest@, runs, key, snapshot);
        let order = consulted(e.manifest@, key);
        if order.len() > 0 {
            let l = choose|l: int|
                0 <= l < e.manifest@.len() && (#[trigger] e.manifest@[l]).contains(order[0]);
            assert(e.manifest@[l] == Seq::<Summary>::empty());
        }
        assert(stack(order, runs) =~= Seq::empty());
    }
}

} // verus!

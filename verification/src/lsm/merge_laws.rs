//! What a merge keeps and drops, what it counts, what tables, filters and the
//! manifest say of what they hold, and where lookups go.

use crate::bytes::{lemma_lex_irreflexive, lex_lt};
use crate::lsm::bloom::{
    hashes, mixed, optimal_probes, probe, probes, running, sane_bits, sized_bits,
};
use crate::lsm::compact::{compacts, job_inputs};
use crate::lsm::compaction::{bytes_of, consulted, newest_first, only_one};
use crate::lsm::edit::Edit;
use crate::lsm::engine::{is_file_of, Compacted, LsmEngine};
use crate::lsm::levels::{count_of, lemma_ids_after, size_of_all};
use crate::lsm::manifest::{other_ids, other_tables, stepped, Replayed};
use crate::lsm::memtable::{charges, lemma_charges_insert};
use crate::lsm::merge::{joined, merged, payload, reclaims, surviving};
use crate::lsm::recovery::next_after;
use crate::lsm::sstable::{highest, lowest, summary, Summary};
use crate::lsm::version::{
    in_order, is_newest, lemma_listed, lemma_version_total, lemma_versions, version_lt, versions,
    Item, Version,
};
use vstd::prelude::*;

verus! {

/// The versions that are the last word on their key up to the floor and say
/// that the key is gone.
pub open spec fn last_graves(m: Map<Version, Option<Seq<u8>>>, floor: u64) -> Set<Version> {
    Set::new(
        |v: Version|
            {
                &&& m.contains_key(v)
                &&& v.1 <= floor
                &&& m[v] is None
                &&& forall|t: u64| v.1 < t <= floor ==> !#[trigger] m.contains_key((v.0, t))
            },
    )
}

/// A merge invents nothing and alters no value. What is newer than the floor
/// stays. Of what is not, everything goes that a newer version up to the floor
/// replaces; the newest stays, save for a tombstone where tombstones are
/// dropped.
pub proof fn law_merges_keep_what_can_be_read(
    m: Map<Version, Option<Seq<u8>>>,
    floor: u64,
    drop_tombstones: bool,
    k: Seq<u8>,
    s: u64,
)
    ensures
        !m.contains_key((k, s)) ==> !surviving(m, floor, drop_tombstones).contains_key((k, s)),
        surviving(m, floor, drop_tombstones).contains_key((k, s)) ==> surviving(
            m,
            floor,
            drop_tombstones,
        )[(k, s)] == m[(k, s)],
        m.contains_key((k, s)) && s > floor ==> surviving(m, floor, drop_tombstones).contains_key(
            (k, s),
        ),
        (exists|t: u64| s < t <= floor && #[trigger] m.contains_key((k, t))) ==> !surviving(
            m,
            floor,
            drop_tombstones,
        ).contains_key((k, s)),
        m.contains_key((k, s)) && s <= floor && (forall|t: u64|
            s < t <= floor ==> !#[trigger] m.contains_key((k, t))) ==> (surviving(
            m,
            floor,
            drop_tombstones,
        ).contains_key((k, s)) <==> !(drop_tombstones && m[(k, s)] is None)),
{
    let kept = surviving(m, floor, drop_tombstones);
    if exists|t: u64| s < t <= floor && #[trigger] m.contains_key((k, t)) {
        let t = choose|t: u64| s < t <= floor && #[trigger] m.contains_key((k, t));
        assert(m.contains_key((k, t)));
    }
    if m.contains_key((k, s)) && s <= floor && (forall|t: u64|
        s < t <= floor ==> !#[trigger] m.contains_key((k, t))) {
        assert forall|t: u64| #[trigger] m.contains_key((k, t)) && t <= floor implies t <= s by {
            if t > s {
                assert(!m.contains_key((k, t)));
            }
        }
        assert(is_newest(m, k, floor, s));
    }
}

/// The versions among the first `n` of a list that a merge reclaims are counted
/// one by one.
proof fn lemma_graves(run: Seq<Item>, n: int, floor: u64)
    requires
        in_order(run),
        0 <= n <= run.len(),
    ensures
        last_graves(versions(run), floor).intersect(
            Set::new(|v: Version| exists|i: int| 0 <= i < n && (#[trigger] run[i]).0 == v),
        ).finite(),
        reclaims(run.subrange(0, n), versions(run), floor, true) == last_graves(
            versions(run),
            floor,
        ).intersect(
            Set::new(|v: Version| exists|i: int| 0 <= i < n && (#[trigger] run[i]).0 == v),
        ).len(),
    decreases n,
{
    let m = versions(run);
    let graves = last_graves(m, floor);
    let upto = Set::new(|v: Version| exists|i: int| 0 <= i < n && (#[trigger] run[i]).0 == v);
    if n == 0 {
        assert(graves.intersect(upto) =~= Set::empty());
    } else {
        let less = Set::new(
            |v: Version| exists|i: int| 0 <= i < n - 1 && (#[trigger] run[i]).0 == v,
        );
        lemma_graves(run, n - 1, floor);
        let v = run[n - 1].0;
        assert(run.subrange(0, n).drop_last() =~= run.subrange(0, n - 1));
        assert(run.subrange(0, n).last() == run[n - 1]);
        lemma_versions(run, n - 1);
        assert(!less.contains(v)) by {
            if less.contains(v) {
                let i = choose|i: int| 0 <= i < n - 1 && (#[trigger] run[i]).0 == v;
                lemma_version_total(run[i].0, run[n - 1].0);
            }
        }
        law_merges_keep_what_can_be_read(m, floor, true, v.0, v.1);
        assert(v == (v.0, v.1));
        if graves.contains(v) {
            assert forall|t: u64| #[trigger] m.contains_key((v.0, t)) && t <= floor implies t
                <= v.1 by {
                if t > v.1 {
                    assert(!m.contains_key((v.0, t)));
                }
            }
            assert(is_newest(m, v.0, floor, v.1));
            assert(graves.intersect(upto) =~= graves.intersect(less).insert(v)) by {
                assert forall|w: Version| graves.intersect(upto).contains(w) implies
                    #[trigger] graves.intersect(less).insert(v).contains(w) by {
                    let i = choose|i: int| 0 <= i < n && (#[trigger] run[i]).0 == w;
                    assert(i < n - 1 || w == v);
                }
            }
        } else {
            if m[v] is None && v.1 <= floor {
                let t = choose|t: u64| v.1 < t <= floor && #[trigger] m.contains_key((v.0, t));
                assert(m.contains_key((v.0, t)));
                assert(!is_newest(m, v.0, floor, v.1));
            }
            assert(graves.intersect(upto) =~= graves.intersect(less)) by {
                assert forall|w: Version| graves.intersect(upto).contains(w) implies
                    #[trigger] graves.intersect(less).contains(w) by {
                    let i = choose|i: int| 0 <= i < n && (#[trigger] run[i]).0 == w;
                    assert(i < n - 1);
                }
            }
        }
    }
}

/// The tombstones that a merge counts as dropped are those that were the last
/// word on their key up to the floor, and none where tombstones stay.
pub proof fn law_dropped_tombstones_are_counted(run: Seq<Item>, floor: u64)
    requires
        in_order(run),
    ensures
        reclaims(run, versions(run), floor, false) == 0,
        last_graves(versions(run), floor).finite(),
        reclaims(run, versions(run), floor, true) == last_graves(versions(run), floor).len(),
{
    let m = versions(run);
    let n = run.len() as int;
    lemma_none_reclaimed(run, m, floor);
    lemma_graves(run, n, floor);
    assert(run.subrange(0, n) =~= run);
    let upto = Set::new(|v: Version| exists|i: int| 0 <= i < n && (#[trigger] run[i]).0 == v);
    assert(last_graves(m, floor).intersect(upto) =~= last_graves(m, floor)) by {
        assert forall|v: Version| #[trigger] last_graves(m, floor).contains(v) implies
            upto.contains(v) by {
            let i = lemma_listed(run, v);
            assert(run[i].0 == v);
        }
    }
}

proof fn lemma_none_reclaimed(run: Seq<Item>, m: Map<Version, Option<Seq<u8>>>, floor: u64)
    ensures
        reclaims(run, m, floor, false) == 0,
    decreases run.len(),
{
    if run.len() > 0 {
        lemma_none_reclaimed(run.drop_last(), m, floor);
    }
}

/// A compaction writes its table one level down. Up to the floor the table has
/// one version of a key at most, and at the last level no tombstone. Every entry
/// that went in is written or counted as dropped.
pub proof fn law_compactions_clear_what_is_dead(
    was: LsmEngine,
    now: LsmEngine,
    level: u32,
    floor: u64,
    c: Compacted,
)
    requires
        compacts(was, now, level, floor, c),
        level < u32::MAX,
    ensures
        c.stats.entries_in == c.stats.entries_out + c.stats.versions_dropped
            + c.stats.tombstones_dropped,
        c.output is None ==> c.stats.entries_out == 0,
        c.output matches Some(t) ==> t.meta@.level == level + 1 && exists|run: Seq<Item>|
            {
                &&& #[trigger] in_order(run)
                &&& is_file_of(t.file@, run)
                &&& run.len() > 0
                &&& forall|i: int, j: int|
                    0 <= i < j < run.len() && (#[trigger] run[i]).0.0 == (#[trigger] run[j]).0.0
                        ==> run[i].0.1 > floor
                &&& level + 2 >= was.manifest.config.max_levels ==> forall|i: int|
                    0 <= i < run.len() && (#[trigger] run[i]).1 is None ==> run[i].0.1 > floor
            },
{
    if let Some(t) = c.output {
        let ins = job_inputs(was, level)->0;
        let drop_tombstones = level + 2 >= was.manifest.config.max_levels;
        let m = merged(joined(ins));
        let kept = surviving(m, floor, drop_tombstones);
        let run = choose|run: Seq<Item>| #[trigger]
            in_order(run) && versions(run) == kept && run.len() > 0 && is_file_of(t.file@, run)
                && t.meta@ == summary(
                run,
                was.manifest.next_table_id,
                (level + 1) as u32,
                t.file@.len() as int,
            );
        assert forall|i: int, j: int|
            0 <= i < j < run.len() && (#[trigger] run[i]).0.0 == (
            #[trigger] run[j]).0.0 implies run[i].0.1 > floor by {
            lemma_versions(run, i);
            lemma_versions(run, j);
            lemma_lex_irreflexive(run[i].0.0);
            assert(version_lt(run[i].0, run[j].0));
            assert(run[j].0 == (run[j].0.0, run[j].0.1));
            assert(run[i].0 == (run[j].0.0, run[i].0.1));
            law_merges_keep_what_can_be_read(m, floor, drop_tombstones, run[j].0.0, run[j].0.1);
            law_merges_keep_what_can_be_read(m, floor, drop_tombstones, run[j].0.0, run[i].0.1);
        }
        if drop_tombstones {
            assert forall|i: int| 0 <= i < run.len() && (#[trigger] run[i]).1 is None implies
                run[i].0.1 > floor by {
                lemma_versions(run, i);
                assert(run[i].0 == (run[i].0.0, run[i].0.1));
                law_merges_keep_what_can_be_read(m, floor, true, run[i].0.0, run[i].0.1);
            }
        }
    }
}

/// The bytes of lists add up: each entry weighs its key and its value, a
/// tombstone its key alone.
pub proof fn law_bytes_add_up(a: Seq<Item>, b: Seq<Item>, v: Version, x: Seq<u8>)
    ensures
        payload(a + b) == payload(a) + payload(b),
        payload(seq![(v, Some(x))]) == v.0.len() + x.len(),
        payload(seq![(v, None::<Seq<u8>>)]) == v.0.len(),
        payload(Seq::<Item>::empty()) == 0,
    decreases b.len(),
{
    let (s, t): (Seq<Item>, Seq<Item>) = (seq![(v, Some(x))], seq![(v, None::<Seq<u8>>)]);
    assert(s.drop_last() =~= Seq::<Item>::empty());
    assert(t.drop_last() =~= Seq::<Item>::empty());
    reveal_with_fuel(payload, 2);
    if b.len() == 0 {
        assert(a + b =~= a);
    } else {
        law_bytes_add_up(a, b.drop_last(), v, x);
        assert((a + b).drop_last() =~= a + b.drop_last());
    }
}

/// A write buffer is charged for each entry its key, its value and sixty-four
/// bytes more, wherever the entry stands.
pub proof fn law_entries_are_charged(run: Seq<Item>, n: int, v: Version, x: Seq<u8>)
    requires
        0 <= n <= run.len(),
    ensures
        charges(run.insert(n, (v, Some(x)))) == charges(run) + v.0.len() + x.len() + 64,
        charges(run.insert(n, (v, None))) == charges(run) + v.0.len() + 64,
        charges(Seq::<Item>::empty()) == 0,
{
    lemma_charges_insert(run, n, (v, Some(x)));
    lemma_charges_insert(run, n, (v, None));
}

proof fn lemma_bounds(run: Seq<Item>)
    requires
        run.len() > 0,
    ensures
        forall|i: int| 0 <= i < run.len() ==> lowest(run) <= (#[trigger] run[i]).0.1 <= highest(
            run,
        ),
        exists|i: int| 0 <= i < run.len() && (#[trigger] run[i]).0.1 == lowest(run),
        exists|i: int| 0 <= i < run.len() && (#[trigger] run[i]).0.1 == highest(run),
    decreases run.len(),
{
    let less = run.drop_last();
    let last = run.len() - 1;
    if run.len() > 1 {
        lemma_bounds(less);
        let a = choose|i: int| 0 <= i < less.len() && (#[trigger] less[i]).0.1 == lowest(less);
        let b = choose|i: int| 0 <= i < less.len() && (#[trigger] less[i]).0.1 == highest(less);
        assert(run[a] == less[a] && run[b] == less[b]);
        assert(run[last] == run.last());
        assert forall|i: int| 0 <= i < run.len() implies lowest(run) <= (#[trigger] run[i]).0.1
            <= highest(run) by {
            if i < last {
                assert(run[i] == less[i]);
            }
        }
        assert(run[a].0.1 == lowest(run) || run[last].0.1 == lowest(run));
        assert(run[b].0.1 == highest(run) || run[last].0.1 == highest(run));
    } else {
        assert(run[0] == run.last());
        assert(lowest(less) == u64::MAX && highest(less) == 0);
    }
}

/// The summary of a table frames what the table holds: no key lies outside its
/// keys, no sequence number outside its sequence numbers, the ends themselves
/// occur, and every entry and every byte is counted.
pub proof fn law_summaries_frame_their_tables(
    run: Seq<Item>,
    id: u64,
    level: u32,
    size: int,
    i: int,
)
    requires
        in_order(run),
        0 <= i < run.len() <= u64::MAX,
        0 <= size <= u64::MAX,
    ensures
        ({
            let s = summary(run, id, level, size);
            &&& s.id == id
            &&& s.level == level
            &&& s.entry_count == run.len()
            &&& s.file_bytes == size
            &&& run[i].0.0 == s.min_key || lex_lt(s.min_key, run[i].0.0)
            &&& run[i].0.0 == s.max_key || lex_lt(run[i].0.0, s.max_key)
            &&& s.min_seqno <= run[i].0.1 <= s.max_seqno
            &&& exists|j: int| 0 <= j < run.len() && (#[trigger] run[j]).0.0 == s.min_key
            &&& exists|j: int| 0 <= j < run.len() && (#[trigger] run[j]).0.0 == s.max_key
            &&& exists|j: int| 0 <= j < run.len() && (#[trigger] run[j]).0.1 == s.min_seqno
            &&& exists|j: int| 0 <= j < run.len() && (#[trigger] run[j]).0.1 == s.max_seqno
        }),
{
    let last = run.len() - 1;
    lemma_bounds(run);
    assert(run[0].0.0 == summary(run, id, level, size).min_key);
    assert(run[last].0.0 == summary(run, id, level, size).max_key);
}

/// A filter has whole words, enough bits for its keys, and not a word more than
/// that, within one word and 2^30 bits; the number of probes lies between 1 and
/// 30 and next to the bits for each key times the logarithm of two.
pub proof fn law_filters_are_sized(keys: int, asked: u32, bits: int)
    requires
        keys >= 0,
        bits == if asked == 0 {
            1
        } else if asked > 64 {
            64
        } else {
            asked as int
        },
    ensures
        sane_bits(asked) == bits,
        sized_bits(keys, bits) % 64 == 0,
        64 <= sized_bits(keys, bits) <= 0x4000_0000,
        sized_bits(keys, bits) >= keys * bits || sized_bits(keys, bits) == 0x4000_0000,
        sized_bits(keys, bits) == 64 || sized_bits(keys, bits) < keys * bits + 64,
        1 <= optimal_probes(bits) <= 30,
        optimal_probes(bits) > 1 ==> 1_000_000 * optimal_probes(bits) <= 693_147 * bits + 500_000,
        optimal_probes(bits) < 30 ==> 1_000_000 * optimal_probes(bits) > 693_147 * bits - 500_000,
{
    if keys == 0 {
        assert(keys * bits == 0) by (nonlinear_arith)
            requires
                keys == 0,
        ;
        assert(1 * bits == bits);
    } else {
        assert(keys * bits >= 1) by (nonlinear_arith)
            requires
                keys >= 1,
                bits >= 1,
        ;
    }
}

/// Every byte of a key goes into its hashes, one after the other: the first is
/// the 64-bit FNV-1a hash, the second turns left by seven bits in between. The
/// probes start at the first and go on in steps of the second, which is odd.
pub proof fn law_keys_are_hashed_byte_by_byte(key: Seq<u8>, byte: u8, i: u64, bits: u64)
    requires
        bits > 0,
        i < u64::MAX,
    ensures
        running(Seq::empty()).0 == 0xcbf2_9ce4_8422_2325,
        running(key.push(byte)).0 == (running(key).0 ^ (byte as u64)).wrapping_mul(
            0x0000_0100_0000_01b3,
        ),
        running(key.push(byte)).1 == (((running(key).1 << 7u64) | (running(key).1 >> 57u64)) ^ (
        byte as u64)).wrapping_mul(0x0000_0100_0000_01b3),
        hashes(key).1 % 2 == 1,
        probe(key, 0, bits) == hashes(key).0 % bits,
        probe(key, i, bits) < bits,
        probe(key, 1, bits) == hashes(key).0.wrapping_add(hashes(key).1) % bits,
{
    assert(key.push(byte).drop_last() =~= key);
    let h = mixed(running(key).1);
    assert((h | 1u64) % 2 == 1) by (bit_vector);
    let (h1, h2) = hashes(key);
    assert(0u64.wrapping_mul(h2) == 0);
    assert(1u64.wrapping_mul(h2) == h2);
    assert(h1.wrapping_add(0) == h1);
}

/// A filter without keys finds none; and what one key left in a filter is found
/// by a key only where all its probes are probes of that key.
pub proof fn law_empty_filters_find_nothing(
    key: Seq<u8>,
    other: Seq<u8>,
    hashes: u32,
    bits: u64,
    i: u64,
)
    requires
        hashes > 0,
        i < hashes,
    ensures
        !probes(key, hashes, bits).subset_of(Set::empty()),
        probes(other, hashes, bits).subset_of(
            Set::<int>::empty().union(probes(key, hashes, bits)),
        ) ==> exists|j: u64| j < hashes && #[trigger] probe(key, j, bits) == probe(other, i, bits),
{
    let b = probe(key, 0, bits) as int;
    assert(probes(key, hashes, bits).contains(b));
    assert(!Set::<int>::empty().contains(b));
    let c = probe(other, i, bits) as int;
    assert(probes(other, hashes, bits).contains(c));
    if probes(other, hashes, bits).subset_of(
        Set::<int>::empty().union(probes(key, hashes, bits)),
    ) {
        assert(Set::<int>::empty().union(probes(key, hashes, bits)).contains(c));
    }
}

proof fn lemma_levels_changed(levels: Seq<Seq<Summary>>, n: int, row: Seq<Summary>)
    requires
        0 <= n < levels.len(),
    ensures
        count_of(levels.update(n, row)) + levels[n].len() == count_of(levels) + row.len(),
        size_of_all(levels.update(n, row)) + bytes_of(levels[n]) == size_of_all(levels) + bytes_of(
            row,
        ),
    decreases levels.len(),
{
    let now = levels.update(n, row);
    if n == levels.len() - 1 {
        assert(now.drop_last() =~= levels.drop_last());
    } else {
        lemma_levels_changed(levels.drop_last(), n, row);
        assert(now.drop_last() =~= levels.drop_last().update(n, row));
    }
}

proof fn lemma_row_grown(row: Seq<Summary>, n: int, t: Summary)
    requires
        0 <= n <= row.len(),
    ensures
        bytes_of(row.insert(n, t)) == bytes_of(row) + t.file_bytes,
    decreases row.len(),
{
    let now = row.insert(n, t);
    if n == row.len() {
        assert(now.drop_last() =~= row);
    } else {
        lemma_row_grown(row.drop_last(), n, t);
        assert(now.drop_last() =~= row.drop_last().insert(n, t));
    }
}

/// A table more, at whatever level and place, is one table more to count and
/// its bytes more to hold; empty levels hold none.
pub proof fn law_tables_are_counted(
    levels: Seq<Seq<Summary>>,
    level: int,
    n: int,
    t: Summary,
    depth: nat,
)
    requires
        0 <= level < levels.len(),
        0 <= n <= levels[level].len(),
    ensures
        ({
            let now = levels.update(level, levels[level].insert(n, t));
            &&& count_of(now) == count_of(levels) + 1
            &&& size_of_all(now) == size_of_all(levels) + t.file_bytes
        }),
        count_of(Seq::new(depth, |i: int| Seq::<Summary>::empty())) == 0,
        size_of_all(Seq::new(depth, |i: int| Seq::<Summary>::empty())) == 0,
    decreases depth,
{
    lemma_levels_changed(levels, level, levels[level].insert(n, t));
    lemma_row_grown(levels[level], n, t);
    let bare = Seq::new(depth, |i: int| Seq::<Summary>::empty());
    if depth > 0 {
        let less = (depth - 1) as nat;
        law_tables_are_counted(levels, level, n, t, less);
        assert(bare.drop_last() =~= Seq::new(less, |i: int| Seq::<Summary>::empty()));
    }
}

proof fn lemma_other_ids(v: Seq<Summary>, id: u64, t: Summary)
    ensures
        other_ids(v, id).contains(t) <==> v.contains(t) && t.id != id,
    decreases v.len(),
{
    if v.len() > 0 {
        let (less, last) = (v.drop_last(), v.last());
        lemma_other_ids(less, id, t);
        assert(v =~= less.push(last));
        lemma_pushed(less, last, t);
        lemma_pushed(other_ids(less, id), last, t);
    }
}

proof fn lemma_other_tables(v: Seq<Summary>, level: u32, id: u64, t: Summary)
    ensures
        other_tables(v, level, id).contains(t) <==> v.contains(t) && !(t.id == id && t.level
            == level),
    decreases v.len(),
{
    if v.len() > 0 {
        let (less, last) = (v.drop_last(), v.last());
        lemma_other_tables(less, level, id, t);
        assert(v =~= less.push(last));
        lemma_pushed(less, last, t);
        lemma_pushed(other_tables(less, level, id), last, t);
    }
}

proof fn lemma_pushed(v: Seq<Summary>, last: Summary, t: Summary)
    ensures
        v.push(last).contains(t) <==> v.contains(t) || t == last,
{
    let now = v.push(last);
    if now.contains(t) {
        let i = choose|i: int| 0 <= i < now.len() && now[i] == t;
        if i < v.len() {
            assert(v[i] == t);
        }
    }
    if v.contains(t) {
        let i = choose|i: int| 0 <= i < v.len() && v[i] == t;
        assert(now[i] == t);
    }
    assert(now[v.len() as int] == last);
}

/// Reading an addition back leaves the new table as the only one of its id and
/// every table of another id; its id is not handed out again.
pub proof fn law_read_additions_take_the_place(s: Replayed, t: Summary, other: Summary)
    ensures
        ({
            let now = stepped(s, Edit::Add(t));
            &&& now.tables.contains(t)
            &&& now.tables.contains(other) <==> other == t || (s.tables.contains(other) && other.id
                != t.id)
            &&& now.next_table_id >= s.next_table_id
            &&& now.next_table_id > t.id || t.id == u64::MAX
            &&& now.next_table_id == s.next_table_id || now.next_table_id == t.id + 1 || t.id
                == u64::MAX
            &&& now.checkpoint == s.checkpoint
            &&& now.edits == s.edits + 1
        }),
{
    lemma_other_ids(s.tables, t.id, other);
    lemma_pushed(other_ids(s.tables, t.id), t, other);
    lemma_pushed(other_ids(s.tables, t.id), t, t);
}

/// Reading a removal back takes away the table named and no other.
pub proof fn law_read_removals_take_one_away(s: Replayed, level: u32, id: u64, t: Summary)
    ensures
        ({
            let now = stepped(s, Edit::Remove(level, id));
            &&& now.tables.contains(t) <==> s.tables.contains(t) && !(t.id == id && t.level
                == level)
            &&& now.next_table_id == s.next_table_id
            &&& now.checkpoint == s.checkpoint
            &&& now.edits == s.edits + 1
        }),
{
    lemma_other_tables(s.tables, level, id, t);
}

/// Reading a durable mark back never lowers what is durable and touches no
/// table.
pub proof fn law_read_marks_only_rise(s: Replayed, seqno: u64)
    ensures
        ({
            let now = stepped(s, Edit::Durable(seqno));
            &&& now.checkpoint >= s.checkpoint
            &&& now.checkpoint >= seqno
            &&& now.checkpoint == s.checkpoint || now.checkpoint == seqno
            &&& now.tables == s.tables
            &&& now.next_table_id == s.next_table_id
            &&& now.edits == s.edits + 1
        }),
{
}

/// The key lies between the smallest and the largest key of a table.
pub open spec fn holds_place_for(t: Summary, key: Seq<u8>) -> bool {
    &&& t.min_key == key || lex_lt(t.min_key, key)
    &&& t.max_key == key || lex_lt(key, t.max_key)
}

/// A table stands before another one in a list.
pub open spec fn stands_before(v: Seq<Summary>, a: Summary, b: Summary) -> bool {
    exists|i: int, j: int| 0 <= i < j < v.len() && #[trigger] v[i] == a && #[trigger] v[j] == b
}

proof fn lemma_newest(v: Seq<Summary>, key: Seq<u8>, i: int)
    requires
        0 <= i < v.len(),
        holds_place_for(v[i], key),
    ensures
        newest_first(v, key).contains(v[i]),
    decreases v.len(),
{
    let (less, now) = (v.drop_last(), newest_first(v, key));
    if i == v.len() - 1 {
        assert(now[0] == v[i]);
    } else {
        lemma_newest(less, key, i);
        let rest = newest_first(less, key);
        let a = choose|a: int| 0 <= a < rest.len() && rest[a] == v[i];
        assert(now[now.len() - rest.len() + a] == v[i]);
    }
}

proof fn lemma_newer_before(v: Seq<Summary>, key: Seq<u8>, i: int, j: int)
    requires
        0 <= i < j < v.len(),
        holds_place_for(v[i], key),
        holds_place_for(v[j], key),
    ensures
        stands_before(newest_first(v, key), v[j], v[i]),
    decreases v.len(),
{
    let (less, now) = (v.drop_last(), newest_first(v, key));
    let rest = newest_first(less, key);
    if j == v.len() - 1 {
        lemma_newest(less, key, i);
        let a = choose|a: int| 0 <= a < rest.len() && rest[a] == less[i];
        assert(now[0] == v[j] && now[a + 1] == v[i]);
    } else {
        lemma_newer_before(less, key, i, j);
        let (a, b) = choose|a: int, b: int|
            0 <= a < b < rest.len() && #[trigger] rest[a] == v[j] && #[trigger] rest[b] == v[i];
        let n = now.len() - rest.len();
        assert(now[n + a] == v[j] && now[n + b] == v[i]);
    }
}

proof fn lemma_only(v: Seq<Summary>, key: Seq<u8>, i: int)
    requires
        0 <= i < v.len(),
        holds_place_for(v[i], key),
        forall|j: int| 0 <= j < i ==> !holds_place_for(#[trigger] v[j], key),
    ensures
        only_one(v, key) == seq![v[i]],
    decreases v.len(),
{
    if i > 0 {
        let rest = v.subrange(1, v.len() as int);
        assert(!holds_place_for(v[0], key));
        assert forall|j: int| 0 <= j < i - 1 implies !holds_place_for(#[trigger] rest[j], key) by {
            assert(rest[j] == v[j + 1]);
        }
        lemma_only(rest, key, i - 1);
    }
}

proof fn lemma_consults(levels: Seq<Seq<Summary>>, key: Seq<u8>, l: int, i: int)
    requires
        0 <= l < levels.len(),
        0 <= i < levels[l].len(),
        holds_place_for(levels[l][i], key),
        l > 0 ==> forall|j: int| 0 <= j < i ==> !holds_place_for(#[trigger] levels[l][j], key),
    ensures
        consulted(levels, key).contains(levels[l][i]),
    decreases levels.len(),
{
    let t = levels[l][i];
    let now = consulted(levels, key);
    if levels.len() == 1 {
        lemma_newest(levels[0], key, i);
    } else {
        let (front, back) = (consulted(levels.drop_last(), key), only_one(levels.last(), key));
        if l == levels.len() - 1 {
            lemma_only(levels[l], key, i);
            assert(now[front.len() as int] == back[0]);
        } else {
            lemma_consults(levels.drop_last(), key, l, i);
            let a = choose|a: int| 0 <= a < front.len() && front[a] == t;
            assert(now[a] == t);
        }
    }
}

proof fn lemma_deeper_behind(
    levels: Seq<Seq<Summary>>,
    key: Seq<u8>,
    l: int,
    i: int,
    m: int,
    j: int,
)
    requires
        0 <= l < m < levels.len(),
        0 <= i < levels[l].len(),
        0 <= j < levels[m].len(),
        holds_place_for(levels[l][i], key),
        holds_place_for(levels[m][j], key),
        l > 0 ==> forall|x: int| 0 <= x < i ==> !holds_place_for(#[trigger] levels[l][x], key),
        forall|x: int| 0 <= x < j ==> !holds_place_for(#[trigger] levels[m][x], key),
    ensures
        stands_before(consulted(levels, key), levels[l][i], levels[m][j]),
    decreases levels.len(),
{
    let less = levels.drop_last();
    let (front, back) = (consulted(less, key), only_one(levels.last(), key));
    let now = consulted(levels, key);
    if m == levels.len() - 1 {
        lemma_consults(less, key, l, i);
        lemma_only(levels[m], key, j);
        let a = choose|a: int| 0 <= a < front.len() && front[a] == less[l][i];
        assert(now[a] == levels[l][i]);
        assert(now[front.len() as int] == back[0]);
    } else {
        lemma_deeper_behind(less, key, l, i, m, j);
        let (a, b) = choose|a: int, b: int|
            0 <= a < b < front.len() && #[trigger] front[a] == levels[l][i] && #[trigger] front[b]
                == levels[m][j];
        assert(now[a] == front[a] && now[b] == front[b]);
    }
}

proof fn lemma_newer_consulted(levels: Seq<Seq<Summary>>, key: Seq<u8>, i: int, j: int)
    requires
        levels.len() > 0,
        0 <= i < j < levels[0].len(),
        holds_place_for(levels[0][i], key),
        holds_place_for(levels[0][j], key),
    ensures
        stands_before(consulted(levels, key), levels[0][j], levels[0][i]),
    decreases levels.len(),
{
    if levels.len() == 1 {
        lemma_newer_before(levels[0], key, i, j);
    } else {
        let less = levels.drop_last();
        lemma_newer_consulted(less, key, i, j);
        let (front, now) = (consulted(less, key), consulted(levels, key));
        let (a, b) = choose|a: int, b: int|
            0 <= a < b < front.len() && #[trigger] front[a] == levels[0][j] && #[trigger] front[b]
                == levels[0][i];
        assert(now[a] == front[a] && now[b] == front[b]);
    }
}

/// A lookup consults every table of the first level whose keys leave a place for
/// the key, and the first such table of each deeper level: newer tables of the
/// first level before older ones, and upper levels before lower ones.
pub proof fn law_lookups_consult_newer_tables_first(
    levels: Seq<Seq<Summary>>,
    key: Seq<u8>,
    l: int,
    i: int,
    m: int,
    j: int,
)
    requires
        0 <= l <= m < levels.len(),
        0 <= i < levels[l].len(),
        0 <= j < levels[m].len(),
        holds_place_for(levels[l][i], key),
        holds_place_for(levels[m][j], key),
        l > 0 ==> forall|x: int| 0 <= x < i ==> !holds_place_for(#[trigger] levels[l][x], key),
        m > 0 ==> forall|x: int| 0 <= x < j ==> !holds_place_for(#[trigger] levels[m][x], key),
    ensures
        consulted(levels, key).contains(levels[l][i]),
        consulted(levels, key).contains(levels[m][j]),
        l < m ==> stands_before(consulted(levels, key), levels[l][i], levels[m][j]),
        m == 0 && i < j ==> stands_before(
            consulted(levels, key),
            levels[0][j],
            levels[0][i],
        ),
{
    lemma_consults(levels, key, l, i);
    lemma_consults(levels, key, m, j);
    if l < m {
        lemma_deeper_behind(levels, key, l, i, m, j);
    }
    if m == 0 && i < j {
        lemma_newer_consulted(levels, key, i, j);
    }
}

/// After recovery no id is handed out that the log remembers, be it of a live
/// table or of one that is gone.
pub proof fn law_recovered_ids_are_not_reused(s: Replayed, i: int)
    requires
        forall|j: int| 0 <= j < s.tables.len() ==> (#[trigger] s.tables[j]).id < u64::MAX,
    ensures
        next_after(s) >= s.next_table_id,
        next_after(s) >= 1,
        0 <= i < s.tables.len() ==> s.tables[i].id < next_after(s),
{
    lemma_ids_after(1, s.tables);
}

} // verus!

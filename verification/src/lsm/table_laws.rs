//! What a table gives back of what was written to it.

use crate::bytes::{
    le32, le64, lemma_lex_transitive, lemma_u32_roundtrip, lemma_u64_roundtrip, lex_le, lex_lt,
    u64_at,
};
use crate::lsm::bloom::{filter_bytes, law_filter_bytes_determine_the_filter, BloomFilter};
use crate::lsm::entry::{encoded, fits, lemma_stored, stored};
use crate::lsm::sstable::{
    anchored, anchors, body_part, bloom_part, data_part, filter_holds, filters, footer_bytes,
    footer_for, footer_in, footer_ok, footer_part, fresh, index_ascends, index_bytes, index_in,
    index_part, indexed, is_anchor, is_filter, keys_ascend, lemma_anchor, opened, readable,
    restart_at, restart_bytes, restarts, summary, table_bytes, Footer, SSTable, FOOTER_LEN,
    SSTABLE_MAGIC,
};
use crate::lsm::version::{in_order, version_lt, Item};
use vstd::prelude::*;

verus! {

proof fn lemma_footer(f: Footer)
    ensures
        footer_bytes(f).len() == FOOTER_LEN,
        footer_in(footer_bytes(f)) == f,
        u64_at(footer_bytes(f), 68) == SSTABLE_MAGIC,
{
    reveal(footer_bytes);
    reveal(footer_in);
    let b = footer_bytes(f);
    assert(b.subrange(0, 8) =~= le64(f.bloom_offset));
    assert(b.subrange(8, 16) =~= le64(f.bloom_len));
    assert(b.subrange(16, 24) =~= le64(f.index_offset));
    assert(b.subrange(24, 32) =~= le64(f.index_len));
    assert(b.subrange(32, 40) =~= le64(f.index_count));
    assert(b.subrange(40, 48) =~= le64(f.entry_count));
    assert(b.subrange(48, 56) =~= le64(f.min_seqno));
    assert(b.subrange(56, 64) =~= le64(f.max_seqno));
    assert(b.subrange(64, 68) =~= le32(f.crc));
    assert(b.subrange(68, 76) =~= le64(SSTABLE_MAGIC));
    lemma_u64_roundtrip(b, 0, f.bloom_offset);
    lemma_u64_roundtrip(b, 8, f.bloom_len);
    lemma_u64_roundtrip(b, 16, f.index_offset);
    lemma_u64_roundtrip(b, 24, f.index_len);
    lemma_u64_roundtrip(b, 32, f.index_count);
    lemma_u64_roundtrip(b, 40, f.entry_count);
    lemma_u64_roundtrip(b, 48, f.min_seqno);
    lemma_u64_roundtrip(b, 56, f.max_seqno);
    lemma_u32_roundtrip(b, 64, f.crc);
    lemma_u64_roundtrip(b, 68, SSTABLE_MAGIC);
}

/// Where the index entry number `j` starts.
spec fn spot(ix: Seq<(Seq<u8>, u64)>, j: int) -> int {
    index_bytes(ix.subrange(0, j)).len() as int
}

proof fn lemma_restart_at(b: Seq<u8>, pos: int, r: (Seq<u8>, u64))
    requires
        r.0.len() <= u32::MAX,
        0 <= pos,
        pos + restart_bytes(r).len() <= b.len(),
        b.subrange(pos, pos + restart_bytes(r).len()) == restart_bytes(r),
    ensures
        restart_at(b, pos) == Some((r, pos + restart_bytes(r).len())),
{
    let w = restart_bytes(r);
    let s = b.subrange(pos, pos + w.len());
    assert(b.subrange(pos, pos + 4) =~= s.subrange(0, 4));
    assert(w.subrange(0, 4) =~= le32(r.0.len() as u32));
    assert(b.subrange(pos + 4, pos + 12) =~= s.subrange(4, 12));
    assert(w.subrange(4, 12) =~= le64(r.1));
    assert(b.subrange(pos + 12, pos + w.len()) =~= s.subrange(12, w.len() as int));
    assert(w.subrange(12, w.len() as int) =~= r.0);
    lemma_u32_roundtrip(b, pos, r.0.len() as u32);
    lemma_u64_roundtrip(b, pos + 4, r.1);
}

proof fn lemma_spot(ix: Seq<(Seq<u8>, u64)>, j: int)
    requires
        0 <= j < ix.len(),
    ensures
        spot(ix, j + 1) == spot(ix, j) + restart_bytes(ix[j]).len(),
        spot(ix, j + 1) <= index_bytes(ix).len(),
        index_bytes(ix).subrange(spot(ix, j), spot(ix, j + 1)) == restart_bytes(ix[j]),
    decreases ix.len(),
{
    let up = ix.subrange(0, j + 1);
    assert(up.drop_last() =~= ix.subrange(0, j));
    assert(up.last() == ix[j]);
    if j == ix.len() - 1 {
        assert(up =~= ix);
        assert(index_bytes(ix).subrange(spot(ix, j), spot(ix, j + 1)) =~= restart_bytes(ix[j]));
    } else {
        let less = ix.drop_last();
        lemma_spot(less, j);
        assert(less.subrange(0, j) =~= ix.subrange(0, j));
        assert(less.subrange(0, j + 1) =~= up);
        assert(index_bytes(ix).subrange(spot(ix, j), spot(ix, j + 1)) =~= index_bytes(
            less,
        ).subrange(spot(ix, j), spot(ix, j + 1)));
    }
}

proof fn lemma_index_in(ix: Seq<(Seq<u8>, u64)>, j: int)
    requires
        0 <= j <= ix.len(),
        forall|i: int| 0 <= i < ix.len() ==> (#[trigger] ix[i]).0.len() <= u32::MAX,
    ensures
        index_in(index_bytes(ix), spot(ix, j)) == Some(ix.subrange(j, ix.len() as int)),
    decreases ix.len() - j,
{
    if j == ix.len() {
        assert(ix.subrange(0, j) =~= ix);
        assert(ix.subrange(j, ix.len() as int) =~= Seq::<(Seq<u8>, u64)>::empty());
    } else {
        lemma_spot(ix, j);
        lemma_restart_at(index_bytes(ix), spot(ix, j), ix[j]);
        lemma_index_in(ix, j + 1);
        assert(seq![ix[j]] + ix.subrange(j + 1, ix.len() as int) =~= ix.subrange(
            j,
            ix.len() as int,
        ));
    }
}

/// The first version of the last key stands behind smaller keys only.
proof fn lemma_fresh(run: Seq<Item>)
    requires
        keys_ascend(run),
        run.len() > 0,
        fresh(run, run.len() - 1),
    ensures
        forall|m: int|
            0 <= m < run.len() - 1 ==> lex_lt((#[trigger] run[m]).0.0, run.last().0.0),
{
    let j = run.len() - 1;
    assert forall|m: int| 0 <= m < j implies lex_lt((#[trigger] run[m]).0.0, run[j].0.0) by {
        assert(lex_le(run[j - 1].0.0, run[j].0.0));
        if m < j - 1 {
            assert(lex_le(run[m].0.0, run[j - 1].0.0));
            if lex_lt(run[m].0.0, run[j - 1].0.0) {
                lemma_lex_transitive(run[m].0.0, run[j - 1].0.0, run[j].0.0);
            }
        }
    }
}

/// What anchors in a list anchors in a longer one.
proof fn lemma_anchors(run: Seq<Item>, r: (Seq<u8>, u64), j: int)
    requires
        run.len() > 0,
        anchors(run.drop_last(), r, j),
    ensures
        anchors(run, r, j),
{
    let less = run.drop_last();
    assert(run.subrange(0, j) =~= less.subrange(0, j));
    assert(less[j] == run[j]);
    assert forall|m: int| 0 <= m < j implies lex_lt((#[trigger] run[m]).0.0, r.0) by {
        assert(less[m] == run[m]);
    }
}

/// One more entry in the list keeps the index, or adds an entry to it.
proof fn lemma_restart_anchor(run: Seq<Item>, i: int) -> (j: int)
    requires
        keys_ascend(run),
        encoded(run).len() <= u64::MAX,
        run.len() > 0,
        anchored(run.drop_last(), restarts(run.drop_last())),
        0 <= i < restarts(run).len(),
    ensures
        anchors(run, restarts(run)[i], j),
{
    let less = run.drop_last();
    let (ix, was) = (restarts(run), restarts(less));
    let last = run.len() - 1;
    if i < was.len() {
        assert(ix[i] == was[i]);
        let j = lemma_anchor(less, was, i);
        lemma_anchors(run, was[i], j);
        j
    } else {
        lemma_fresh(run);
        assert(run.subrange(0, last) =~= less);
        last
    }
}

proof fn lemma_restart_step(run: Seq<Item>)
    requires
        keys_ascend(run),
        encoded(run).len() <= u64::MAX,
        run.len() > 0,
        anchored(run.drop_last(), restarts(run.drop_last())),
    ensures
        anchored(run, restarts(run)),
{
    let ix = restarts(run);
    assert forall|i: int| 0 <= i < ix.len() implies is_anchor(run, #[trigger] ix[i]) by {
        let j = lemma_restart_anchor(run, i);
        reveal(is_anchor);
    }
}

proof fn lemma_ascends_step(run: Seq<Item>)
    requires
        keys_ascend(run),
        run.len() > 0,
        anchored(run.drop_last(), restarts(run.drop_last())),
        index_ascends(restarts(run.drop_last())),
    ensures
        index_ascends(restarts(run)),
{
    let less = run.drop_last();
    let (ix, was) = (restarts(run), restarts(less));
    let last = run.len() - 1;
    assert forall|a: int, b: int| 0 <= a < b < ix.len() implies lex_lt(
        (#[trigger] ix[a]).0,
        (#[trigger] ix[b]).0,
    ) by {
        assert(ix[a] == was[a]);
        if b < was.len() {
            assert(ix[b] == was[b]);
        } else {
            let j = lemma_anchor(less, was, a);
            assert(less[j] == run[j]);
            lemma_fresh(run);
            assert(lex_lt(run[j].0.0, run[last].0.0));
        }
    }
}

/// The index names first versions, in ascending order of their keys.
proof fn lemma_restarts(run: Seq<Item>)
    requires
        keys_ascend(run),
        encoded(run).len() <= u64::MAX,
    ensures
        index_ascends(restarts(run)),
        anchored(run, restarts(run)),
    decreases run.len(),
{
    if run.len() > 0 {
        let less = run.drop_last();
        assert(keys_ascend(less)) by {
            assert forall|i: int, j: int| 0 <= i < j < less.len() implies lex_le(
                (#[trigger] less[i]).0.0,
                (#[trigger] less[j]).0.0,
            ) by {
                assert(less[i] == run[i] && less[j] == run[j]);
            }
        }
        lemma_restarts(less);
        lemma_restart_step(run);
        lemma_ascends_step(run);
    }
}

/// The bytes of the index of a list are read back as that index.
proof fn lemma_index_back(run: Seq<Item>)
    requires
        keys_ascend(run),
        encoded(run).len() <= u64::MAX,
        forall|i: int| 0 <= i < run.len() ==> fits(#[trigger] run[i]),
    ensures
        index_in(index_bytes(restarts(run)), 0) == Some(restarts(run)),
{
    let ix = restarts(run);
    lemma_restarts(run);
    assert forall|i: int| 0 <= i < ix.len() implies (#[trigger] ix[i]).0.len() <= u32::MAX by {
        let j = lemma_anchor(run, ix, i);
        assert(fits(run[j]));
    }
    lemma_index_in(ix, 0);
    assert(ix.subrange(0, 0) =~= Seq::<(Seq<u8>, u64)>::empty());
    assert(ix.subrange(0, ix.len() as int) =~= ix);
}

/// The sections of a table are where its footer says.
proof fn lemma_parts(run: Seq<Item>, bloom: Seq<u8>)
    requires
        table_bytes(run, bloom).len() <= usize::MAX,
        restarts(run).len() <= u64::MAX,
    ensures
        ({
            let file = table_bytes(run, bloom);
            let index = index_bytes(restarts(run));
            &&& file.len() >= FOOTER_LEN
            &&& footer_ok(footer_part(file), file.len() as int)
            &&& footer_in(footer_part(file)) == footer_for(run, bloom, index)
            &&& body_part(file) == encoded(run) + bloom + index
            &&& data_part(file) == encoded(run)
            &&& bloom_part(file) == bloom
            &&& index_part(file) == index
        }),
{
    let file = table_bytes(run, bloom);
    let index = index_bytes(restarts(run));
    let f = footer_for(run, bloom, index);
    lemma_footer(f);
    let n = (encoded(run) + bloom + index).len();
    assert(file.len() == n + FOOTER_LEN);
    assert(footer_part(file) =~= footer_bytes(f));
    assert(body_part(file) =~= encoded(run) + bloom + index);
    assert(data_part(file) =~= encoded(run));
    assert(bloom_part(file) =~= bloom);
    assert(index_part(file) =~= index);
}

proof fn lemma_restarts_len(run: Seq<Item>)
    ensures
        restarts(run).len() <= run.len(),
        17 * run.len() <= encoded(run).len(),
    decreases run.len(),
{
    if run.len() > 0 {
        lemma_restarts_len(run.drop_last());
    }
}

/// A table that was written can be opened, and its entries are those that were
/// appended, in their order.
pub proof fn law_written_tables_can_be_read(run: Seq<Item>, f: BloomFilter)
    requires
        filters(f, run),
        keys_ascend(run),
        forall|i: int| 0 <= i < run.len() ==> fits(#[trigger] run[i]),
        table_bytes(run, filter_bytes(f)).len() <= usize::MAX,
    ensures
        readable(table_bytes(run, filter_bytes(f))),
        stored(data_part(table_bytes(run, filter_bytes(f))), 0) == Some(run),
{
    let file = table_bytes(run, filter_bytes(f));
    let ix = restarts(run);
    lemma_restarts_len(run);
    lemma_parts(run, filter_bytes(f));
    assert(is_filter(filter_bytes(f))) by {
        reveal(is_filter);
    }
    lemma_stored(run, 0);
    assert(run.subrange(0, 0) =~= Seq::<Item>::empty());
    assert(run.subrange(0, run.len() as int) =~= run);
    lemma_index_back(run);
}

/// A table that was written in order answers, once opened, what a snapshot sees
/// of the entries that were appended.
pub proof fn law_opened_tables_hold_what_was_written(
    run: Seq<Item>,
    f: BloomFilter,
    id: u64,
    level: u32,
    t: SSTable,
)
    requires
        filters(f, run),
        in_order(run),
        forall|i: int| 0 <= i < run.len() ==> fits(#[trigger] run[i]),
        table_bytes(run, filter_bytes(f)).len() <= usize::MAX,
        opened(table_bytes(run, filter_bytes(f)), id, level, t),
    ensures
        t.holds(run),
        run.len() > 0 ==> t.meta@ == summary(
            run,
            id,
            level,
            table_bytes(run, filter_bytes(f)).len() as int,
        ),
{
    let file = table_bytes(run, filter_bytes(f));
    let ix = restarts(run);
    assert(keys_ascend(run)) by {
        assert forall|i: int, j: int| 0 <= i < j < run.len() implies lex_le(
            (#[trigger] run[i]).0.0,
            (#[trigger] run[j]).0.0,
        ) by {
            assert(version_lt(run[i].0, run[j].0));
        }
    }
    lemma_restarts_len(run);
    lemma_parts(run, filter_bytes(f));
    law_written_tables_can_be_read(run, f);
    lemma_restarts(run);
    lemma_index_back(run);
    assert(indexed(t.index@) == ix);
    assert(filters(t.bloom, run)) by {
        reveal(filter_holds);
        law_filter_bytes_determine_the_filter(t.bloom, f);
    }
    assert(t.data@ == encoded(run));
    assert(anchored(run, ix));
    assert(run.len() > 0 ==> t.meta.min_key@ == run[0].0.0 && t.meta.max_key@ == run.last().0.0);
}

} // verus!

//! What holds of the tree as a whole.

use crate::btree::check::{
    keys_in, reports, shape, slot_hi, slot_lo, sound, tally, tally_upto, TreeReport,
};
use crate::btree::grow::{lemma_good_page, lemma_tree_finds};
use crate::btree::leaf::{joined, laid_out, leaf_done, lemma_good_leaf};
use crate::btree::scan::{
    entries, leaf_at, leaves, leaves_upto, leftmost, lemma_entries_concat, lemma_tree_listing,
    linked, listing, page_entries, run, Entry,
};
use crate::btree::{
    cell_value, chain_head, chained, child_of, ckey, contents, find, first_of, good, hi_at, holds,
    id_of, ids_of, leaf_find, leaf_page, lemma_find_node, lemma_keys_of_cells, lemma_kid_in,
    lemma_root_in, lemma_route_exists, lo_at, next_at, routed, tree_at, tree_ok, trim, KeyBound,
    Tree,
};
use crate::bytes::{lemma_lex_asymmetric, lemma_lex_irreflexive, lex_lt};
use crate::page::{
    cell_key_of, cell_of, cells_of, default_meta, extra_of, is_leaf_of, key_at, leaf_ok,
    leaf_overflows, lemma_body_same, lemma_page_len, lemma_sealed_cells, num_keys_of,
    overflow_payload_of, page_id_of, sane, sealed, structure_ok, structured, type_of, used_bytes,
    PageType, SENTINEL, USABLE_SPACE,
};
use crate::pager::{
    chain_data, chain_ok, flushed, free_of, free_ok, lemma_chain_reads, lemma_free_unique,
    lemma_sealed_same, link, max_links, new_file, visible, PagerState,
};
use vstd::prelude::*;

verus! {

broadcast use lemma_page_len;

// ---- a tree in good order is sound ------------------------------------------------------------

proof fn lemma_shape_of(
    p: Map<u32, Seq<u8>>,
    t: Tree,
    lo: KeyBound,
    hi: KeyBound,
    next: u32,
)
    requires
        holds(p, t, lo, hi, next),
    ensures
        shape(p, t, lo, hi),
    decreases t,
{
    let b = p[id_of(t)];
    let cs = cells_of(b);
    lemma_keys_of_cells(b, lo, hi);
    assert(keys_in(b, lo, hi)) by {
        assert forall|i: int| 0 <= i < num_keys_of(b) implies (#[trigger] key_at(b, i)) is Some
            && crate::btree::in_range(key_at(b, i)->0, lo, hi) by {
            assert(key_at(b, i) == Some(ckey(is_leaf_of(b), cs[i])));
        }
    }
    match t {
        Tree::Leaf { id, chains } => {
            assert forall|i: int| 0 <= i < chains.len() implies crate::btree::check::cell_fits(
                p,
                b,
                i,
                #[trigger] chains[i],
            ) by {
                assert(cs[i] == cell_of(b, i));
            }
        },
        Tree::Node { id, kids } => {
            assert forall|j: int| 0 <= j < kids.len() implies id_of(#[trigger] kids[j]) == child_of(
                b,
                j,
            ) && shape(p, kids[j], slot_lo(b, j, lo), slot_hi(b, j, hi)) by {
                if j > 0 {
                    assert(key_at(b, j - 1) == Some(ckey(false, cs[j - 1])));
                }
                if j < num_keys_of(b) {
                    assert(key_at(b, j) == Some(ckey(false, cs[j])));
                }
                assert(slot_lo(b, j, lo) == lo_at(cs, j, lo));
                assert(slot_hi(b, j, hi) == hi_at(cs, j, hi));
                lemma_shape_of(
                    p,
                    kids[j],
                    lo_at(cs, j, lo),
                    hi_at(cs, j, hi),
                    next_at(kids, j, next),
                );
            }
        },
    }
}

proof fn lemma_leftmost(
    s: PagerState,
    t: Tree,
    lo: KeyBound,
    hi: KeyBound,
    next: u32,
    h: nat,
    fuel: nat,
)
    requires
        good(s, t, lo, hi, next, h),
        h <= fuel,
    ensures
        leftmost(s.pages, id_of(t), fuel) == Some(first_of(t)),
    decreases t,
{
    lemma_good_page(s, t, lo, hi, next, h);
    match t {
        Tree::Leaf { id, chains } => {},
        Tree::Node { id, kids } => {
            let cs = cells_of(s.pages[id]);
            crate::btree::lemma_step_down(s, t, lo, hi, next, h, Seq::empty(), 0);
            lemma_leftmost(
                s,
                kids[0],
                lo_at(cs, 0, lo),
                hi_at(cs, 0, hi),
                next_at(kids, 0, next),
                (h - 1) as nat,
                (fuel - 1) as nat,
            );
        },
    }
}

/// Every tree that the operations keep passes the full check.
pub proof fn law_good_tree_is_sound(s: PagerState, t: Tree, h: nat)
    requires
        tree_at(s, t, h),
        h <= 63,
    ensures
        sound(s, t, h, free_of(s)),
{
    reveal(good);
    reveal(sound);
    lemma_shape_of(s.pages, t, None, None, SENTINEL);
    lemma_leftmost(s, t, None, None, SENTINEL, h, 64);
    lemma_tree_listing(s, t, h);
    let ids = leaves(t);
    assert(ids.len() > 0 && ids[0] == first_of(t) && linked(s.pages, ids, SENTINEL)) by {
        reveal(run);
    }
    assert forall|i: int| 0 <= i < ids.len() implies extra_of(s.pages[#[trigger] ids[i]]) == link(
        ids,
        i + 1,
    ) by {
        assert(leaf_at(s.pages, ids, i, SENTINEL));
    }
    let f = free_of(s);
    assert forall|i: int| 0 <= i < f.len() implies !ids_of(t).contains(#[trigger] f[i]) by {
        assert(f.contains(f[i]));
    }
}

// ---- counting keys --------------------------------------------------------------------------

/// A listing has one entry per key.
proof fn lemma_listing_len(m: Map<Seq<u8>, Seq<u8>>, e: Seq<Entry>)
    requires
        listing(m, e),
    ensures
        m.dom().finite(),
        m.dom().len() == e.len(),
{
    let keys = Seq::new(e.len(), |i: int| e[i].0);
    assert forall|i: int, j: int| 0 <= i < j < keys.len() implies keys[i] != keys[j] by {
        assert(lex_lt(e[i].0, e[j].0));
        lemma_lex_irreflexive(e[i].0);
    }
    assert forall|k: Seq<u8>| keys.to_set().contains(k) == m.dom().contains(k) by {
        if keys.contains(k) {
            let i = choose|i: int| 0 <= i < keys.len() && keys[i] == k;
            assert(m.contains_key(e[i].0));
        }
        if m.contains_key(k) {
            let i = choose|i: int| 0 <= i < e.len() && (#[trigger] e[i]).0 == k;
            assert(keys[i] == k);
        }
    }
    assert(keys.no_duplicates());
    keys.unique_seq_to_set();
    assert(keys.to_set() =~= m.dom());
}

/// A tree adds up to the entries of its leaves.
proof fn lemma_keys_are_entries(p: Map<u32, Seq<u8>>, t: Tree, min: int, deep: bool)
    ensures
        tally(p, t, min, deep).keys == entries(p, leaves(t)).len(),
    decreases t, 0int,
{
    match t {
        Tree::Leaf { id, .. } => {
            let one = seq![id];
            assert(one.drop_last() =~= Seq::empty());
            assert(entries(p, Seq::<u32>::empty()) =~= Seq::empty());
            assert(entries(p, one) =~= page_entries(p, id));
        },
        Tree::Node { kids, .. } => {
            lemma_upto_keys_are_entries(p, kids, kids.len() as int, min);
        },
    }
}

proof fn lemma_upto_keys_are_entries(p: Map<u32, Seq<u8>>, kids: Seq<Tree>, n: int, min: int)
    requires
        0 <= n <= kids.len(),
    ensures
        tally_upto(p, kids, n, min).keys == entries(p, leaves_upto(kids, n)).len(),
    decreases kids, n,
{
    if n > 0 {
        lemma_upto_keys_are_entries(p, kids, n - 1, min);
        lemma_keys_are_entries(p, kids[n - 1], min, true);
        lemma_entries_concat(p, leaves_upto(kids, n - 1), leaves(kids[n - 1]));
    }
}

/// Trees below one page add up to the same keys.
proof fn lemma_same_keys(
    p: Map<u32, Seq<u8>>,
    t: Tree,
    lo: KeyBound,
    hi: KeyBound,
    u: Tree,
    lo2: KeyBound,
    hi2: KeyBound,
    min: int,
    deep: bool,
)
    requires
        shape(p, t, lo, hi),
        shape(p, u, lo2, hi2),
        id_of(t) == id_of(u),
    ensures
        tally(p, t, min, deep).keys == tally(p, u, min, deep).keys,
    decreases t, 0int,
{
    match (t, u) {
        (Tree::Node { kids, .. }, Tree::Node { kids: others, .. }) => {
            lemma_same_keys_upto(
                p,
                p[id_of(t)],
                kids,
                lo,
                hi,
                others,
                lo2,
                hi2,
                kids.len() as int,
                min,
            );
        },
        _ => {},
    }
}

proof fn lemma_same_keys_upto(
    p: Map<u32, Seq<u8>>,
    b: Seq<u8>,
    kids: Seq<Tree>,
    lo: KeyBound,
    hi: KeyBound,
    others: Seq<Tree>,
    lo2: KeyBound,
    hi2: KeyBound,
    n: int,
    min: int,
)
    requires
        0 <= n <= kids.len(),
        kids.len() == others.len(),
        forall|j: int|
            0 <= j < kids.len() ==> id_of(#[trigger] kids[j]) == child_of(b, j) && shape(
                p,
                kids[j],
                slot_lo(b, j, lo),
                slot_hi(b, j, hi),
            ),
        forall|j: int|
            0 <= j < others.len() ==> id_of(#[trigger] others[j]) == child_of(b, j) && shape(
                p,
                others[j],
                slot_lo(b, j, lo2),
                slot_hi(b, j, hi2),
            ),
    ensures
        tally_upto(p, kids, n, min).keys == tally_upto(p, others, n, min).keys,
    decreases kids, n,
{
    if n > 0 {
        lemma_same_keys_upto(p, b, kids, lo, hi, others, lo2, hi2, n - 1, min);
        let j = n - 1;
        lemma_same_keys(
            p,
            kids[j],
            slot_lo(b, j, lo),
            slot_hi(b, j, hi),
            others[j],
            slot_lo(b, j, lo2),
            slot_hi(b, j, hi2),
            min,
            true,
        );
    }
}

/// The full check counts the keys that reads find: its report names as many
/// as the tree's contents have.
pub proof fn law_check_counts_the_keys(s: PagerState, r: TreeReport, min: int)
    requires
        tree_ok(s, 63),
        exists|t: Tree, h: nat, free: Seq<u32>|
            sound(s, t, h, free) && reports(r, s, t, h, free, min),
    ensures
        contents(s).dom().finite(),
        r.keys == contents(s).dom().len(),
{
    let (t, h) = choose|t: Tree, h: nat| h <= 63 && #[trigger] tree_at(s, t, h);
    let (u, g, free) = choose|u: Tree, g: nat, free: Seq<u32>|
        sound(s, u, g, free) && reports(r, s, u, g, free, min);
    reveal(good);
    reveal(sound);
    reveal(reports);
    lemma_shape_of(s.pages, t, None, None, SENTINEL);
    lemma_same_keys(s.pages, t, None, None, u, None, None, min, false);
    lemma_keys_are_entries(s.pages, t, min, false);
    lemma_tree_listing(s, t, h);
    lemma_listing_len(contents(s), entries(s.pages, leaves(t)));
}

/// After an insert, reads, scans and the full check agree: the key has its
/// value, a scan lists the old pairs with this one in key order, and the check
/// counts as many keys as the scan lists.
pub proof fn law_inserts_match_a_model(
    s: PagerState,
    after: PagerState,
    h: nat,
    key: Seq<u8>,
    value: Seq<u8>,
    e: Seq<Entry>,
    r: TreeReport,
    min: int,
)
    requires
        h <= 62,
        tree_ok(s, h),
        tree_ok(after, h + 1),
        contents(after) == contents(s).insert(key, value),
        listing(contents(after), e),
        exists|t: Tree, g: nat, free: Seq<u32>|
            sound(after, t, g, free) && reports(r, after, t, g, free, min),
    ensures
        contents(after).contains_key(key),
        contents(after)[key] == value,
        forall|k: Seq<u8>|
            k != key ==> (#[trigger] contents(after).contains_key(k) == contents(s).contains_key(k)
                && contents(after)[k] == contents(s)[k]),
        listing(contents(s).insert(key, value), e),
        r.keys == e.len(),
        r.keys == contents(s).insert(key, value).dom().len(),
{
    let (t, g) = choose|t: Tree, g: nat| g <= h + 1 && #[trigger] tree_at(after, t, g);
    assert(tree_ok(after, 63));
    law_check_counts_the_keys(after, r, min);
    lemma_listing_len(contents(after), e);
}

// ---- appending ------------------------------------------------------------------------------

/// Keys that come in order fill the leaves. A key beyond all others of the last
/// leaf either joins them or, where the leaf would then exceed the fill factor,
/// starts a leaf of its own and leaves the old one as full as it was.
pub proof fn law_appends_fill_leaves(
    b: Seq<u8>,
    p: Map<u32, Seq<u8>>,
    x: u32,
    y: u32,
    key: Seq<u8>,
    max: int,
) -> (cell: Seq<u8>)
    requires
        leaf_done(b, p, x, y, key, max),
        extra_of(b) == SENTINEL,
        cells_of(b).len() > 0,
        forall|i: int|
            0 <= i < cells_of(b).len() ==> lex_lt(ckey(true, #[trigger] cells_of(b)[i]), key),
    ensures
        cell_key_of(true, cell) == Some(key),
        ({
            let all = cells_of(b).push(cell);
            if used_bytes(all) <= max && used_bytes(all) <= USABLE_SPACE {
                cells_of(p[x]) == all
            } else {
                cells_of(p[x]) == cells_of(b) && cells_of(p[y]) == seq![cell] && extra_of(p[x]) == y
            }
        }),
{
    reveal(leaf_done);
    let was = cells_of(b);
    let (cs, idx, at) = choose|cs: Seq<Seq<u8>>, idx: int, at: int|
        joined(b, cs, idx, key) && #[trigger] laid_out(extra_of(b), p, x, y, cs, idx, at, max);
    let rest = cs.remove(idx);
    lemma_lex_irreflexive(key);
    assert(rest == was) by {
        if rest != was {
            let i = choose|i: int|
                0 <= i < was.len() && cell_key_of(true, #[trigger] was[i]) == Some(key) && rest
                    == was.remove(i);
            assert(ckey(true, was[i]) == key);
        }
    }
    assert(idx == was.len()) by {
        if idx < was.len() {
            assert(lex_lt(key, ckey(true, rest[idx])));
            lemma_lex_asymmetric(key, ckey(true, was[idx]));
        }
    }
    let cell = cs[idx];
    assert(cs =~= was.push(cell));
    assert(cs.take(idx) =~= was);
    assert(cs.skip(idx) =~= seq![cell]);
    cell
}

// ---- a new database -----------------------------------------------------------------------------

/// A brand-new database holds an empty tree, with nothing on the free list.
pub proof fn law_new_database_is_empty(s: PagerState, file: Seq<Seq<u8>>)
    requires
        new_file(file),
        file[1].len() == 4096,
        s.pages == visible(file, Map::<u32, Seq<u8>>::empty()),
        s.meta == default_meta(),
    ensures
        tree_ok(s, 0),
        contents(s) == Map::<Seq<u8>, Seq<u8>>::empty(),
        free_of(s) == Seq::<u32>::empty(),
{
    let b = file[1];
    let chains = Seq::<Seq<u32>>::empty();
    let t = Tree::Leaf { id: 1, chains };
    assert(s.pages.contains_key(1) && s.pages[1] == b);
    assert(free_ok(s, Seq::<u32>::empty()));
    lemma_free_unique(s, Seq::<u32>::empty());
    assert(leaf_page(b, 1, SENTINEL));
    lemma_good_leaf(s, 1, chains, b, None, None, SENTINEL);
    assert(tree_at(s, t, 0));
    lemma_tree_finds(s, t, 0);
    assert forall|k: Seq<u8>| #[trigger] find(s.pages, s.meta.root, k, 65) is None by {
        assert(find(s.pages, 1, k, 0) == leaf_find(s.pages, cells_of(b), k));
    }
    assert(contents(s) =~= Map::<Seq<u8>, Seq<u8>>::empty());
}

// ---- pages that differ in their checksum alone ------------------------------------------------------

/// Page images that agree behind the checksum.
pub open spec fn kin(b: Seq<u8>, c: Seq<u8>) -> bool {
    &&& b.len() == 4096
    &&& c.len() == 4096
    &&& forall|i: int| 4 <= i < 4096 ==> c[i] == b[i]
}

proof fn lemma_kin(b: Seq<u8>, c: Seq<u8>)
    requires
        kin(b, c),
    ensures
        page_id_of(c) == page_id_of(b),
        type_of(c) == type_of(b),
        is_leaf_of(c) == is_leaf_of(b),
        extra_of(c) == extra_of(b),
        structured(c) == structured(b),
        structured(b) ==> cells_of(c) == cells_of(b),
        sane(b) ==> sane(c),
        overflow_payload_of(c) == overflow_payload_of(b),
{
    lemma_body_same(b, c);
    if overflow_payload_of(b) is Some {
        assert(overflow_payload_of(b)->0 =~= overflow_payload_of(c)->0);
    }
}

/// The pages `ids` of one state are those of another, checksums apart.
pub open spec fn all_kin(p: Map<u32, Seq<u8>>, q: Map<u32, Seq<u8>>, ids: Set<u32>) -> bool {
    forall|x: u32| #[trigger] ids.contains(x) ==> q.contains_key(x) && kin(p[x], q[x])
}

proof fn lemma_kin_data(p: Map<u32, Seq<u8>>, q: Map<u32, Seq<u8>>, ids: Seq<u32>)
    requires
        all_kin(p, q, ids.to_set()),
    ensures
        chain_data(q, ids) == chain_data(p, ids),
    decreases ids.len(),
{
    if ids.len() > 0 {
        assert(ids.contains(ids[0]));
        assert(ids.to_set().contains(ids[0]));
        lemma_kin(p[ids[0]], q[ids[0]]);
        assert forall|x: u32| #[trigger] ids.skip(1).to_set().contains(x) implies q.contains_key(x)
            && kin(p[x], q[x]) by {
            let i = choose|i: int| 0 <= i < ids.skip(1).len() && ids.skip(1)[i] == x;
            assert(ids[i + 1] == x);
            assert(ids.to_set().contains(x));
        }
        lemma_kin_data(p, q, ids.skip(1));
    }
}

proof fn lemma_kin_value(
    p: Map<u32, Seq<u8>>,
    q: Map<u32, Seq<u8>>,
    cell: Seq<u8>,
    ids: Seq<u32>,
)
    requires
        leaf_ok(cell),
        chained(p, cell, ids),
        leaf_overflows(cell) ==> ids.len() == crate::pager::chunks_of(
            crate::bytes::u32_at(cell, 4) as nat,
        ),
        all_kin(p, q, ids.to_set()),
    ensures
        chained(q, cell, ids),
        cell_value(q, cell) == cell_value(p, cell),
{
    if leaf_overflows(cell) {
        lemma_kin_data(p, q, ids);
        assert forall|i: int| 0 <= i < ids.len() implies #[trigger] ids[i] != SENTINEL
            && q.contains_key(ids[i]) && overflow_payload_of(q[ids[i]]) is Some && extra_of(
            q[ids[i]],
        ) == link(ids, i + 1) by {
            assert(ids.to_set().contains(ids[i]));
            lemma_kin(p[ids[i]], q[ids[i]]);
        }
        assert(chain_ok(q, chain_head(cell), ids));
        let n = max_links(crate::bytes::u32_at(cell, 4));
        lemma_chain_reads(p, chain_head(cell), ids, n);
        lemma_chain_reads(q, chain_head(cell), ids, n);
    }
}

proof fn lemma_kin_tree(
    p: Map<u32, Seq<u8>>,
    q: Map<u32, Seq<u8>>,
    t: Tree,
    lo: KeyBound,
    hi: KeyBound,
    next: u32,
)
    requires
        holds(p, t, lo, hi, next),
        trim(p, t, lo),
        all_kin(p, q, ids_of(t)),
    ensures
        holds(q, t, lo, hi, next),
        trim(q, t, lo),
        forall|k: Seq<u8>, fuel: nat| #[trigger]
            find(q, id_of(t), k, fuel) == find(p, id_of(t), k, fuel),
    decreases t,
{
    lemma_root_in(t);
    let b = p[id_of(t)];
    let cs = cells_of(b);
    lemma_kin(b, q[id_of(t)]);
    match t {
        Tree::Leaf { id, chains } => {
            assert forall|i: int| 0 <= i < cs.len() implies leaf_ok(#[trigger] cs[i]) && chained(
                q,
                cs[i],
                chains[i],
            ) && cell_value(q, cs[i]) == cell_value(p, cs[i]) by {
                assert forall|x: u32| #[trigger] chains[i].to_set().contains(x) implies q.contains_key(
                    x,
                ) && kin(p[x], q[x]) by {
                    assert(chains[i].contains(x));
                    assert(ids_of(t).contains(x));
                }
                lemma_kin_value(p, q, cs[i], chains[i]);
            }
            assert forall|k: Seq<u8>| #[trigger] leaf_find(q, cs, k) == leaf_find(p, cs, k) by {}
        },
        Tree::Node { id, kids } => {
            assert forall|j: int| 0 <= j < kids.len() implies id_of(#[trigger] kids[j]) == child_of(
                q[id],
                j,
            ) && holds(q, kids[j], lo_at(cs, j, lo), hi_at(cs, j, hi), next_at(kids, j, next))
                && trim(q, kids[j], lo_at(cs, j, lo)) && (forall|k: Seq<u8>, fuel: nat| #[trigger]
                find(q, id_of(kids[j]), k, fuel) == find(p, id_of(kids[j]), k, fuel)) by {
                assert forall|x: u32| #[trigger] ids_of(kids[j]).contains(x) implies q.contains_key(
                    x,
                ) && kin(p[x], q[x]) by {
                    lemma_kid_in(id, kids, j, x);
                }
                assert(trim(p, kids[j], lo_at(cs, j, lo)));
                lemma_kin_tree(
                    p,
                    q,
                    kids[j],
                    lo_at(cs, j, lo),
                    hi_at(cs, j, hi),
                    next_at(kids, j, next),
                );
            }
            assert forall|k: Seq<u8>, fuel: nat| #[trigger] find(q, id, k, fuel) == find(
                p,
                id,
                k,
                fuel,
            ) by {
                if fuel > 0 {
                    lemma_route_exists(cs, lo, hi, k);
                    let slot = choose|slot: int| routed(cs, k, slot);
                    lemma_find_node(p, id, k, slot, fuel);
                    lemma_find_node(q, id, k, slot, fuel);
                    assert(id_of(kids[slot]) == child_of(p[id], slot));
                    assert(find(q, id_of(kids[slot]), k, (fuel - 1) as nat) == find(
                        p,
                        id_of(kids[slot]),
                        k,
                        (fuel - 1) as nat,
                    ));
                }
            }
        },
    }
}

/// A flush, and reopening the file it leaves, keep the tree and what it holds.
///
/// `file` and `dirty` are the file and the staged pages before, `after` is the
/// file that the flush leaves, and `s` and `s2` are what can be read before and
/// after.
pub proof fn law_flush_keeps_the_tree(
    file: Seq<Seq<u8>>,
    dirty: Map<u32, Seq<u8>>,
    after: Seq<Seq<u8>>,
    s: PagerState,
    s2: PagerState,
    t: Tree,
    h: nat,
)
    requires
        s.pages == visible(file, dirty),
        s2.pages == visible(after, Map::<u32, Seq<u8>>::empty()),
        s2.meta == s.meta,
        flushed(file, dirty, s.meta, after),
        forall|id: u32| #[trigger]
            s.pages.contains_key(id) ==> s.pages[id].len() == 4096 && page_id_of(s.pages[id]) == id,
        tree_at(s, t, h),
        h <= 65,
    ensures
        tree_at(s2, t, h),
        contents(s2) == contents(s),
        free_of(s2) == free_of(s),
{
    reveal(good);
    assert forall|x: u32|
        s.pages.contains_key(x) && x >= 1 && structure_ok(s.pages[x]) implies #[trigger] s2.pages.contains_key(
        x,
    ) && kin(s.pages[x], s2.pages[x]) by {
        let b = s.pages[x];
        if dirty.contains_key(x) {
            assert(x < after.len());
            assert(after[x as int] == sealed(b));
            lemma_sealed_same(b);
            lemma_sealed_cells(b);
        } else {
            assert(after[x as int] == file[x as int]);
        }
    }
    assert(all_kin(s.pages, s2.pages, ids_of(t))) by {
        assert forall|x: u32| #[trigger] ids_of(t).contains(x) implies s2.pages.contains_key(x)
            && kin(s.pages[x], s2.pages[x]) by {
            lemma_typed(s.pages, t, None, None, SENTINEL, x);
        }
    }
    lemma_kin_tree(s.pages, s2.pages, t, None, None, SENTINEL);
    let f = free_of(s);
    assert(free_ok(s2, f)) by {
        assert forall|i: int| 0 <= i < f.len() implies 1 <= #[trigger] f[i] < s2.meta.page_count
            && s2.pages.contains_key(f[i]) && type_of(s2.pages[f[i]]) == Some(PageType::Free)
            && extra_of(s2.pages[f[i]]) == link(f, i + 1) by {
            assert(s2.pages.contains_key(f[i]));
            lemma_kin(s.pages[f[i]], s2.pages[f[i]]);
        }
    }
    lemma_free_unique(s2, f);
    assert(tree_at(s2, t, h));
    lemma_tree_finds(s, t, h);
    lemma_tree_finds(s2, t, h);
    assert forall|k: Seq<u8>| #[trigger] find(s2.pages, s2.meta.root, k, 65) == find(
        s.pages,
        s.meta.root,
        k,
        65,
    ) by {
        assert(find(s2.pages, id_of(t), k, h) == find(s.pages, id_of(t), k, h));
    }
    assert(contents(s2) =~= contents(s));
}

/// Every page of a tree passes structure validation.
#[verifier::rlimit(60)]
#[verifier::spinoff_prover]
proof fn lemma_typed(
    p: Map<u32, Seq<u8>>,
    t: Tree,
    lo: KeyBound,
    hi: KeyBound,
    next: u32,
    x: u32,
)
    requires
        holds(p, t, lo, hi, next),
        ids_of(t).contains(x),
    ensures
        p.contains_key(x),
        structure_ok(p[x]),
    decreases t,
{
    match t {
        Tree::Leaf { id, chains } => {
            if x != id {
                let i = choose|i: int| 0 <= i < chains.len() && (#[trigger] chains[i]).contains(x);
                let cs = cells_of(p[id]);
                assert(chained(p, cs[i], chains[i]));
                let j = choose|j: int| 0 <= j < chains[i].len() && chains[i][j] == x;
                assert(overflow_payload_of(p[chains[i][j]]) is Some);
            }
        },
        Tree::Node { id, kids } => {
            if x != id {
                let j = choose|j: int| 0 <= j < kids.len() && ids_of(#[trigger] kids[j]).contains(x);
                let cs = cells_of(p[id]);
                lemma_typed(
                    p,
                    kids[j],
                    lo_at(cs, j, lo),
                    hi_at(cs, j, hi),
                    next_at(kids, j, next),
                    x,
                );
            }
        },
    }
}

} // verus!

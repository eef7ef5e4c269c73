//! Inserting into a leaf.

use crate::btree::grow::lemma_good_page;
use crate::btree::insert::{
    best_division, copy_cells, fill_page, gap, lemma_cells_insert, lemma_cells_remove, lemma_cells_split,
    lemma_division_exists, lemma_used_bound, split_point, views,
};
use crate::btree::moves::{
    lemma_moved_alloc, lemma_moved_gave, lemma_moved_none, lemma_moved_same, lemma_moved_took,
    lemma_moved_trans, lemma_moved_write, moved, room, same_page,
};
use crate::btree::packed::{dense, packed};
use crate::btree::{
    ascending, cell_value, chained, ckey, distinct, find, first_of, good, id_of, ids_of, in_range,
    leaf_cells, leaf_find, leaf_page, lemma_leaf_frame, lemma_leaf_search, lemma_root_in,
    lemma_value_frame, owned, tight_cells, BTree, KeyBound, Tree, MAX_INLINE_CELL,
};
use crate::bytes::{copy_bytes, lex_lt, u32_at};
use crate::error::{Error, Result};
use crate::page::{
    cell_bytes, cell_key_of, cell_of, cells_of, extra_of, is_leaf_of, key_at, law_leaf_cell_roundtrip,
    leaf_ok, leaf_overflows, lemma_cell_bytes_insert, lemma_page_len, num_keys_of, same_header,
    sane, slot_ok, slot_off, splits_at, structured, used_bytes, LeafCell, Page, PageType,
    MAX_INLINE_VALUE, MAX_KEY_SIZE, SENTINEL, SLOT_SIZE, USABLE_SPACE,
};
use crate::pager::{
    chain_data, chain_ok, chunks_of, free_of, gave, grows, lemma_grows_same, lemma_grows_then,
    pool_ok, took, Pager, PagerState,
};
use vstd::prelude::*;

verus! {

broadcast use {lemma_page_len, lemma_grows_same, lemma_grows_then};

/// A separator promoted to the parent after a node split.
pub struct Split {
    /// First key of the new right sibling.
    pub key: Vec<u8>,
    /// Page id of the new right sibling.
    pub right: u32,
}

/// What an insert made of a subtree: the tree that stands in its place, and,
/// after a split, its new right sibling.
pub struct Inserted {
    /// The separator for the parent, after a split.
    pub split: Option<Split>,
    /// The tree that stands in the old one's place.
    pub left: Ghost<Tree>,
    /// The new right sibling, after a split.
    pub right: Ghost<Tree>,
    /// The leaf that took the key.
    pub leaf: Ghost<u32>,
    /// The leaf that its other cells went to, if it was split.
    pub other: Ghost<u32>,
}

/// `cs` are the cells of leaf page `b` with one for `key` in its place, at `idx`.
pub open spec fn joined(b: Seq<u8>, cs: Seq<Seq<u8>>, idx: int, key: Seq<u8>) -> bool {
    let was = cells_of(b);
    &&& 0 <= idx < cs.len()
    &&& cell_key_of(true, cs[idx]) == Some(key)
    &&& gap(cs.remove(idx), key, idx)
    &&& cs.remove(idx) == was || exists|i: int|
        0 <= i < was.len() && cell_key_of(true, #[trigger] was[i]) == Some(key) && cs.remove(idx)
            == was.remove(i)
}

/// How a leaf that is followed by `next` takes the cells `cs`, of which the one at
/// `idx` is new. They stay
/// together in page `x` while they take up `max` bytes or less. Otherwise the
/// first `at` stay there and the others go to page `y`: what is new at the end of
/// the last leaf goes alone, and else the leaf is cut as evenly as can be.
pub open spec fn laid_out(
    next: u32,
    p: Map<u32, Seq<u8>>,
    x: u32,
    y: u32,
    cs: Seq<Seq<u8>>,
    idx: int,
    at: int,
    max: int,
) -> bool {
    if (used_bytes(cs) <= max && used_bytes(cs) <= USABLE_SPACE) || cs.len() == 1 {
        cells_of(p[x]) == cs
    } else {
        &&& 0 < at < cs.len()
        &&& cells_of(p[x]) == cs.take(at)
        &&& cells_of(p[y]) == cs.skip(at)
        &&& extra_of(p[x]) == y
        &&& if next == SENTINEL && idx == cs.len() - 1 {
            at == idx
        } else {
            best_division(cs, false, at)
        }
    }
}

/// What an insert made of the leaf with page `b`.
#[verifier::opaque]
pub open spec fn leaf_done(
    b: Seq<u8>,
    p: Map<u32, Seq<u8>>,
    x: u32,
    y: u32,
    key: Seq<u8>,
    max: int,
) -> bool {
    exists|cs: Seq<Seq<u8>>, idx: int, at: int|
        joined(b, cs, idx, key) && #[trigger] laid_out(
            extra_of(b),
            p,
            x,
            y,
            cs,
            idx,
            at,
            max,
        )
}

/// Other pages do not matter.
pub(crate) proof fn lemma_leaf_done_frame(
    b: Seq<u8>,
    p: Map<u32, Seq<u8>>,
    q: Map<u32, Seq<u8>>,
    x: u32,
    y: u32,
    key: Seq<u8>,
    max: int,
)
    requires
        leaf_done(b, p, x, y, key, max),
        p[x] == q[x],
        p[y] == q[y],
    ensures
        leaf_done(b, q, x, y, key, max),
{
    reveal(leaf_done);
    let (cs, idx, at) = choose|cs: Seq<Seq<u8>>, idx: int, at: int|
        joined(b, cs, idx, key) && #[trigger] laid_out(extra_of(b), p, x, y, cs, idx, at, max);
    assert(laid_out(extra_of(b), q, x, y, cs, idx, at, max));
}

/// The pages of what an insert made of a subtree.
pub open spec fn out_ids(out: Inserted) -> Set<u32> {
    if out.split is Some {
        ids_of(out.left@).union(ids_of(out.right@))
    } else {
        ids_of(out.left@)
    }
}

/// An insert put the key into a leaf.
pub open spec fn leaf_took(
    s: PagerState,
    s2: PagerState,
    out: Inserted,
    key: Seq<u8>,
    max: int,
) -> bool {
    &&& out_ids(out).contains(out.leaf@)
    &&& out_ids(out).contains(out.other@)
    &&& s.pages.contains_key(out.leaf@)
    &&& is_leaf_of(s.pages[out.leaf@])
    &&& s2.pages.contains_key(out.leaf@)
    &&& s2.pages.contains_key(out.other@)
    &&& leaf_done(s.pages[out.leaf@], s2.pages, out.leaf@, out.other@, key, max)
}

/// A packed subtree that took a key beyond its others is packed still; where it
/// was split, what is left behind is dense.
pub open spec fn packs(out: Inserted) -> bool {
    if out.split is Some {
        dense(out.left@) && packed(out.right@)
    } else {
        packed(out.left@)
    }
}

/// Whether a value is stored in the leaf itself.
pub open spec fn inline(key: Seq<u8>, value: Seq<u8>) -> bool {
    value.len() <= MAX_INLINE_VALUE && 8 + key.len() + value.len() <= MAX_INLINE_CELL
}

/// Overflow pages that a value needs.
pub open spec fn spill(key: Seq<u8>, value: Seq<u8>) -> nat {
    if inline(key, value) {
        0
    } else {
        chunks_of(value.len())
    }
}

/// The pages of a leaf.
pub open spec fn leaf_ids(id: u32, chains: Seq<Seq<u32>>) -> Set<u32> {
    ids_of(Tree::Leaf { id, chains })
}

/// An insert that kept the subtree whole.
pub open spec fn whole(
    s: PagerState,
    s2: PagerState,
    t: Tree,
    lo: KeyBound,
    hi: KeyBound,
    next: u32,
    h: nat,
    key: Seq<u8>,
    value: Seq<u8>,
    l: Tree,
) -> bool {
    &&& good(s2, l, lo, hi, next, h)
    &&& id_of(l) == id_of(t)
    &&& first_of(l) == first_of(t)
    &&& moved(s, s2, ids_of(t), ids_of(l))
    &&& forall|k: Seq<u8>|
        in_range(k, lo, hi) ==> #[trigger] find(s2.pages, id_of(l), k, h) == if k == key {
            Some(value)
        } else {
            find(s.pages, id_of(t), k, h)
        }
}

/// An insert that split the subtree in two.
pub open spec fn halved(
    s: PagerState,
    s2: PagerState,
    t: Tree,
    lo: KeyBound,
    hi: KeyBound,
    next: u32,
    h: nat,
    key: Seq<u8>,
    value: Seq<u8>,
    l: Tree,
    r: Tree,
    sep: Seq<u8>,
) -> bool {
    &&& good(s2, l, lo, Some(sep), first_of(r), h)
    &&& good(s2, r, Some(sep), hi, next, h)
    &&& id_of(l) == id_of(t)
    &&& first_of(l) == first_of(t)
    &&& ids_of(l).disjoint(ids_of(r))
    &&& sep.len() <= 1028
    &&& lo matches Some(b) ==> lex_lt(b, sep)
    &&& hi matches Some(b) ==> lex_lt(sep, b)
    &&& moved(s, s2, ids_of(t), ids_of(l).union(ids_of(r)))
    &&& forall|k: Seq<u8>|
        #![trigger find(s2.pages, id_of(l), k, h)]
        #![trigger find(s2.pages, id_of(r), k, h)]
        in_range(k, lo, hi) ==> (if lex_lt(k, sep) {
            find(s2.pages, id_of(l), k, h)
        } else {
            find(s2.pages, id_of(r), k, h)
        }) == if k == key {
            Some(value)
        } else {
            find(s.pages, id_of(t), k, h)
        }
}

/// Either kind of insert.
pub open spec fn inserted(
    s: PagerState,
    s2: PagerState,
    t: Tree,
    lo: KeyBound,
    hi: KeyBound,
    next: u32,
    h: nat,
    key: Seq<u8>,
    value: Seq<u8>,
    out: Inserted,
) -> bool {
    match out.split {
        None => whole(s, s2, t, lo, hi, next, h, key, value, out.left@),
        Some(split) => halved(
            s,
            s2,
            t,
            lo,
            hi,
            next,
            h,
            key,
            value,
            out.left@,
            out.right@,
            split.key@,
        ) && split.right == id_of(out.right@),
    }
}

/// The separator of a split has the length of a key.
pub open spec fn short_split(r: Result<Inserted>) -> bool {
    r matches Ok(out) ==> (out.split matches Some(split) ==> split.key@.len() <= 0xFFFF)
}

/// A leaf's list of cells, between states.
pub open spec fn leaf_list(
    s: PagerState,
    id: u32,
    cs: Seq<Seq<u8>>,
    chains: Seq<Seq<u32>>,
    lo: KeyBound,
    hi: KeyBound,
) -> bool {
    &&& leaf_cells(s.pages, cs, chains, lo, hi)
    &&& tight_cells(cs, chains)
    &&& distinct(Tree::Leaf { id, chains })
    &&& owned(s, leaf_ids(id, chains))
}

/// The pages of a leaf and the chains of two lists of cells.
proof fn lemma_leaf_ids_insert(id: u32, chains: Seq<Seq<u32>>, idx: int, ids: Seq<u32>)
    requires
        0 <= idx <= chains.len(),
    ensures
        leaf_ids(id, chains.insert(idx, ids)) =~= leaf_ids(id, chains).union(ids.to_set()),
{
    let ch = chains.insert(idx, ids);
    assert forall|x: u32| #[trigger] leaf_ids(id, ch).contains(x) <==> leaf_ids(id, chains).union(
        ids.to_set(),
    ).contains(x) by {
        if exists|i: int| 0 <= i < ch.len() && (#[trigger] ch[i]).contains(x) {
            let i = choose|i: int| 0 <= i < ch.len() && (#[trigger] ch[i]).contains(x);
            if i < idx {
                assert(chains[i].contains(x));
            } else if i > idx {
                assert(chains[i - 1].contains(x));
            }
        }
        if exists|i: int| 0 <= i < chains.len() && (#[trigger] chains[i]).contains(x) {
            let i = choose|i: int| 0 <= i < chains.len() && (#[trigger] chains[i]).contains(x);
            if i < idx {
                assert(ch[i].contains(x));
            } else {
                assert(ch[i + 1].contains(x));
            }
        }
        if ids.contains(x) {
            assert(ch[idx].contains(x));
        }
    }
}

proof fn lemma_distinct_insert(id: u32, chains: Seq<Seq<u32>>, idx: int, ids: Seq<u32>)
    requires
        0 <= idx <= chains.len(),
        distinct(Tree::Leaf { id, chains }),
        forall|x: u32| leaf_ids(id, chains).contains(x) ==> !#[trigger] ids.contains(x),
    ensures
        distinct(Tree::Leaf { id, chains: chains.insert(idx, ids) }),
{
    let ch = chains.insert(idx, ids);
    assert(leaf_ids(id, chains).contains(id));
    assert forall|i: int| 0 <= i < ch.len() implies !(#[trigger] ch[i]).contains(id) by {
        if i < idx {
            assert(ch[i] == chains[i]);
        } else if i > idx {
            assert(ch[i] == chains[i - 1]);
        }
    }
    assert forall|i: int, j: int, x: u32|
        0 <= i < j < ch.len() && #[trigger] ch[i].contains(x) implies !#[trigger] ch[j].contains(
        x,
    ) by {
        let a = if i < idx {
            i
        } else {
            i - 1
        };
        let b = if j < idx {
            j
        } else {
            j - 1
        };
        if i == idx {
            assert(ch[j] == chains[b]);
            if chains[b].contains(x) {
                assert(leaf_ids(id, chains).contains(x));
            }
        } else if j == idx {
            assert(ch[i] == chains[a]);
            assert(leaf_ids(id, chains).contains(x));
        } else {
            assert(ch[i] == chains[a] && ch[j] == chains[b]);
        }
    }
}

proof fn lemma_distinct_remove(id: u32, chains: Seq<Seq<u32>>, idx: int)
    requires
        0 <= idx < chains.len(),
        distinct(Tree::Leaf { id, chains }),
    ensures
        distinct(Tree::Leaf { id, chains: chains.remove(idx) }),
        leaf_ids(id, chains) =~= leaf_ids(id, chains.remove(idx)).union(chains[idx].to_set()),
        forall|x: u32|
            leaf_ids(id, chains.remove(idx)).contains(x) ==> !#[trigger] chains[idx].contains(x),
{
    let ch = chains.remove(idx);
    assert forall|i: int| 0 <= i < ch.len() implies #[trigger] ch[i] == (if i < idx {
        chains[i]
    } else {
        chains[i + 1]
    }) by {}
    assert forall|i: int, j: int, x: u32|
        0 <= i < j < ch.len() && #[trigger] ch[i].contains(x) implies !#[trigger] ch[j].contains(
        x,
    ) by {
        let a = if i < idx {
            i
        } else {
            i + 1
        };
        let b = if j < idx {
            j
        } else {
            j + 1
        };
        assert(ch[i] == chains[a] && ch[j] == chains[b]);
    }
    assert(ch.insert(idx, chains[idx]) =~= chains);
    lemma_leaf_ids_insert(id, ch, idx, chains[idx]);
    assert forall|x: u32|
        leaf_ids(id, ch).contains(x) implies !#[trigger] chains[idx].contains(x) by {
        if x != id {
            let i = choose|i: int| 0 <= i < ch.len() && (#[trigger] ch[i]).contains(x);
            let a = if i < idx {
                i
            } else {
                i + 1
            };
            assert(chains[a].contains(x));
            if chains[idx].contains(x) {
                if a < idx {
                    assert(!chains[idx].contains(x));
                } else {
                    assert(!chains[a].contains(x));
                }
            }
        }
    }
}

/// Releases the old value of cell `idx` and drops the cell.
pub(crate) fn drop_cell(
    pager: &mut Pager,
    leaf: &mut Page,
    idx: usize,
    Ghost(id): Ghost<u32>,
    Ghost(chains): Ghost<Seq<Seq<u32>>>,
    Ghost(lo): Ghost<KeyBound>,
    Ghost(hi): Ghost<KeyBound>,
) -> (r: Result<()>)
    requires
        old(pager).inv(),
        structured(old(leaf)@),
    ensures
        final(pager).inv(),
        grows(*old(pager), *final(pager)),
        structured(final(leaf)@),
        same_header(old(leaf)@, final(leaf)@),
        r is Ok ==> idx < cells_of(old(leaf)@).len() && cells_of(final(leaf)@) == cells_of(
            old(leaf)@,
        ).remove(idx as int),
        leaf_list(old(pager)@, id, cells_of(old(leaf)@), chains, lo, hi) && sane(old(leaf)@) && idx
            < cells_of(old(leaf)@).len() ==> r is Ok && sane(final(leaf)@) && cells_of(
            final(leaf)@,
        ) == cells_of(old(leaf)@).remove(idx as int) && leaf_list(
            final(pager)@,
            id,
            cells_of(final(leaf)@),
            chains.remove(idx as int),
            lo,
            hi,
        ) && moved(
            old(pager)@,
            final(pager)@,
            leaf_ids(id, chains),
            leaf_ids(id, chains.remove(idx as int)),
        ) && room(final(pager)@) >= room(old(pager)@) && (forall|k: Seq<u8>| #[trigger]
            leaf_find(final(pager)@.pages, cells_of(final(leaf)@), k) == leaf_find(
                old(pager)@.pages,
                cells_of(final(leaf)@),
                k,
            )),
{
    let ghost s0 = pager@;
    let ghost cs = cells_of(leaf@);
    let ghost ok = leaf_list(s0, id, cs, chains, lo, hi) && sane(leaf@) && idx < cs.len();
    proof {
        if ok {
            assert(slot_ok(leaf@, idx as int)) by {
                assert(crate::page::cell_start_of(leaf@) <= slot_off(leaf@, idx as int));
            }
            assert(leaf_ok(cs[idx as int]));
            lemma_distinct_remove(id, chains, idx as int);
            lemma_cells_remove(s0.pages, cs, chains, lo, hi, idx as int);
        }
    }
    let old_cell: LeafCell = leaf.leaf_cell(idx)?;
    match old_cell.overflow {
        Some(head) => {
            proof {
                if ok {
                    let ids = chains[idx as int];
                    assert(chained(s0.pages, cs[idx as int], ids));
                    assert(chain_ok(s0.pages, head, ids));
                    assert forall|i: int| 0 <= i < ids.len() implies 1 <= #[trigger] ids[i]
                        < s0.meta.page_count && !free_of(s0).contains(ids[i]) by {
                        assert(ids.contains(ids[i]));
                        assert(leaf_ids(id, chains).contains(ids[i]));
                    }
                }
            }
            pager.free_overflow_chain(head)?;
            proof {
                if ok {
                    let ids = chains[idx as int];
                    let rest = leaf_ids(id, chains.remove(idx as int));
                    assert(leaf_ids(id, chains) =~= rest.union(ids.to_set()));
                    assert(gave(s0, pager@, ids));
                    lemma_moved_gave(s0, pager@, rest, ids);
                    lemma_moved_same(
                        s0,
                        pager@,
                        rest.union(ids.to_set()),
                        rest,
                        leaf_ids(id, chains),
                        rest,
                    );
                }
            }
        },
        None => {
            proof {
                if ok {
                    assert(chained(s0.pages, cs[idx as int], chains[idx as int]));
                    let rest = leaf_ids(id, chains.remove(idx as int));
                    assert(chains[idx as int].to_set() =~= Set::empty());
                    assert(leaf_ids(id, chains) =~= rest);
                    lemma_moved_none(s0, rest);
                    lemma_moved_same(s0, pager@, rest, rest, leaf_ids(id, chains), rest);
                }
            }
        },
    }
    leaf.remove_cell_at(idx)?;
    proof {
        if ok {
            let ch = chains.remove(idx as int);
            assert forall|i: int, x: u32|
                0 <= i < ch.len() && #[trigger] ch[i].contains(x) implies pager@.pages.contains_key(
                x,
            ) && pager@.pages[x] == s0.pages[x] by {
                assert(leaf_ids(id, ch).contains(x));
                assert(same_page(s0.pages, pager@.pages, x));
                lemma_chain_page(s0.pages, cs.remove(idx as int), ch, lo, hi, i, x);
            }
            lemma_leaf_frame(s0.pages, pager@.pages, cs.remove(idx as int), ch, lo, hi);
        }
    }
    Ok(())
}

/// The overflow pages of leaf cells exist.
proof fn lemma_chain_page(
    pages: Map<u32, Seq<u8>>,
    cs: Seq<Seq<u8>>,
    chains: Seq<Seq<u32>>,
    lo: KeyBound,
    hi: KeyBound,
    i: int,
    x: u32,
)
    requires
        leaf_cells(pages, cs, chains, lo, hi),
        0 <= i < chains.len(),
        chains[i].contains(x),
    ensures
        pages.contains_key(x),
{
    assert(chained(pages, cs[i], chains[i]));
    let j = choose|j: int| 0 <= j < chains[i].len() && chains[i][j] == x;
    assert(pages.contains_key(chains[i][j]));
}

/// Encodes the cell of a key and a value, spilling a large value into an
/// overflow chain.
fn make_cell(pager: &mut Pager, key: &[u8], value: &[u8], value_len: u32) -> (r: Result<
    (Vec<u8>, Ghost<Seq<u32>>),
>)
    requires
        old(pager).inv(),
        key@.len() <= MAX_KEY_SIZE,
        value_len == value@.len(),
    ensures
        final(pager).inv(),
        grows(*old(pager), *final(pager)),
        r matches Ok((cell, _)) ==> cell@.len() <= 1036,
        pool_ok(old(pager)@) ==> match r {
            Ok((cell, ids)) => leaf_ok(cell@) && cell_key_of(true, cell@) == Some(key@)
                && cell@.len() <= 1036 && chained(final(pager)@.pages, cell@, ids@) && (
            leaf_overflows(cell@) ==> ids@.len() == chunks_of(u32_at(cell@, 4) as nat))
                && cell_value(final(pager)@.pages, cell@) == value@ && took(
                old(pager)@,
                final(pager)@,
                ids@,
            ) && ids@.len() == spill(key@, value@),
            Err(e) => e is Full && room(old(pager)@) < spill(key@, value@),
        },
{
    let ghost s0 = pager@;
    if value.len() <= MAX_INLINE_VALUE && 8 + key.len() + value.len() <= MAX_INLINE_CELL {
        let cell: Vec<u8> = Page::encode_leaf_cell(key, value, value_len, None);
        proof {
            law_leaf_cell_roundtrip(key@, value@, value_len, None);
            lemma_took_none(s0);
        }
        Ok((cell, Ghost(Seq::empty())))
    } else {
        let head: u32 = pager.write_overflow_chain(value)?;
        let empty: Vec<u8> = Vec::new();
        let cell: Vec<u8> = Page::encode_leaf_cell(key, &empty, value_len, Some(head));
        let ghost ids = choose|ids: Seq<u32>| #[trigger]
            took(s0, pager@, ids) && chain_ok(pager@.pages, head, ids) && chain_data(
                pager@.pages,
                ids,
            ) == value@ && ids.len() == chunks_of(value@.len());
        proof {
            law_leaf_cell_roundtrip(key@, empty@, value_len, Some(head));
            if pool_ok(s0) {
                assert(chained(pager@.pages, cell@, ids));
                lemma_value_frame(pager@.pages, pager@.pages, cell@, ids);
            }
        }
        Ok((cell, Ghost(ids)))
    }
}

proof fn lemma_took_none(s: PagerState)
    ensures
        pool_ok(s) ==> took(s, s, Seq::empty()),
{
}

/// A leaf page with its list of cells is a tree in good order.
pub proof fn lemma_good_leaf(
    s: PagerState,
    id: u32,
    chains: Seq<Seq<u32>>,
    b: Seq<u8>,
    lo: KeyBound,
    hi: KeyBound,
    next: u32,
)
    requires
        s.pages.contains_key(id),
        s.pages[id] == b,
        leaf_page(b, id, next),
        sane(b),
        leaf_list(s, id, cells_of(b), chains, lo, hi),
    ensures
        good(s, Tree::Leaf { id, chains }, lo, hi, next, 0),
        forall|k: Seq<u8>| #[trigger] find(s.pages, id, k, 0) == leaf_find(
            s.pages,
            cells_of(b),
            k,
        ),
{
    reveal(good);
}

/// Rewriting the leaf page of a list of cells.
pub proof fn lemma_list_write(
    s: PagerState,
    s2: PagerState,
    id: u32,
    cs: Seq<Seq<u8>>,
    chains: Seq<Seq<u32>>,
    lo: KeyBound,
    hi: KeyBound,
    page: Seq<u8>,
)
    requires
        leaf_list(s, id, cs, chains, lo, hi),
        s2.meta == s.meta,
        s2.pages == s.pages.insert(id, page),
    ensures
        leaf_list(s2, id, cs, chains, lo, hi),
        moved(s, s2, leaf_ids(id, chains), leaf_ids(id, chains)),
        room(s2) == room(s),
        forall|k: Seq<u8>| #[trigger] leaf_find(s2.pages, cs, k) == leaf_find(s.pages, cs, k),
{
    let t = Tree::Leaf { id, chains };
    lemma_root_in(t);
    lemma_moved_write(s, s2, leaf_ids(id, chains), id, page);
    assert forall|i: int, x: u32|
        0 <= i < chains.len() && #[trigger] chains[i].contains(x) implies s2.pages.contains_key(x)
        && s2.pages[x] == s.pages[x] by {
        lemma_chain_page(s.pages, cs, chains, lo, hi, i, x);
        assert(x != id);
    }
    lemma_leaf_frame(s.pages, s2.pages, cs, chains, lo, hi);
}

/// A list of cells is untouched by what happens to other pages.
proof fn lemma_list_frame(
    s: PagerState,
    s2: PagerState,
    id: u32,
    cs: Seq<Seq<u8>>,
    chains: Seq<Seq<u32>>,
    lo: KeyBound,
    hi: KeyBound,
)
    requires
        leaf_list(s, id, cs, chains, lo, hi),
        owned(s2, leaf_ids(id, chains)),
        forall|x: u32| #[trigger]
            leaf_ids(id, chains).contains(x) && x != id ==> same_page(s.pages, s2.pages, x),
    ensures
        leaf_list(s2, id, cs, chains, lo, hi),
        forall|k: Seq<u8>| #[trigger] leaf_find(s2.pages, cs, k) == leaf_find(s.pages, cs, k),
{
    assert forall|i: int, x: u32|
        0 <= i < chains.len() && #[trigger] chains[i].contains(x) implies s2.pages.contains_key(x)
        && s2.pages[x] == s.pages[x] by {
        lemma_chain_page(s.pages, cs, chains, lo, hi, i, x);
        assert(leaf_ids(id, chains).contains(x));
        assert(same_page(s.pages, s2.pages, x));
    }
    lemma_leaf_frame(s.pages, s2.pages, cs, chains, lo, hi);
}

/// The pages of two leaves that share out one leaf's chains.
proof fn lemma_ids_split(id: u32, right: u32, chains: Seq<Seq<u32>>, at: int)
    requires
        0 <= at <= chains.len(),
        distinct(Tree::Leaf { id, chains }),
        !leaf_ids(id, chains).contains(right),
    ensures
        leaf_ids(id, chains.take(at)).union(leaf_ids(right, chains.skip(at))) =~= leaf_ids(
            id,
            chains,
        ).insert(right),
        leaf_ids(id, chains.take(at)).disjoint(leaf_ids(right, chains.skip(at))),
        distinct(Tree::Leaf { id, chains: chains.take(at) }),
        distinct(Tree::Leaf { id: right, chains: chains.skip(at) }),
{
    let a = chains.take(at);
    let b = chains.skip(at);
    assert forall|i: int| 0 <= i < a.len() implies #[trigger] a[i] == chains[i] by {}
    assert forall|i: int| 0 <= i < b.len() implies #[trigger] b[i] == chains[at + i] by {}
    assert forall|x: u32| leaf_ids(id, a).contains(x) implies leaf_ids(id, chains).contains(x) by {
        if x != id {
            let i = choose|i: int| 0 <= i < a.len() && (#[trigger] a[i]).contains(x);
            assert(chains[i].contains(x));
        }
    }
    assert forall|x: u32|
        leaf_ids(right, b).contains(x) && x != right implies leaf_ids(id, chains).contains(x)
        && !leaf_ids(id, a).contains(x) by {
        let i = choose|i: int| 0 <= i < b.len() && (#[trigger] b[i]).contains(x);
        assert(chains[at + i].contains(x));
        if leaf_ids(id, a).contains(x) {
            assert(x != id);
            let j = choose|j: int| 0 <= j < a.len() && (#[trigger] a[j]).contains(x);
            assert(chains[j].contains(x));
        }
    }
    assert forall|x: u32| leaf_ids(id, chains).contains(x) implies leaf_ids(id, a).contains(x)
        || leaf_ids(right, b).contains(x) by {
        if x != id {
            let i = choose|i: int| 0 <= i < chains.len() && (#[trigger] chains[i]).contains(x);
            if i < at {
                assert(a[i].contains(x));
            } else {
                assert(b[i - at].contains(x));
            }
        }
    }
    assert(distinct(Tree::Leaf { id: right, chains: b })) by {
        assert forall|i: int| 0 <= i < b.len() implies !(#[trigger] b[i]).contains(right) by {
            if b[i].contains(right) {
                assert(chains[at + i].contains(right));
                assert(leaf_ids(id, chains).contains(right));
            }
        }
        assert forall|i: int, j: int, x: u32|
            0 <= i < j < b.len() && #[trigger] b[i].contains(x) implies !#[trigger] b[j].contains(
            x,
        ) by {
            assert(chains[at + i].contains(x));
            assert(!chains[at + j].contains(x));
        }
    }
    assert(distinct(Tree::Leaf { id, chains: a })) by {
        assert forall|i: int, j: int, x: u32|
            0 <= i < j < a.len() && #[trigger] a[i].contains(x) implies !#[trigger] a[j].contains(
            x,
        ) by {
            assert(chains[i].contains(x));
            assert(!chains[j].contains(x));
        }
    }
}

/// Splits `leaf` around the incoming `cell`, destined for slot `idx`.
#[verifier::rlimit(60)]
#[verifier::spinoff_prover]
fn split_leaf(
    pager: &mut Pager,
    leaf: Page,
    idx: usize,
    cell: Vec<u8>,
    Ghost(id): Ghost<u32>,
    Ghost(chains): Ghost<Seq<Seq<u32>>>,
    Ghost(lo): Ghost<KeyBound>,
    Ghost(hi): Ghost<KeyBound>,
    Ghost(next): Ghost<u32>,
) -> (r: Result<Inserted>)
    requires
        old(pager).inv(),
        structured(leaf@),
        idx <= cells_of(leaf@).len(),
        cell@.len() <= 70_000,
    ensures
        final(pager).inv(),
        grows(*old(pager), *final(pager)),
        short_split(r),
        ({
            let s = old(pager)@;
            let s2 = final(pager)@;
            let cs = cells_of(leaf@).insert(idx as int, cell@);
            leaf_page(leaf@, id, next) && sane(leaf@) && leaf_list(s, id, cs, chains, lo, hi)
                && cs.len() >= 2 ==> match r {
                Ok(out) => out.split matches Some(split) && split.right == id_of(out.right@)
                    && packs(out) && out.leaf@ == id && out.other@ == split.right && cells_of(
                    s2.pages[id],
                ) == cs.take(out.left@->chains.len() as int) && cells_of(s2.pages[split.right])
                    == cs.skip(out.left@->chains.len() as int) && extra_of(s2.pages[id])
                    == split.right && 0 < out.left@->chains.len() < cs.len() && (if idx
                    == cs.len() - 1 && extra_of(leaf@) == SENTINEL {
                    out.left@->chains.len() == idx
                } else {
                    best_division(cs, false, out.left@->chains.len() as int)
                }) && first_of(out.left@) == id && id_of(out.left@) == id && split.key@.len()
                    <= 1028 && (lo matches Some(b) ==> lex_lt(b, split.key@)) && (hi matches Some(
                    b,
                ) ==> lex_lt(split.key@, b)) && good(
                    s2,
                    out.left@,
                    lo,
                    Some(split.key@),
                    first_of(out.right@),
                    0,
                ) && good(s2, out.right@, Some(split.key@), hi, next, 0) && ids_of(
                    out.left@,
                ).disjoint(ids_of(out.right@)) && moved(
                    s,
                    s2,
                    leaf_ids(id, chains),
                    ids_of(out.left@).union(ids_of(out.right@)),
                ) && room(s2) == room(s) - 1 && (forall|k: Seq<u8>|
                    #![trigger leaf_find(s.pages, cs, k)]
                    (if lex_lt(k, split.key@) {
                        find(s2.pages, id_of(out.left@), k, 0)
                    } else {
                        find(s2.pages, id_of(out.right@), k, 0)
                    }) == leaf_find(s.pages, cs, k)),
                Err(e) => e is Full && room(s) == 0,
            }
        }),
{
    proof {
        reveal(good);
    }
    let ghost s = pager@;
    let ghost cs = cells_of(leaf@).insert(idx as int, cell@);
    let ghost ok = leaf_page(leaf@, id, next) && sane(leaf@) && leaf_list(
        s,
        id,
        cs,
        chains,
        lo,
        hi,
    ) && cs.len() >= 2;
    let n: usize = leaf.num_keys() as usize;
    let mut cells: Vec<Vec<u8>> = copy_cells(&leaf)?;
    let ghost before = cells@;
    cells.insert(idx, cell);
    proof {
        assert(views(cells@) =~= cs) by {
            assert forall|i: int| 0 <= i < cs.len() implies #[trigger] views(cells@)[i] == cs[i] by {
                if i < idx {
                    assert(views(before)[i] == cells_of(leaf@)[i]);
                } else if i > idx {
                    assert(views(before)[i - 1] == cells_of(leaf@)[i - 1]);
                }
            }
        }
        assert forall|i: int| 0 <= i < cs.len() implies (#[trigger] cs[i]).len() <= 70_000 by {
            if i < idx {
                assert(before[i]@ == views(before)[i]);
            } else if i > idx {
                assert(before[i - 1]@ == views(before)[i - 1]);
            }
        }
        lemma_used_bound(cs);
        assert(cs.len() <= 1017);
        assert(cs[idx as int] == cell@);
        lemma_cell_bytes_insert(cells_of(leaf@), idx as int, cell@);
    }
    let appending: bool = idx == n && n > 0 && leaf.extra() == SENTINEL;
    let choice: Option<usize> = if appending {
        Some(n)
    } else {
        split_point(&cells, false)
    };
    let at: usize = match choice {
        Some(x) => x,
        None => {
            proof {
                if ok {
                    lemma_division_exists(cs, false);
                }
            }
            return Err(Error::full("leaf cannot be split to place a new cell"));
        },
    };
    proof {
        if ok && appending {
            assert(cs.take(n as int) =~= cells_of(leaf@));
            assert(cs.skip(n as int) =~= seq![cell@]);
            assert(cs[n as int] == cell@);
            assert(cell@.len() <= 1036);
            assert(seq![cell@].drop_last() =~= Seq::<Seq<u8>>::empty());
            assert(cell_bytes(seq![cell@]) == cell@.len()) by {
                assert(cell_bytes(Seq::<Seq<u8>>::empty()) == 0);
            }
        }
    }
    let mut right: Page = match pager.allocate_page(PageType::Leaf) {
        Ok(p) => p,
        Err(e) => {
            proof {
                if ok {
                    crate::pager::law_allocation_fails_only_when_ids_run_out(s);
                    assert(free_of(s).len() == 0);
                }
            }
            return Err(e);
        },
    };
    let ghost s1 = pager@;
    proof {
        if ok {
            lemma_root_in(Tree::Leaf { id, chains });
            lemma_moved_alloc(s, s1, leaf_ids(id, chains), right@);
        }
    }
    let ghost total = cells@.len() as int;
    right.set_extra(leaf.extra());
    let mut left: Page = leaf;
    left.clear_cells();
    fill_page(&mut left, &cells, 0, at)?;
    fill_page(&mut right, &cells, at, cells.len())?;
    let right_id: u32 = right.page_id();
    left.set_extra(right_id);
    proof {
        assert(views(cells@).subrange(0, at as int) =~= cs.take(at as int));
        assert(views(cells@).subrange(at as int, total) =~= cs.skip(at as int));
        if ok {
            assert(cells_of(right@) == cs.skip(at as int));
            assert(cs.skip(at as int)[0] == cs[at as int]);
            lemma_first_key(right@, cs[at as int]);
        }
        lemma_key_short(right@, 0);
    }
    let sep: Vec<u8> = copy_bytes(right.cell_key(0)?);
    let ghost left_page = left@;
    let ghost right_page = right@;
    pager.write_page(left);
    let ghost s2 = pager@;
    pager.write_page(right);
    let ghost s3 = pager@;
    let ghost lt = Tree::Leaf { id, chains: chains.take(at as int) };
    let ghost rt = Tree::Leaf { id: right_id, chains: chains.skip(at as int) };
    proof {
        if ok {
            lemma_leaf_halves(
                s,
                s1,
                s2,
                s3,
                id,
                right_id,
                cs,
                chains,
                lo,
                hi,
                next,
                at as int,
                left_page,
                right_page,
            );
        }
    }
    Ok(
        Inserted {
            split: Some(Split { key: sep, right: right_id }),
            left: Ghost(lt),
            right: Ghost(rt),
            leaf: Ghost(id),
            other: Ghost(right_id),
        },
    )
}

/// The key of the first cell of a page.
proof fn lemma_key_short(b: Seq<u8>, i: int)
    ensures
        key_at(b, i) matches Some(k) ==> k.len() <= 0xFFFF,
{
}

proof fn lemma_first_key(b: Seq<u8>, cell: Seq<u8>)
    requires
        structured(b),
        is_leaf_of(b),
        cells_of(b).len() > 0,
        cells_of(b)[0] == cell,
        leaf_ok(cell),
        cell.len() <= 1036,
    ensures
        key_at(b, 0) == Some(ckey(true, cell)),
        ckey(true, cell).len() <= 1028,
{
    assert(slot_ok(b, 0)) by {
        assert(crate::page::cell_start_of(b) <= slot_off(b, 0));
    }
    assert(cell_of(b, 0) == cell);
}

/// Two pages written with the two parts of a divided list of leaf cells.
proof fn lemma_leaf_halves(
    s: PagerState,
    s1: PagerState,
    s2: PagerState,
    s3: PagerState,
    id: u32,
    right_id: u32,
    cs: Seq<Seq<u8>>,
    chains: Seq<Seq<u32>>,
    lo: KeyBound,
    hi: KeyBound,
    next: u32,
    at: int,
    left_page: Seq<u8>,
    right_page: Seq<u8>,
)
    requires
        leaf_list(s, id, cs, chains, lo, hi),
        0 < at < cs.len(),
        moved(s, s1, leaf_ids(id, chains), leaf_ids(id, chains).insert(right_id)),
        !leaf_ids(id, chains).contains(right_id),
        forall|x: u32| #[trigger]
            leaf_ids(id, chains).contains(x) ==> same_page(s.pages, s1.pages, x),
        s2.meta == s1.meta,
        s2.pages == s1.pages.insert(id, left_page),
        s3.meta == s2.meta,
        s3.pages == s2.pages.insert(right_id, right_page),
        leaf_page(left_page, id, right_id),
        sane(left_page),
        cells_of(left_page) == cs.take(at),
        leaf_page(right_page, right_id, next),
        sane(right_page),
        cells_of(right_page) == cs.skip(at),
    ensures
        ({
            let l = Tree::Leaf { id, chains: chains.take(at) };
            let r = Tree::Leaf { id: right_id, chains: chains.skip(at) };
            let sep = ckey(true, cs[at]);
            &&& good(s3, l, lo, Some(sep), right_id, 0)
            &&& good(s3, r, Some(sep), hi, next, 0)
            &&& ids_of(l).disjoint(ids_of(r))
            &&& moved(s, s3, leaf_ids(id, chains), ids_of(l).union(ids_of(r)))
            &&& room(s3) == room(s1)
            &&& lo matches Some(b) ==> lex_lt(b, sep)
            &&& hi matches Some(b) ==> lex_lt(sep, b)
            &&& forall|k: Seq<u8>|
                #![trigger leaf_find(s.pages, cs, k)]
                (if lex_lt(k, sep) {
                    find(s3.pages, id, k, 0)
                } else {
                    find(s3.pages, right_id, k, 0)
                }) == leaf_find(s.pages, cs, k)
        }),
{
    reveal(good);
    let a = leaf_ids(id, chains);
    let ar = a.insert(right_id);
    let lc = chains.take(at);
    let rc = chains.skip(at);
    let sep = ckey(true, cs[at]);
    assert(owned(s1, a)) by {
        assert forall|x: u32| #[trigger] a.contains(x) implies 1 <= x < s1.meta.page_count
            && !free_of(s1).contains(x) by {
            assert(ar.contains(x));
        }
    }
    lemma_list_frame(s, s1, id, cs, chains, lo, hi);
    lemma_cells_split(s1.pages, cs, chains, lo, hi, at);
    lemma_ids_split(id, right_id, chains, at);
    let la = leaf_ids(id, lc);
    let ra = leaf_ids(right_id, rc);
    assert(la.union(ra) =~= ar);
    assert(leaf_list(s1, id, cs.take(at), lc, lo, Some(sep))) by {
        assert forall|x: u32| #[trigger] la.contains(x) implies 1 <= x < s1.meta.page_count
            && !free_of(s1).contains(x) by {
            assert(ar.contains(x));
        }
    }
    assert(leaf_list(s1, right_id, cs.skip(at), rc, Some(sep), hi)) by {
        assert forall|x: u32| #[trigger] ra.contains(x) implies 1 <= x < s1.meta.page_count
            && !free_of(s1).contains(x) by {
            assert(ar.contains(x));
        }
    }
    lemma_root_in(Tree::Leaf { id, chains: lc });
    lemma_root_in(Tree::Leaf { id: right_id, chains: rc });
    lemma_moved_write(s1, s2, ar, id, left_page);
    lemma_moved_write(s2, s3, ar, right_id, right_page);
    lemma_moved_trans(s1, s2, s3, ar, ar, ar);
    lemma_moved_trans(s, s1, s3, a, ar, ar);
    lemma_moved_same(s, s3, a, ar, a, la.union(ra));
    // The left list, then the right one, through both writes.
    lemma_list_write(s1, s2, id, cs.take(at), lc, lo, Some(sep), left_page);
    assert forall|x: u32| #[trigger] ra.contains(x) && x != right_id implies same_page(
        s1.pages,
        s2.pages,
        x,
    ) by {
        assert(x != id);
    }
    assert(owned(s2, ra)) by {
        assert forall|x: u32| #[trigger] ra.contains(x) implies 1 <= x < s2.meta.page_count
            && !free_of(s2).contains(x) by {
            assert(ar.contains(x));
        }
    }
    lemma_list_frame(s1, s2, right_id, cs.skip(at), rc, Some(sep), hi);
    lemma_list_write(s2, s3, right_id, cs.skip(at), rc, Some(sep), hi, right_page);
    assert forall|x: u32| #[trigger] la.contains(x) && x != id implies same_page(
        s2.pages,
        s3.pages,
        x,
    ) by {
        assert(x != right_id);
    }
    assert(owned(s3, la)) by {
        assert forall|x: u32| #[trigger] la.contains(x) implies 1 <= x < s3.meta.page_count
            && !free_of(s3).contains(x) by {
            assert(ar.contains(x));
        }
    }
    lemma_list_frame(s2, s3, id, cs.take(at), lc, lo, Some(sep));
    assert(id != right_id);
    lemma_good_leaf(s3, id, lc, left_page, lo, Some(sep), right_id);
    lemma_good_leaf(s3, right_id, rc, right_page, Some(sep), hi, next);
    assert forall|k: Seq<u8>|
        #![trigger leaf_find(s.pages, cs, k)]
        (if lex_lt(k, sep) {
            find(s3.pages, id, k, 0)
        } else {
            find(s3.pages, right_id, k, 0)
        }) == leaf_find(s.pages, cs, k) by {
        assert(leaf_find(s1.pages, cs, k) == leaf_find(s.pages, cs, k));
        if lex_lt(k, sep) {
            assert(find(s3.pages, id, k, 0) == leaf_find(s3.pages, cs.take(at), k));
            assert(leaf_find(s3.pages, cs.take(at), k) == leaf_find(s2.pages, cs.take(at), k));
            assert(leaf_find(s2.pages, cs.take(at), k) == leaf_find(s1.pages, cs.take(at), k));
        } else {
            assert(find(s3.pages, right_id, k, 0) == leaf_find(s3.pages, cs.skip(at), k));
            assert(leaf_find(s3.pages, cs.skip(at), k) == leaf_find(s2.pages, cs.skip(at), k));
            assert(leaf_find(s2.pages, cs.skip(at), k) == leaf_find(s1.pages, cs.skip(at), k));
        }
    }
}

impl BTree {
    /// Inserts into a leaf, splitting when the fill factor is exceeded.
    #[verifier::rlimit(80)]
    #[verifier::spinoff_prover]
    pub(crate) fn insert_into_leaf(
        &self,
        pager: &mut Pager,
        leaf: Page,
        key: &[u8],
        value: &[u8],
        value_len: u32,
        Ghost(t): Ghost<Tree>,
        Ghost(lo): Ghost<KeyBound>,
        Ghost(hi): Ghost<KeyBound>,
        Ghost(next): Ghost<u32>,
    ) -> (r: Result<Inserted>)
        requires
            old(pager).inv(),
            structured(leaf@),
            0 < key@.len() <= MAX_KEY_SIZE,
            value_len == value@.len(),
        ensures
            final(pager).inv(),
            grows(*old(pager), *final(pager)),
            short_split(r),
            good(old(pager)@, t, lo, hi, next, 0) && leaf@ == old(pager)@.pages[id_of(t)]
                && in_range(key@, lo, hi) ==> match r {
                Ok(out) => inserted(
                    old(pager)@,
                    final(pager)@,
                    t,
                    lo,
                    hi,
                    next,
                    0,
                    key@,
                    value@,
                    out,
                ) && room(old(pager)@) <= room(final(pager)@) + spill(key@, value@) + (
                if out.split is Some {
                    1int
                } else {
                    0int
                }) && packs(out) && leaf_took(
                    old(pager)@,
                    final(pager)@,
                    out,
                    key@,
                    self.fill_spec().max as int,
                ),
                Err(e) => e is Full && room(old(pager)@) <= spill(key@, value@),
            },
    {
        proof {
            reveal(good);
        }
        let ghost s0 = pager@;
        let ghost id = id_of(t);
        let ghost chains = t->chains;
        let ghost cs0 = cells_of(leaf@);
        let ghost ok = good(s0, t, lo, hi, next, 0) && leaf@ == s0.pages[id] && in_range(
            key@,
            lo,
            hi,
        );
        let ghost page0 = leaf@;
        proof {
            if ok {
                assert(t == Tree::Leaf { id, chains });
                lemma_root_in(t);
                lemma_leaf_search(s0.pages, leaf@, chains, lo, hi, key@);
                lemma_moved_none(s0, leaf_ids(id, chains));
            }
        }
        let mut leaf: Page = leaf;
        let position = leaf.search(key)?;
        let ghost mut ch1: Seq<Seq<u32>> = chains;
        let idx: usize = match position {
            Ok(i) => {
                drop_cell(
                    pager,
                    &mut leaf,
                    i,
                    Ghost(id),
                    Ghost(chains),
                    Ghost(lo),
                    Ghost(hi),
                )?;
                proof {
                    ch1 = chains.remove(i as int);
                    if ok {
                        assert(cell_key_of(true, cs0[i as int]) == Some(key@));
                        lemma_cells_remove(s0.pages, cs0, chains, lo, hi, i as int);
                    }
                }
                i
            },
            Err(i) => {
                proof {
                    if ok {
                        lemma_search_gap(leaf@, lo, hi, key@, i as int);
                    }
                }
                i
            },
        };
        let ghost s1 = pager@;
        let ghost cs1 = cells_of(leaf@);
        proof {
            if ok {
                assert(leaf_list(s1, id, cs1, ch1, lo, hi));
                assert(gap(cs1, key@, idx as int));
                assert(sane(leaf@));
                assert forall|k: Seq<u8>| k != key@ implies #[trigger] leaf_find(s1.pages, cs1, k)
                    == leaf_find(s0.pages, cs0, k) by {
                    assert(leaf_find(s1.pages, cs1, k) == leaf_find(s0.pages, cs1, k));
                }
            }
        }
        let (cell, Ghost(ids)) = make_cell(pager, key, value, value_len)?;
        let ghost s2 = pager@;
        let ghost ch2 = ch1.insert(idx as int, ids);
        let ghost cs2 = cs1.insert(idx as int, cell@);
        proof {
            if ok {
                lemma_list_grown(s1, s2, id, cs1, ch1, lo, hi, idx as int, cell@, ids);
                lemma_moved_trans(
                    s0,
                    s1,
                    s2,
                    leaf_ids(id, chains),
                    leaf_ids(id, ch1),
                    leaf_ids(id, ch2),
                );
                assert forall|k: Seq<u8>| #[trigger] leaf_find(s2.pages, cs2, k) == if k == key@ {
                    Some(value@)
                } else {
                    leaf_find(s0.pages, cs0, k)
                } by {
                    if k != key@ {
                        assert(leaf_find(s2.pages, cs2, k) == leaf_find(s1.pages, cs1, k));
                        assert(leaf_find(s1.pages, cs1, k) == leaf_find(s0.pages, cs0, k));
                    }
                }
            }
        }
        proof {
            if ok {
                assert(placing(s0, s2, t, cs2, ch2, lo, hi, key@, value@)) by {
                    reveal(placing);
                }
            }
        }
        let out: Inserted = self.place_cell(
            pager,
            leaf,
            idx,
            cell,
            Ghost(s0),
            Ghost(t),
            Ghost(ch2),
            Ghost(lo),
            Ghost(hi),
            Ghost(next),
            Ghost(key@),
            Ghost(value@),
        )?;
        proof {
            if ok {
                assert(cs2.remove(idx as int) =~= cs1);
                assert(joined(page0, cs2, idx as int, key@));
                assert(leaf_took(s0, pager@, out, key@, self.fill_spec().max as int)) by {
                    reveal(leaf_done);
                }
            }
        }
        Ok(out)
    }
}

/// A search that misses tells where the key belongs.
proof fn lemma_search_gap(b: Seq<u8>, lo: KeyBound, hi: KeyBound, key: Seq<u8>, i: int)
    requires
        b.len() == 4096,
        structured(b),
        is_leaf_of(b),
        ascending(true, cells_of(b), lo, hi),
        splits_at(b, key, i),
        0 <= i <= num_keys_of(b),
    ensures
        gap(cells_of(b), key, i),
{
    crate::btree::lemma_keys_of_cells(b, lo, hi);
    let cs = cells_of(b);
    assert forall|j: int| 0 <= j < i implies lex_lt(ckey(true, #[trigger] cs[j]), key) by {
        assert(key_at(b, j) == Some(ckey(true, cs[j])));
    }
    assert forall|j: int| i <= j < cs.len() implies lex_lt(key, ckey(true, #[trigger] cs[j])) by {
        assert(key_at(b, j) == Some(ckey(true, cs[j])));
    }
}

/// A list of leaf cells takes in a new cell and its overflow pages.
proof fn lemma_list_grown(
    s1: PagerState,
    s2: PagerState,
    id: u32,
    cs: Seq<Seq<u8>>,
    chains: Seq<Seq<u32>>,
    lo: KeyBound,
    hi: KeyBound,
    idx: int,
    cell: Seq<u8>,
    ids: Seq<u32>,
)
    requires
        leaf_list(s1, id, cs, chains, lo, hi),
        took(s1, s2, ids),
        leaf_ok(cell),
        cell_key_of(true, cell) is Some,
        in_range(ckey(true, cell), lo, hi),
        gap(cs, ckey(true, cell), idx),
        chained(s2.pages, cell, ids),
        cell.len() <= 1036,
        0 < ckey(true, cell).len() <= MAX_KEY_SIZE,
        leaf_overflows(cell) ==> ids.len() == chunks_of(u32_at(cell, 4) as nat),
    ensures
        leaf_list(s2, id, cs.insert(idx, cell), chains.insert(idx, ids), lo, hi),
        moved(s1, s2, leaf_ids(id, chains), leaf_ids(id, chains.insert(idx, ids))),
        room(s2) == room(s1) - ids.len(),
        leaf_find(s2.pages, cs.insert(idx, cell), ckey(true, cell)) == Some(
            cell_value(s2.pages, cell),
        ),
        forall|k: Seq<u8>|
            k != ckey(true, cell) ==> #[trigger] leaf_find(s2.pages, cs.insert(idx, cell), k)
                == leaf_find(s1.pages, cs, k),
{
    let a = leaf_ids(id, chains);
    lemma_root_in(Tree::Leaf { id, chains });
    lemma_moved_took(s1, s2, a, ids);
    lemma_leaf_ids_insert(id, chains, idx, ids);
    lemma_distinct_insert(id, chains, idx, ids);
    lemma_moved_same(
        s1,
        s2,
        a,
        a.union(ids.to_set()),
        a,
        leaf_ids(id, chains.insert(idx, ids)),
    );
    assert(owned(s2, a)) by {
        assert forall|x: u32| #[trigger] a.contains(x) implies 1 <= x < s2.meta.page_count
            && !free_of(s2).contains(x) by {
            assert(a.union(ids.to_set()).contains(x));
        }
    }
    lemma_list_frame(s1, s2, id, cs, chains, lo, hi);
    lemma_cells_insert(s2.pages, cs, chains, lo, hi, idx, cell, ids);
    assert forall|k: Seq<u8>| k != ckey(true, cell) implies #[trigger] leaf_find(
        s2.pages,
        cs.insert(idx, cell),
        k,
    ) == leaf_find(s1.pages, cs, k) by {
        assert(leaf_find(s2.pages, cs, k) == leaf_find(s1.pages, cs, k));
    }
}

/// What the free space of a page leaves for its cells.
proof fn lemma_space(b: Seq<u8>)
    requires
        sane(b),
    ensures
        crate::page::free_of(b) > 0 ==> used_bytes(cells_of(b)) + crate::page::free_of(b)
            <= USABLE_SPACE,
{
}

/// A page that holds all the cells.
proof fn lemma_laid_whole(
    next: u32,
    p: Map<u32, Seq<u8>>,
    x: u32,
    cs: Seq<Seq<u8>>,
    idx: int,
    max: int,
)
    requires
        cells_of(p[x]) == cs,
        (used_bytes(cs) <= max && used_bytes(cs) <= USABLE_SPACE) || cs.len() == 1,
    ensures
        laid_out(next, p, x, x, cs, idx, 0, max),
{
}

impl BTree {
    /// Whether a cell that needs so much space is to be put on the page as it
    /// is. Removed cells leave holes, which are closed before either limit is
    /// judged, so that they never force a split.
    fn keeps_whole(&self, leaf: &mut Page, need: usize) -> (r: Result<bool>)
        requires
            structured(old(leaf)@),
            need <= 70_004,
        ensures
            structured(final(leaf)@),
            same_header(old(leaf)@, final(leaf)@),
            cells_of(final(leaf)@) == cells_of(old(leaf)@),
            sane(old(leaf)@) ==> sane(final(leaf)@) && r is Ok && r->Ok_0 == ({
                let used = used_bytes(cells_of(old(leaf)@)) + need;
                used <= USABLE_SPACE && (used <= self.fill_spec().max || cells_of(
                    old(leaf)@,
                ).len() == 0)
            }),
    {
        let max_used: usize = self.fill_factor().max_used_bytes();
        proof {
            if sane(leaf@) {
                lemma_space(leaf@);
            }
        }
        if need > leaf.free_space() || USABLE_SPACE - leaf.free_space() > max_used || need
            > max_used - (USABLE_SPACE - leaf.free_space()) {
            leaf.compact()?;
        }
        let used: usize = USABLE_SPACE - leaf.free_space();
        let fits: bool = need <= leaf.free_space();
        let within_fill: bool = used <= max_used && need <= max_used - used;
        Ok(fits && (within_fill || leaf.num_keys() == 0))
    }

    /// Puts the cell on the page, or splits the page around it.
    #[verifier::rlimit(60)]
    #[verifier::spinoff_prover]
    fn place_cell(
        &self,
        pager: &mut Pager,
        leaf: Page,
        idx: usize,
        cell: Vec<u8>,
        Ghost(s0): Ghost<PagerState>,
        Ghost(t): Ghost<Tree>,
        Ghost(chains): Ghost<Seq<Seq<u32>>>,
        Ghost(lo): Ghost<KeyBound>,
        Ghost(hi): Ghost<KeyBound>,
        Ghost(next): Ghost<u32>,
        Ghost(key): Ghost<Seq<u8>>,
        Ghost(value): Ghost<Seq<u8>>,
    ) -> (r: Result<Inserted>)
        requires
            old(pager).inv(),
            structured(leaf@),
            cell@.len() <= 70_000,
            idx <= num_keys_of(leaf@),
        ensures
            final(pager).inv(),
            grows(*old(pager), *final(pager)),
            short_split(r),
            ({
                let s = old(pager)@;
                let id = id_of(t);
                let cs = cells_of(leaf@).insert(idx as int, cell@);
                leaf_page(leaf@, id, next) && sane(leaf@) && placing(
                    s0,
                    s,
                    t,
                    cs,
                    chains,
                    lo,
                    hi,
                    key,
                    value,
                ) ==> match r {
                    Ok(out) => inserted(
                        s0,
                        final(pager)@,
                        t,
                        lo,
                        hi,
                        next,
                        0,
                        key,
                        value,
                        out,
                    ) && room(final(pager)@) == room(s) - (if out.split is Some {
                        1int
                    } else {
                        0int
                    }) && packs(out) && out.leaf@ == id && out_ids(out).contains(id) && out_ids(
                        out,
                    ).contains(out.other@) && final(pager)@.pages.contains_key(id)
                        && final(pager)@.pages.contains_key(out.other@) && (exists|at: int| #[trigger]
                        laid_out(
                            next,
                            final(pager)@.pages,
                            id,
                            out.other@,
                            cs,
                            idx as int,
                            at,
                            self.fill_spec().max as int,
                        )),
                    Err(e) => e is Full && room(s) == 0,
                }
            }),
    {
        let ghost s = pager@;
        let ghost id = id_of(t);
        let ghost cs = cells_of(leaf@).insert(idx as int, cell@);
        let ghost max = self.fill_spec().max as int;
        let ghost ok = leaf_page(leaf@, id, next) && sane(leaf@) && placing(
            s0,
            s,
            t,
            cs,
            chains,
            lo,
            hi,
            key,
            value,
        );
        let mut leaf: Page = leaf;
        proof {
            if ok {
                lemma_placing(s0, s, t, cs, chains, lo, hi, key, value);
                lemma_cell_bytes_insert(cells_of(leaf@), idx as int, cell@);
            }
        }
        if self.keeps_whole(&mut leaf, cell.len() + SLOT_SIZE)? {
            leaf.insert_cell_at(idx, cell.as_slice())?;
            let ghost page = leaf@;
            pager.write_page(leaf);
            let ghost l = Tree::Leaf { id, chains };
            proof {
                if ok {
                    lemma_placed_whole(s0, s, pager@, t, cs, chains, lo, hi, next, key, value, page);
                    lemma_laid_whole(next, pager@.pages, id, cs, idx as int, max);
                    lemma_root_in(l);
                }
            }
            return Ok(
                Inserted {
                    split: None,
                    left: Ghost(l),
                    right: Ghost(l),
                    leaf: Ghost(id),
                    other: Ghost(id),
                },
            );
        }
        proof {
            if ok {
                assert(cs.len() >= 2) by {
                    if num_keys_of(leaf@) == 0 {
                        assert(cells_of(leaf@) =~= Seq::<Seq<u8>>::empty());
                        lemma_empty_page_fits(leaf@);
                    }
                }
            }
        }
        let out: Inserted = split_leaf(
            pager,
            leaf,
            idx,
            cell,
            Ghost(id),
            Ghost(chains),
            Ghost(lo),
            Ghost(hi),
            Ghost(next),
        )?;
        proof {
            if ok {
                let at = out.left@->chains.len() as int;
                let split = out.split->0;
                lemma_root_in(out.left@);
                lemma_root_in(out.right@);
                lemma_good_page(
                    pager@,
                    out.left@,
                    lo,
                    Some(split.key@),
                    first_of(out.right@),
                    0,
                );
                lemma_good_page(pager@, out.right@, Some(split.key@), hi, next, 0);
                assert(laid_out(next, pager@.pages, id, out.other@, cs, idx as int, at, max));
                lemma_placed_halves(s0, s, pager@, t, cs, chains, lo, hi, next, key, value, out);
            }
        }
        Ok(out)
    }
}

/// A leaf's cells with that of a key, ready to be put on pages: `s0` is the
/// state before the insert, and `s` that with the pages of the value.
#[verifier::opaque]
pub open spec fn placing(
    s0: PagerState,
    s: PagerState,
    t: Tree,
    cs: Seq<Seq<u8>>,
    chains: Seq<Seq<u32>>,
    lo: KeyBound,
    hi: KeyBound,
    key: Seq<u8>,
    value: Seq<u8>,
) -> bool {
    &&& leaf_list(s, id_of(t), cs, chains, lo, hi)
    &&& t is Leaf
    &&& moved(s0, s, ids_of(t), leaf_ids(id_of(t), chains))
    &&& forall|k: Seq<u8>| #[trigger]
        leaf_find(s.pages, cs, k) == if k == key {
            Some(value)
        } else {
            find(s0.pages, id_of(t), k, 0)
        }
}

proof fn lemma_placing(
    s0: PagerState,
    s: PagerState,
    t: Tree,
    cs: Seq<Seq<u8>>,
    chains: Seq<Seq<u32>>,
    lo: KeyBound,
    hi: KeyBound,
    key: Seq<u8>,
    value: Seq<u8>,
)
    requires
        placing(s0, s, t, cs, chains, lo, hi, key, value),
    ensures
        leaf_list(s, id_of(t), cs, chains, lo, hi),
        chains.len() == cs.len(),
        t is Leaf,
{
    reveal(placing);
}

/// All cells went on the leaf's page.
#[verifier::spinoff_prover]
proof fn lemma_placed_whole(
    s0: PagerState,
    s: PagerState,
    s2: PagerState,
    t: Tree,
    cs: Seq<Seq<u8>>,
    chains: Seq<Seq<u32>>,
    lo: KeyBound,
    hi: KeyBound,
    next: u32,
    key: Seq<u8>,
    value: Seq<u8>,
    page: Seq<u8>,
)
    requires
        placing(s0, s, t, cs, chains, lo, hi, key, value),
        s2.meta == s.meta,
        s2.pages == s.pages.insert(id_of(t), page),
        leaf_page(page, id_of(t), next),
        sane(page),
        cells_of(page) == cs,
    ensures
        whole(
            s0,
            s2,
            t,
            lo,
            hi,
            next,
            0,
            key,
            value,
            Tree::Leaf { id: id_of(t), chains },
        ),
        room(s2) == room(s),
{
    reveal(placing);
    reveal(good);
    let id = id_of(t);
    lemma_list_write(s, s2, id, cs, chains, lo, hi, page);
    lemma_good_leaf(s2, id, chains, page, lo, hi, next);
    lemma_moved_trans(s0, s, s2, ids_of(t), leaf_ids(id, chains), leaf_ids(id, chains));
    assert forall|k: Seq<u8>| in_range(k, lo, hi) implies #[trigger] find(s2.pages, id, k, 0)
        == if k == key {
        Some(value)
    } else {
        find(s0.pages, id, k, 0)
    } by {
        assert(leaf_find(s2.pages, cs, k) == leaf_find(s.pages, cs, k));
    }
}

/// The cells went on two pages.
#[verifier::spinoff_prover]
proof fn lemma_placed_halves(
    s0: PagerState,
    s: PagerState,
    s2: PagerState,
    t: Tree,
    cs: Seq<Seq<u8>>,
    chains: Seq<Seq<u32>>,
    lo: KeyBound,
    hi: KeyBound,
    next: u32,
    key: Seq<u8>,
    value: Seq<u8>,
    out: Inserted,
)
    requires
        placing(s0, s, t, cs, chains, lo, hi, key, value),
        out.split matches Some(split) && split.key@.len() <= 1028 && (lo matches Some(b) ==> lex_lt(
            b,
            split.key@,
        )) && (hi matches Some(b) ==> lex_lt(split.key@, b)) && good(
            s2,
            out.left@,
            lo,
            Some(split.key@),
            first_of(out.right@),
            0,
        ) && good(s2, out.right@, Some(split.key@), hi, next, 0),
        id_of(out.left@) == id_of(t),
        first_of(out.left@) == id_of(t),
        ids_of(out.left@).disjoint(ids_of(out.right@)),
        moved(
            s,
            s2,
            leaf_ids(id_of(t), chains),
            ids_of(out.left@).union(ids_of(out.right@)),
        ),
        forall|k: Seq<u8>|
            #![trigger leaf_find(s.pages, cs, k)]
            (if lex_lt(k, out.split->0.key@) {
                find(s2.pages, id_of(out.left@), k, 0)
            } else {
                find(s2.pages, id_of(out.right@), k, 0)
            }) == leaf_find(s.pages, cs, k),
    ensures
        halved(
            s0,
            s2,
            t,
            lo,
            hi,
            next,
            0,
            key,
            value,
            out.left@,
            out.right@,
            out.split->0.key@,
        ),
{
    reveal(placing);
    let split = out.split->0;
    lemma_moved_trans(
        s0,
        s,
        s2,
        ids_of(t),
        leaf_ids(id_of(t), chains),
        ids_of(out.left@).union(ids_of(out.right@)),
    );
    assert forall|k: Seq<u8>|
        #![trigger find(s2.pages, id_of(out.left@), k, 0)]
        #![trigger find(s2.pages, id_of(out.right@), k, 0)]
        in_range(k, lo, hi) implies (if lex_lt(k, split.key@) {
        find(s2.pages, id_of(out.left@), k, 0)
    } else {
        find(s2.pages, id_of(out.right@), k, 0)
    }) == if k == key {
        Some(value)
    } else {
        find(s0.pages, id_of(t), k, 0)
    } by {
        assert(leaf_find(s.pages, cs, k) == if k == key {
            Some(value)
        } else {
            find(s0.pages, id_of(t), k, 0)
        });
    }
}

/// After compaction an empty page has all its space free.
proof fn lemma_empty_page_fits(b: Seq<u8>)
    requires
        num_keys_of(b) == 0,
    ensures
        crate::page::used_bytes(cells_of(b)) == 0,
{
    assert(cells_of(b) =~= Seq::<Seq<u8>>::empty());
}

} // verus!

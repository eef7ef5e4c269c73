//! Inserting into the tree: down to a leaf, and back up with its splits.

use crate::btree::insert::{
    copy_cells, fill_page, lemma_division_exists, lemma_used_bound, split_point, views,
};
use crate::btree::leaf::{
    halved, inserted, leaf_done, leaf_took, lemma_leaf_done_frame, out_ids, packs, short_split, spill, whole,
    Inserted, Split,
};
use crate::btree::moves::{
    lemma_moved_alloc, lemma_moved_beside, lemma_moved_same, lemma_moved_trans, lemma_moved_write,
    moved, room, same_page,
};
use crate::btree::node::{
    kid_find, kids_ids, lemma_kid_find, lemma_list_divided, lemma_list_halved, lemma_list_replaced,
    lemma_node_close, lemma_node_list_frame, lemma_node_open, node_ids, node_list,
};
use crate::btree::packed::{beyond, dense, lemma_last_slot, packed, wide};
use crate::btree::{
    ascending, child_at, child_of, child_slot_for, ckey, contents, decode_internal_cell, find,
    first_of, good, hi_at, id_of, ids_of, holds, in_range, kids_apart, lemma_find_fuel,
    lemma_keys_of_cells, lemma_root_in, lemma_routed_unique, lemma_unbounded, lo_at, next_at,
    node_page, owned, routed, tree_at, tree_ok, uniform, BTree, KeyBound, Tree, MAX_DEPTH,
};
use crate::bytes::{lex_lt, u32_at};
use crate::error::{Error, Result};
use crate::page::{
    cell_key_of, cells_of, extra_of, internal_bytes, is_leaf_of, law_internal_cell_roundtrip,
    lemma_cell_bytes_insert, lemma_page_len, num_keys_of, page_id_of, sane, structured, used_bytes,
    MetaData, Page, PageType, MAX_KEY_SIZE, SENTINEL, SLOT_SIZE,
};
use crate::pager::{free_of, grows, lemma_grows_same, lemma_grows_then, Pager, PagerState};
use vstd::prelude::*;

verus! {

broadcast use {lemma_page_len, lemma_grows_same, lemma_grows_then};

/// A node's page and the children it is about to have, between states: the
/// page holds `cs`, and `ds` are the separators that the children `ks` need.
#[verifier::opaque]
pub open spec fn pending(
    s: PagerState,
    b: Seq<u8>,
    id: u32,
    ds: Seq<Seq<u8>>,
    ks: Seq<Tree>,
    lo: KeyBound,
    hi: KeyBound,
    next: u32,
    h: nat,
) -> bool {
    &&& node_page(b, id)
    &&& sane(b)
    &&& extra_of(b) == id_of(ks[0])
    &&& node_list(s, ds, ks, lo, hi, next, h)
    &&& !kids_ids(ks).contains(id)
    &&& owned(s, node_ids(id, ks))
}

/// A node and the list of its children own the same pages.
pub proof fn lemma_node_ids(id: u32, ks: Seq<Tree>)
    ensures
        node_ids(id, ks) =~= kids_ids(ks).insert(id),
{
}

/// Writing the page of a node whose children are in place.
#[verifier::spinoff_prover]
proof fn lemma_node_written(
    s: PagerState,
    s2: PagerState,
    b: Seq<u8>,
    id: u32,
    ds: Seq<Seq<u8>>,
    ks: Seq<Tree>,
    lo: KeyBound,
    hi: KeyBound,
    next: u32,
    h: nat,
)
    requires
        pending(s, b, id, ds, ks, lo, hi, next, h),
        cells_of(b) == ds,
        s2.meta == s.meta,
        s2.pages == s.pages.insert(id, b),
    ensures
        good(s2, Tree::Node { id, kids: ks }, lo, hi, next, h + 1),
        moved(s, s2, node_ids(id, ks), node_ids(id, ks)),
        room(s2) == room(s),
        forall|k: Seq<u8>| #[trigger]
            find(s2.pages, id, k, h + 1) == kid_find(s.pages, ds, ks, k, h),
{
    reveal(pending);
    let a = node_ids(id, ks);
    lemma_node_ids(id, ks);
    lemma_moved_write(s, s2, a, id, b);
    assert forall|x: u32| #[trigger] kids_ids(ks).contains(x) implies same_page(
        s.pages,
        s2.pages,
        x,
    ) && 1 <= x < s2.meta.page_count && !free_of(s2).contains(x) by {
        assert(a.contains(x));
        assert(x != id);
    }
    lemma_node_list_frame(s, s2, ds, ks, lo, hi, next, h);
    assert(a.contains(id));
    lemma_node_close(s2, id, ks, b, lo, hi, next, h);
}

/// Writing both halves of a divided node.
#[verifier::rlimit(40)]
#[verifier::spinoff_prover]
proof fn lemma_node_halves(
    s: PagerState,
    s1: PagerState,
    s2: PagerState,
    s3: PagerState,
    id: u32,
    right_id: u32,
    ds: Seq<Seq<u8>>,
    ks: Seq<Tree>,
    lo: KeyBound,
    hi: KeyBound,
    next: u32,
    h: nat,
    m: int,
    lp: Seq<u8>,
    rp: Seq<u8>,
)
    requires
        node_list(s, ds, ks, lo, hi, next, h),
        !kids_ids(ks).contains(id),
        owned(s, node_ids(id, ks)),
        0 <= m < ds.len(),
        moved(s, s1, node_ids(id, ks), node_ids(id, ks).insert(right_id)),
        !node_ids(id, ks).contains(right_id),
        forall|x: u32| #[trigger]
            node_ids(id, ks).contains(x) ==> same_page(s.pages, s1.pages, x),
        s2.meta == s1.meta,
        s2.pages == s1.pages.insert(id, lp),
        s3.meta == s2.meta,
        s3.pages == s2.pages.insert(right_id, rp),
        node_page(lp, id),
        sane(lp),
        extra_of(lp) == id_of(ks[0]),
        cells_of(lp) == ds.take(m),
        node_page(rp, right_id),
        sane(rp),
        extra_of(rp) == u32_at(ds[m], 2),
        cells_of(rp) == ds.skip(m + 1),
    ensures
        ({
            let l = Tree::Node { id, kids: ks.take(m + 1) };
            let r = Tree::Node { id: right_id, kids: ks.skip(m + 1) };
            let sep = ckey(false, ds[m]);
            &&& good(s3, l, lo, Some(sep), first_of(r), h + 1)
            &&& good(s3, r, Some(sep), hi, next, h + 1)
            &&& ids_of(l).disjoint(ids_of(r))
            &&& moved(s, s3, node_ids(id, ks), ids_of(l).union(ids_of(r)))
            &&& room(s3) == room(s1)
            &&& sep.len() <= 1028
            &&& first_of(l) == first_of(ks[0])
            &&& lo matches Some(b) ==> lex_lt(b, sep)
            &&& hi matches Some(b) ==> lex_lt(sep, b)
            &&& forall|k: Seq<u8>|
                #![trigger kid_find(s.pages, ds, ks, k, h)]
                (if lex_lt(k, sep) {
                    find(s3.pages, id, k, h + 1)
                } else {
                    find(s3.pages, right_id, k, h + 1)
                }) == kid_find(s.pages, ds, ks, k, h)
        }),
{
    let a = node_ids(id, ks);
    let ar = a.insert(right_id);
    let lk = ks.take(m + 1);
    let rk = ks.skip(m + 1);
    let lc = ds.take(m);
    let rc = ds.skip(m + 1);
    let sep = ckey(false, ds[m]);
    let l = Tree::Node { id, kids: lk };
    let r = Tree::Node { id: right_id, kids: rk };
    lemma_node_ids(id, ks);
    lemma_node_ids(id, lk);
    lemma_node_ids(right_id, rk);
    lemma_list_divided(s, ds, ks, lo, hi, next, h, m);
    assert(ids_of(l).union(ids_of(r)) =~= ar);
    lemma_moved_write(s1, s2, ar, id, lp);
    lemma_moved_write(s2, s3, ar, right_id, rp);
    lemma_moved_trans(s1, s2, s3, ar, ar, ar);
    lemma_moved_trans(s, s1, s3, a, ar, ar);
    lemma_moved_same(s, s3, a, ar, a, ids_of(l).union(ids_of(r)));
    assert forall|x: u32| #[trigger] kids_ids(ks).contains(x) implies same_page(
        s.pages,
        s3.pages,
        x,
    ) && 1 <= x < s3.meta.page_count && !free_of(s3).contains(x) by {
        assert(a.contains(x) && ar.contains(x));
        assert(x != id && x != right_id);
        assert(same_page(s.pages, s1.pages, x));
    }
    assert forall|x: u32| #[trigger] kids_ids(lk).contains(x) implies same_page(
        s.pages,
        s3.pages,
        x,
    ) && 1 <= x < s3.meta.page_count && !free_of(s3).contains(x) by {
        assert(kids_ids(ks).contains(x));
    }
    assert forall|x: u32| #[trigger] kids_ids(rk).contains(x) implies same_page(
        s.pages,
        s3.pages,
        x,
    ) && 1 <= x < s3.meta.page_count && !free_of(s3).contains(x) by {
        assert(kids_ids(ks).contains(x));
    }
    lemma_node_list_frame(s, s3, lc, lk, lo, Some(sep), first_of(rk[0]), h);
    lemma_node_list_frame(s, s3, rc, rk, Some(sep), hi, next, h);
    assert(ar.contains(id) && ar.contains(right_id));
    assert(lk[0] == ks[0]);
    assert(first_of(r) == first_of(rk[0]));
    assert(first_of(l) == first_of(lk[0]));
    assert(id != right_id);
    lemma_node_close(s3, id, lk, lp, lo, Some(sep), first_of(r), h);
    lemma_node_close(s3, right_id, rk, rp, Some(sep), hi, next, h);
    assert forall|k: Seq<u8>|
        #![trigger kid_find(s.pages, ds, ks, k, h)]
        (if lex_lt(k, sep) {
            find(s3.pages, id, k, h + 1)
        } else {
            find(s3.pages, right_id, k, h + 1)
        }) == kid_find(s.pages, ds, ks, k, h) by {
        assert(find(s3.pages, id, k, h + 1) == kid_find(s3.pages, lc, lk, k, h));
        assert(find(s3.pages, right_id, k, h + 1) == kid_find(s3.pages, rc, rk, k, h));
        assert(kid_find(s3.pages, lc, lk, k, h) == kid_find(s.pages, lc, lk, k, h));
        assert(kid_find(s3.pages, rc, rk, k, h) == kid_find(s.pages, rc, rk, k, h));
    }
}

/// What putting a separator into a node leaves behind.
#[verifier::opaque]
pub open spec fn absorbed(
    s: PagerState,
    s2: PagerState,
    id: u32,
    ds: Seq<Seq<u8>>,
    ks: Seq<Tree>,
    lo: KeyBound,
    hi: KeyBound,
    next: u32,
    h: nat,
    out: Inserted,
) -> bool {
    let a = node_ids(id, ks);
    &&& id_of(out.left@) == id
    &&& first_of(out.left@) == first_of(ks[0])
    &&& forall|x: u32| #[trigger] kids_ids(ks).contains(x) ==> same_page(s.pages, s2.pages, x)
    &&& match out.split {
        None => {
            &&& good(s2, out.left@, lo, hi, next, h + 1)
            &&& moved(s, s2, a, ids_of(out.left@))
            &&& room(s2) == room(s)
            &&& forall|k: Seq<u8>| #[trigger]
                find(s2.pages, id, k, h + 1) == kid_find(s.pages, ds, ks, k, h)
        },
        Some(split) => {
            let sep = split.key@;
            &&& split.right == id_of(out.right@)
            &&& good(s2, out.left@, lo, Some(sep), first_of(out.right@), h + 1)
            &&& good(s2, out.right@, Some(sep), hi, next, h + 1)
            &&& ids_of(out.left@).disjoint(ids_of(out.right@))
            &&& moved(s, s2, a, ids_of(out.left@).union(ids_of(out.right@)))
            &&& room(s2) == room(s) - 1
            &&& sep.len() <= 1028
            &&& lo matches Some(b) ==> lex_lt(b, sep)
            &&& hi matches Some(b) ==> lex_lt(sep, b)
            &&& forall|k: Seq<u8>|
                #![trigger kid_find(s.pages, ds, ks, k, h)]
                (if lex_lt(k, sep) {
                    find(s2.pages, id, k, h + 1)
                } else {
                    find(s2.pages, split.right, k, h + 1)
                }) == kid_find(s.pages, ds, ks, k, h)
        },
    }
}

/// A node was divided behind child `m`.
pub open spec fn cut_at(id: u32, ks: Seq<Tree>, m: int, out: Inserted) -> bool {
    &&& 0 <= m < ks.len() - 1
    &&& out.left@ == (Tree::Node { id, kids: ks.take(m + 1) })
    &&& out.right@ == (Tree::Node { id: out.split->0.right, kids: ks.skip(m + 1) })
}

/// What becomes of the children `ks` of a node once child `j` was split: they
/// stay together or, if there are many, are divided. If the last child was split,
/// all but its new sibling stay.
pub open spec fn shaped(id: u32, ks: Seq<Tree>, j: int, out: Inserted) -> bool {
    if out.split is Some {
        &&& ks.len() >= 5
        &&& exists|m: int| #[trigger] cut_at(id, ks, m, out) && (j == ks.len() - 2 ==> m == j)
    } else {
        out.left@ == (Tree::Node { id, kids: ks })
    }
}

/// No child's page is lost.
proof fn lemma_shaped_ids(id: u32, ks: Seq<Tree>, j: int, out: Inserted, x: u32)
    requires
        shaped(id, ks, j, out),
        kids_ids(ks).contains(x),
    ensures
        out_ids(out).contains(x),
{
    let i = choose|i: int| 0 <= i < ks.len() && ids_of(#[trigger] ks[i]).contains(x);
    if out.split is Some {
        let m = choose|m: int| #[trigger] cut_at(id, ks, m, out) && (j == ks.len() - 2 ==> m == j);
        if i <= m {
            assert(ks.take(m + 1)[i] == ks[i]);
            assert(ids_of(out.left@).contains(x));
        } else {
            assert(ks.skip(m + 1)[i - m - 1] == ks[i]);
            assert(ids_of(out.right@).contains(x));
        }
    } else {
        assert(ids_of(out.left@).contains(x));
    }
}

/// The pages of a split child are among the children's.
proof fn lemma_kept_ids(kids: Seq<Tree>, j: int, l: Tree, r: Tree, x: u32)
    requires
        0 <= j < kids.len(),
        ids_of(l).contains(x) || ids_of(r).contains(x),
    ensures
        kids_ids(kids.update(j, l).insert(j + 1, r)).contains(x),
{
    let ks = kids.update(j, l).insert(j + 1, r);
    assert(ks[j] == l);
    assert(ks[j + 1] == r);
}

/// Putting a separator into a node changes no page of the children.
proof fn lemma_absorbed_keeps(
    s1: PagerState,
    s2: PagerState,
    id: u32,
    kids: Seq<Tree>,
    j: int,
    l: Tree,
    r: Tree,
    ds: Seq<Seq<u8>>,
    lo: KeyBound,
    hi: KeyBound,
    next: u32,
    h: nat,
    up: Inserted,
    x: u32,
)
    requires
        0 <= j < kids.len(),
        ids_of(l).contains(x) || ids_of(r).contains(x),
        absorbed(s1, s2, id, ds, kids.update(j, l).insert(j + 1, r), lo, hi, next, h, up),
        shaped(id, kids.update(j, l).insert(j + 1, r), j, up),
    ensures
        out_ids(up).contains(x),
        same_page(s1.pages, s2.pages, x),
{
    let ks = kids.update(j, l).insert(j + 1, r);
    lemma_kept_ids(kids, j, l, r, x);
    lemma_shaped_ids(id, ks, j, up, x);
    reveal(absorbed);
}

/// A packed node took the halves of its last child.
proof fn lemma_shaped_packs(id: u32, kids: Seq<Tree>, l: Tree, r: Tree, out: Inserted)
    requires
        packed(Tree::Node { id, kids }),
        dense(l),
        packed(r),
        shaped(
            id,
            kids.update(kids.len() - 1, l).insert(kids.len() as int, r),
            kids.len() - 1,
            out,
        ),
    ensures
        packs(out),
{
    let n = kids.len() as int;
    let ks = kids.update(n - 1, l).insert(n, r);
    assert forall|i: int| 0 <= i < n implies dense(#[trigger] ks[i]) by {
        if i < n - 1 {
            assert(ks[i] == kids[i]);
        }
    }
    assert(ks[n] == r);
    if out.split is Some {
        let m = choose|m: int|
            #[trigger] cut_at(id, ks, m, out) && (n - 1 == ks.len() - 2 ==> m == n - 1);
        let lk = ks.take(m + 1);
        let rk = ks.skip(m + 1);
        assert(rk =~= seq![r]);
        assert forall|i: int| 0 <= i < lk.len() implies dense(#[trigger] lk[i]) by {
            assert(lk[i] == ks[i]);
        }
    }
}

/// Short separators take up little.
proof fn lemma_used_short(cs: Seq<Seq<u8>>)
    requires
        forall|i: int| 0 <= i < cs.len() ==> (#[trigger] cs[i]).len() <= 1034,
    ensures
        used_bytes(cs) <= 1038 * cs.len(),
    decreases cs.len(),
{
    if cs.len() > 0 {
        let d = cs.drop_last();
        assert forall|i: int| 0 <= i < d.len() implies (#[trigger] d[i]).len() <= 1034 by {
            assert(d[i] == cs[i]);
        }
        lemma_used_short(d);
        assert(cs.last() == cs[cs.len() - 1]);
    }
}

/// What the code needs to know of a pending node.
proof fn lemma_pending(
    s: PagerState,
    b: Seq<u8>,
    id: u32,
    ds: Seq<Seq<u8>>,
    ks: Seq<Tree>,
    lo: KeyBound,
    hi: KeyBound,
    next: u32,
    h: nat,
)
    requires
        pending(s, b, id, ds, ks, lo, hi, next, h),
    ensures
        node_page(b, id),
        sane(b),
        extra_of(b) == id_of(ks[0]),
        owned(s, node_ids(id, ks)),
        ks.len() == ds.len() + 1,
        forall|i: int|
            0 <= i < ds.len() ==> (#[trigger] ds[i]).len() <= 1034 && cell_key_of(false, ds[i]) is Some,
        forall|b2: Seq<u8>|
            node_page(b2, id) && sane(b2) && extra_of(b2) == extra_of(b) ==> #[trigger] pending(
                s,
                b2,
                id,
                ds,
                ks,
                lo,
                hi,
                next,
                h,
            ),
{
    reveal(pending);
}

/// The node had space for the separator.
proof fn lemma_absorb_whole(
    s: PagerState,
    s2: PagerState,
    b: Seq<u8>,
    id: u32,
    ds: Seq<Seq<u8>>,
    ks: Seq<Tree>,
    lo: KeyBound,
    hi: KeyBound,
    next: u32,
    h: nat,
    out: Inserted,
)
    requires
        pending(s, b, id, ds, ks, lo, hi, next, h),
        cells_of(b) == ds,
        s2.meta == s.meta,
        s2.pages == s.pages.insert(id, b),
        out.split is None,
        out.left@ == (Tree::Node { id, kids: ks }),
    ensures
        absorbed(s, s2, id, ds, ks, lo, hi, next, h, out),
{
    lemma_pending(s, b, id, ds, ks, lo, hi, next, h);
    lemma_node_written(s, s2, b, id, ds, ks, lo, hi, next, h);
    reveal(absorbed);
    reveal(pending);
}

/// The node was divided.
proof fn lemma_absorb_halves(
    s: PagerState,
    s1: PagerState,
    s2: PagerState,
    s3: PagerState,
    b: Seq<u8>,
    id: u32,
    right_id: u32,
    ds: Seq<Seq<u8>>,
    ks: Seq<Tree>,
    lo: KeyBound,
    hi: KeyBound,
    next: u32,
    h: nat,
    m: int,
    lp: Seq<u8>,
    rp: Seq<u8>,
    out: Inserted,
)
    requires
        pending(s, b, id, ds, ks, lo, hi, next, h),
        0 <= m < ds.len(),
        moved(s, s1, node_ids(id, ks), node_ids(id, ks).insert(right_id)),
        !node_ids(id, ks).contains(right_id),
        forall|x: u32| #[trigger]
            node_ids(id, ks).contains(x) ==> same_page(s.pages, s1.pages, x),
        room(s1) == room(s) - 1,
        s2.meta == s1.meta,
        s2.pages == s1.pages.insert(id, lp),
        s3.meta == s2.meta,
        s3.pages == s2.pages.insert(right_id, rp),
        node_page(lp, id),
        sane(lp),
        extra_of(lp) == extra_of(b),
        cells_of(lp) == ds.take(m),
        node_page(rp, right_id),
        sane(rp),
        extra_of(rp) == u32_at(ds[m], 2),
        cells_of(rp) == ds.skip(m + 1),
        out.split matches Some(split) && cell_key_of(false, ds[m]) == Some(split.key@)
            && split.right == right_id,
        out.left@ == (Tree::Node { id, kids: ks.take(m + 1) }),
        out.right@ == (Tree::Node { id: right_id, kids: ks.skip(m + 1) }),
    ensures
        absorbed(s, s3, id, ds, ks, lo, hi, next, h, out),
{
    reveal(pending);
    lemma_node_halves(s, s1, s2, s3, id, right_id, ds, ks, lo, hi, next, h, m, lp, rp);
    lemma_node_ids(id, ks);
    assert forall|x: u32| #[trigger] kids_ids(ks).contains(x) implies same_page(
        s.pages,
        s3.pages,
        x,
    ) by {
        assert(node_ids(id, ks).contains(x));
    }
    reveal(absorbed);
}

/// Puts the separator and right half of a split child into its parent, which
/// splits in turn when it has no space.
#[verifier::rlimit(60)]
#[verifier::spinoff_prover]
fn absorb_split(
    pager: &mut Pager,
    node: Page,
    split: Split,
    Ghost(ks): Ghost<Seq<Tree>>,
    Ghost(lo): Ghost<KeyBound>,
    Ghost(hi): Ghost<KeyBound>,
    Ghost(next): Ghost<u32>,
    Ghost(h): Ghost<nat>,
    Ghost(j): Ghost<int>,
) -> (r: Result<Inserted>)
    requires
        old(pager).inv(),
        structured(node@),
        split.key@.len() <= 0xFFFF,
    ensures
        final(pager).inv(),
        grows(*old(pager), *final(pager)),
        short_split(r),
        ({
            let s = old(pager)@;
            let id = page_id_of(node@);
            let ds = cells_of(node@).insert(j, internal_bytes(split.key@, split.right));
            pending(s, node@, id, ds, ks, lo, hi, next, h) && routed(
                cells_of(node@),
                split.key@,
                j,
            ) && ascending(false, cells_of(node@), None, None) ==> match r {
                Ok(out) => absorbed(s, final(pager)@, id, ds, ks, lo, hi, next, h, out) && shaped(
                    id,
                    ks,
                    j,
                    out,
                ),
                Err(e) => e is Full && room(s) == 0,
            }
        }),
{
    let ghost s = pager@;
    let ghost b = node@;
    let ghost id = page_id_of(b);
    let ghost cs = cells_of(b);
    let ghost ds = cs.insert(j, internal_bytes(split.key@, split.right));
    let ghost ok = pending(s, b, id, ds, ks, lo, hi, next, h) && routed(cs, split.key@, j)
        && ascending(false, cs, None, None);
    let mut node: Page = node;
    let cell: Vec<u8> = Page::encode_internal_cell(split.key.as_slice(), split.right);
    proof {
        if ok {
            lemma_pending(s, b, id, ds, ks, lo, hi, next, h);
            lemma_keys_of_cells(b, None, None);
        }
    }
    let pos: usize = child_slot_for(&node, split.key.as_slice())?;
    proof {
        if ok {
            lemma_routed_unique(cs, split.key@, pos as int, j);
            lemma_cell_bytes_insert(cs, j, cell@);
            assert(ds[j] == cell@);
            assert(ds.len() == cs.len() + 1);
        }
    }
    let need: usize = cell.len() + SLOT_SIZE;
    let mut fits: bool = need <= node.free_space();
    if !fits {
        node.compact()?;
        fits = need <= node.free_space();
    }
    if fits {
        node.insert_cell_at(pos, cell.as_slice())?;
        let ghost page = node@;
        pager.write_page(node);
        let ghost l = Tree::Node { id, kids: ks };
        proof {
            if ok {
                assert(cells_of(page) == ds);
                assert(pending(s, page, id, ds, ks, lo, hi, next, h));
                let out = Inserted {
                    split: None,
                    left: Ghost(l),
                    right: Ghost(l),
                    leaf: Ghost(0),
                    other: Ghost(0),
                };
                lemma_absorb_whole(s, pager@, page, id, ds, ks, lo, hi, next, h, out);
            }
        }
        return Ok(
            Inserted {
                split: None,
                left: Ghost(l),
                right: Ghost(l),
                leaf: Ghost(0),
                other: Ghost(0),
            },
        );
    }
    let n: usize = node.num_keys() as usize;
    let mut cells: Vec<Vec<u8>> = copy_cells(&node)?;
    let ghost before = cells@;
    let ghost cs1 = cs.insert(pos as int, cell@);
    cells.insert(pos, cell);
    proof {
        assert(views(cells@) =~= cs1) by {
            assert forall|i: int| 0 <= i < cs1.len() implies #[trigger] views(cells@)[i] == cs1[i] by {
                if i < pos {
                    assert(views(before)[i] == cs[i]);
                } else if i > pos {
                    assert(views(before)[i - 1] == cs[i - 1]);
                }
            }
        }
        assert forall|i: int| 0 <= i < cs1.len() implies (#[trigger] cs1[i]).len() <= 70_000 by {
            if i < pos {
                assert(before[i]@ == views(before)[i]);
            } else if i > pos {
                assert(before[i - 1]@ == views(before)[i - 1]);
            }
        }
        lemma_used_bound(cs1);
    }
    let appending: bool = pos == n;
    let choice: Option<usize> = if appending {
        Some(n)
    } else {
        split_point(&cells, true)
    };
    let m: usize = match choice {
        Some(x) => x,
        None => {
            proof {
                if ok {
                    lemma_division_exists(ds, true);
                }
            }
            return Err(Error::full("internal page cannot be split to place a separator"));
        },
    };
    proof {
        if ok && appending {
            assert(ds.take(n as int) =~= cs);
            assert(ds.skip(n + 1) =~= Seq::<Seq<u8>>::empty());
            assert(used_bytes(Seq::<Seq<u8>>::empty()) == 0);
        }
        assert(views(cells@)[m as int] == cells@[m as int]@);
    }
    let (promote_key, promote_child) = decode_internal_cell(cells[m].as_slice())?;
    let mut right: Page = match pager.allocate_page(PageType::Internal) {
        Ok(p) => p,
        Err(e) => {
            proof {
                if ok {
                    crate::pager::law_allocation_fails_only_when_ids_run_out(s);
                    assert(free_of(s).len() == 0);
                }
            }
            return Err(e);
        },
    };
    let ghost s1 = pager@;
    proof {
        if ok {
            lemma_node_ids(id, ks);
            assert(node_ids(id, ks).contains(id));
            lemma_moved_alloc(s, s1, node_ids(id, ks), right@);
        }
    }
    right.set_extra(promote_child);
    node.clear_cells();
    fill_page(&mut node, &cells, 0, m)?;
    fill_page(&mut right, &cells, m + 1, cells.len())?;
    let right_id: u32 = right.page_id();
    let ghost lp = node@;
    let ghost rp = right@;
    let ghost total = cells@.len() as int;
    pager.write_page(node);
    let ghost s2 = pager@;
    pager.write_page(right);
    let ghost s3 = pager@;
    let ghost lt = Tree::Node { id, kids: ks.take(m + 1) };
    let ghost rt = Tree::Node { id: right_id, kids: ks.skip(m + 1) };
    let out: Inserted = Inserted {
        split: Some(Split { key: promote_key, right: right_id }),
        left: Ghost(lt),
        right: Ghost(rt),
        leaf: Ghost(0),
        other: Ghost(0),
    };
    proof {
        if ok {
            assert(views(cells@).subrange(0, m as int) =~= ds.take(m as int));
            assert(views(cells@).subrange(m + 1, total) =~= ds.skip(m + 1));
            lemma_used_short(ds);
            assert(cut_at(id, ks, m as int, out));
            lemma_absorb_halves(
                s,
                s1,
                s2,
                s3,
                b,
                id,
                right_id,
                ds,
                ks,
                lo,
                hi,
                next,
                h,
                m as int,
                lp,
                rp,
                out,
            );
        }
    }
    Ok(out)
}

// ---- one level up -------------------------------------------------------------------------

/// The pages of a node apart from those of child `j`.
pub open spec fn rest_ids(id: u32, kids: Seq<Tree>, j: int) -> Set<u32> {
    Set::new(
        |x: u32|
            x == id || exists|i: int|
                0 <= i < kids.len() && i != j && ids_of(#[trigger] kids[i]).contains(x),
    )
}

/// Putting another tree in a child's place.
proof fn lemma_rest_ids(id: u32, kids: Seq<Tree>, j: int, l: Tree)
    requires
        kids_apart(kids),
        !kids_ids(kids).contains(id),
        0 <= j < kids.len(),
    ensures
        ids_of(kids[j]).union(rest_ids(id, kids, j)) =~= node_ids(id, kids),
        ids_of(kids[j]).disjoint(rest_ids(id, kids, j)),
        ids_of(l).union(rest_ids(id, kids, j)) =~= node_ids(id, kids.update(j, l)),
{
    let a = ids_of(kids[j]);
    let rest = rest_ids(id, kids, j);
    let ks = kids.update(j, l);
    assert forall|x: u32| a.contains(x) implies !rest.contains(x) && node_ids(id, kids).contains(
        x,
    ) by {
        assert(kids_ids(kids).contains(x));
        if rest.contains(x) {
            let i = choose|i: int|
                0 <= i < kids.len() && i != j && ids_of(#[trigger] kids[i]).contains(x);
            if i < j {
                assert(!ids_of(kids[j]).contains(x));
            } else {
                assert(!ids_of(kids[i]).contains(x));
            }
        }
    }
    assert forall|x: u32| ids_of(l).union(rest).contains(x) implies node_ids(id, ks).contains(x) by {
        if ids_of(l).contains(x) {
            assert(ids_of(ks[j]).contains(x));
        } else if x != id {
            let i = choose|i: int|
                0 <= i < kids.len() && i != j && ids_of(#[trigger] kids[i]).contains(x);
            assert(ids_of(ks[i]).contains(x));
        }
    }
    assert forall|x: u32| node_ids(id, ks).contains(x) implies ids_of(l).union(rest).contains(x) by {
        if x != id {
            let i = choose|i: int| 0 <= i < ks.len() && ids_of(#[trigger] ks[i]).contains(x);
            if i != j {
                assert(ids_of(kids[i]).contains(x));
            }
        }
    }
}

/// Putting two trees in a child's place.
proof fn lemma_rest_ids_halved(id: u32, kids: Seq<Tree>, j: int, l: Tree, r: Tree)
    requires
        0 <= j < kids.len(),
    ensures
        ids_of(l).union(ids_of(r)).union(rest_ids(id, kids, j)) =~= node_ids(
            id,
            kids.update(j, l).insert(j + 1, r),
        ),
{
    let rest = rest_ids(id, kids, j);
    let ks = kids.update(j, l).insert(j + 1, r);
    let all = ids_of(l).union(ids_of(r)).union(rest);
    assert forall|x: u32| all.contains(x) implies node_ids(id, ks).contains(x) by {
        if ids_of(l).contains(x) {
            assert(ids_of(ks[j]).contains(x));
        } else if ids_of(r).contains(x) {
            assert(ids_of(ks[j + 1]).contains(x));
        } else if x != id {
            let i = choose|i: int|
                0 <= i < kids.len() && i != j && ids_of(#[trigger] kids[i]).contains(x);
            if i < j {
                assert(ids_of(ks[i]).contains(x));
            } else {
                assert(ids_of(ks[i + 1]).contains(x));
            }
        }
    }
    assert forall|x: u32| node_ids(id, ks).contains(x) implies all.contains(x) by {
        if x != id {
            let i = choose|i: int| 0 <= i < ks.len() && ids_of(#[trigger] ks[i]).contains(x);
            if i < j {
                assert(ids_of(kids[i]).contains(x));
            } else if i > j + 1 {
                assert(ids_of(kids[i - 1]).contains(x));
            }
        }
    }
}

/// A child kept its place: so did its parent.
#[verifier::rlimit(40)]
#[verifier::spinoff_prover]
proof fn lemma_whole_up(
    s: PagerState,
    s2: PagerState,
    id: u32,
    kids: Seq<Tree>,
    lo: KeyBound,
    hi: KeyBound,
    next: u32,
    h: nat,
    j: int,
    key: Seq<u8>,
    value: Seq<u8>,
    l: Tree,
)
    requires
        good(s, Tree::Node { id, kids }, lo, hi, next, h + 1),
        0 <= j < kids.len(),
        routed(cells_of(s.pages[id]), key, j),
        whole(
            s,
            s2,
            kids[j],
            lo_at(cells_of(s.pages[id]), j, lo),
            hi_at(cells_of(s.pages[id]), j, hi),
            next_at(kids, j, next),
            h,
            key,
            value,
            l,
        ),
    ensures
        whole(
            s,
            s2,
            Tree::Node { id, kids },
            lo,
            hi,
            next,
            h + 1,
            key,
            value,
            Tree::Node { id, kids: kids.update(j, l) },
        ),
{
    let t = Tree::Node { id, kids };
    let b = s.pages[id];
    let cs = cells_of(b);
    let ks = kids.update(j, l);
    let t2 = Tree::Node { id, kids: ks };
    let rest = rest_ids(id, kids, j);
    lemma_node_open(s, id, kids, lo, hi, next, h + 1);
    assert((h + 1 - 1) as nat == h);
    lemma_list_replaced(s, s2, cs, kids, lo, hi, next, h, j, key, value, l);
    lemma_rest_ids(id, kids, j, l);
    lemma_node_ids(id, kids);
    lemma_node_ids(id, ks);
    assert(owned(s, ids_of(t))) by {
        reveal(good);
    }
    assert(owned(s, rest)) by {
        assert forall|x: u32| #[trigger] rest.contains(x) implies 1 <= x < s.meta.page_count
            && !free_of(s).contains(x) by {
            assert(ids_of(t).contains(x));
        }
    }
    lemma_moved_beside(s, s2, ids_of(kids[j]), ids_of(l), rest);
    lemma_moved_same(
        s,
        s2,
        ids_of(kids[j]).union(rest),
        ids_of(l).union(rest),
        ids_of(t),
        ids_of(t2),
    );
    assert(rest.contains(id));
    assert(same_page(s.pages, s2.pages, id));
    assert(ids_of(t2).contains(id));
    assert(!kids_ids(ks).contains(id)) by {
        if kids_ids(ks).contains(id) {
            let i = choose|i: int| 0 <= i < ks.len() && ids_of(#[trigger] ks[i]).contains(id);
            if i != j {
                assert(ids_of(kids[i]).contains(id));
            } else {
                assert(ids_of(l).contains(id));
            }
        }
    }
    assert(ks[0] == (if j == 0 {
        l
    } else {
        kids[0]
    }));
    lemma_node_close(s2, id, ks, b, lo, hi, next, h);
    assert(first_of(t2) == first_of(t));
    assert forall|k: Seq<u8>| in_range(k, lo, hi) implies #[trigger] find(s2.pages, id, k, h + 1)
        == if k == key {
        Some(value)
    } else {
        find(s.pages, id, k, h + 1)
    } by {
        assert(find(s2.pages, id, k, h + 1) == kid_find(s2.pages, cs, ks, k, h));
        assert(find(s.pages, id, k, h + 1) == kid_find(s.pages, cs, kids, k, h));
    }
}

/// A child was split: its parent waits for the separator.
#[verifier::rlimit(40)]
#[verifier::spinoff_prover]
proof fn lemma_halved_up(
    s: PagerState,
    s2: PagerState,
    id: u32,
    kids: Seq<Tree>,
    lo: KeyBound,
    hi: KeyBound,
    next: u32,
    h: nat,
    j: int,
    key: Seq<u8>,
    value: Seq<u8>,
    l: Tree,
    r: Tree,
    sep: Seq<u8>,
)
    requires
        good(s, Tree::Node { id, kids }, lo, hi, next, h + 1),
        0 <= j < kids.len(),
        routed(cells_of(s.pages[id]), key, j),
        in_range(key, lo, hi),
        halved(
            s,
            s2,
            kids[j],
            lo_at(cells_of(s.pages[id]), j, lo),
            hi_at(cells_of(s.pages[id]), j, hi),
            next_at(kids, j, next),
            h,
            key,
            value,
            l,
            r,
            sep,
        ),
    ensures
        ({
            let cs = cells_of(s.pages[id]);
            let ds = cs.insert(j, internal_bytes(sep, id_of(r)));
            let ks = kids.update(j, l).insert(j + 1, r);
            &&& pending(s2, s.pages[id], id, ds, ks, lo, hi, next, h)
            &&& routed(cs, sep, j)
            &&& moved(s, s2, node_ids(id, kids), node_ids(id, ks))
            &&& first_of(ks[0]) == first_of(kids[0])
            &&& forall|k: Seq<u8>|
                in_range(k, lo, hi) ==> #[trigger] kid_find(s2.pages, ds, ks, k, h) == if k == key {
                    Some(value)
                } else {
                    find(s.pages, id, k, h + 1)
                }
        }),
{
    let t = Tree::Node { id, kids };
    let b = s.pages[id];
    let cs = cells_of(b);
    let ds = cs.insert(j, internal_bytes(sep, id_of(r)));
    let ks = kids.update(j, l).insert(j + 1, r);
    let rest = rest_ids(id, kids, j);
    let lr = ids_of(l).union(ids_of(r));
    lemma_node_open(s, id, kids, lo, hi, next, h + 1);
    assert((h + 1 - 1) as nat == h);
    lemma_list_halved(s, s2, cs, kids, lo, hi, next, h, j, key, value, l, r, sep);
    lemma_rest_ids(id, kids, j, l);
    lemma_rest_ids_halved(id, kids, j, l, r);
    assert(owned(s, ids_of(t))) by {
        reveal(good);
    }
    assert(owned(s, rest)) by {
        assert forall|x: u32| #[trigger] rest.contains(x) implies 1 <= x < s.meta.page_count
            && !free_of(s).contains(x) by {
            assert(ids_of(t).contains(x));
        }
    }
    lemma_moved_beside(s, s2, ids_of(kids[j]), lr, rest);
    lemma_moved_same(
        s,
        s2,
        ids_of(kids[j]).union(rest),
        lr.union(rest),
        node_ids(id, kids),
        node_ids(id, ks),
    );
    assert(rest.contains(id));
    assert(!kids_ids(ks).contains(id)) by {
        if kids_ids(ks).contains(id) {
            let i = choose|i: int| 0 <= i < ks.len() && ids_of(#[trigger] ks[i]).contains(id);
            if i < j {
                assert(ids_of(kids[i]).contains(id));
            } else if i > j + 1 {
                assert(ids_of(kids[i - 1]).contains(id));
            } else {
                assert(lr.contains(id));
            }
        }
    }
    assert(ks[0] == (if j == 0 {
        l
    } else {
        kids[0]
    }));
    assert(pending(s2, b, id, ds, ks, lo, hi, next, h)) by {
        reveal(pending);
    }
    assert forall|k: Seq<u8>| in_range(k, lo, hi) implies #[trigger] kid_find(
        s2.pages,
        ds,
        ks,
        k,
        h,
    ) == if k == key {
        Some(value)
    } else {
        find(s.pages, id, k, h + 1)
    } by {
        assert(find(s.pages, id, k, h + 1) == kid_find(s.pages, cs, kids, k, h));
    }
}

/// The parent took the separator: the insert is done at its level.
#[verifier::spinoff_prover]
proof fn lemma_absorbed_up(
    s: PagerState,
    s1: PagerState,
    s2: PagerState,
    id: u32,
    kids: Seq<Tree>,
    ds: Seq<Seq<u8>>,
    ks: Seq<Tree>,
    lo: KeyBound,
    hi: KeyBound,
    next: u32,
    h: nat,
    key: Seq<u8>,
    value: Seq<u8>,
    out: Inserted,
)
    requires
        kids.len() > 0,
        ks.len() > 0,
        moved(s, s1, node_ids(id, kids), node_ids(id, ks)),
        first_of(ks[0]) == first_of(kids[0]),
        forall|k: Seq<u8>|
            in_range(k, lo, hi) ==> #[trigger] kid_find(s1.pages, ds, ks, k, h) == if k == key {
                Some(value)
            } else {
                find(s.pages, id, k, h + 1)
            },
        absorbed(s1, s2, id, ds, ks, lo, hi, next, h, out),
    ensures
        inserted(s, s2, Tree::Node { id, kids }, lo, hi, next, h + 1, key, value, out),
        room(s1) == room(s2) + (if out.split is Some {
            1int
        } else {
            0int
        }),
{
    reveal(absorbed);
    let t = Tree::Node { id, kids };
    let to = match out.split {
        None => ids_of(out.left@),
        Some(_) => ids_of(out.left@).union(ids_of(out.right@)),
    };
    lemma_moved_trans(s, s1, s2, node_ids(id, kids), node_ids(id, ks), to);
    match out.split {
        None => {
            assert forall|k: Seq<u8>| in_range(k, lo, hi) implies #[trigger] find(
                s2.pages,
                id,
                k,
                h + 1,
            ) == if k == key {
                Some(value)
            } else {
                find(s.pages, id, k, h + 1)
            } by {
                assert(kid_find(s1.pages, ds, ks, k, h) == find(s2.pages, id, k, h + 1));
            }
        },
        Some(split) => {
            let l = out.left@;
            let r = out.right@;
            assert forall|k: Seq<u8>|
                #![trigger find(s2.pages, id_of(l), k, h + 1)]
                #![trigger find(s2.pages, id_of(r), k, h + 1)]
                in_range(k, lo, hi) implies (if lex_lt(k, split.key@) {
                find(s2.pages, id_of(l), k, h + 1)
            } else {
                find(s2.pages, id_of(r), k, h + 1)
            }) == if k == key {
                Some(value)
            } else {
                find(s.pages, id, k, h + 1)
            } by {
                assert(kid_find(s1.pages, ds, ks, k, h) == if k == key {
                    Some(value)
                } else {
                    find(s.pages, id, k, h + 1)
                });
            }
        },
    }
}

/// What an insert into a subtree left behind.
#[verifier::opaque]
pub open spec fn grew(
    s: PagerState,
    s2: PagerState,
    t: Tree,
    lo: KeyBound,
    hi: KeyBound,
    next: u32,
    h: nat,
    key: Seq<u8>,
    value: Seq<u8>,
    max: int,
    out: Inserted,
) -> bool {
    &&& inserted(s, s2, t, lo, hi, next, h, key, value, out)
    &&& room(s) <= room(s2) + spill(key, value) + h + (if out.split is Some {
        1int
    } else {
        0int
    })
    &&& leaf_took(s, s2, out, key, max)
    &&& t is Leaf || (packed(t) && beyond(s, id_of(t), lo, hi, h, key)) ==> packs(out)
    &&& out.split is None && wide(t) ==> wide(out.left@)
}

/// The subtree is a leaf.
proof fn lemma_grew_leaf(
    s: PagerState,
    s2: PagerState,
    t: Tree,
    lo: KeyBound,
    hi: KeyBound,
    next: u32,
    key: Seq<u8>,
    value: Seq<u8>,
    max: int,
    out: Inserted,
)
    requires
        inserted(s, s2, t, lo, hi, next, 0, key, value, out),
        room(s) <= room(s2) + spill(key, value) + (if out.split is Some {
            1int
        } else {
            0int
        }),
        packs(out),
        leaf_took(s, s2, out, key, max),
    ensures
        grew(s, s2, t, lo, hi, next, 0, key, value, max, out),
{
    reveal(grew);
    if out.split is None {
        lemma_good_page(s2, out.left@, lo, hi, next, 0);
    }
}

/// A child kept its place.
#[verifier::rlimit(40)]
#[verifier::spinoff_prover]
proof fn lemma_grew_whole(
    s: PagerState,
    s1: PagerState,
    id: u32,
    kids: Seq<Tree>,
    lo: KeyBound,
    hi: KeyBound,
    next: u32,
    h: nat,
    j: int,
    key: Seq<u8>,
    value: Seq<u8>,
    max: int,
    out: Inserted,
    all: Inserted,
)
    requires
        good(s, Tree::Node { id, kids }, lo, hi, next, h + 1),
        0 <= j < kids.len(),
        routed(cells_of(s.pages[id]), key, j),
        in_range(key, lo, hi),
        grew(
            s,
            s1,
            kids[j],
            lo_at(cells_of(s.pages[id]), j, lo),
            hi_at(cells_of(s.pages[id]), j, hi),
            next_at(kids, j, next),
            h,
            key,
            value,
            max,
            out,
        ),
        out.split is None,
        all.split is None,
        all.left@ == (Tree::Node { id, kids: kids.update(j, out.left@) }),
        all.leaf == out.leaf,
        all.other == out.other,
    ensures
        grew(s, s1, Tree::Node { id, kids }, lo, hi, next, h + 1, key, value, max, all),
{
    reveal(grew);
    let t = Tree::Node { id, kids };
    let ks = kids.update(j, out.left@);
    let (x, y) = (out.leaf@, out.other@);
    lemma_whole_up(s, s1, id, kids, lo, hi, next, h, j, key, value, out.left@);
    assert(ks[j] == out.left@);
    assert(ids_of(all.left@).contains(x) && ids_of(all.left@).contains(y));
    if packed(t) && beyond(s, id, lo, hi, h + 1, key) {
        lemma_last_slot(s, id, kids, lo, hi, next, h + 1, key, j);
        assert((h + 1 - 1) as nat == h);
        assert(packed(kids[j]));
        assert forall|i: int| 0 <= i < ks.len() - 1 implies dense(#[trigger] ks[i]) by {
            assert(ks[i] == kids[i]);
        }
    }
}

/// A child was split.
#[verifier::rlimit(40)]
#[verifier::spinoff_prover]
proof fn lemma_grew_split(
    s: PagerState,
    s1: PagerState,
    s2: PagerState,
    id: u32,
    kids: Seq<Tree>,
    lo: KeyBound,
    hi: KeyBound,
    next: u32,
    h: nat,
    j: int,
    key: Seq<u8>,
    value: Seq<u8>,
    max: int,
    out: Inserted,
    sep: Seq<u8>,
    up: Inserted,
    all: Inserted,
)
    requires
        good(s, Tree::Node { id, kids }, lo, hi, next, h + 1),
        0 <= j < kids.len(),
        routed(cells_of(s.pages[id]), key, j),
        in_range(key, lo, hi),
        grew(
            s,
            s1,
            kids[j],
            lo_at(cells_of(s.pages[id]), j, lo),
            hi_at(cells_of(s.pages[id]), j, hi),
            next_at(kids, j, next),
            h,
            key,
            value,
            max,
            out,
        ),
        out.split matches Some(split) && split.key@ == sep,
        ({
            let ds = cells_of(s.pages[id]).insert(j, internal_bytes(sep, id_of(out.right@)));
            let ks = kids.update(j, out.left@).insert(j + 1, out.right@);
            absorbed(s1, s2, id, ds, ks, lo, hi, next, h, up) && shaped(id, ks, j, up)
        }),
        all.split == up.split,
        all.left == up.left,
        all.right == up.right,
        all.leaf == out.leaf,
        all.other == out.other,
    ensures
        grew(s, s2, Tree::Node { id, kids }, lo, hi, next, h + 1, key, value, max, all),
{
    reveal(grew);
    let t = Tree::Node { id, kids };
    let (l, r) = (out.left@, out.right@);
    let ds = cells_of(s.pages[id]).insert(j, internal_bytes(sep, id_of(r)));
    let ks = kids.update(j, l).insert(j + 1, r);
    let (x, y) = (out.leaf@, out.other@);
    lemma_halved_up(s, s1, id, kids, lo, hi, next, h, j, key, value, l, r, sep);
    lemma_absorbed_up(s, s1, s2, id, kids, ds, ks, lo, hi, next, h, key, value, up);
    lemma_absorbed_keeps(s1, s2, id, kids, j, l, r, ds, lo, hi, next, h, up, x);
    lemma_absorbed_keeps(s1, s2, id, kids, j, l, r, ds, lo, hi, next, h, up, y);
    lemma_leaf_done_frame(s.pages[x], s1.pages, s2.pages, x, y, key, max);
    if packed(t) && beyond(s, id, lo, hi, h + 1, key) {
        lemma_last_slot(s, id, kids, lo, hi, next, h + 1, key, j);
        assert((h + 1 - 1) as nat == h);
        assert(packed(kids[j]));
        lemma_shaped_packs(id, kids, l, r, up);
    }
}

/// What a split child leaves for its parent to do.
proof fn lemma_grew_pending(
    s: PagerState,
    s1: PagerState,
    id: u32,
    kids: Seq<Tree>,
    lo: KeyBound,
    hi: KeyBound,
    next: u32,
    h: nat,
    j: int,
    key: Seq<u8>,
    value: Seq<u8>,
    max: int,
    out: Inserted,
)
    requires
        good(s, Tree::Node { id, kids }, lo, hi, next, h + 1),
        0 <= j < kids.len(),
        routed(cells_of(s.pages[id]), key, j),
        in_range(key, lo, hi),
        grew(
            s,
            s1,
            kids[j],
            lo_at(cells_of(s.pages[id]), j, lo),
            hi_at(cells_of(s.pages[id]), j, hi),
            next_at(kids, j, next),
            h,
            key,
            value,
            max,
            out,
        ),
    ensures
        room(s) <= room(s1) + spill(key, value) + h + 1,
        out.split matches Some(split) ==> split.right == id_of(out.right@) && pending(
            s1,
            s.pages[id],
            id,
            cells_of(s.pages[id]).insert(j, internal_bytes(split.key@, split.right)),
            kids.update(j, out.left@).insert(j + 1, out.right@),
            lo,
            hi,
            next,
            h,
        ) && routed(cells_of(s.pages[id]), split.key@, j),
{
    reveal(grew);
    if out.split is Some {
        lemma_halved_up(
            s,
            s1,
            id,
            kids,
            lo,
            hi,
            next,
            h,
            j,
            key,
            value,
            out.left@,
            out.right@,
            out.split->0.key@,
        );
    }
}

impl BTree {
    /// Inserts into the subtree at `page_id`.
    #[verifier::rlimit(40)]
    #[verifier::spinoff_prover]
    fn insert_into(
        &self,
        pager: &mut Pager,
        page_id: u32,
        key: &[u8],
        value: &[u8],
        value_len: u32,
        depth: usize,
        Ghost(t): Ghost<Tree>,
        Ghost(lo): Ghost<KeyBound>,
        Ghost(hi): Ghost<KeyBound>,
        Ghost(next): Ghost<u32>,
        Ghost(h): Ghost<nat>,
    ) -> (r: Result<Inserted>)
        requires
            old(pager).inv(),
            0 < key@.len() <= MAX_KEY_SIZE,
            value_len == value@.len(),
            depth <= 65,
        ensures
            final(pager).inv(),
            grows(*old(pager), *final(pager)),
            short_split(r),
            good(old(pager)@, t, lo, hi, next, h) && id_of(t) == page_id && in_range(key@, lo, hi)
                && depth + h <= 64 ==> match r {
                Ok(out) => grew(
                    old(pager)@,
                    final(pager)@,
                    t,
                    lo,
                    hi,
                    next,
                    h,
                    key@,
                    value@,
                    self.fill_spec().max as int,
                    out,
                ),
                Err(e) => e is Full && room(old(pager)@) <= spill(key@, value@) + h,
            },
        decreases 65 - depth,
    {
        let ghost s = pager@;
        let ghost max = self.fill_spec().max as int;
        let ghost ok = good(s, t, lo, hi, next, h) && id_of(t) == page_id && in_range(key@, lo, hi)
            && depth + h <= 64;
        if depth > MAX_DEPTH {
            return Err(Error::corrupt("B+Tree depth exceeded 64 levels (cycle?)"));
        }
        proof {
            if ok {
                lemma_good_page(s, t, lo, hi, next, h);
            }
        }
        let page: Page = pager.read_page(page_id)?;
        if !page.is_structured() {
            return Err(Error::corrupt("page has slots out of bounds"));
        }
        if page.is_leaf() {
            let out: Inserted = self.insert_into_leaf(
                pager,
                page,
                key,
                value,
                value_len,
                Ghost(t),
                Ghost(lo),
                Ghost(hi),
                Ghost(next),
            )?;
            proof {
                if ok {
                    lemma_grew_leaf(s, pager@, t, lo, hi, next, key@, value@, max, out);
                }
            }
            return Ok(out);
        }
        let ghost kids = t->kids;
        let ghost cs = cells_of(page@);
        let ghost g = (h - 1) as nat;
        proof {
            if ok {
                assert(t == (Tree::Node { id: page_id, kids }));
                lemma_node_open(s, page_id, kids, lo, hi, next, h);
                lemma_node_keys(s, page_id, kids, lo, hi, next, h);
            }
        }
        let slot: usize = child_slot_for(&page, key)?;
        let ghost j = slot as int;
        proof {
            if ok {
                lemma_child_fits(s, page_id, kids, lo, hi, next, h, key@, j);
            }
        }
        let child: u32 = child_at(&page, slot)?;
        let out: Inserted = self.insert_into(
            pager,
            child,
            key,
            value,
            value_len,
            depth + 1,
            Ghost(kids[j]),
            Ghost(lo_at(cs, j, lo)),
            Ghost(hi_at(cs, j, hi)),
            Ghost(next_at(kids, j, next)),
            Ghost(g),
        )?;
        let ghost s1 = pager@;
        let ghost below = out;
        match out.split {
            None => {
                let ghost l = Tree::Node { id: page_id, kids: kids.update(j, out.left@) };
                let all: Inserted = Inserted {
                    split: None,
                    left: Ghost(l),
                    right: Ghost(l),
                    leaf: out.leaf,
                    other: out.other,
                };
                proof {
                    if ok {
                        lemma_grew_whole(
                            s,
                            s1,
                            page_id,
                            kids,
                            lo,
                            hi,
                            next,
                            g,
                            j,
                            key@,
                            value@,
                            max,
                            below,
                            all,
                        );
                    }
                }
                Ok(all)
            },
            Some(split) => {
                let ghost sep = split.key@;
                let ghost ks = kids.update(j, below.left@).insert(j + 1, below.right@);
                proof {
                    if ok {
                        lemma_grew_pending(
                            s,
                            s1,
                            page_id,
                            kids,
                            lo,
                            hi,
                            next,
                            g,
                            j,
                            key@,
                            value@,
                            max,
                            below,
                        );
                    }
                }
                let up: Inserted = absorb_split(
                    pager,
                    page,
                    split,
                    Ghost(ks),
                    Ghost(lo),
                    Ghost(hi),
                    Ghost(next),
                    Ghost(g),
                    Ghost(j),
                )?;
                let ghost raised = up;
                let all: Inserted = Inserted {
                    split: up.split,
                    left: up.left,
                    right: up.right,
                    leaf: out.leaf,
                    other: out.other,
                };
                proof {
                    if ok {
                        lemma_grew_split(
                            s,
                            s1,
                            pager@,
                            page_id,
                            kids,
                            lo,
                            hi,
                            next,
                            g,
                            j,
                            key@,
                            value@,
                            max,
                            below,
                            sep,
                            raised,
                            all,
                        );
                    }
                }
                Ok(all)
            },
        }
    }
}


/// The root page of a tree in good order.
pub proof fn lemma_good_page(
    s: PagerState,
    t: Tree,
    lo: KeyBound,
    hi: KeyBound,
    next: u32,
    h: nat,
)
    requires
        good(s, t, lo, hi, next, h),
    ensures
        s.pages.contains_key(id_of(t)),
        structured(s.pages[id_of(t)]),
        page_id_of(s.pages[id_of(t)]) == id_of(t),
        is_leaf_of(s.pages[id_of(t)]) <==> t is Leaf,
        t is Leaf <==> h == 0,
        owned(s, ids_of(t)),
{
    reveal(good);
}

/// The keys of a node in good order.
pub proof fn lemma_node_keys(
    s: PagerState,
    id: u32,
    kids: Seq<Tree>,
    lo: KeyBound,
    hi: KeyBound,
    next: u32,
    h: nat,
)
    requires
        good(s, Tree::Node { id, kids }, lo, hi, next, h),
    ensures
        ascending(false, cells_of(s.pages[id]), None, None),
        forall|i: int|
            0 <= i < num_keys_of(s.pages[id]) ==> (#[trigger] crate::page::key_at(
                s.pages[id],
                i,
            )) is Some,
{
    reveal(good);
    let b = s.pages[id];
    let cs = cells_of(b);
    lemma_unbounded(false, cs, lo, hi);
    lemma_keys_of_cells(b, lo, hi);
    assert forall|i: int| 0 <= i < num_keys_of(b) implies (#[trigger] crate::page::key_at(b, i)) is Some by {
        assert(crate::page::key_at(b, i) == Some(ckey(false, cs[i])));
    }
}

/// The child that a key is routed to.
pub proof fn lemma_child_fits(
    s: PagerState,
    id: u32,
    kids: Seq<Tree>,
    lo: KeyBound,
    hi: KeyBound,
    next: u32,
    h: nat,
    key: Seq<u8>,
    slot: int,
)
    requires
        good(s, Tree::Node { id, kids }, lo, hi, next, h),
        routed(cells_of(s.pages[id]), key, slot),
        in_range(key, lo, hi),
    ensures
        0 <= slot < kids.len(),
        id_of(kids[slot]) == child_of(s.pages[id], slot),
        child_of(s.pages[id], slot) != SENTINEL,
        slot > 0 ==> cells_of(s.pages[id])[slot - 1].len() >= 6,
        good(
            s,
            kids[slot],
            lo_at(cells_of(s.pages[id]), slot, lo),
            hi_at(cells_of(s.pages[id]), slot, hi),
            next_at(kids, slot, next),
            (h - 1) as nat,
        ),
        in_range(
            key,
            lo_at(cells_of(s.pages[id]), slot, lo),
            hi_at(cells_of(s.pages[id]), slot, hi),
        ),
{
    let cs = cells_of(s.pages[id]);
    lemma_node_open(s, id, kids, lo, hi, next, h);
    crate::btree::lemma_route_range(cs, lo, hi, key, slot);
    let kid = kids[slot];
    assert(good(
        s,
        kid,
        lo_at(cs, slot, lo),
        hi_at(cs, slot, hi),
        next_at(kids, slot, next),
        (h - 1) as nat,
    ));
    lemma_good_page(
        s,
        kid,
        lo_at(cs, slot, lo),
        hi_at(cs, slot, hi),
        next_at(kids, slot, next),
        (h - 1) as nat,
    );
    lemma_root_in(kid);
    if slot > 0 {
        assert(cell_key_of(false, cs[slot - 1]) is Some);
    }
}

// ---- the whole tree ---------------------------------------------------------------------------

/// What the root finds is what the tree holds.
pub proof fn lemma_tree_finds(s: PagerState, t: Tree, h: nat)
    requires
        tree_at(s, t, h),
        h <= 65,
    ensures
        forall|k: Seq<u8>| #[trigger]
            find(s.pages, s.meta.root, k, 65) == find(s.pages, id_of(t), k, h),
{
    reveal(good);
    assert forall|k: Seq<u8>| #[trigger] find(s.pages, s.meta.root, k, 65) == find(
        s.pages,
        id_of(t),
        k,
        h,
    ) by {
        lemma_find_fuel(s.pages, t, None, None, SENTINEL, k, h, 65);
    }
}

/// A page is the root of subtrees of one height.
pub proof fn lemma_height_unique(
    p: Map<u32, Seq<u8>>,
    t: Tree,
    lo: KeyBound,
    hi: KeyBound,
    next: u32,
    h: nat,
    t2: Tree,
    lo2: KeyBound,
    hi2: KeyBound,
    next2: u32,
    h2: nat,
)
    requires
        holds(p, t, lo, hi, next),
        uniform(t, h),
        holds(p, t2, lo2, hi2, next2),
        uniform(t2, h2),
        id_of(t) == id_of(t2),
    ensures
        h == h2,
    decreases t,
{
    if t is Node && t2 is Node {
        let cs = cells_of(p[id_of(t)]);
        let a = t->kids;
        let b = t2->kids;
        assert(id_of(a[0]) == child_of(p[id_of(t)], 0));
        assert(id_of(b[0]) == child_of(p[id_of(t)], 0));
        assert(uniform(a[0], (h - 1) as nat));
        assert(uniform(b[0], (h2 - 1) as nat));
        lemma_height_unique(
            p,
            a[0],
            lo_at(cs, 0, lo),
            hi_at(cs, 0, hi),
            next_at(a, 0, next),
            (h - 1) as nat,
            b[0],
            lo_at(cs, 0, lo2),
            hi_at(cs, 0, hi2),
            next_at(b, 0, next2),
            (h2 - 1) as nat,
        );
    }
}

/// The trees that a pager holds at its root have one height.
pub proof fn lemma_tree_height(s: PagerState, t: Tree, g: nat, h: nat)
    requires
        tree_at(s, t, g),
        tree_ok(s, h),
    ensures
        g <= h,
{
    reveal(good);
    let (t2, g2) = choose|t2: Tree, g2: nat| g2 <= h && #[trigger] tree_at(s, t2, g2);
    lemma_height_unique(s.pages, t, None, None, SENTINEL, g, t2, None, None, SENTINEL, g2);
}

/// A root that kept its place holds the tree with the key.
proof fn lemma_root_whole(
    s: PagerState,
    s2: PagerState,
    t: Tree,
    h: nat,
    key: Seq<u8>,
    value: Seq<u8>,
    l: Tree,
)
    requires
        tree_at(s, t, h),
        h <= 64,
        whole(s, s2, t, None, None, SENTINEL, h, key, value, l),
    ensures
        tree_at(s2, l, h),
        contents(s2) == contents(s).insert(key, value),
{
    lemma_tree_finds(s, t, h);
    lemma_tree_finds(s2, l, h);
    assert forall|k: Seq<u8>| #[trigger] find(s2.pages, s2.meta.root, k, 65) == if k == key {
        Some(value)
    } else {
        find(s.pages, s.meta.root, k, 65)
    } by {
        assert(in_range(k, None, None));
        assert(find(s2.pages, id_of(l), k, h) == find(s2.pages, s2.meta.root, k, 65));
    }
    assert(contents(s2) =~= contents(s).insert(key, value));
}

/// Two halves under a new root hold the tree with the key.
#[verifier::rlimit(40)]
#[verifier::spinoff_prover]
proof fn lemma_root_halved(
    s: PagerState,
    s1: PagerState,
    s2: PagerState,
    s4: PagerState,
    t: Tree,
    h: nat,
    key: Seq<u8>,
    value: Seq<u8>,
    l: Tree,
    r: Tree,
    sep: Seq<u8>,
    id: u32,
    page: Seq<u8>,
)
    requires
        tree_at(s, t, h),
        h <= 64,
        halved(s, s1, t, None, None, SENTINEL, h, key, value, l, r, sep),
        moved(
            s1,
            s2,
            ids_of(l).union(ids_of(r)),
            ids_of(l).union(ids_of(r)).insert(id),
        ),
        !ids_of(l).union(ids_of(r)).contains(id),
        forall|x: u32| #[trigger]
            ids_of(l).union(ids_of(r)).contains(x) ==> same_page(s1.pages, s2.pages, x),
        s4.pages == s2.pages.insert(id, page),
        s4.meta == (MetaData { root: id, ..s2.meta }),
        node_page(page, id),
        sane(page),
        extra_of(page) == id_of(t),
        cells_of(page) == seq![internal_bytes(sep, id_of(r))],
    ensures
        tree_at(s4, Tree::Node { id, kids: seq![l, r] }, h + 1),
        contents(s4) == contents(s).insert(key, value),
{
    let a = ids_of(l).union(ids_of(r));
    let ar = a.insert(id);
    let cell = internal_bytes(sep, id_of(r));
    let cs = seq![cell];
    let kids = seq![l, r];
    let t2 = Tree::Node { id, kids };
    let s3 = PagerState { pages: s4.pages, meta: s2.meta };
    law_internal_cell_roundtrip(sep, id_of(r));
    lemma_moved_write(s2, s3, ar, id, page);
    crate::btree::moves::lemma_pool_frame(s3, s4);
    assert(kids_ids(kids) =~= a) by {
        assert forall|x: u32| a.contains(x) implies kids_ids(kids).contains(x) by {
            if ids_of(l).contains(x) {
                assert(ids_of(kids[0]).contains(x));
            } else {
                assert(ids_of(kids[1]).contains(x));
            }
        }
        assert forall|x: u32| kids_ids(kids).contains(x) implies a.contains(x) by {
            let i = choose|i: int| 0 <= i < kids.len() && ids_of(#[trigger] kids[i]).contains(x);
            assert(i == 0 || i == 1);
        }
    }
    assert(node_list(s1, cs, kids, None, None, SENTINEL, h)) by {
        assert forall|j: int| 0 <= j < kids.len() implies (j > 0 ==> u32_at(cs[j - 1], 2) == id_of(
            #[trigger] kids[j],
        )) && good(
            s1,
            kids[j],
            lo_at(cs, j, None),
            hi_at(cs, j, None),
            next_at(kids, j, SENTINEL),
            h,
        ) by {
            if j == 0 {
                assert(kids[j] == l);
                assert(kids[j + 1] == r);
                assert(hi_at(cs, 0, None) == Some(sep));
            } else {
                assert(kids[j] == r);
                assert(lo_at(cs, 1, None) == Some(sep));
            }
        }
        assert(crate::btree::kids_apart(kids));
    }
    assert forall|x: u32| #[trigger] kids_ids(kids).contains(x) implies same_page(
        s1.pages,
        s4.pages,
        x,
    ) && 1 <= x < s4.meta.page_count && !free_of(s4).contains(x) by {
        assert(a.contains(x) && ar.contains(x));
        assert(same_page(s1.pages, s2.pages, x));
        assert(x != id);
    }
    lemma_node_list_frame(s1, s4, cs, kids, None, None, SENTINEL, h);
    assert(ar.contains(id));
    lemma_node_close(s4, id, kids, page, None, None, SENTINEL, h);
    lemma_tree_finds(s, t, h);
    lemma_tree_finds(s4, t2, h + 1);
    assert forall|k: Seq<u8>| #[trigger] find(s4.pages, s4.meta.root, k, 65) == if k == key {
        Some(value)
    } else {
        find(s.pages, s.meta.root, k, 65)
    } by {
        assert(in_range(k, None, None));
        assert(find(s4.pages, id, k, h + 1) == kid_find(s4.pages, cs, kids, k, h));
        assert(kid_find(s4.pages, cs, kids, k, h) == kid_find(s1.pages, cs, kids, k, h));
        crate::bytes::lemma_lex_total(k, sep);
        if lex_lt(k, sep) {
            assert(routed(cs, k, 0));
            lemma_kid_find(s1.pages, cs, kids, k, h, 0);
        } else {
            assert(routed(cs, k, 1));
            lemma_kid_find(s1.pages, cs, kids, k, h, 1);
        }
        assert(find(s1.pages, id_of(l), k, h) == find(s1.pages, id_of(l), k, h));
    }
    assert(contents(s4) =~= contents(s).insert(key, value));
}

/// How long a key may be, and a value.
pub open spec fn storable(key: Seq<u8>, value: Seq<u8>) -> bool {
    &&& 0 < key.len() <= MAX_KEY_SIZE
    &&& value.len() <= u32::MAX
}

/// What an insert made of one of the leaves: see [`leaf_done`].
pub open spec fn some_leaf_took(s: PagerState, s2: PagerState, key: Seq<u8>, max: int) -> bool {
    exists|x: u32, y: u32|
        s.pages.contains_key(x) && is_leaf_of(s.pages[x]) && s2.pages.contains_key(x)
            && s2.pages.contains_key(y) && #[trigger] leaf_done(
            s.pages[x],
            s2.pages,
            x,
            y,
            key,
            max,
        )
}

impl BTree {
    /// Inserts or replaces a key-value pair.
    ///
    /// The leaf that takes the key is split where its cells would take up more
    /// than the fill factor allows.
    pub fn insert(&self, pager: &mut Pager, key: &[u8], value: &[u8]) -> (r: Result<()>)
        requires
            old(pager).inv(),
        ensures
            final(pager).inv(),
            grows(*old(pager), *final(pager)),
            !storable(key@, value@) ==> final(pager)@ == old(pager)@ && (r matches Err(e)
                && e is InvalidArgument),
            storable(key@, value@) ==> forall|h: nat|
                h <= 64 && #[trigger] tree_ok(old(pager)@, h) ==> match r {
                    Ok(_) => tree_ok(final(pager)@, h + 1) && contents(final(pager)@) == contents(
                        old(pager)@,
                    ).insert(key@, value@),
                    Err(e) => e is Full && room(old(pager)@) < spill(key@, value@) + h + 2,
                },
            tree_ok(old(pager)@, 64) && r is Ok ==> {
                &&& final(pager)@.pages.contains_key(SENTINEL) ==> old(pager)@.pages.contains_key(
                    SENTINEL,
                )
                &&& some_leaf_took(
                    old(pager)@,
                    final(pager)@,
                    key@,
                    self.fill_spec().max as int,
                )
            },
    {
        let ghost s = pager@;
        let ghost ok = tree_ok(s, 64);
        let ghost (t, g) = choose|t: Tree, g: nat| g <= 64 && #[trigger] tree_at(s, t, g);
        proof {
            assert forall|h: nat| h <= 64 && #[trigger] tree_ok(s, h) implies ok && g <= h by {
                let (t2, g2) = choose|t2: Tree, g2: nat| g2 <= h && #[trigger] tree_at(s, t2, g2);
                assert(g2 <= 64 && tree_at(s, t2, g2));
                lemma_tree_height(s, t, g, h);
            }
        }
        let Ghost(u) = self.insert_at(pager, key, value, Ghost(t), Ghost(g))?;
        proof {
            if ok {
                assert(tree_at(pager@, u, g) || tree_at(pager@, u, g + 1));
            }
        }
        Ok(())
    }

    /// Inserts or replaces a key-value pair in the tree `t`, which has `g`
    /// levels above its leaves. Gives the tree that comes out.
    #[verifier::rlimit(40)]
    #[verifier::spinoff_prover]
    pub(crate) fn insert_at(
        &self,
        pager: &mut Pager,
        key: &[u8],
        value: &[u8],
        Ghost(t): Ghost<Tree>,
        Ghost(g): Ghost<nat>,
    ) -> (r: Result<Ghost<Tree>>)
        requires
            old(pager).inv(),
        ensures
            final(pager).inv(),
            grows(*old(pager), *final(pager)),
            !storable(key@, value@) ==> final(pager)@ == old(pager)@ && (r matches Err(e)
                && e is InvalidArgument),
            storable(key@, value@) && g <= 64 && tree_at(old(pager)@, t, g) ==> match r {
                Ok(u) => {
                    &&& tree_at(final(pager)@, u@, g) || tree_at(final(pager)@, u@, g + 1)
                    &&& contents(final(pager)@) == contents(old(pager)@).insert(key@, value@)
                    &&& final(pager)@.pages.contains_key(SENTINEL)
                        ==> old(pager)@.pages.contains_key(SENTINEL)
                    &&& some_leaf_took(
                        old(pager)@,
                        final(pager)@,
                        key@,
                        self.fill_spec().max as int,
                    )
                    &&& t is Leaf || (packed(t) && wide(t) && beyond(
                        old(pager)@,
                        id_of(t),
                        None,
                        None,
                        g,
                        key@,
                    )) ==> packed(u@) && wide(u@)
                },
                Err(e) => e is Full && room(old(pager)@) < spill(key@, value@) + g + 2,
            },
    {
        if key.len() == 0 {
            return Err(Error::invalid("key must not be empty"));
        }
        if key.len() > MAX_KEY_SIZE {
            return Err(Error::invalid("key length exceeds the 1024-byte structural limit"));
        }
        if value.len() as u64 > 0xFFFF_FFFF {
            return Err(Error::invalid("value length does not fit in 32 bits"));
        }
        let value_len: u32 = value.len() as u32;
        let root: u32 = pager.meta().root;
        let ghost s = pager@;
        let ghost ok = g <= 64 && tree_at(s, t, g);
        let ghost max = self.fill_spec().max as int;
        let out: Inserted = self.insert_into(
            pager,
            root,
            key,
            value,
            value_len,
            0,
            Ghost(t),
            Ghost(None),
            Ghost(None),
            Ghost(SENTINEL),
            Ghost(g),
        )?;
        let ghost s1 = pager@;
        let ghost (x, y) = (out.leaf@, out.other@);
        proof {
            reveal(grew);
        }
        match out.split {
            None => {
                proof {
                    if ok {
                        lemma_root_whole(s, s1, t, g, key@, value@, out.left@);
                        assert(leaf_done(s.pages[x], s1.pages, x, y, key@, max));
                    }
                }
                Ok(out.left)
            },
            Some(split) => {
                let ghost a = ids_of(out.left@).union(ids_of(out.right@));
                let mut new_root: Page = match pager.allocate_page(PageType::Internal) {
                    Ok(p) => p,
                    Err(e) => {
                        proof {
                            if ok {
                                crate::pager::law_allocation_fails_only_when_ids_run_out(s1);
                                assert(free_of(s1).len() == 0);
                            }
                        }
                        return Err(e);
                    },
                };
                let ghost s2 = pager@;
                proof {
                    if ok {
                        lemma_root_in(out.left@);
                        assert(a.contains(id_of(out.left@)));
                        lemma_moved_alloc(s1, s2, a, new_root@);
                    }
                }
                new_root.set_extra(root);
                let cell: Vec<u8> = Page::encode_internal_cell(split.key.as_slice(), split.right);
                proof {
                    assert(used_bytes(Seq::<Seq<u8>>::empty()) == 0);
                }
                new_root.insert_cell_at(0, cell.as_slice())?;
                let new_root_id: u32 = new_root.page_id();
                let ghost page = new_root@;
                pager.write_page(new_root);
                let mut meta: MetaData = pager.meta();
                meta.root = new_root_id;
                pager.set_meta(meta);
                let ghost kids = seq![out.left@, out.right@];
                let ghost u = Tree::Node { id: new_root_id, kids };
                proof {
                    if ok {
                        assert(Seq::<Seq<u8>>::empty().insert(0, cell@) =~= seq![cell@]);
                        lemma_root_halved(
                            s,
                            s1,
                            s2,
                            pager@,
                            t,
                            g,
                            key@,
                            value@,
                            out.left@,
                            out.right@,
                            split.key@,
                            new_root_id,
                            page,
                        );
                        assert(a.contains(x) && a.contains(y));
                        assert(same_page(s1.pages, s2.pages, x) && same_page(
                            s1.pages,
                            s2.pages,
                            y,
                        ));
                        lemma_leaf_done_frame(s.pages[x], s1.pages, pager@.pages, x, y, key@, max);
                        assert(packs(out) ==> packed(u)) by {
                            assert(kids[0] == out.left@ && kids[1] == out.right@);
                        }
                    }
                }
                Ok(Ghost(u))
            },
        }
    }
}

} // verus!

//! Filling a tree anew, in key order.

use crate::btree::grow::{lemma_good_page, lemma_tree_finds, storable};
use crate::btree::leaf::{lemma_good_leaf, spill};
use crate::btree::moves::room;
use crate::btree::packed::{beyond, law_packed_trees_are_low, packed, wide};
use crate::btree::scan::{listing, overfull, pairs, Entry};
use crate::btree::{
    ckey, contents, find, good, hi_at, id_of, in_range, leaf_find, leaf_page, lemma_find_node,
    lemma_root_in, lemma_route_exists, lemma_step_down, lemma_value_frame, lo_at, next_at, routed,
    tree_at, tree_ok, BTree, KeyBound, Tree,
};
use crate::bytes::lex_lt;
use crate::error::{Error, Result};
use crate::page::{cell_key_of, cells_of, lemma_page_len, MetaData, Page, PageType, SENTINEL};
use crate::pager::{
    free_ok, grows, lemma_free_unique, lemma_grows_same, lemma_grows_then, Pager, PagerState,
};
use vstd::prelude::*;

verus! {

broadcast use {lemma_page_len, lemma_grows_same, lemma_grows_then};

/// The first `n` entries of a list.
pub open spec fn upto(e: Seq<Entry>, n: int) -> Map<Seq<u8>, Seq<u8>>
    decreases n,
{
    if n <= 0 {
        Map::empty()
    } else {
        upto(e, n - 1).insert(e[n - 1].0, e[n - 1].1)
    }
}

/// The keys of the first entries are those entries' keys.
proof fn lemma_upto(e: Seq<Entry>, n: int, k: Seq<u8>)
    requires
        0 <= n <= e.len(),
    ensures
        upto(e, n).contains_key(k) <==> exists|i: int| 0 <= i < n && (#[trigger] e[i]).0 == k,
    decreases n,
{
    if n > 0 {
        lemma_upto(e, n - 1, k);
        if upto(e, n).contains_key(k) {
            if e[n - 1].0 != k {
                let i = choose|i: int| 0 <= i < n - 1 && (#[trigger] e[i]).0 == k;
                assert(e[i].0 == k);
            }
        }
    }
}

/// The value of an entry among the first.
proof fn lemma_upto_value(e: Seq<Entry>, n: int, i: int)
    requires
        0 <= i < n <= e.len(),
        forall|a: int, b: int| 0 <= a < b < e.len() ==> (#[trigger] e[a]).0 != (#[trigger] e[b]).0,
    ensures
        upto(e, n)[e[i].0] == e[i].1,
    decreases n,
{
    if i < n - 1 {
        lemma_upto_value(e, n - 1, i);
        assert(e[i].0 != e[n - 1].0);
    }
}

/// All entries of a listing make up the map.
proof fn lemma_upto_all(m: Map<Seq<u8>, Seq<u8>>, e: Seq<Entry>)
    requires
        listing(m, e),
    ensures
        upto(e, e.len() as int) == m,
{
    let n = e.len() as int;
    assert forall|a: int, b: int| 0 <= a < b < e.len() implies (#[trigger] e[a]).0 != (
    #[trigger] e[b]).0 by {
        assert(lex_lt(e[a].0, e[b].0));
        crate::bytes::lemma_lex_irreflexive(e[a].0);
    }
    assert forall|k: Seq<u8>| #[trigger] upto(e, n).contains_key(k) == m.contains_key(k) by {
        lemma_upto(e, n, k);
        if upto(e, n).contains_key(k) {
            let i = choose|i: int| 0 <= i < n && (#[trigger] e[i]).0 == k;
            assert(m.contains_key(e[i].0));
        }
    }
    assert forall|k: Seq<u8>| #[trigger] m.contains_key(k) implies upto(e, n)[k] == m[k] by {
        let i = choose|i: int| 0 <= i < e.len() && (#[trigger] e[i]).0 == k;
        lemma_upto_value(e, n, i);
        assert(m[e[i].0] == e[i].1);
    }
    assert(upto(e, n) =~= m);
}

/// An empty leaf alone is a tree without keys.
proof fn lemma_empty_tree(s: PagerState, page: Seq<u8>)
    requires
        s.pages.contains_key(1),
        s.pages[1] == page,
        crate::page::fresh(page, 1, PageType::Leaf),
        page.len() == 4096,
        s.meta.root == 1,
        s.meta.page_count == 2,
        s.meta.free_list == SENTINEL,
    ensures
        tree_at(s, Tree::Leaf { id: 1, chains: Seq::empty() }, 0),
        contents(s) == Map::<Seq<u8>, Seq<u8>>::empty(),
{
    let chains = Seq::<Seq<u32>>::empty();
    let t = Tree::Leaf { id: 1, chains };
    assert(free_ok(s, Seq::<u32>::empty()));
    lemma_free_unique(s, Seq::<u32>::empty());
    assert(leaf_page(page, 1, SENTINEL));
    assert(cells_of(page) =~= Seq::<Seq<u8>>::empty());
    lemma_good_leaf(s, 1, chains, page, None, None, SENTINEL);
    assert(tree_at(s, t, 0));
    lemma_tree_finds(s, t, 0);
    assert forall|k: Seq<u8>| #[trigger] find(s.pages, s.meta.root, k, 65) is None by {
        assert(find(s.pages, 1, k, 0) == leaf_find(s.pages, cells_of(page), k));
    }
    assert(contents(s) =~= Map::<Seq<u8>, Seq<u8>>::empty());
}

/// A key behind the first entries comes after all keys of the tree that they
/// make up.
proof fn lemma_beyond(s: PagerState, t: Tree, g: nat, e: Seq<Entry>, n: int)
    requires
        tree_at(s, t, g),
        g <= 64,
        0 <= n < e.len(),
        contents(s) == upto(e, n),
        forall|a: int, b: int|
            0 <= a < b < e.len() ==> lex_lt((#[trigger] e[a]).0, (#[trigger] e[b]).0),
    ensures
        beyond(s, id_of(t), None, None, g, e[n].0),
{
    lemma_tree_finds(s, t, g);
    assert forall|k: Seq<u8>|
        in_range(k, None, None) && (#[trigger] find(s.pages, id_of(t), k, g)) is Some implies lex_lt(
        k,
        e[n].0,
    ) by {
        assert(find(s.pages, s.meta.root, k, 65) == find(s.pages, id_of(t), k, g));
        assert(contents(s).contains_key(k));
        lemma_upto(e, n, k);
        let i = choose|i: int| 0 <= i < n && (#[trigger] e[i]).0 == k;
        assert(lex_lt(e[i].0, e[n].0));
    }
}

/// What a subtree finds can be stored.
proof fn lemma_find_storable(
    s: PagerState,
    t: Tree,
    lo: KeyBound,
    hi: KeyBound,
    next: u32,
    h: nat,
    k: Seq<u8>,
)
    requires
        good(s, t, lo, hi, next, h),
        find(s.pages, id_of(t), k, h) is Some,
    ensures
        storable(k, find(s.pages, id_of(t), k, h)->0),
    decreases t,
{
    lemma_good_page(s, t, lo, hi, next, h);
    let b = s.pages[id_of(t)];
    let cs = cells_of(b);
    match t {
        Tree::Leaf { id, chains } => {
            reveal(good);
            let i = choose|i: int|
                0 <= i < cs.len() && cell_key_of(true, #[trigger] cs[i]) == Some(k);
            assert(ckey(true, cs[i]) == k);
            lemma_value_frame(s.pages, s.pages, cs[i], chains[i]);
        },
        Tree::Node { id, kids } => {
            let slot = choose|slot: int| routed(cs, k, slot);
            assert(exists|slot: int| routed(cs, k, slot)) by {
                reveal(good);
                lemma_route_exists(cs, lo, hi, k);
            }
            lemma_step_down(s, t, lo, hi, next, h, k, slot);
            lemma_find_node(s.pages, id, k, slot, h);
            lemma_find_storable(
                s,
                kids[slot],
                lo_at(cs, slot, lo),
                hi_at(cs, slot, hi),
                next_at(kids, slot, next),
                (h - 1) as nat,
                k,
            );
        },
    }
}

/// Whatever a tree holds can be stored.
pub proof fn law_stored_pairs_can_be_stored(s: PagerState, k: Seq<u8>)
    requires
        tree_ok(s, 65),
        contents(s).contains_key(k),
    ensures
        storable(k, contents(s)[k]),
{
    let (t, h) = choose|t: Tree, h: nat| h <= 65 && #[trigger] tree_at(s, t, h);
    lemma_tree_finds(s, t, h);
    assert(find(s.pages, s.meta.root, k, 65) == find(s.pages, id_of(t), k, h));
    lemma_find_storable(s, t, None, None, SENTINEL, h, k);
}

/// Page ids that are taken once work on a pager has stopped.
pub open spec fn taken(before: Pager, after: Pager) -> int {
    if before@.meta.page_count < after.file().len() {
        after.file().len() as int
    } else {
        before@.meta.page_count as int
    }
}

/// Why a tree cannot be filled anew: it has more pairs than can be counted, or
/// the page ids run out.
pub open spec fn unpackable(
    m: Map<Seq<u8>, Seq<u8>>,
    ids: int,
    e: Error,
) -> bool {
    ||| e is Full && overfull(m)
    ||| e is Full && exists|k: Seq<u8>| #[trigger]
        m.contains_key(k) && ids < m[k].len() / 4056 + 67
}

impl BTree {
    /// Fills the tree anew, in key order. What comes out is low, however high
    /// the tree was.
    #[verifier::rlimit(60)]
    #[verifier::spinoff_prover]
    pub(crate) fn repack(&self, pager: &mut Pager) -> (r: Result<()>)
        requires
            old(pager).inv(),
        ensures
            final(pager).inv(),
            grows(*old(pager), *final(pager)),
            tree_ok(old(pager)@, 64) ==> match r {
                Ok(_) => {
                    &&& tree_ok(final(pager)@, 16)
                    &&& contents(final(pager)@) == contents(old(pager)@)
                    &&& !final(pager)@.pages.contains_key(SENTINEL)
                },
                Err(e) => unpackable(
                    contents(old(pager)@),
                    SENTINEL - taken(*old(pager), *final(pager)),
                    e,
                ),
            },
    {
        let ghost was = *pager;
        let ghost s = pager@;
        let ghost m = contents(s);
        let ghost ok = tree_ok(s, 64);
        let all: Vec<(Vec<u8>, Vec<u8>)> = self.scan(pager)?;
        if all.len() == usize::MAX {
            return Err(Error::full("too many pairs to fill the tree anew"));
        }
        let ghost e = pairs(all@);
        let old_meta: MetaData = pager.meta();
        proof {
            if ok {
                let (t0, h0) = choose|t: Tree, h: nat| h <= 64 && #[trigger] tree_at(s, t, h);
                lemma_good_page(s, t0, None, None, SENTINEL, h0);
                lemma_root_in(t0);
                assert(tree_ok(s, 65));
            }
        }
        if old_meta.page_count < 2 {
            return Err(Error::corrupt("the tree has no page"));
        }
        let meta: MetaData = MetaData { root: 1, free_list: SENTINEL, page_count: 2, ..old_meta };
        pager.discard_dirty(meta);
        let leaf: Page = Page::new(1, PageType::Leaf);
        let ghost page = leaf@;
        pager.write_page(leaf);
        let ghost mut t = Tree::Leaf { id: 1, chains: Seq::empty() };
        let ghost mut g: nat = 0;
        proof {
            reveal(grows);
            pager.lemma_placed();
            lemma_empty_tree(pager@, page);
        }
        let mut i: usize = 0;
        while i < all.len()
            invariant
                pager.inv(),
                was == *old(pager),
                s == was@,
                m == contents(s),
                ok == tree_ok(s, 64),
                grows(was, *pager),
                e == pairs(all@),
                i <= all@.len(),
                ok ==> listing(m, e),
                ok ==> tree_ok(s, 65),
                ok ==> tree_at(pager@, t, g) && g <= 16,
                ok ==> contents(pager@) == upto(e, i as int),
                ok ==> t is Leaf || (packed(t) && wide(t)),
                ok ==> !pager@.pages.contains_key(SENTINEL),
            decreases all@.len() - i,
        {
            let ghost s1 = pager@;
            let ghost mid = *pager;
            proof {
                assert(e[i as int] == (all@[i as int].0@, all@[i as int].1@));
                if ok {
                    lemma_beyond(s1, t, g, e, i as int);
                    law_stored_pairs_can_be_stored(s, e[i as int].0);
                    assert(m.contains_key(e[i as int].0) && m[e[i as int].0] == e[i as int].1);
                    assert(spill(e[i as int].0, e[i as int].1) <= e[i as int].1.len() / 4056 + 1);
                    assert(room(s1) >= SENTINEL - s1.meta.page_count);
                }
            }
            let done = self.insert_at(
                pager,
                all[i].0.as_slice(),
                all[i].1.as_slice(),
                Ghost(t),
                Ghost(g),
            );
            match done {
                Ok(u) => {
                    proof {
                        if ok {
                            if tree_at(pager@, u@, g + 1) {
                                g = g + 1;
                            }
                            t = u@;
                            law_packed_trees_are_low(pager@, t, g);
                        }
                    }
                },
                Err(e) => {
                    proof {
                        lemma_grows_then(was, mid, *pager);
                        reveal(grows);
                    }
                    return Err(e);
                },
            }
            i += 1;
        }
        proof {
            if ok {
                lemma_upto_all(m, e);
                assert(tree_at(pager@, t, g));
            }
        }
        Ok(())
    }
}

} // verus!

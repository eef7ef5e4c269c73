//! Trees that were filled in key order, and how low they are.

use crate::btree::grow::{lemma_child_fits, lemma_good_page};
use crate::btree::insert::lemma_leaf_find_at;
use crate::btree::scan::{leaves, leaves_upto, lemma_tree_listing};
use crate::btree::{
    ckey, find, good, hi_at, id_of, in_range, lemma_find_node, lemma_step_down, lo_at, next_at,
    routed, tree_at, uniform, KeyBound, Tree,
};
use crate::bytes::{lemma_lex_asymmetric, lemma_lex_irreflexive, lemma_lex_transitive, lex_le, lex_lt};
use crate::page::{cells_of, lemma_page_len};
use crate::pager::PagerState;
use vstd::prelude::*;

verus! {

broadcast use lemma_page_len;

/// No leaf is empty, and every node has four children or more.
pub open spec fn dense(t: Tree) -> bool
    decreases t,
{
    match t {
        Tree::Leaf { chains, .. } => chains.len() > 0,
        Tree::Node { kids, .. } => kids.len() >= 4 && forall|i: int|
            0 <= i < kids.len() ==> dense(#[trigger] kids[i]),
    }
}

/// Dense but for the nodes at the right edge.
pub open spec fn packed(t: Tree) -> bool
    decreases t,
{
    match t {
        Tree::Leaf { chains, .. } => chains.len() > 0,
        Tree::Node { kids, .. } => {
            &&& kids.len() > 0
            &&& forall|i: int| 0 <= i < kids.len() - 1 ==> dense(#[trigger] kids[i])
            &&& packed(kids[kids.len() - 1])
        },
    }
}

/// A root above leaves has two children or more.
pub open spec fn wide(t: Tree) -> bool {
    t is Node ==> t->kids.len() >= 2
}

/// `key` comes after every key of a subtree.
pub open spec fn beyond(
    s: PagerState,
    id: u32,
    lo: KeyBound,
    hi: KeyBound,
    h: nat,
    key: Seq<u8>,
) -> bool {
    forall|k: Seq<u8>|
        in_range(k, lo, hi) && (#[trigger] find(s.pages, id, k, h)) is Some ==> lex_lt(k, key)
}

/// A subtree without empty leaves holds a key.
proof fn lemma_key_in(
    s: PagerState,
    t: Tree,
    lo: KeyBound,
    hi: KeyBound,
    next: u32,
    h: nat,
) -> (k: Seq<u8>)
    requires
        good(s, t, lo, hi, next, h),
        dense(t) || packed(t),
    ensures
        in_range(k, lo, hi),
        find(s.pages, id_of(t), k, h) is Some,
    decreases t,
{
    lemma_good_page(s, t, lo, hi, next, h);
    match t {
        Tree::Leaf { id, chains } => {
            reveal(good);
            let cs = cells_of(s.pages[id]);
            lemma_leaf_find_at(s.pages, cs, lo, hi, 0);
            ckey(true, cs[0])
        },
        Tree::Node { id, kids } => {
            let cs = cells_of(s.pages[id]);
            lemma_step_down(s, t, lo, hi, next, h, Seq::empty(), 0);
            let k = lemma_key_in(
                s,
                kids[0],
                lo_at(cs, 0, lo),
                hi_at(cs, 0, hi),
                next_at(kids, 0, next),
                (h - 1) as nat,
            );
            lemma_kid_key(s, id, kids, lo, hi, next, h, 0, k);
            k
        },
    }
}

/// A key in the range of a child is routed there.
proof fn lemma_kid_key(
    s: PagerState,
    id: u32,
    kids: Seq<Tree>,
    lo: KeyBound,
    hi: KeyBound,
    next: u32,
    h: nat,
    j: int,
    k: Seq<u8>,
)
    requires
        good(s, Tree::Node { id, kids }, lo, hi, next, h),
        0 <= j < kids.len(),
        in_range(
            k,
            lo_at(cells_of(s.pages[id]), j, lo),
            hi_at(cells_of(s.pages[id]), j, hi),
        ),
    ensures
        in_range(k, lo, hi),
        routed(cells_of(s.pages[id]), k, j),
        h > 0,
        find(s.pages, id, k, h) == find(s.pages, id_of(kids[j]), k, (h - 1) as nat),
{
    reveal(good);
    let t = Tree::Node { id, kids };
    let cs = cells_of(s.pages[id]);
    assert(kids.len() == cs.len() + 1);
    assert forall|i: int| 0 <= i < j implies lex_le(ckey(false, #[trigger] cs[i]), k) by {
        if i < j - 1 {
            assert(lex_lt(ckey(false, cs[i]), ckey(false, cs[j - 1])));
            if ckey(false, cs[j - 1]) != k {
                lemma_lex_transitive(ckey(false, cs[i]), ckey(false, cs[j - 1]), k);
            }
        }
    }
    assert forall|i: int| j <= i < cs.len() implies lex_lt(k, ckey(false, #[trigger] cs[i])) by {
        if i > j {
            assert(lex_lt(ckey(false, cs[j]), ckey(false, cs[i])));
            lemma_lex_transitive(k, ckey(false, cs[j]), ckey(false, cs[i]));
        }
    }
    assert(routed(cs, k, j));
    lemma_find_node(s.pages, id, k, j, h);
    assert(id_of(kids[j]) == crate::btree::child_of(s.pages[id], j));
    if j > 0 {
        assert(in_range(ckey(false, cs[j - 1]), lo, hi));
        if lo is Some && ckey(false, cs[j - 1]) != k && lo->0 != ckey(false, cs[j - 1]) {
            lemma_lex_transitive(lo->0, ckey(false, cs[j - 1]), k);
        }
    }
    if j < cs.len() {
        assert(in_range(ckey(false, cs[j]), lo, hi));
        if hi is Some {
            lemma_lex_transitive(k, ckey(false, cs[j]), hi->0);
        }
    }
}

/// A key beyond all others goes to the last child, where it is beyond all
/// others too.
pub(crate) proof fn lemma_last_slot(
    s: PagerState,
    id: u32,
    kids: Seq<Tree>,
    lo: KeyBound,
    hi: KeyBound,
    next: u32,
    h: nat,
    key: Seq<u8>,
    slot: int,
)
    requires
        good(s, Tree::Node { id, kids }, lo, hi, next, h),
        packed(Tree::Node { id, kids }),
        beyond(s, id, lo, hi, h, key),
        routed(cells_of(s.pages[id]), key, slot),
        in_range(key, lo, hi),
    ensures
        slot == kids.len() - 1,
        kids.len() == cells_of(s.pages[id]).len() + 1,
        h > 0,
        beyond(
            s,
            id_of(kids[slot]),
            lo_at(cells_of(s.pages[id]), slot, lo),
            hi_at(cells_of(s.pages[id]), slot, hi),
            (h - 1) as nat,
            key,
        ),
{
    let t = Tree::Node { id, kids };
    let cs = cells_of(s.pages[id]);
    lemma_child_fits(s, id, kids, lo, hi, next, h, key, slot);
    lemma_step_down(s, t, lo, hi, next, h, key, slot);
    assert(kids.len() == cs.len() + 1) by {
        reveal(good);
    }
    if slot < kids.len() - 1 {
        let j = slot + 1;
        lemma_step_down(s, t, lo, hi, next, h, key, j);
        let k = lemma_key_in(
            s,
            kids[j],
            lo_at(cs, j, lo),
            hi_at(cs, j, hi),
            next_at(kids, j, next),
            (h - 1) as nat,
        );
        lemma_kid_key(s, id, kids, lo, hi, next, h, j, k);
        assert(lex_lt(k, key));
        assert(lex_lt(key, ckey(false, cs[slot])));
        assert(lex_le(ckey(false, cs[slot]), k));
        lemma_lex_transitive(k, key, ckey(false, cs[slot]));
        lemma_lex_irreflexive(k);
        if k != ckey(false, cs[slot]) {
            lemma_lex_asymmetric(k, ckey(false, cs[slot]));
        }
    }
    assert forall|k: Seq<u8>|
        in_range(k, lo_at(cs, slot, lo), hi_at(cs, slot, hi)) && (#[trigger] find(
            s.pages,
            id_of(kids[slot]),
            k,
            (h - 1) as nat,
        )) is Some implies lex_lt(k, key) by {
        lemma_kid_key(s, id, kids, lo, hi, next, h, slot, k);
    }
}

/// The number of leaves that a dense tree has at least.
spec fn fours(h: nat) -> nat
    decreases h,
{
    if h == 0 {
        1
    } else {
        4 * fours((h - 1) as nat)
    }
}

proof fn lemma_dense_leaves(t: Tree, h: nat)
    requires
        dense(t),
        uniform(t, h),
    ensures
        leaves(t).len() >= fours(h),
    decreases t,
{
    match t {
        Tree::Leaf { .. } => {},
        Tree::Node { kids, .. } => {
            let g = (h - 1) as nat;
            lemma_dense_leaves(kids[0], g);
            lemma_dense_leaves(kids[1], g);
            lemma_dense_leaves(kids[2], g);
            lemma_dense_leaves(kids[3], g);
            reveal_with_fuel(leaves_upto, 5);
            lemma_upto_grows(kids, 4, kids.len() as int);
        },
    }
}

proof fn lemma_upto_grows(kids: Seq<Tree>, n: int, m: int)
    requires
        0 <= n <= m <= kids.len(),
    ensures
        leaves_upto(kids, n).len() <= leaves_upto(kids, m).len(),
    decreases m - n,
{
    if n < m {
        lemma_upto_grows(kids, n, m - 1);
    }
}

proof fn lemma_fours(h: nat)
    requires
        h >= 16,
    ensures
        fours(h) >= 0x1_0000_0000,
    decreases h,
{
    if h == 16 {
        reveal_with_fuel(fours, 17);
    } else {
        lemma_fours((h - 1) as nat);
    }
}

/// A packed tree is low: its pages run out before it has more than sixteen
/// levels above its leaves.
pub proof fn law_packed_trees_are_low(s: PagerState, t: Tree, h: nat)
    requires
        tree_at(s, t, h),
        h <= 65,
        packed(t),
        wide(t),
    ensures
        h <= 16,
{
    lemma_tree_listing(s, t, h);
    reveal(good);
    if h > 16 {
        let kids = t->kids;
        lemma_dense_leaves(kids[0], (h - 1) as nat);
        lemma_fours((h - 1) as nat);
        reveal_with_fuel(leaves_upto, 2);
        lemma_upto_grows(kids, 1, kids.len() as int);
    }
}

} // verus!

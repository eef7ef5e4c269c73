//! Deleting from the tree: empty leaves go, and nodes left without children.

use crate::btree::grow::{
    lemma_child_fits, lemma_good_page, lemma_node_ids, lemma_node_keys, lemma_tree_finds,
    lemma_tree_height, rest_ids,
};
use crate::btree::leaf::{drop_cell, leaf_ids, leaf_list, lemma_good_leaf, lemma_list_write};
use crate::btree::moves::{
    lemma_moved_beside, lemma_moved_freed, lemma_moved_none, lemma_moved_same, lemma_moved_trans,
    lemma_moved_write, lemma_pool_frame, moved, same_page,
};
use crate::btree::node::{
    kid_find, kids_ids, lemma_good_frame, lemma_kid_find, lemma_node_close, lemma_node_open,
    node_ids, node_list,
};
use crate::btree::{
    ascending, child_at, child_of, child_slot_for, ckey, contents, distinct, find, first_of, good,
    hi_at, holds, id_of, ids_of, in_range, kids_apart, leaf_find, leaf_page, lemma_find_frame,
    lemma_find_node, lemma_frame, lemma_kid_in, lemma_le_lt, lemma_le_lt_trans, lemma_leaf_frame,
    lemma_leaf_search, lemma_lt_le_trans, lemma_root_in, lemma_route_exists, lemma_route_range,
    lemma_routed_unique, lemma_step_down, lo_at, next_at, node_page, node_tight, owned, routed,
    tree_at, tree_ok, trim, uniform, BTree, KeyBound, Tree, MAX_DEPTH,
};
use crate::bytes::{lemma_lex_transitive, lex_le, lex_lt, u32_at};
use crate::error::{Error, Result};
use crate::page::{
    cell_key_of, cells_of, extra_of, lemma_page_len, num_keys_of, page_id_of, sane, structured,
    MetaData, Page, SENTINEL,
};
use crate::pager::{free_of, freed, grows, lemma_grows_same, lemma_grows_then, Pager, PagerState};
use vstd::prelude::*;

verus! {

broadcast use lemma_page_len;

// ---- wider ranges ------------------------------------------------------------------------

/// The second range covers the first.
pub open spec fn wider(lo: KeyBound, hi: KeyBound, lo2: KeyBound, hi2: KeyBound) -> bool {
    &&& lo2 matches Some(b) ==> (lo matches Some(a) && lex_le(b, a))
    &&& hi2 matches Some(b) ==> (hi matches Some(a) && lex_le(a, b))
}

proof fn lemma_le_trans(a: Seq<u8>, b: Seq<u8>, c: Seq<u8>)
    requires
        lex_le(a, b),
        lex_le(b, c),
    ensures
        lex_le(a, c),
{
    if a != b && b != c {
        lemma_lex_transitive(a, b, c);
    }
}

proof fn lemma_range_wider(
    k: Seq<u8>,
    lo: KeyBound,
    hi: KeyBound,
    lo2: KeyBound,
    hi2: KeyBound,
)
    requires
        in_range(k, lo, hi),
        wider(lo, hi, lo2, hi2),
    ensures
        in_range(k, lo2, hi2),
{
    if lo2 is Some {
        lemma_le_trans(lo2->0, lo->0, k);
    }
    if hi2 is Some {
        lemma_lt_le_trans(k, hi->0, hi2->0);
    }
}

proof fn lemma_ascending_wider(
    leaf: bool,
    cs: Seq<Seq<u8>>,
    lo: KeyBound,
    hi: KeyBound,
    lo2: KeyBound,
    hi2: KeyBound,
)
    requires
        ascending(leaf, cs, lo, hi),
        wider(lo, hi, lo2, hi2),
    ensures
        ascending(leaf, cs, lo2, hi2),
{
    assert forall|i: int| 0 <= i < cs.len() implies cell_key_of(leaf, #[trigger] cs[i]) is Some
        && in_range(ckey(leaf, cs[i]), lo2, hi2) by {
        lemma_range_wider(ckey(leaf, cs[i]), lo, hi, lo2, hi2);
    }
}

proof fn lemma_holds_wider(
    p: Map<u32, Seq<u8>>,
    t: Tree,
    lo: KeyBound,
    hi: KeyBound,
    lo2: KeyBound,
    hi2: KeyBound,
    next: u32,
)
    requires
        holds(p, t, lo, hi, next),
        trim(p, t, lo),
        wider(lo, hi, lo2, hi2),
    ensures
        holds(p, t, lo2, hi2, next),
        trim(p, t, lo2),
    decreases t,
{
    match t {
        Tree::Leaf { id, chains } => {
            lemma_ascending_wider(true, cells_of(p[id]), lo, hi, lo2, hi2);
        },
        Tree::Node { id, kids } => {
            let cs = cells_of(p[id]);
            lemma_ascending_wider(false, cs, lo, hi, lo2, hi2);
            assert(node_tight(cs, lo2)) by {
                if lo2 is Some {
                    assert forall|i: int| 0 <= i < cs.len() implies lex_lt(
                        lo2->0,
                        ckey(false, #[trigger] cs[i]),
                    ) by {
                        lemma_le_lt_trans(lo2->0, lo->0, ckey(false, cs[i]));
                    }
                }
            }
            assert forall|j: int| 0 <= j < kids.len() implies id_of(#[trigger] kids[j]) == child_of(
                p[id],
                j,
            ) && holds(
                p,
                kids[j],
                lo_at(cs, j, lo2),
                hi_at(cs, j, hi2),
                next_at(kids, j, next),
            ) && trim(p, kids[j], lo_at(cs, j, lo2)) by {
                assert(wider(
                    lo_at(cs, j, lo),
                    hi_at(cs, j, hi),
                    lo_at(cs, j, lo2),
                    hi_at(cs, j, hi2),
                ));
                assert(trim(p, kids[j], lo_at(cs, j, lo)));
                lemma_holds_wider(
                    p,
                    kids[j],
                    lo_at(cs, j, lo),
                    hi_at(cs, j, hi),
                    lo_at(cs, j, lo2),
                    hi_at(cs, j, hi2),
                    next_at(kids, j, next),
                );
            }
        },
    }
}

/// A tree in good order is so in a wider range.
pub proof fn lemma_good_wider(
    s: PagerState,
    t: Tree,
    lo: KeyBound,
    hi: KeyBound,
    lo2: KeyBound,
    hi2: KeyBound,
    next: u32,
    h: nat,
)
    requires
        good(s, t, lo, hi, next, h),
        wider(lo, hi, lo2, hi2),
    ensures
        good(s, t, lo2, hi2, next, h),
{
    reveal(good);
    lemma_holds_wider(s.pages, t, lo, hi, lo2, hi2, next);
}

/// Nothing is found outside a tree's range.
pub proof fn lemma_outside(
    p: Map<u32, Seq<u8>>,
    t: Tree,
    lo: KeyBound,
    hi: KeyBound,
    next: u32,
    k: Seq<u8>,
    fuel: nat,
)
    requires
        holds(p, t, lo, hi, next),
        !in_range(k, lo, hi),
    ensures
        find(p, id_of(t), k, fuel) is None,
    decreases t,
{
    match t {
        Tree::Leaf { id, chains } => {
            let cs = cells_of(p[id]);
            assert forall|i: int| 0 <= i < cs.len() implies cell_key_of(true, #[trigger] cs[i])
                != Some(k) by {
                assert(in_range(ckey(true, cs[i]), lo, hi));
            }
        },
        Tree::Node { id, kids } => {
            let cs = cells_of(p[id]);
            lemma_route_exists(cs, lo, hi, k);
            let slot = choose|slot: int| routed(cs, k, slot);
            if fuel > 0 {
                lemma_find_node(p, id, k, slot, fuel);
                assert(id_of(kids[slot]) == child_of(p[id], slot));
                assert(!in_range(k, lo_at(cs, slot, lo), hi_at(cs, slot, hi))) by {
                    if lo is Some && !lex_le(lo->0, k) {
                        let l = lo->0;
                        if slot > 0 {
                            assert(lex_le(ckey(false, cs[0]), k));
                            assert(lex_le(l, ckey(false, cs[0])));
                            lemma_le_trans(l, ckey(false, cs[0]), k);
                        }
                    } else {
                        let b = hi->0;
                        assert(!lex_lt(k, b));
                        if slot < cs.len() {
                            let c = ckey(false, cs[slot]);
                            assert(lex_lt(k, c));
                            assert(lex_lt(c, b));
                            lemma_lex_transitive(k, c, b);
                        }
                    }
                }
                lemma_outside(
                    p,
                    kids[slot],
                    lo_at(cs, slot, lo),
                    hi_at(cs, slot, hi),
                    next_at(kids, slot, next),
                    k,
                    (fuel - 1) as nat,
                );
            }
        },
    }
}

// ---- the last leaf ---------------------------------------------------------------------------

/// The rightmost leaf.
pub open spec fn last_of(t: Tree) -> u32
    decreases t,
{
    match t {
        Tree::Leaf { id, .. } => id,
        Tree::Node { id, kids } => if kids.len() > 0 {
            last_of(kids[kids.len() - 1])
        } else {
            id
        },
    }
}

/// The rightmost leaf is a page of the tree.
pub proof fn lemma_last_in(t: Tree)
    ensures
        ids_of(t).contains(last_of(t)),
    decreases t,
{
    match t {
        Tree::Leaf { id, chains } => {},
        Tree::Node { id, kids } => {
            if kids.len() > 0 {
                lemma_last_in(kids[kids.len() - 1]);
                lemma_kid_in(id, kids, kids.len() - 1, last_of(t));
            }
        },
    }
}

/// Linking the last leaf to another one.
proof fn lemma_relink_pages(
    p: Map<u32, Seq<u8>>,
    q: Map<u32, Seq<u8>>,
    t: Tree,
    lo: KeyBound,
    hi: KeyBound,
    next: u32,
    next2: u32,
    h: nat,
    b: Seq<u8>,
)
    requires
        holds(p, t, lo, hi, next),
        trim(p, t, lo),
        distinct(t),
        uniform(t, h),
        q == p.insert(last_of(t), b),
        leaf_page(b, last_of(t), next2),
        sane(b),
        cells_of(b) == cells_of(p[last_of(t)]),
    ensures
        holds(q, t, lo, hi, next2),
        trim(q, t, lo),
        forall|k: Seq<u8>, fuel: nat| #[trigger]
            find(q, id_of(t), k, fuel) == find(p, id_of(t), k, fuel),
    decreases t,
{
    match t {
        Tree::Leaf { id, chains } => {
            let cs = cells_of(p[id]);
            assert forall|i: int, x: u32|
                0 <= i < chains.len() && #[trigger] chains[i].contains(x) implies q.contains_key(x)
                && q[x] == p[x] by {
                assert(ids_of(t).contains(x));
                crate::btree::node::lemma_pages_exist(p, t, lo, hi, next, x);
                assert(x != id);
            }
            lemma_leaf_frame(p, q, cs, chains, lo, hi);
        },
        Tree::Node { id, kids } => {
            let cs = cells_of(p[id]);
            let n = kids.len() - 1;
            let last = last_of(t);
            lemma_last_in(kids[n]);
            assert(holds(p, kids[n], lo_at(cs, n, lo), hi_at(cs, n, hi), next_at(kids, n, next)));
            assert(trim(p, kids[n], lo_at(cs, n, lo)));
            assert(uniform(kids[n], (h - 1) as nat));
            assert(distinct(kids[n]));
            assert(id != last);
            lemma_relink_pages(
                p,
                q,
                kids[n],
                lo_at(cs, n, lo),
                hi_at(cs, n, hi),
                next,
                next2,
                (h - 1) as nat,
                b,
            );
            assert forall|j: int| 0 <= j < n implies holds(
                q,
                #[trigger] kids[j],
                lo_at(cs, j, lo),
                hi_at(cs, j, hi),
                next_at(kids, j, next),
            ) && trim(q, kids[j], lo_at(cs, j, lo)) && (forall|k: Seq<u8>, fuel: nat| #[trigger]
                find(q, id_of(kids[j]), k, fuel) == find(p, id_of(kids[j]), k, fuel)) by {
                assert(trim(p, kids[j], lo_at(cs, j, lo)));
                assert forall|x: u32| #[trigger] ids_of(kids[j]).contains(x) implies q.contains_key(
                    x,
                ) && q[x] == p[x] by {
                    crate::btree::node::lemma_pages_exist(
                        p,
                        kids[j],
                        lo_at(cs, j, lo),
                        hi_at(cs, j, hi),
                        next_at(kids, j, next),
                        x,
                    );
                    assert(!ids_of(kids[n]).contains(x));
                }
                lemma_frame(
                    p,
                    q,
                    kids[j],
                    lo_at(cs, j, lo),
                    hi_at(cs, j, hi),
                    next_at(kids, j, next),
                );
                assert forall|k: Seq<u8>, fuel: nat| #[trigger]
                    find(q, id_of(kids[j]), k, fuel) == find(p, id_of(kids[j]), k, fuel) by {
                    lemma_find_frame(
                        p,
                        q,
                        kids[j],
                        lo_at(cs, j, lo),
                        hi_at(cs, j, hi),
                        next_at(kids, j, next),
                        k,
                        fuel,
                    );
                }
            }
            assert(q[id] == p[id]);
            assert forall|j: int| 0 <= j < kids.len() implies id_of(#[trigger] kids[j]) == child_of(
                q[id],
                j,
            ) && holds(
                q,
                kids[j],
                lo_at(cs, j, lo),
                hi_at(cs, j, hi),
                next_at(kids, j, next2),
            ) && trim(q, kids[j], lo_at(cs, j, lo)) by {
                assert(id_of(kids[j]) == child_of(p[id], j));
                if j < n {
                    assert(next_at(kids, j, next2) == next_at(kids, j, next));
                }
            }
            assert forall|k: Seq<u8>, fuel: nat| #[trigger] find(q, id, k, fuel) == find(
                p,
                id,
                k,
                fuel,
            ) by {
                if fuel > 0 {
                    lemma_route_exists(cs, lo, hi, k);
                    let slot = choose|slot: int| routed(cs, k, slot);
                    lemma_find_node(p, id, k, slot, fuel);
                    lemma_find_node(q, id, k, slot, fuel);
                    assert(id_of(kids[slot]) == child_of(p[id], slot));
                    assert(find(q, id_of(kids[slot]), k, (fuel - 1) as nat) == find(
                        p,
                        id_of(kids[slot]),
                        k,
                        (fuel - 1) as nat,
                    ));
                }
            }
        },
    }
}

/// Linking the last leaf of a tree in good order to another one.
pub proof fn lemma_relink(
    s: PagerState,
    s2: PagerState,
    t: Tree,
    lo: KeyBound,
    hi: KeyBound,
    next: u32,
    next2: u32,
    h: nat,
    b: Seq<u8>,
)
    requires
        good(s, t, lo, hi, next, h),
        s2.meta == s.meta,
        s2.pages == s.pages.insert(last_of(t), b),
        leaf_page(b, last_of(t), next2),
        sane(b),
        cells_of(b) == cells_of(s.pages[last_of(t)]),
    ensures
        good(s2, t, lo, hi, next2, h),
        moved(s, s2, ids_of(t), ids_of(t)),
        forall|k: Seq<u8>, fuel: nat| #[trigger]
            find(s2.pages, id_of(t), k, fuel) == find(s.pages, id_of(t), k, fuel),
{
    reveal(good);
    lemma_last_in(t);
    lemma_moved_write(s, s2, ids_of(t), last_of(t), b);
    lemma_relink_pages(s.pages, s2.pages, t, lo, hi, next, next2, h, b);
}

/// The page of the last leaf.
pub proof fn lemma_last_page(
    p: Map<u32, Seq<u8>>,
    t: Tree,
    lo: KeyBound,
    hi: KeyBound,
    next: u32,
    h: nat,
)
    requires
        holds(p, t, lo, hi, next),
        trim(p, t, lo),
        uniform(t, h),
    ensures
        p.contains_key(last_of(t)),
        leaf_page(p[last_of(t)], last_of(t), next),
        sane(p[last_of(t)]),
    decreases t,
{
    match t {
        Tree::Leaf { id, chains } => {},
        Tree::Node { id, kids } => {
            let cs = cells_of(p[id]);
            let n = kids.len() - 1;
            assert(holds(p, kids[n], lo_at(cs, n, lo), hi_at(cs, n, hi), next_at(kids, n, next)));
            assert(trim(p, kids[n], lo_at(cs, n, lo)));
            lemma_last_page(
                p,
                kids[n],
                lo_at(cs, n, lo),
                hi_at(cs, n, hi),
                next,
                (h - 1) as nat,
            );
        },
    }
}

// ---- what a delete leaves behind -------------------------------------------------------------

/// The subtree whose last leaf comes right before another subtree.
pub struct Side {
    /// The subtree.
    pub tree: Tree,
    /// Its lower bound.
    pub lo: KeyBound,
    /// Its upper bound.
    pub hi: KeyBound,
    /// Its height.
    pub h: nat,
}

/// The pages of a neighbour.
pub open spec fn side_ids(side: Option<Side>) -> Set<u32> {
    match side {
        Some(x) => ids_of(x.tree),
        None => Set::empty(),
    }
}

/// A neighbour is in good order and leads to leaf `next`.
pub open spec fn side_good(s: PagerState, side: Option<Side>, next: u32) -> bool {
    side matches Some(x) ==> good(s, x.tree, x.lo, x.hi, next, x.h)
}

/// A neighbour holds what it held.
pub open spec fn side_same(s: PagerState, s2: PagerState, side: Option<Side>) -> bool {
    side matches Some(x) ==> forall|k: Seq<u8>, fuel: nat| #[trigger]
        find(s2.pages, id_of(x.tree), k, fuel) == find(s.pages, id_of(x.tree), k, fuel)
}

/// The neighbour that a page id stands for.
pub open spec fn side_at(side: Option<Side>, left: Option<u32>) -> bool {
    match side {
        Some(x) => left == Some(id_of(x.tree)) && x.h <= 64,
        None => left is None,
    }
}

/// A leaf without cells and the nodes above it that had no other child.
pub struct Gone {
    /// The empty leaf, not yet written.
    pub leaf: Page,
    /// Its page.
    pub leaf_id: u32,
    /// The nodes above it, from the bottom up.
    pub orphans: Vec<u32>,
}

/// Every page of an emptied subtree.
pub open spec fn gone_ids(g: Gone) -> Set<u32> {
    g.orphans@.to_set().insert(g.leaf_id)
}

/// What a delete did to a subtree.
pub enum Removed {
    /// The subtree stays.
    Kept {
        /// Whether a leaf was taken out of it.
        unlinked: bool,
        /// What it is now.
        tree: Ghost<Tree>,
    },
    /// Nothing is left of the subtree.
    Emptied(Gone),
}

/// A delete after which the subtree stays.
#[verifier::opaque]
pub open spec fn kept(
    s: PagerState,
    s2: PagerState,
    t: Tree,
    lo: KeyBound,
    hi: KeyBound,
    next: u32,
    h: nat,
    side: Option<Side>,
    key: Seq<u8>,
    t2: Tree,
) -> bool {
    &&& good(s2, t2, lo, hi, next, h)
    &&& id_of(t2) == id_of(t)
    &&& side_good(s2, side, first_of(t2))
    &&& side_same(s, s2, side)
    &&& ids_of(t2).disjoint(side_ids(side))
    &&& moved(
        s,
        s2,
        ids_of(t).union(side_ids(side)),
        ids_of(t2).union(side_ids(side)),
    )
    &&& find(s.pages, id_of(t), key, h) is Some
    &&& forall|k: Seq<u8>|
        in_range(k, lo, hi) ==> #[trigger] find(s2.pages, id_of(t2), k, h) == if k == key {
            None
        } else {
            find(s.pages, id_of(t), k, h)
        }
}

/// A delete that took the only key of the subtree.
#[verifier::opaque]
pub open spec fn emptied(
    s: PagerState,
    s2: PagerState,
    t: Tree,
    next: u32,
    h: nat,
    key: Seq<u8>,
    g: Gone,
) -> bool {
    &&& leaf_page(g.leaf@, g.leaf_id, next)
    &&& sane(g.leaf@)
    &&& cells_of(g.leaf@) == Seq::<Seq<u8>>::empty()
    &&& g.orphans@.no_duplicates()
    &&& !g.orphans@.contains(g.leaf_id)
    &&& moved(s, s2, ids_of(t), gone_ids(g))
    &&& find(s.pages, id_of(t), key, h) is Some
    &&& forall|k: Seq<u8>| #[trigger] find(s.pages, id_of(t), k, h) is Some ==> k == key
}

// ---- lists of children -----------------------------------------------------------------------

/// The list after child `j` changed in place.
#[verifier::rlimit(40)]
#[verifier::spinoff_prover]
proof fn lemma_list_kept(
    s: PagerState,
    s2: PagerState,
    cs: Seq<Seq<u8>>,
    kids: Seq<Tree>,
    lo: KeyBound,
    hi: KeyBound,
    next: u32,
    h: nat,
    j: int,
    key: Seq<u8>,
    t2: Tree,
)
    requires
        node_list(s, cs, kids, lo, hi, next, h),
        0 <= j < kids.len(),
        routed(cs, key, j),
        id_of(t2) == id_of(kids[j]),
        good(s2, t2, lo_at(cs, j, lo), hi_at(cs, j, hi), next_at(kids, j, next), h),
        forall|i: int|
            #![trigger kids[i]]
            0 <= i < kids.len() && i != j ==> good(
                s2,
                kids[i],
                lo_at(cs, i, lo),
                hi_at(cs, i, hi),
                if i + 1 == j {
                    first_of(t2)
                } else {
                    next_at(kids, i, next)
                },
                h,
            ) && ids_of(t2).disjoint(ids_of(kids[i])) && forall|k: Seq<u8>, fuel: nat| #[trigger]
                find(s2.pages, id_of(kids[i]), k, fuel) == find(s.pages, id_of(kids[i]), k, fuel),
        forall|k: Seq<u8>|
            in_range(k, lo_at(cs, j, lo), hi_at(cs, j, hi)) ==> #[trigger] find(
                s2.pages,
                id_of(t2),
                k,
                h,
            ) == if k == key {
                None
            } else {
                find(s.pages, id_of(kids[j]), k, h)
            },
    ensures
        node_list(s2, cs, kids.update(j, t2), lo, hi, next, h),
        forall|k: Seq<u8>|
            in_range(k, lo, hi) ==> #[trigger] kid_find(s2.pages, cs, kids.update(j, t2), k, h) == if k
                == key {
                None
            } else {
                kid_find(s.pages, cs, kids, k, h)
            },
{
    let ks = kids.update(j, t2);
    assert forall|i: int| 0 <= i < ks.len() implies (i > 0 ==> u32_at(cs[i - 1], 2) == id_of(
        #[trigger] ks[i],
    )) && good(
        s2,
        ks[i],
        lo_at(cs, i, lo),
        hi_at(cs, i, hi),
        next_at(ks, i, next),
        h,
    ) by {
        assert(i != j ==> ks[i] == kids[i]);
        assert(id_of(kids[i]) == id_of(ks[i]));
        if i + 1 < kids.len() {
            assert(i + 1 != j ==> ks[i + 1] == kids[i + 1]);
        }
        assert(next_at(ks, i, next) == if i + 1 == j {
            first_of(t2)
        } else {
            next_at(kids, i, next)
        });
    }
    assert(kids_apart(ks)) by {
        assert forall|x: int, y: int, v: u32|
            0 <= x < y < ks.len() && #[trigger] ids_of(ks[x]).contains(v) implies !#[trigger] ids_of(
            ks[y],
        ).contains(v) by {
            if x == j {
                assert(ks[y] == kids[y]);
            } else if y == j {
                assert(ks[x] == kids[x]);
                assert(ids_of(t2).disjoint(ids_of(kids[x])));
            } else {
                assert(ks[x] == kids[x] && ks[y] == kids[y]);
                assert(ids_of(kids[x]).contains(v));
            }
        }
    }
    assert forall|k: Seq<u8>| in_range(k, lo, hi) implies #[trigger] kid_find(
        s2.pages,
        cs,
        ks,
        k,
        h,
    ) == if k == key {
        None
    } else {
        kid_find(s.pages, cs, kids, k, h)
    } by {
        lemma_route_exists(cs, lo, hi, k);
        let slot = choose|slot: int| routed(cs, k, slot);
        lemma_kid_find(s2.pages, cs, ks, k, h, slot);
        lemma_kid_find(s.pages, cs, kids, k, h, slot);
        lemma_route_range(cs, lo, hi, k, slot);
        if k == key {
            lemma_routed_unique(cs, key, slot, j);
        }
        if slot != j {
            assert(ks[slot] == kids[slot]);
            assert(find(s2.pages, id_of(kids[slot]), k, h) == find(
                s.pages,
                id_of(kids[slot]),
                k,
                h,
            ));
        } else {
            assert(find(s2.pages, id_of(t2), k, h) == if k == key {
                None
            } else {
                find(s.pages, id_of(kids[j]), k, h)
            });
        }
    }
}

/// The separators of a list without child `j`.
pub open spec fn seps_without(cs: Seq<Seq<u8>>, j: int) -> Seq<Seq<u8>> {
    if j == 0 {
        cs.remove(0)
    } else {
        cs.remove(j - 1)
    }
}

/// Separators stay in order when one goes.
proof fn lemma_seps_without(cs: Seq<Seq<u8>>, lo: KeyBound, hi: KeyBound, j: int)
    requires
        ascending(false, cs, lo, hi),
        node_tight(cs, lo),
        0 <= j <= cs.len(),
        cs.len() > 0,
    ensures
        ({
            let ds = seps_without(cs, j);
            let c = if j == 0 {
                0
            } else {
                j - 1
            };
            &&& ds.len() == cs.len() - 1
            &&& forall|i: int| 0 <= i < ds.len() ==> #[trigger] ds[i] == if i < c {
                cs[i]
            } else {
                cs[i + 1]
            }
            &&& ascending(false, ds, lo, hi)
            &&& node_tight(ds, lo)
        }),
{
    let ds = seps_without(cs, j);
    let c = if j == 0 {
        0
    } else {
        j - 1
    };
    assert forall|i: int| 0 <= i < ds.len() implies #[trigger] ds[i] == (if i < c {
        cs[i]
    } else {
        cs[i + 1]
    }) by {}
    assert forall|a: int, b: int| 0 <= a < b < ds.len() implies lex_lt(
        ckey(false, #[trigger] ds[a]),
        ckey(false, #[trigger] ds[b]),
    ) by {
        let x = if a < c {
            a
        } else {
            a + 1
        };
        let y = if b < c {
            b
        } else {
            b + 1
        };
        assert(lex_lt(ckey(false, cs[x]), ckey(false, cs[y])));
    }
}

/// Where a key is routed once child `j` is gone.
proof fn lemma_route_without(
    cs: Seq<Seq<u8>>,
    lo: KeyBound,
    hi: KeyBound,
    j: int,
    k: Seq<u8>,
    slot: int,
)
    requires
        ascending(false, cs, lo, hi),
        node_tight(cs, lo),
        0 <= j <= cs.len(),
        cs.len() > 0,
        routed(cs, k, slot),
    ensures
        slot < j ==> routed(seps_without(cs, j), k, slot),
        slot > j ==> routed(seps_without(cs, j), k, slot - 1),
        slot == j && j > 0 ==> routed(seps_without(cs, j), k, j - 1),
        slot == j && j == 0 ==> routed(seps_without(cs, j), k, 0),
{
    let ds = seps_without(cs, j);
    lemma_seps_without(cs, lo, hi, j);
    let c = if j == 0 {
        0
    } else {
        j - 1
    };
    let to = if slot < j {
        slot
    } else if slot > j {
        slot - 1
    } else if j > 0 {
        j - 1
    } else {
        0
    };
    assert forall|i: int| 0 <= i < to implies lex_le(ckey(false, #[trigger] ds[i]), k) by {
        if i < c {
            assert(lex_le(ckey(false, cs[i]), k));
        } else {
            assert(lex_le(ckey(false, cs[i + 1]), k));
        }
    }
    assert forall|i: int| to <= i < ds.len() implies lex_lt(k, ckey(false, #[trigger] ds[i])) by {
        if i < c {
            assert(lex_lt(k, ckey(false, cs[i])));
        } else {
            assert(lex_lt(k, ckey(false, cs[i + 1])));
        }
    }
}

/// The list after child `j` was taken out.
#[verifier::rlimit(60)]
#[verifier::spinoff_prover]
proof fn lemma_list_without(
    s: PagerState,
    s2: PagerState,
    cs: Seq<Seq<u8>>,
    kids: Seq<Tree>,
    lo: KeyBound,
    hi: KeyBound,
    next: u32,
    h: nat,
    j: int,
    key: Seq<u8>,
)
    requires
        node_list(s, cs, kids, lo, hi, next, h),
        0 <= j < kids.len(),
        cs.len() > 0,
        routed(cs, key, j),
        forall|i: int|
            #![trigger kids[i]]
            0 <= i < kids.len() && i != j ==> good(
                s2,
                kids[i],
                lo_at(cs, i, lo),
                hi_at(cs, i, hi),
                if i + 1 == j {
                    next_at(kids, j, next)
                } else {
                    next_at(kids, i, next)
                },
                h,
            ) && forall|k: Seq<u8>, fuel: nat| #[trigger]
                find(s2.pages, id_of(kids[i]), k, fuel) == find(s.pages, id_of(kids[i]), k, fuel),
        forall|k: Seq<u8>| #[trigger] find(s.pages, id_of(kids[j]), k, h) is Some ==> k == key,
    ensures
        node_list(s2, seps_without(cs, j), kids.remove(j), lo, hi, next, h),
        forall|k: Seq<u8>|
            in_range(k, lo, hi) ==> #[trigger] kid_find(
                s2.pages,
                seps_without(cs, j),
                kids.remove(j),
                k,
                h,
            ) == if k == key {
                None
            } else {
                kid_find(s.pages, cs, kids, k, h)
            },
{
    let ds = seps_without(cs, j);
    let ks = kids.remove(j);
    lemma_seps_without(cs, lo, hi, j);
    assert forall|i: int| 0 <= i < ks.len() implies #[trigger] ks[i] == (if i < j {
        kids[i]
    } else {
        kids[i + 1]
    }) by {}
    assert forall|i: int| 0 <= i < ks.len() implies (i > 0 ==> u32_at(ds[i - 1], 2) == id_of(
        #[trigger] ks[i],
    )) && good(
        s2,
        ks[i],
        lo_at(ds, i, lo),
        hi_at(ds, i, hi),
        next_at(ks, i, next),
        h,
    ) by {
        let o = if i < j {
            i
        } else {
            i + 1
        };
        assert(ks[i] == kids[o]);
        if i > 0 {
            assert(ds[i - 1] == cs[o - 1]);
            assert(u32_at(cs[o - 1], 2) == id_of(kids[o]));
        }
        if i + 1 < ks.len() {
            assert(ks[i + 1] == kids[if i + 1 < j {
                i + 1
            } else {
                i + 2
            }]);
        }
        let from = if o + 1 == j {
            next_at(kids, j, next)
        } else {
            next_at(kids, o, next)
        };
        assert(next_at(ks, i, next) == from);
        assert(wider(
            lo_at(cs, o, lo),
            hi_at(cs, o, hi),
            lo_at(ds, i, lo),
            hi_at(ds, i, hi),
        )) by {
            lemma_wider_without(cs, lo, hi, j, i, o);
        }
        lemma_good_wider(
            s2,
            kids[o],
            lo_at(cs, o, lo),
            hi_at(cs, o, hi),
            lo_at(ds, i, lo),
            hi_at(ds, i, hi),
            from,
            h,
        );
    }
    assert(kids_apart(ks)) by {
        assert forall|x: int, y: int, v: u32|
            0 <= x < y < ks.len() && #[trigger] ids_of(ks[x]).contains(v) implies !#[trigger] ids_of(
            ks[y],
        ).contains(v) by {
            let a = if x < j {
                x
            } else {
                x + 1
            };
            let b = if y < j {
                y
            } else {
                y + 1
            };
            assert(ks[x] == kids[a] && ks[y] == kids[b]);
            assert(ids_of(kids[a]).contains(v));
        }
    }
    assert forall|k: Seq<u8>| in_range(k, lo, hi) implies #[trigger] kid_find(
        s2.pages,
        ds,
        ks,
        k,
        h,
    ) == if k == key {
        None
    } else {
        kid_find(s.pages, cs, kids, k, h)
    } by {
        lemma_route_exists(cs, lo, hi, k);
        let slot = choose|slot: int| routed(cs, k, slot);
        lemma_kid_find(s.pages, cs, kids, k, h, slot);
        lemma_route_without(cs, lo, hi, j, k, slot);
        if k == key {
            lemma_routed_unique(cs, key, slot, j);
        }
        if slot != j {
            let to = if slot < j {
                slot
            } else {
                slot - 1
            };
            lemma_kid_find(s2.pages, ds, ks, k, h, to);
            assert(ks[to] == kids[slot]);
            assert(find(s2.pages, id_of(kids[slot]), k, h) == find(
                s.pages,
                id_of(kids[slot]),
                k,
                h,
            ));
        } else {
            let o = if j > 0 {
                j - 1
            } else {
                1
            };
            let to = if j > 0 {
                j - 1
            } else {
                0
            };
            lemma_kid_find(s2.pages, ds, ks, k, h, to);
            assert(ks[to] == kids[o]);
            assert(!in_range(k, lo_at(cs, o, lo), hi_at(cs, o, hi))) by {
                if j > 0 {
                    assert(lex_le(ckey(false, cs[j - 1]), k));
                    lemma_le_lt(ckey(false, cs[j - 1]), k);
                } else {
                    assert(lex_lt(k, ckey(false, cs[0])));
                    lemma_le_lt(ckey(false, cs[0]), k);
                }
            }
            let from = if o + 1 == j {
                next_at(kids, j, next)
            } else {
                next_at(kids, o, next)
            };
            assert(holds(s2.pages, kids[o], lo_at(cs, o, lo), hi_at(cs, o, hi), from)) by {
                reveal(good);
            }
            lemma_outside(s2.pages, kids[o], lo_at(cs, o, lo), hi_at(cs, o, hi), from, k, h);
            assert(find(s.pages, id_of(kids[j]), k, h) is Some ==> k == key);
        }
    }
}

/// A neighbour's range only grows.
proof fn lemma_wider_without(
    cs: Seq<Seq<u8>>,
    lo: KeyBound,
    hi: KeyBound,
    j: int,
    i: int,
    o: int,
)
    requires
        ascending(false, cs, lo, hi),
        node_tight(cs, lo),
        0 <= j <= cs.len(),
        cs.len() > 0,
        0 <= i < cs.len(),
        o == (if i < j {
            i
        } else {
            i + 1
        }),
    ensures
        wider(
            lo_at(cs, o, lo),
            hi_at(cs, o, hi),
            lo_at(seps_without(cs, j), i, lo),
            hi_at(seps_without(cs, j), i, hi),
        ),
{
    let ds = seps_without(cs, j);
    lemma_seps_without(cs, lo, hi, j);
    if i > 0 {
        assert(ds[i - 1] == cs[o - 1]);
    }
    if i < ds.len() {
        if o + 1 == j {
            assert(ds[i] == cs[i + 1]);
            assert(lex_lt(ckey(false, cs[i]), ckey(false, cs[i + 1])));
        } else {
            assert(ds[i] == cs[o]);
        }
    } else if o < cs.len() {
        assert(cell_key_of(false, cs[o]) is Some);
    }
    if o > 0 && i == 0 {
        assert(cell_key_of(false, cs[o - 1]) is Some);
    }
}

// ---- neighbours across a node ------------------------------------------------------------------

/// The neighbour to the left of child `j`.
pub open spec fn near_side(
    cs: Seq<Seq<u8>>,
    kids: Seq<Tree>,
    lo: KeyBound,
    hi: KeyBound,
    h: nat,
    j: int,
    side: Option<Side>,
) -> Option<Side> {
    if j > 0 {
        Some(Side { tree: kids[j - 1], lo: lo_at(cs, j - 1, lo), hi: hi_at(cs, j - 1, hi), h })
    } else {
        side
    }
}

/// A node, its list, and a neighbour apart from it.
pub open spec fn node_beside(
    s: PagerState,
    id: u32,
    kids: Seq<Tree>,
    lo: KeyBound,
    hi: KeyBound,
    next: u32,
    h: nat,
    side: Option<Side>,
) -> bool {
    &&& good(s, Tree::Node { id, kids }, lo, hi, next, h + 1)
    &&& side_good(s, side, first_of(Tree::Node { id, kids }))
    &&& node_ids(id, kids).disjoint(side_ids(side))
}

/// Everything of a node and its neighbour apart from child `j`.
pub open spec fn around(id: u32, kids: Seq<Tree>, j: int, side: Option<Side>) -> Set<u32> {
    rest_ids(id, kids, j).union(side_ids(side))
}

/// How child `j`, its left neighbour and the rest relate.
proof fn lemma_around(
    s: PagerState,
    id: u32,
    kids: Seq<Tree>,
    lo: KeyBound,
    hi: KeyBound,
    next: u32,
    h: nat,
    side: Option<Side>,
    j: int,
)
    requires
        node_beside(s, id, kids, lo, hi, next, h, side),
        0 <= j < kids.len(),
    ensures
        ({
            let cs = cells_of(s.pages[id]);
            let near = near_side(cs, kids, lo, hi, h, j, side);
            let all = around(id, kids, j, side);
            &&& node_list(s, cs, kids, lo, hi, next, h)
            &&& !kids_ids(kids).contains(id)
            &&& owned(s, all)
            &&& ids_of(kids[j]).disjoint(all)
            &&& ids_of(kids[j]).union(all) =~= node_ids(id, kids).union(side_ids(side))
            &&& side_good(s, near, first_of(kids[j]))
            &&& side_ids(near).subset_of(all)
            &&& !side_ids(near).contains(id)
            &&& all.contains(id)
            &&& ids_of(kids[j]).disjoint(side_ids(near))
            &&& good(
                s,
                kids[j],
                lo_at(cs, j, lo),
                hi_at(cs, j, hi),
                next_at(kids, j, next),
                h,
            )
            &&& forall|i: int|
                #![trigger kids[i]]
                0 <= i < kids.len() && i != j ==> good(
                    s,
                    kids[i],
                    lo_at(cs, i, lo),
                    hi_at(cs, i, hi),
                    next_at(kids, i, next),
                    h,
                ) && ids_of(kids[i]).subset_of(all) && !ids_of(kids[i]).contains(id)
                    && ids_of(kids[i]).disjoint(ids_of(kids[j])) && (i + 1 != j ==> ids_of(
                    kids[i],
                ).disjoint(side_ids(near)))
            &&& j > 0 ==> side_ids(near).disjoint(side_ids(side))
            &&& !side_ids(side).contains(id)
        }),
{
    let t = Tree::Node { id, kids };
    let cs = cells_of(s.pages[id]);
    let near = near_side(cs, kids, lo, hi, h, j, side);
    let rest = rest_ids(id, kids, j);
    let all = around(id, kids, j, side);
    lemma_node_open(s, id, kids, lo, hi, next, h + 1);
    assert((h + 1 - 1) as nat == h);
    lemma_node_ids(id, kids);
    assert(owned(s, node_ids(id, kids)) && owned(s, side_ids(side))) by {
        reveal(good);
    }
    assert forall|i: int|
        #![trigger kids[i]]
        0 <= i < kids.len() implies good(
        s,
        kids[i],
        lo_at(cs, i, lo),
        hi_at(cs, i, hi),
        next_at(kids, i, next),
        h,
    ) && !ids_of(kids[i]).contains(id) && ids_of(kids[i]).disjoint(side_ids(side)) && (i != j
        ==> ids_of(kids[i]).subset_of(all) && ids_of(kids[i]).disjoint(ids_of(kids[j]))) && (j > 0
        && i != j - 1 ==> ids_of(kids[i]).disjoint(ids_of(kids[j - 1]))) by {
        assert forall|x: u32| ids_of(kids[i]).contains(x) implies x != id && !side_ids(
            side,
        ).contains(x) && (i != j ==> all.contains(x) && !ids_of(kids[j]).contains(x)) && (j > 0 && i
            != j - 1 ==> !ids_of(kids[j - 1]).contains(x)) by {
            assert(kids_ids(kids).contains(x));
            assert(node_ids(id, kids).contains(x));
            if i < j {
                assert(!ids_of(kids[j]).contains(x));
            } else if i > j && ids_of(kids[j]).contains(x) {
                assert(!ids_of(kids[i]).contains(x));
            }
            if j > 0 && i < j - 1 {
                assert(!ids_of(kids[j - 1]).contains(x));
            } else if j > 0 && i > j - 1 && ids_of(kids[j - 1]).contains(x) {
                assert(!ids_of(kids[i]).contains(x));
            }
        }
    }
    assert forall|x: u32| #[trigger] all.contains(x) implies 1 <= x < s.meta.page_count && !free_of(
        s,
    ).contains(x) && !ids_of(kids[j]).contains(x) && node_ids(id, kids).union(
        side_ids(side),
    ).contains(x) by {
        if rest.contains(x) {
            if x != id {
                let i = choose|i: int|
                    0 <= i < kids.len() && i != j && ids_of(#[trigger] kids[i]).contains(x);
                assert(ids_of(kids[i]).disjoint(ids_of(kids[j])));
            }
            assert(node_ids(id, kids).contains(x));
        } else {
            assert(side_ids(side).contains(x));
            assert(ids_of(kids[j]).disjoint(side_ids(side)));
        }
    }
    assert forall|x: u32| node_ids(id, kids).union(side_ids(side)).contains(x) implies ids_of(
        kids[j],
    ).union(all).contains(x) by {
        if node_ids(id, kids).contains(x) && x != id {
            let i = choose|i: int| 0 <= i < kids.len() && ids_of(#[trigger] kids[i]).contains(x);
            if i != j {
                assert(rest.contains(x));
            }
        }
    }
    assert(node_ids(id, kids).contains(id));
    if j > 0 {
        assert(next_at(kids, j - 1, next) == first_of(kids[j]));
        assert(ids_of(kids[j - 1]).subset_of(all));
    } else {
        assert(first_of(t) == first_of(kids[0]));
    }
}

/// A child stayed: so does its parent.
#[verifier::rlimit(60)]
#[verifier::spinoff_prover]
proof fn lemma_kept_up(
    s: PagerState,
    s2: PagerState,
    id: u32,
    kids: Seq<Tree>,
    lo: KeyBound,
    hi: KeyBound,
    next: u32,
    h: nat,
    side: Option<Side>,
    j: int,
    key: Seq<u8>,
    t2: Tree,
)
    requires
        node_beside(s, id, kids, lo, hi, next, h, side),
        0 <= j < kids.len(),
        routed(cells_of(s.pages[id]), key, j),
        in_range(key, lo, hi),
        kept(
            s,
            s2,
            kids[j],
            lo_at(cells_of(s.pages[id]), j, lo),
            hi_at(cells_of(s.pages[id]), j, hi),
            next_at(kids, j, next),
            h,
            near_side(cells_of(s.pages[id]), kids, lo, hi, h, j, side),
            key,
            t2,
        ),
    ensures
        kept(
            s,
            s2,
            Tree::Node { id, kids },
            lo,
            hi,
            next,
            h + 1,
            side,
            key,
            Tree::Node { id, kids: kids.update(j, t2) },
        ),
{
    let t = Tree::Node { id, kids };
    let b = s.pages[id];
    let cs = cells_of(b);
    let ks = kids.update(j, t2);
    let u = Tree::Node { id, kids: ks };
    let near = near_side(cs, kids, lo, hi, h, j, side);
    let all = around(id, kids, j, side);
    let n = side_ids(near);
    let keep = all.difference(n);
    lemma_around(s, id, kids, lo, hi, next, h, side, j);
    lemma_node_open(s, id, kids, lo, hi, next, h + 1);
    assert((h + 1 - 1) as nat == h);
    let from = ids_of(kids[j]).union(n);
    let to = ids_of(t2).union(n);
    assert(good(s2, t2, lo_at(cs, j, lo), hi_at(cs, j, hi), next_at(kids, j, next), h)
        && id_of(t2) == id_of(kids[j]) && side_good(s2, near, first_of(t2)) && side_same(s, s2, near)
        && ids_of(t2).disjoint(n) && moved(s, s2, from, to) && find(
        s.pages,
        id_of(kids[j]),
        key,
        h,
    ) is Some) by {
        reveal(kept);
    }
    assert forall|k: Seq<u8>|
        in_range(k, lo_at(cs, j, lo), hi_at(cs, j, hi)) implies #[trigger] find(
        s2.pages,
        id_of(t2),
        k,
        h,
    ) == if k == key {
        None
    } else {
        find(s.pages, id_of(kids[j]), k, h)
    } by {
        reveal(kept);
    }
    assert(owned(s, keep)) by {
        assert forall|x: u32| #[trigger] keep.contains(x) implies 1 <= x < s.meta.page_count
            && !free_of(s).contains(x) by {
            assert(all.contains(x));
        }
    }
    lemma_moved_beside(s, s2, from, to, keep);
    assert(from.union(keep) =~= ids_of(t).union(side_ids(side)));
    lemma_kept_sets(id, kids, j, side, n, t2);
    lemma_moved_same(
        s,
        s2,
        from.union(keep),
        to.union(keep),
        ids_of(t).union(side_ids(side)),
        ids_of(u).union(side_ids(side)),
    );
    assert forall|i: int|
        #![trigger kids[i]]
        0 <= i < kids.len() && i != j implies good(
        s2,
        kids[i],
        lo_at(cs, i, lo),
        hi_at(cs, i, hi),
        if i + 1 == j {
            first_of(t2)
        } else {
            next_at(kids, i, next)
        },
        h,
    ) && ids_of(t2).disjoint(ids_of(kids[i])) && (forall|k: Seq<u8>, fuel: nat| #[trigger]
        find(s2.pages, id_of(kids[i]), k, fuel) == find(s.pages, id_of(kids[i]), k, fuel)) by {
        if i + 1 != j {
            assert(ids_of(kids[i]).subset_of(keep));
            assert forall|x: u32| #[trigger] ids_of(kids[i]).contains(x) implies same_page(
                s.pages,
                s2.pages,
                x,
            ) && 1 <= x < s2.meta.page_count && !free_of(s2).contains(x) && !ids_of(t2).contains(
                x,
            ) by {
                assert(keep.contains(x));
            }
            lemma_good_frame(
                s,
                s2,
                kids[i],
                lo_at(cs, i, lo),
                hi_at(cs, i, hi),
                next_at(kids, i, next),
                h,
            );
        }
    }
    lemma_list_kept(s, s2, cs, kids, lo, hi, next, h, j, key, t2);
    assert(keep.contains(id));
    assert(same_page(s.pages, s2.pages, id));
    assert(!kids_ids(ks).contains(id)) by {
        if kids_ids(ks).contains(id) {
            let i = choose|i: int| 0 <= i < ks.len() && ids_of(#[trigger] ks[i]).contains(id);
            if i != j {
                assert(ids_of(kids[i]).contains(id));
            } else {
                assert(to.contains(id));
            }
        }
    }
    assert(ks[0] == (if j == 0 {
        t2
    } else {
        kids[0]
    }));
    assert(id_of(ks[0]) == id_of(kids[0]));
    lemma_node_close(s2, id, ks, b, lo, hi, next, h);
    assert(side_good(s2, side, first_of(u)) && side_same(s, s2, side)) by {
        if j > 0 {
            if side is Some {
                let x = side->0;
                assert forall|y: u32| #[trigger] ids_of(x.tree).contains(y) implies same_page(
                    s.pages,
                    s2.pages,
                    y,
                ) && 1 <= y < s2.meta.page_count && !free_of(s2).contains(y) by {
                    assert(all.contains(y) && !n.contains(y));
                    assert(keep.contains(y));
                }
                lemma_good_frame(s, s2, x.tree, x.lo, x.hi, first_of(t), x.h);
            }
            assert(first_of(u) == first_of(kids[0]));
        }
    }
    assert(ids_of(u).disjoint(side_ids(side))) by {
        assert forall|x: u32| ids_of(u).contains(x) implies !side_ids(side).contains(x) by {
            if x != id {
                let i = choose|i: int| 0 <= i < ks.len() && ids_of(#[trigger] ks[i]).contains(x);
                if i != j {
                    assert(ids_of(kids[i]).contains(x));
                    lemma_kid_in(id, kids, i, x);
                } else if side_ids(side).contains(x) {
                    if j > 0 {
                        assert(all.contains(x) && !n.contains(x));
                        assert(keep.contains(x));
                        assert(to.contains(x));
                    }
                }
            }
        }
    }
    assert forall|k: Seq<u8>| in_range(k, lo, hi) implies #[trigger] find(s2.pages, id, k, h + 1)
        == if k == key {
        None
    } else {
        find(s.pages, id, k, h + 1)
    } by {
        assert(find(s2.pages, id, k, h + 1) == kid_find(s2.pages, cs, ks, k, h));
        assert(find(s.pages, id, k, h + 1) == kid_find(s.pages, cs, kids, k, h));
    }
    assert(find(s.pages, id, key, h + 1) is Some) by {
        lemma_kid_find(s.pages, cs, kids, key, h, j);
    }
    reveal(kept);
}

/// The pages of a node and its neighbour after child `j` changed.
proof fn lemma_kept_sets(
    id: u32,
    kids: Seq<Tree>,
    j: int,
    side: Option<Side>,
    n: Set<u32>,
    t2: Tree,
)
    requires
        0 <= j < kids.len(),
        n.subset_of(around(id, kids, j, side)),
    ensures
        ids_of(t2).union(n).union(around(id, kids, j, side).difference(n)) =~= node_ids(
            id,
            kids.update(j, t2),
        ).union(side_ids(side)),
{
    let all = around(id, kids, j, side);
    let rest = rest_ids(id, kids, j);
    let ks = kids.update(j, t2);
    let whole = node_ids(id, ks).union(side_ids(side));
    assert forall|x: u32| rest.contains(x) || ids_of(t2).contains(x) implies node_ids(
        id,
        ks,
    ).contains(x) by {
        if ids_of(t2).contains(x) {
            assert(ids_of(ks[j]).contains(x));
        } else if x != id {
            let i = choose|i: int|
                0 <= i < kids.len() && i != j && ids_of(#[trigger] kids[i]).contains(x);
            assert(ids_of(ks[i]).contains(x));
        }
    }
    assert forall|x: u32| node_ids(id, ks).contains(x) implies rest.contains(x) || ids_of(
        t2,
    ).contains(x) by {
        if x != id {
            let i = choose|i: int| 0 <= i < ks.len() && ids_of(#[trigger] ks[i]).contains(x);
            if i != j {
                assert(ids_of(kids[i]).contains(x));
            }
        }
    }
    let left = ids_of(t2).union(n).union(all.difference(n));
    assert forall|x: u32| left.contains(x) <==> whole.contains(x) by {
        assert(n.contains(x) ==> all.contains(x));
        assert(all.contains(x) <==> rest.contains(x) || side_ids(side).contains(x));
        assert(left.contains(x) <==> ids_of(t2).contains(x) || all.contains(x));
    }
}

/// The only child is gone: so is its parent.
#[verifier::spinoff_prover]
proof fn lemma_emptied_up(
    s: PagerState,
    s2: PagerState,
    id: u32,
    kids: Seq<Tree>,
    lo: KeyBound,
    hi: KeyBound,
    next: u32,
    h: nat,
    key: Seq<u8>,
    g: Gone,
    g2: Gone,
)
    requires
        good(s, Tree::Node { id, kids }, lo, hi, next, h + 1),
        kids.len() == 1,
        emptied(s, s2, kids[0], next, h, key, g),
        g2.leaf == g.leaf,
        g2.leaf_id == g.leaf_id,
        g2.orphans@ == g.orphans@.push(id),
    ensures
        emptied(s, s2, Tree::Node { id, kids }, next, h + 1, key, g2),
{
    reveal(emptied);
    let t = Tree::Node { id, kids };
    let cs = cells_of(s.pages[id]);
    lemma_node_open(s, id, kids, lo, hi, next, h + 1);
    assert((h + 1 - 1) as nat == h);
    lemma_node_ids(id, kids);
    let one = Set::<u32>::empty().insert(id);
    assert(kids_ids(kids) =~= ids_of(kids[0]));
    assert(owned(s, ids_of(t))) by {
        reveal(good);
    }
    assert(ids_of(t).contains(id));
    lemma_moved_beside(s, s2, ids_of(kids[0]), gone_ids(g), one);
    assert(!gone_ids(g).contains(id)) by {
        assert(one.contains(id));
    }
    assert(g2.orphans@.to_set() =~= g.orphans@.to_set().insert(id)) by {
        assert forall|x: u32| g.orphans@.push(id).contains(x) implies g.orphans@.contains(x) || x
            == id by {}
        assert forall|x: u32| g.orphans@.contains(x) || x == id implies g.orphans@.push(
            id,
        ).contains(x) by {
            if x == id {
                assert(g.orphans@.push(id)[g.orphans@.len() as int] == id);
            } else {
                let i = choose|i: int| 0 <= i < g.orphans@.len() && g.orphans@[i] == x;
                assert(g.orphans@.push(id)[i] == x);
            }
        }
    }
    assert(!g.orphans@.contains(id)) by {
        if g.orphans@.contains(id) {
            assert(g.orphans@.to_set().contains(id));
        }
    }
    assert(g2.orphans@.no_duplicates()) by {
        assert forall|a: int, b: int|
            0 <= a < g2.orphans@.len() && 0 <= b < g2.orphans@.len() && a != b implies g2.orphans@[a]
            != g2.orphans@[b] by {
            if a < g.orphans@.len() {
                assert(g.orphans@.contains(g.orphans@[a]));
            }
            if b < g.orphans@.len() {
                assert(g.orphans@.contains(g.orphans@[b]));
            }
        }
    }
    assert(g.leaf_id != id) by {
        assert(gone_ids(g).contains(g.leaf_id));
    }
    assert(!g2.orphans@.contains(g2.leaf_id)) by {
        if g2.orphans@.contains(g2.leaf_id) {
            assert(g2.orphans@.to_set().contains(g2.leaf_id));
            assert(g.orphans@.to_set().contains(g.leaf_id));
        }
    }
    lemma_moved_same(
        s,
        s2,
        ids_of(kids[0]).union(one),
        gone_ids(g).union(one),
        ids_of(t),
        gone_ids(g2),
    );
    assert forall|k: Seq<u8>| #[trigger] find(s.pages, id, k, h + 1) == find(
        s.pages,
        id_of(kids[0]),
        k,
        h,
    ) by {
        assert(routed(cs, k, 0));
        lemma_kid_find(s.pages, cs, kids, k, h, 0);
        assert(find(s.pages, id, k, h + 1) == kid_find(s.pages, cs, kids, k, h));
    }
    assert forall|k: Seq<u8>| #[trigger] find(s.pages, id, k, h + 1) is Some implies k == key by {
        assert(find(s.pages, id_of(kids[0]), k, h) is Some);
    }
}

// ---- taking a leaf out ---------------------------------------------------------------------------

/// Puts pages on the free list.
fn release(pager: &mut Pager, ids: &Vec<u32>, Ghost(keep): Ghost<Set<u32>>) -> (r: Result<()>)
    requires
        old(pager).inv(),
    ensures
        final(pager).inv(),
        grows(*old(pager), *final(pager)),
        owned(old(pager)@, keep.union(ids@.to_set())) && ids@.no_duplicates() && (forall|x: u32|
            keep.contains(x) ==> !#[trigger] ids@.contains(x)) ==> r is Ok && moved(
            old(pager)@,
            final(pager)@,
            keep.union(ids@.to_set()),
            keep,
        ) && (forall|x: u32| #[trigger]
            keep.contains(x) ==> same_page(old(pager)@.pages, final(pager)@.pages, x)),
{
    broadcast use {lemma_grows_same, lemma_grows_then};

    let ghost s = pager@;
    let ghost all = keep.union(ids@.to_set());
    let ghost ok = owned(s, all) && ids@.no_duplicates() && (forall|x: u32|
        keep.contains(x) ==> !#[trigger] ids@.contains(x));
    let mut i: usize = 0;
    proof {
        assert(ids@.skip(0) =~= ids@);
        if ok {
            lemma_moved_none(s, all);
        }
    }
    while i < ids.len()
        invariant
            pager.inv(),
            grows(*old(pager), *pager),
            i <= ids@.len(),
            s == old(pager)@,
            all == keep.union(ids@.to_set()),
            ok == (owned(s, all) && ids@.no_duplicates() && (forall|x: u32|
                keep.contains(x) ==> !#[trigger] ids@.contains(x))),
            ok ==> ids@.no_duplicates() && (forall|x: u32|
                keep.contains(x) ==> !#[trigger] ids@.contains(x)),
            ok ==> moved(s, pager@, all, keep.union(ids@.skip(i as int).to_set())),
            ok ==> forall|x: u32| #[trigger]
                keep.contains(x) ==> same_page(s.pages, pager@.pages, x),
        decreases ids@.len() - i,
    {
        broadcast use {lemma_grows_same, lemma_grows_then};

        let ghost s1 = pager@;
        let ghost a = keep.union(ids@.skip(i as int).to_set());
        proof {
            assert(ids@.skip(i as int)[0] == ids@[i as int]);
            assert(ids@.skip(i as int).contains(ids@[i as int]));
            assert(a.contains(ids@[i as int]));
            assert(ok ==> 1 <= ids@[i as int] < s1.meta.page_count);
        }
        pager.free_page(ids[i])?;
        proof {
            if ok {
                let rest = keep.union(ids@.skip(i + 1).to_set());
                lemma_moved_freed(s1, pager@, a, ids@[i as int]);
                assert(ids@.contains(ids@[i as int]));
                assert forall|x: u32| a.remove(ids@[i as int]).contains(x) <==> rest.contains(x) by {
                    let before = ids@.skip(i as int);
                    let after = ids@.skip(i + 1);
                    if before.contains(x) && x != ids@[i as int] {
                        let k = choose|k: int| 0 <= k < before.len() && before[k] == x;
                        assert(after[k - 1] == x);
                        assert(after.contains(x));
                    }
                    if after.contains(x) {
                        let k = choose|k: int| 0 <= k < after.len() && after[k] == x;
                        assert(before[k + 1] == x);
                        assert(before.contains(x));
                        assert(ids@[i + 1 + k] == x);
                    }
                    if keep.contains(x) {
                        assert(!ids@.contains(x));
                    }
                }
                lemma_moved_same(s1, pager@, a, a.remove(ids@[i as int]), a, rest);
                lemma_moved_trans(s, s1, pager@, all, a, rest);
                assert forall|x: u32| #[trigger] keep.contains(x) implies same_page(
                    s.pages,
                    pager@.pages,
                    x,
                ) by {
                    assert(!ids@.contains(x));
                    assert(a.contains(x) && x != ids@[i as int]);
                    assert(same_page(s.pages, s1.pages, x));
                    assert(same_page(s1.pages, pager@.pages, x));
                }
            }
        }
        i += 1;
    }
    proof {
        if ok {
            assert(keep.union(ids@.skip(i as int).to_set()) =~= keep);
        }
    }
    Ok(())
}

/// The rightmost leaf below page `start`.
fn last_leaf(
    pager: &mut Pager,
    start: u32,
    Ghost(t): Ghost<Tree>,
    Ghost(lo): Ghost<KeyBound>,
    Ghost(hi): Ghost<KeyBound>,
    Ghost(next): Ghost<u32>,
    Ghost(h): Ghost<nat>,
) -> (r: Result<u32>)
    requires
        old(pager).inv(),
    ensures
        final(pager).inv(),
        grows(*old(pager), *final(pager)),
        final(pager).dirty() == old(pager).dirty(),
        final(pager)@ == old(pager)@,
        good(old(pager)@, t, lo, hi, next, h) && id_of(t) == start && h <= 64 ==> r == Ok::<
            u32,
            Error,
        >(last_of(t)),
{
    broadcast use {lemma_grows_same, lemma_grows_then};

    let ghost s = pager@;
    let ghost ok = good(s, t, lo, hi, next, h) && id_of(t) == start && h <= 64;
    let mut current: u32 = start;
    let mut depth: usize = 0;
    let ghost mut u = t;
    let ghost mut l = lo;
    let ghost mut g = h;
    while depth <= MAX_DEPTH
        invariant
            pager.inv(),
            grows(*old(pager), *pager),
            pager.dirty() == old(pager).dirty(),
            pager@ == s,
            s == old(pager)@,
            ok == (good(s, t, lo, hi, next, h) && id_of(t) == start && h <= 64),
            depth <= 65,
            ok ==> good(s, u, l, hi, next, g) && id_of(u) == current && depth + g <= 64 && last_of(
                u,
            ) == last_of(t),
        decreases 65 - depth,
    {
        broadcast use {lemma_grows_same, lemma_grows_then};

        proof {
            if ok {
                lemma_good_page(s, u, l, hi, next, g);
            }
        }
        let page: Page = pager.read_page(current)?;
        if page.is_leaf() {
            return Ok(current);
        }
        let n: usize = page.num_keys() as usize;
        proof {
            if ok {
                lemma_step_down(s, u, l, hi, next, g, Seq::empty(), n as int);
                lemma_node_open(s, current, u->kids, l, hi, next, g);
                assert(cells_of(page@).len() == n);
                assert(u->kids.len() == n + 1);
                l = lo_at(cells_of(page@), n as int, l);
                u = u->kids[n as int];
                g = (g - 1) as nat;
            }
        }
        current = child_at(&page, n)?;
        depth += 1;
    }
    Err(Error::corrupt("B+Tree depth exceeded 64 levels (cycle?)"))
}

/// A neighbour whose last leaf was linked anew, through the rest of an unlink.
proof fn lemma_near_relinked(
    s0: PagerState,
    s: PagerState,
    s1: PagerState,
    s2: PagerState,
    s3: PagerState,
    x: Side,
    was: u32,
    now: u32,
    id: u32,
    keep: Set<u32>,
    b: Seq<u8>,
    node: Seq<u8>,
)
    requires
        good(s0, x.tree, x.lo, x.hi, was, x.h),
        ids_of(x.tree).subset_of(keep),
        !ids_of(x.tree).contains(id),
        owned(s, keep),
        forall|y: u32| #[trigger] keep.contains(y) ==> same_page(s0.pages, s.pages, y),
        s1.meta == s.meta,
        s1.pages == s.pages.insert(last_of(x.tree), b),
        leaf_page(b, last_of(x.tree), now),
        sane(b),
        cells_of(b) == cells_of(s.pages[last_of(x.tree)]),
        s2.meta == s1.meta,
        s2.pages == s1.pages.insert(id, node),
        owned(s3, keep),
        forall|y: u32| #[trigger] keep.contains(y) ==> same_page(s2.pages, s3.pages, y),
    ensures
        good(s3, x.tree, x.lo, x.hi, now, x.h),
        forall|k: Seq<u8>, fuel: nat| #[trigger]
            find(s3.pages, id_of(x.tree), k, fuel) == find(s0.pages, id_of(x.tree), k, fuel),
{
    let a = ids_of(x.tree);
    assert forall|y: u32| #[trigger] a.contains(y) implies same_page(s0.pages, s.pages, y) && 1 <= y
        < s.meta.page_count && !free_of(s).contains(y) by {
        assert(keep.contains(y));
    }
    lemma_good_frame(s0, s, x.tree, x.lo, x.hi, was, x.h);
    lemma_relink(s, s1, x.tree, x.lo, x.hi, was, now, x.h, b);
    assert forall|y: u32| #[trigger] a.contains(y) implies same_page(s1.pages, s3.pages, y) && 1
        <= y < s3.meta.page_count && !free_of(s3).contains(y) by {
        assert(keep.contains(y));
        assert(y != id);
        assert(same_page(s2.pages, s3.pages, y));
    }
    lemma_good_frame(s1, s3, x.tree, x.lo, x.hi, now, x.h);
    assert forall|k: Seq<u8>, fuel: nat| #[trigger]
        find(s3.pages, id_of(x.tree), k, fuel) == find(s0.pages, id_of(x.tree), k, fuel) by {
        assert(find(s3.pages, id_of(x.tree), k, fuel) == find(
            s1.pages,
            id_of(x.tree),
            k,
            fuel,
        ));
        assert(find(s1.pages, id_of(x.tree), k, fuel) == find(s.pages, id_of(x.tree), k, fuel));
    }
}

/// The pages that stay when child `j` goes.
proof fn lemma_without_sets(id: u32, kids: Seq<Tree>, j: int)
    requires
        0 <= j < kids.len(),
    ensures
        rest_ids(id, kids, j) =~= node_ids(id, kids.remove(j)),
{
    let rest = rest_ids(id, kids, j);
    let ks = kids.remove(j);
    assert forall|i: int| 0 <= i < ks.len() implies #[trigger] ks[i] == (if i < j {
        kids[i]
    } else {
        kids[i + 1]
    }) by {}
    assert forall|x: u32| rest.contains(x) implies node_ids(id, ks).contains(x) by {
        if x != id {
            let i = choose|i: int|
                0 <= i < kids.len() && i != j && ids_of(#[trigger] kids[i]).contains(x);
            if i < j {
                assert(ids_of(ks[i]).contains(x));
            } else {
                assert(ids_of(ks[i - 1]).contains(x));
            }
        }
    }
    assert forall|x: u32| node_ids(id, ks).contains(x) implies rest.contains(x) by {
        if x != id {
            let i = choose|i: int| 0 <= i < ks.len() && ids_of(#[trigger] ks[i]).contains(x);
            if i < j {
                assert(ids_of(kids[i]).contains(x));
            } else {
                assert(ids_of(kids[i + 1]).contains(x));
            }
        }
    }
}

/// A node whose child `j` was taken out stays.
#[verifier::rlimit(80)]
#[verifier::spinoff_prover]
proof fn lemma_unlinked(
    s0: PagerState,
    s: PagerState,
    s1: PagerState,
    s2: PagerState,
    s3: PagerState,
    id: u32,
    kids: Seq<Tree>,
    lo: KeyBound,
    hi: KeyBound,
    next: u32,
    h: nat,
    side: Option<Side>,
    j: int,
    key: Seq<u8>,
    g: Gone,
    b: Seq<u8>,
    node: Seq<u8>,
)
    requires
        node_beside(s0, id, kids, lo, hi, next, h, side),
        0 <= j < kids.len(),
        kids.len() > 1,
        routed(cells_of(s0.pages[id]), key, j),
        in_range(key, lo, hi),
        emptied(s0, s, kids[j], next_at(kids, j, next), h, key, g),
        ({
            let cs = cells_of(s0.pages[id]);
            let near = near_side(cs, kids, lo, hi, h, j, side);
            &&& s1.meta == s.meta
            &&& match near {
                Some(x) => s1.pages == s.pages.insert(last_of(x.tree), b) && leaf_page(
                    b,
                    last_of(x.tree),
                    next_at(kids, j, next),
                ) && sane(b) && cells_of(b) == cells_of(s.pages[last_of(x.tree)]),
                None => s1.pages == s.pages,
            }
            &&& node_page(node, id)
            &&& sane(node)
            &&& cells_of(node) == seps_without(cs, j)
            &&& extra_of(node) == (if j == 0 {
                id_of(kids[1])
            } else {
                id_of(kids[0])
            })
        }),
        s2.meta == s1.meta,
        s2.pages == s1.pages.insert(id, node),
        moved(
            s2,
            s3,
            around(id, kids, j, side).union(gone_ids(g)),
            around(id, kids, j, side),
        ),
        forall|y: u32| #[trigger]
            around(id, kids, j, side).contains(y) ==> same_page(s2.pages, s3.pages, y),
    ensures
        kept(
            s0,
            s3,
            Tree::Node { id, kids },
            lo,
            hi,
            next,
            h + 1,
            side,
            key,
            Tree::Node { id, kids: kids.remove(j) },
        ),
{
    let t = Tree::Node { id, kids };
    let cs = cells_of(s0.pages[id]);
    let near = near_side(cs, kids, lo, hi, h, j, side);
    let keep = around(id, kids, j, side);
    let ks = kids.remove(j);
    let u = Tree::Node { id, kids: ks };
    let ds = seps_without(cs, j);
    let gone = gone_ids(g);
    lemma_around(s0, id, kids, lo, hi, next, h, side, j);
    lemma_node_open(s0, id, kids, lo, hi, next, h + 1);
    assert((h + 1 - 1) as nat == h);
    assert(moved(s0, s, ids_of(kids[j]), gone) && find(s0.pages, id_of(kids[j]), key, h) is Some)
        by {
        reveal(emptied);
    }
    assert forall|k: Seq<u8>| #[trigger] find(s0.pages, id_of(kids[j]), k, h) is Some implies k
        == key by {
        reveal(emptied);
    }
    lemma_moved_beside(s0, s, ids_of(kids[j]), gone, keep);
    let big = keep.union(gone);
    // The moves, one after another.
    assert(owned(s, big)) by {
        assert forall|y: u32| #[trigger] big.contains(y) implies 1 <= y < s.meta.page_count
            && !free_of(s).contains(y) by {
            assert(gone.union(keep).contains(y));
        }
    }
    lemma_moved_same(
        s0,
        s,
        ids_of(kids[j]).union(keep),
        gone.union(keep),
        ids_of(t).union(side_ids(side)),
        big,
    );
    if near is Some {
        let x = near->0;
        lemma_last_in(x.tree);
        assert(keep.contains(last_of(x.tree)));
        lemma_moved_write(s, s1, big, last_of(x.tree), b);
    } else {
        assert(s1 == s);
        lemma_moved_none(s, big);
    }
    lemma_moved_trans(s0, s, s1, ids_of(t).union(side_ids(side)), big, big);
    assert(big.contains(id));
    lemma_moved_write(s1, s2, big, id, node);
    lemma_moved_trans(s0, s1, s2, ids_of(t).union(side_ids(side)), big, big);
    lemma_moved_trans(s0, s2, s3, ids_of(t).union(side_ids(side)), big, keep);
    lemma_without_sets(id, kids, j);
    assert(keep =~= ids_of(u).union(side_ids(side)));
    lemma_moved_same(
        s0,
        s3,
        ids_of(t).union(side_ids(side)),
        keep,
        ids_of(t).union(side_ids(side)),
        ids_of(u).union(side_ids(side)),
    );
    // Pages away from the node and the linked leaf.
    assert forall|y: u32|
        #![trigger keep.contains(y)]
        keep.contains(y) && y != id && (near matches Some(x) ==> y != last_of(x.tree)) implies same_page(
        s0.pages,
        s3.pages,
        y,
    ) && 1 <= y < s3.meta.page_count && !free_of(s3).contains(y) by {
        assert(same_page(s0.pages, s.pages, y));
        assert(same_page(s2.pages, s3.pages, y));
    }
    if near is Some {
        lemma_near_relinked(
            s0,
            s,
            s1,
            s2,
            s3,
            near->0,
            first_of(kids[j]),
            next_at(kids, j, next),
            id,
            keep,
            b,
            node,
        );
        lemma_last_in((near->0).tree);
    }
    assert forall|i: int|
        #![trigger kids[i]]
        0 <= i < kids.len() && i != j implies good(
        s3,
        kids[i],
        lo_at(cs, i, lo),
        hi_at(cs, i, hi),
        if i + 1 == j {
            next_at(kids, j, next)
        } else {
            next_at(kids, i, next)
        },
        h,
    ) && (forall|k: Seq<u8>, fuel: nat| #[trigger]
        find(s3.pages, id_of(kids[i]), k, fuel) == find(s0.pages, id_of(kids[i]), k, fuel)) by {
        if i + 1 != j {
            assert forall|y: u32| #[trigger] ids_of(kids[i]).contains(y) implies same_page(
                s0.pages,
                s3.pages,
                y,
            ) && 1 <= y < s3.meta.page_count && !free_of(s3).contains(y) by {
                assert(keep.contains(y));
                assert(!side_ids(near).contains(y));
            }
            lemma_good_frame(
                s0,
                s3,
                kids[i],
                lo_at(cs, i, lo),
                hi_at(cs, i, hi),
                next_at(kids, i, next),
                h,
            );
        }
    }
    lemma_list_without(s0, s3, cs, kids, lo, hi, next, h, j, key);
    assert(same_page(s2.pages, s3.pages, id));
    assert(ks[0] == (if j == 0 {
        kids[1]
    } else {
        kids[0]
    }));
    assert(!kids_ids(ks).contains(id)) by {
        if kids_ids(ks).contains(id) {
            let i = choose|i: int| 0 <= i < ks.len() && ids_of(#[trigger] ks[i]).contains(id);
            if i < j {
                assert(ids_of(kids[i]).contains(id));
            } else {
                assert(ids_of(kids[i + 1]).contains(id));
            }
        }
    }
    assert(keep.contains(id));
    lemma_node_close(s3, id, ks, node, lo, hi, next, h);
    assert(first_of(u) == first_of(ks[0]));
    assert(side_good(s3, side, first_of(u)) && side_same(s0, s3, side)) by {
        if j > 0 {
            if side is Some {
                let x = side->0;
                assert forall|y: u32| #[trigger] ids_of(x.tree).contains(y) implies same_page(
                    s0.pages,
                    s3.pages,
                    y,
                ) && 1 <= y < s3.meta.page_count && !free_of(s3).contains(y) by {
                    assert(keep.contains(y));
                    assert(!side_ids(near).contains(y));
                    assert(!side_ids(side).contains(id));
                }
                lemma_good_frame(s0, s3, x.tree, x.lo, x.hi, first_of(t), x.h);
            }
        }
    }
    assert(ids_of(u).disjoint(side_ids(side))) by {
        assert forall|x: u32| ids_of(u).contains(x) implies !side_ids(side).contains(x) by {
            assert(rest_ids(id, kids, j).contains(x));
            if x != id {
                let i = choose|i: int|
                    0 <= i < kids.len() && i != j && ids_of(#[trigger] kids[i]).contains(x);
                lemma_kid_in(id, kids, i, x);
            }
        }
    }
    assert forall|k: Seq<u8>| in_range(k, lo, hi) implies #[trigger] find(s3.pages, id, k, h + 1)
        == if k == key {
        None
    } else {
        find(s0.pages, id, k, h + 1)
    } by {
        assert(find(s3.pages, id, k, h + 1) == kid_find(s3.pages, ds, ks, k, h));
        assert(find(s0.pages, id, k, h + 1) == kid_find(s0.pages, cs, kids, k, h));
    }
    assert(find(s0.pages, id, key, h + 1) is Some) by {
        lemma_kid_find(s0.pages, cs, kids, key, h, j);
        assert(find(s0.pages, id, key, h + 1) == kid_find(s0.pages, cs, kids, key, h));
    }
    reveal(kept);
}

/// Takes an emptied child out of a node that has others.
///
/// The leaf before it, if any, is linked past it; the child's pages go to the
/// free list.
#[verifier::rlimit(60)]
#[verifier::spinoff_prover]
fn unlink(
    pager: &mut Pager,
    node: Page,
    slot: usize,
    left: Option<u32>,
    gone: Gone,
    Ghost(s0): Ghost<PagerState>,
    Ghost(kids): Ghost<Seq<Tree>>,
    Ghost(lo): Ghost<KeyBound>,
    Ghost(hi): Ghost<KeyBound>,
    Ghost(next): Ghost<u32>,
    Ghost(h): Ghost<nat>,
    Ghost(side): Ghost<Option<Side>>,
    Ghost(key): Ghost<Seq<u8>>,
) -> (r: Result<()>)
    requires
        old(pager).inv(),
        structured(node@),
    ensures
        final(pager).inv(),
        grows(*old(pager), *final(pager)),
        ({
            let id = page_id_of(node@);
            let cs = cells_of(node@);
            node_beside(s0, id, kids, lo, hi, next, h, side) && node@ == s0.pages[id] && routed(
                cs,
                key,
                slot as int,
            ) && in_range(key, lo, hi) && cs.len() > 0 && emptied(
                s0,
                old(pager)@,
                kids[slot as int],
                next_at(kids, slot as int, next),
                h,
                key,
                gone,
            ) && side_at(near_side(cs, kids, lo, hi, h, slot as int, side), left) ==> r is Ok
                && kept(
                s0,
                final(pager)@,
                Tree::Node { id, kids },
                lo,
                hi,
                next,
                h + 1,
                side,
                key,
                Tree::Node { id, kids: kids.remove(slot as int) },
            )
        }),
{
    broadcast use {lemma_grows_same, lemma_grows_then};

    let ghost s = pager@;
    let ghost id = page_id_of(node@);
    let ghost cs = cells_of(node@);
    let ghost j = slot as int;
    let ghost near = near_side(cs, kids, lo, hi, h, j, side);
    let ghost keep = around(id, kids, j, side);
    let ghost ok = node_beside(s0, id, kids, lo, hi, next, h, side) && node@ == s0.pages[id]
        && routed(cs, key, j) && in_range(key, lo, hi) && cs.len() > 0 && emptied(
        s0,
        s,
        kids[j],
        next_at(kids, j, next),
        h,
        key,
        gone,
    ) && side_at(near, left);
    proof {
        if ok {
            lemma_unlink_start(s0, s, id, kids, lo, hi, next, h, side, j, key, gone);
        }
    }
    let ghost mut linked: Seq<u8> = Seq::empty();
    match left {
        Some(prev_tree) => {
            let prev_id: u32 = last_leaf(
                pager,
                prev_tree,
                Ghost((near->0).tree),
                Ghost((near->0).lo),
                Ghost((near->0).hi),
                Ghost(first_of(kids[j])),
                Ghost((near->0).h),
            )?;
            let mut prev: Page = pager.read_page(prev_id)?;
            prev.set_extra(gone.leaf.extra());
            proof {
                linked = prev@;
            }
            pager.write_page(prev);
        },
        None => {},
    }
    let ghost s1 = pager@;
    let mut anchor: Page = node;
    proof {
        if ok {
            assert(crate::page::slot_ok(anchor@, 0)) by {
                assert(crate::page::cell_start_of(anchor@) <= crate::page::slot_off(anchor@, 0));
            }
        }
    }
    if slot == 0 {
        let first: u32 = anchor.internal_child(0)?;
        anchor.set_extra(first);
        anchor.remove_cell_at(0)?;
    } else {
        anchor.remove_cell_at(slot - 1)?;
    }
    let ghost page = anchor@;
    pager.write_page(anchor);
    let ghost s2 = pager@;
    proof {
        if ok {
            assert(owned(s2, keep.union(gone_ids(gone)))) by {
                lemma_unlink_writes(
                    s,
                    s1,
                    s2,
                    id,
                    keep,
                    gone_ids(gone),
                    near,
                    linked,
                    page,
                );
            }
            assert(gone_ids(gone).contains(gone.leaf_id));
            assert(keep.union(gone_ids(gone)).contains(gone.leaf_id));
        }
    }
    pager.free_page(gone.leaf_id)?;
    let ghost s3 = pager@;
    proof {
        if ok {
            lemma_release_leaf(s2, s3, keep, gone);
        }
    }
    release(pager, &gone.orphans, Ghost(keep))?;
    proof {
        if ok {
            let all = keep.union(gone_ids(gone));
            lemma_moved_trans(s2, s3, pager@, all, keep.union(gone.orphans@.to_set()), keep);
            assert forall|y: u32| #[trigger] keep.contains(y) implies same_page(
                s2.pages,
                pager@.pages,
                y,
            ) by {
                assert(same_page(s2.pages, s3.pages, y));
                assert(same_page(s3.pages, pager@.pages, y));
            }
            lemma_unlinked(
                s0,
                s,
                s1,
                s2,
                pager@,
                id,
                kids,
                lo,
                hi,
                next,
                h,
                side,
                j,
                key,
                gone,
                linked,
                page,
            );
        }
    }
    Ok(())
}

/// What taking out an emptied child starts from.
#[verifier::spinoff_prover]
proof fn lemma_unlink_start(
    s0: PagerState,
    s: PagerState,
    id: u32,
    kids: Seq<Tree>,
    lo: KeyBound,
    hi: KeyBound,
    next: u32,
    h: nat,
    side: Option<Side>,
    j: int,
    key: Seq<u8>,
    g: Gone,
)
    requires
        node_beside(s0, id, kids, lo, hi, next, h, side),
        routed(cells_of(s0.pages[id]), key, j),
        emptied(s0, s, kids[j], next_at(kids, j, next), h, key, g),
    ensures
        ({
            let cs = cells_of(s0.pages[id]);
            let near = near_side(cs, kids, lo, hi, h, j, side);
            let keep = around(id, kids, j, side);
            &&& 0 <= j < kids.len()
            &&& kids.len() == cs.len() + 1
            &&& node_page(s0.pages[id], id)
            &&& sane(s0.pages[id])
            &&& extra_of(s0.pages[id]) == id_of(kids[0])
            &&& cs.len() > 0 ==> u32_at(cs[0], 2) == id_of(kids[1]) && cs[0].len() >= 6
            &&& side_good(s, near, first_of(kids[j]))
            &&& near matches Some(x) ==> {
                &&& s.pages.contains_key(last_of(x.tree))
                &&& leaf_page(s.pages[last_of(x.tree)], last_of(x.tree), first_of(kids[j]))
                &&& sane(s.pages[last_of(x.tree)])
                &&& keep.contains(last_of(x.tree))
            }
            &&& extra_of(g.leaf@) == next_at(kids, j, next)
            &&& g.orphans@.no_duplicates()
            &&& !g.orphans@.contains(g.leaf_id)
            &&& keep.disjoint(gone_ids(g))
            &&& keep.contains(id)
            &&& owned(s, keep.union(gone_ids(g)))
        }),
{
    let cs = cells_of(s0.pages[id]);
    let near = near_side(cs, kids, lo, hi, h, j, side);
    let keep = around(id, kids, j, side);
    lemma_node_open(s0, id, kids, lo, hi, next, h + 1);
    assert((h + 1 - 1) as nat == h);
    lemma_around(s0, id, kids, lo, hi, next, h, side, j);
    reveal(emptied);
    lemma_moved_beside(s0, s, ids_of(kids[j]), gone_ids(g), keep);
    assert(owned(s, keep.union(gone_ids(g)))) by {
        assert forall|y: u32| #[trigger] keep.union(gone_ids(g)).contains(y) implies 1 <= y
            < s.meta.page_count && !free_of(s).contains(y) by {
            assert(gone_ids(g).union(keep).contains(y));
        }
    }
    if cs.len() > 0 {
        assert(u32_at(cs[0], 2) == id_of(kids[1]));
        assert(cell_key_of(false, cs[0]) is Some);
    }
    if near is Some {
        let x = near->0;
        assert forall|y: u32| #[trigger] ids_of(x.tree).contains(y) implies same_page(
            s0.pages,
            s.pages,
            y,
        ) && 1 <= y < s.meta.page_count && !free_of(s).contains(y) by {
            assert(side_ids(near).contains(y));
            assert(keep.contains(y));
        }
        lemma_good_frame(s0, s, x.tree, x.lo, x.hi, first_of(kids[j]), x.h);
        lemma_last_in(x.tree);
        assert(side_ids(near).contains(last_of(x.tree)));
        assert(holds(s.pages, x.tree, x.lo, x.hi, first_of(kids[j])) && trim(
            s.pages,
            x.tree,
            x.lo,
        ) && uniform(x.tree, x.h)) by {
            reveal(good);
        }
        lemma_last_page(s.pages, x.tree, x.lo, x.hi, first_of(kids[j]), x.h);
    }
}

/// The two pages that an unlink rewrites belong to the tree.
proof fn lemma_unlink_writes(
    s: PagerState,
    s1: PagerState,
    s2: PagerState,
    id: u32,
    keep: Set<u32>,
    gone: Set<u32>,
    near: Option<Side>,
    linked: Seq<u8>,
    page: Seq<u8>,
)
    requires
        owned(s, keep.union(gone)),
        keep.contains(id),
        s1.meta == s.meta,
        match near {
            Some(x) => s1.pages == s.pages.insert(last_of(x.tree), linked) && keep.contains(
                last_of(x.tree),
            ),
            None => s1.pages == s.pages,
        },
        s2.meta == s1.meta,
        s2.pages == s1.pages.insert(id, page),
    ensures
        owned(s2, keep.union(gone)),
{
    let all = keep.union(gone);
    match near {
        Some(x) => {
            lemma_moved_write(s, s1, all, last_of(x.tree), linked);
        },
        None => {
            assert(s1 == s);
        },
    }
    lemma_moved_write(s1, s2, all, id, page);
}

/// Freeing the emptied leaf.
proof fn lemma_release_leaf(s: PagerState, s2: PagerState, keep: Set<u32>, g: Gone)
    requires
        owned(s, keep.union(gone_ids(g))),
        keep.disjoint(gone_ids(g)),
        freed(s, s2, g.leaf_id),
        !g.orphans@.contains(g.leaf_id),
    ensures
        moved(s, s2, keep.union(gone_ids(g)), keep.union(g.orphans@.to_set())),
        owned(s2, keep.union(g.orphans@.to_set())),
        forall|x: u32| keep.contains(x) ==> !#[trigger] g.orphans@.contains(x),
        forall|y: u32| #[trigger] keep.contains(y) ==> same_page(s.pages, s2.pages, y),
{
    let all = keep.union(gone_ids(g));
    let after = keep.union(g.orphans@.to_set());
    assert(gone_ids(g).contains(g.leaf_id));
    assert(all.contains(g.leaf_id));
    lemma_moved_freed(s, s2, all, g.leaf_id);
    assert(!g.orphans@.to_set().contains(g.leaf_id));
    assert(all.remove(g.leaf_id) =~= after);
    lemma_moved_same(s, s2, all, all.remove(g.leaf_id), all, after);
    assert forall|x: u32| keep.contains(x) implies !#[trigger] g.orphans@.contains(x) by {
        if g.orphans@.contains(x) {
            assert(g.orphans@.to_set().contains(x));
            assert(gone_ids(g).contains(x));
        }
    }
    assert forall|y: u32| #[trigger] keep.contains(y) implies same_page(s.pages, s2.pages, y) by {
        assert(all.contains(y));
        assert(y != g.leaf_id);
    }
}

// ---- deleting --------------------------------------------------------------------------------------

/// A leaf that lost a cell, not yet written.
#[verifier::opaque]
pub open spec fn dropped(
    s: PagerState,
    s2: PagerState,
    t: Tree,
    lo: KeyBound,
    hi: KeyBound,
    next: u32,
    key: Seq<u8>,
    b: Seq<u8>,
    chains: Seq<Seq<u32>>,
) -> bool {
    let id = id_of(t);
    &&& leaf_page(b, id, next)
    &&& sane(b)
    &&& leaf_list(s2, id, cells_of(b), chains, lo, hi)
    &&& moved(s, s2, ids_of(t), leaf_ids(id, chains))
    &&& find(s.pages, id, key, 0) is Some
    &&& forall|k: Seq<u8>| #[trigger]
        leaf_find(s2.pages, cells_of(b), k) == if k == key {
            None
        } else {
            find(s.pages, id, k, 0)
        }
}

/// Removes `key` from a leaf and frees its overflow pages.
fn drop_key(
    pager: &mut Pager,
    leaf: Page,
    key: &[u8],
    Ghost(t): Ghost<Tree>,
    Ghost(lo): Ghost<KeyBound>,
    Ghost(hi): Ghost<KeyBound>,
    Ghost(next): Ghost<u32>,
) -> (r: Result<(Page, Ghost<Seq<Seq<u32>>>)>)
    requires
        old(pager).inv(),
        structured(leaf@),
    ensures
        final(pager).inv(),
        grows(*old(pager), *final(pager)),
        r matches Ok(out) ==> structured(out.0@) && page_id_of(out.0@) == page_id_of(leaf@),
        good(old(pager)@, t, lo, hi, next, 0) && leaf@ == old(pager)@.pages[id_of(t)] ==> match r {
            Ok(out) => dropped(
                old(pager)@,
                final(pager)@,
                t,
                lo,
                hi,
                next,
                key@,
                out.0@,
                out.1@,
            ),
            Err(e) => e is NotFound && final(pager)@ == old(pager)@ && find(
                old(pager)@.pages,
                id_of(t),
                key@,
                0,
            ) is None,
        },
{
    broadcast use {lemma_grows_same, lemma_grows_then};

    let ghost s = pager@;
    let ghost id = id_of(t);
    let ghost chains = t->chains;
    let ghost cs = cells_of(leaf@);
    let ghost ok = good(s, t, lo, hi, next, 0) && leaf@ == s.pages[id];
    proof {
        if ok {
            lemma_good_page(s, t, lo, hi, next, 0);
            assert(t == (Tree::Leaf { id, chains }));
            assert(leaf_list(s, id, cs, chains, lo, hi) && leaf_page(leaf@, id, next) && sane(
                leaf@,
            )) by {
                reveal(good);
            }
            lemma_leaf_search(s.pages, leaf@, chains, lo, hi, key@);
            assert(find(s.pages, id, key@, 0) == leaf_find(s.pages, cs, key@));
        }
    }
    let idx: usize = match leaf.search(key)? {
        Ok(i) => i,
        Err(_) => {
            return Err(Error::NotFound);
        },
    };
    let mut leaf: Page = leaf;
    drop_cell(pager, &mut leaf, idx, Ghost(id), Ghost(chains), Ghost(lo), Ghost(hi))?;
    let ghost rest = chains.remove(idx as int);
    proof {
        if ok {
            assert(cell_key_of(true, cs[idx as int]) == Some(key@));
            crate::btree::insert::lemma_cells_remove(s.pages, cs, chains, lo, hi, idx as int);
            assert forall|k: Seq<u8>| #[trigger]
                leaf_find(pager@.pages, cells_of(leaf@), k) == (if k == key@ {
                None
            } else {
                find(s.pages, id, k, 0)
            }) by {
                assert(leaf_find(pager@.pages, cells_of(leaf@), k) == leaf_find(
                    s.pages,
                    cells_of(leaf@),
                    k,
                ));
                if k != key@ {
                    assert(leaf_find(s.pages, cells_of(leaf@), k) == leaf_find(s.pages, cs, k));
                }
            }
            reveal(dropped);
        }
    }
    Ok((leaf, Ghost(rest)))
}

/// Writing the leaf keeps the subtree.
#[verifier::spinoff_prover]
proof fn lemma_leaf_kept(
    s: PagerState,
    s1: PagerState,
    s2: PagerState,
    t: Tree,
    lo: KeyBound,
    hi: KeyBound,
    next: u32,
    side: Option<Side>,
    key: Seq<u8>,
    b: Seq<u8>,
    chains: Seq<Seq<u32>>,
)
    requires
        good(s, t, lo, hi, next, 0),
        side_good(s, side, first_of(t)),
        ids_of(t).disjoint(side_ids(side)),
        dropped(s, s1, t, lo, hi, next, key, b, chains),
        s2.meta == s1.meta,
        s2.pages == s1.pages.insert(id_of(t), b),
    ensures
        kept(s, s2, t, lo, hi, next, 0, side, key, Tree::Leaf { id: id_of(t), chains }),
{
    reveal(dropped);
    let id = id_of(t);
    let u = Tree::Leaf { id, chains };
    lemma_good_page(s, t, lo, hi, next, 0);
    lemma_list_write(s1, s2, id, cells_of(b), chains, lo, hi, b);
    lemma_good_leaf(s2, id, chains, b, lo, hi, next);
    lemma_moved_trans(s, s1, s2, ids_of(t), leaf_ids(id, chains), leaf_ids(id, chains));
    assert(owned(s, side_ids(side))) by {
        reveal(good);
    }
    lemma_moved_beside(s, s2, ids_of(t), ids_of(u), side_ids(side));
    if side is Some {
        let x = side->0;
        lemma_good_frame(s, s2, x.tree, x.lo, x.hi, first_of(t), x.h);
    }
    assert forall|k: Seq<u8>| in_range(k, lo, hi) implies #[trigger] find(s2.pages, id, k, 0)
        == if k == key {
        None
    } else {
        find(s.pages, id, k, 0)
    } by {
        assert(leaf_find(s2.pages, cells_of(b), k) == leaf_find(s1.pages, cells_of(b), k));
    }
    reveal(kept);
}

/// A leaf without cells is all there was.
#[verifier::spinoff_prover]
proof fn lemma_leaf_emptied(
    s: PagerState,
    s2: PagerState,
    t: Tree,
    lo: KeyBound,
    hi: KeyBound,
    next: u32,
    key: Seq<u8>,
    g: Gone,
    chains: Seq<Seq<u32>>,
)
    requires
        dropped(s, s2, t, lo, hi, next, key, g.leaf@, chains),
        num_keys_of(g.leaf@) == 0,
        g.leaf_id == id_of(t),
        g.orphans@.len() == 0,
    ensures
        emptied(s, s2, t, next, 0, key, g),
{
    reveal(dropped);
    reveal(emptied);
    let id = id_of(t);
    let b = g.leaf@;
    assert(cells_of(b) =~= Seq::<Seq<u8>>::empty());
    assert(gone_ids(g) =~= leaf_ids(id, chains));
    lemma_moved_same(
        s,
        s2,
        ids_of(t),
        leaf_ids(id, chains),
        ids_of(t),
        gone_ids(g),
    );
    assert forall|k: Seq<u8>| #[trigger] find(s.pages, id, k, 0) is Some implies k == key by {
        assert(leaf_find(s2.pages, cells_of(b), k) == if k == key {
            None
        } else {
            find(s.pages, id, k, 0)
        });
    }
}

/// What a delete in a subtree did.
pub open spec fn removed(
    s: PagerState,
    s2: PagerState,
    t: Tree,
    lo: KeyBound,
    hi: KeyBound,
    next: u32,
    h: nat,
    side: Option<Side>,
    key: Seq<u8>,
    out: Removed,
) -> bool {
    match out {
        Removed::Kept { tree, .. } => kept(s, s2, t, lo, hi, next, h, side, key, tree@),
        Removed::Emptied(g) => emptied(s, s2, t, next, h, key, g),
    }
}

impl BTree {
    /// Deletes from the subtree at `page_id`, whose left neighbour is at `left`.
    #[verifier::rlimit(60)]
    #[verifier::spinoff_prover]
    fn delete_from(
        &self,
        pager: &mut Pager,
        page_id: u32,
        key: &[u8],
        left: Option<u32>,
        depth: usize,
        Ghost(t): Ghost<Tree>,
        Ghost(lo): Ghost<KeyBound>,
        Ghost(hi): Ghost<KeyBound>,
        Ghost(next): Ghost<u32>,
        Ghost(h): Ghost<nat>,
        Ghost(side): Ghost<Option<Side>>,
    ) -> (r: Result<Removed>)
        requires
            old(pager).inv(),
            depth <= 65,
        ensures
            final(pager).inv(),
            grows(*old(pager), *final(pager)),
            r matches Ok(Removed::Emptied(g)) ==> structured(g.leaf@),
            good(old(pager)@, t, lo, hi, next, h) && id_of(t) == page_id && in_range(key@, lo, hi)
                && depth + h <= 64 && side_good(old(pager)@, side, first_of(t)) && ids_of(
                t,
            ).disjoint(side_ids(side)) && side_at(side, left) ==> match r {
                Ok(out) => removed(
                    old(pager)@,
                    final(pager)@,
                    t,
                    lo,
                    hi,
                    next,
                    h,
                    side,
                    key@,
                    out,
                ) && (depth == 0 && h == 0 ==> out is Kept) && (out matches Removed::Kept {
                    unlinked,
                    ..
                } ==> unlinked ==> h > 0),
                Err(e) => e is NotFound && final(pager)@ == old(pager)@ && find(
                    old(pager)@.pages,
                    page_id,
                    key@,
                    h,
                ) is None,
            },
        decreases 65 - depth,
    {
        broadcast use {lemma_grows_same, lemma_grows_then};

        let ghost s = pager@;
        let ghost ok = good(s, t, lo, hi, next, h) && id_of(t) == page_id && in_range(key@, lo, hi)
            && depth + h <= 64 && side_good(s, side, first_of(t)) && ids_of(t).disjoint(
            side_ids(side),
        ) && side_at(side, left);
        if depth > MAX_DEPTH {
            return Err(Error::corrupt("B+Tree depth exceeded 64 levels (cycle?)"));
        }
        proof {
            if ok {
                lemma_good_page(s, t, lo, hi, next, h);
            }
        }
        let page: Page = pager.read_page(page_id)?;
        if !page.is_structured() {
            return Err(Error::corrupt("page has slots out of bounds"));
        }
        if page.is_leaf() {
            let (leaf, Ghost(chains)) = drop_key(
                pager,
                page,
                key,
                Ghost(t),
                Ghost(lo),
                Ghost(hi),
                Ghost(next),
            )?;
            let ghost s1 = pager@;
            if leaf.num_keys() > 0 || depth == 0 {
                let ghost b = leaf@;
                pager.write_page(leaf);
                let ghost u = Tree::Leaf { id: page_id, chains };
                proof {
                    if ok {
                        assert(page_id_of(b) == page_id);
                        lemma_leaf_kept(s, s1, pager@, t, lo, hi, next, side, key@, b, chains);
                    }
                }
                return Ok(Removed::Kept { unlinked: false, tree: Ghost(u) });
            }
            let g: Gone = Gone { leaf, leaf_id: page_id, orphans: Vec::new() };
            proof {
                if ok {
                    lemma_leaf_emptied(s, s1, t, lo, hi, next, key@, g, chains);
                }
            }
            return Ok(Removed::Emptied(g));
        }
        let ghost kids = t->kids;
        let ghost cs = cells_of(page@);
        let ghost c = (h - 1) as nat;
        proof {
            if ok {
                assert(t == (Tree::Node { id: page_id, kids }));
                lemma_node_open(s, page_id, kids, lo, hi, next, h);
                lemma_node_keys(s, page_id, kids, lo, hi, next, h);
            }
        }
        let slot: usize = child_slot_for(&page, key)?;
        let ghost j = slot as int;
        let ghost near = near_side(cs, kids, lo, hi, c, j, side);
        proof {
            if ok {
                lemma_child_fits(s, page_id, kids, lo, hi, next, h, key@, j);
                assert(node_beside(s, page_id, kids, lo, hi, next, c, side));
                lemma_around(s, page_id, kids, lo, hi, next, c, side, j);
                if j > 0 {
                    lemma_step_down(s, t, lo, hi, next, h, key@, j - 1);
                }
            }
        }
        let child: u32 = child_at(&page, slot)?;
        let near_left: Option<u32> = if slot > 0 {
            Some(child_at(&page, slot - 1)?)
        } else {
            left
        };
        assert(ok ==> side_at(near, near_left));
        let out: Removed = match self.delete_from(
            pager,
            child,
            key,
            near_left,
            depth + 1,
            Ghost(kids[j]),
            Ghost(lo_at(cs, j, lo)),
            Ghost(hi_at(cs, j, hi)),
            Ghost(next_at(kids, j, next)),
            Ghost(c),
            Ghost(near),
        ) {
            Ok(out) => out,
            Err(e) => {
                proof {
                    if ok {
                        lemma_kid_find(s.pages, cs, kids, key@, c, j);
                        assert(find(s.pages, page_id, key@, h) == kid_find(
                            s.pages,
                            cs,
                            kids,
                            key@,
                            c,
                        ));
                    }
                }
                return Err(e);
            },
        };
        let ghost s1 = pager@;
        match out {
            Removed::Kept { unlinked, tree } => {
                let ghost u = Tree::Node { id: page_id, kids: kids.update(j, tree@) };
                proof {
                    if ok {
                        lemma_kept_up(
                            s,
                            s1,
                            page_id,
                            kids,
                            lo,
                            hi,
                            next,
                            c,
                            side,
                            j,
                            key@,
                            tree@,
                        );
                    }
                }
                Ok(Removed::Kept { unlinked, tree: Ghost(u) })
            },
            Removed::Emptied(gone) => {
                if page.num_keys() == 0 {
                    let ghost g0 = gone;
                    let mut orphans: Vec<u32> = gone.orphans;
                    orphans.push(page_id);
                    let g: Gone = Gone { leaf: gone.leaf, leaf_id: gone.leaf_id, orphans };
                    proof {
                        if ok {
                            assert(kids.len() == 1);
                            lemma_emptied_up(s, s1, page_id, kids, lo, hi, next, c, key@, g0, g);
                        }
                    }
                    return Ok(Removed::Emptied(g));
                }
                let ghost u = Tree::Node { id: page_id, kids: kids.remove(j) };
                unlink(
                    pager,
                    page,
                    slot,
                    near_left,
                    gone,
                    Ghost(s),
                    Ghost(kids),
                    Ghost(lo),
                    Ghost(hi),
                    Ghost(next),
                    Ghost(c),
                    Ghost(side),
                    Ghost(key@),
                )?;
                Ok(Removed::Kept { unlinked: true, tree: Ghost(u) })
            },
        }
    }
}

/// Changing the root keeps the free list.
proof fn lemma_root_owned(s: PagerState, s2: PagerState, ids: Set<u32>)
    requires
        owned(s, ids),
        s2.pages == s.pages,
        s2.meta == (MetaData { root: s2.meta.root, ..s.meta }),
    ensures
        owned(s2, ids),
{
    lemma_pool_frame(s, s2);
}

/// The only child of a root takes its place.
proof fn lemma_root_collapsed(
    s: PagerState,
    s1: PagerState,
    s2: PagerState,
    id: u32,
    kids: Seq<Tree>,
    h: nat,
)
    requires
        tree_at(s, Tree::Node { id, kids }, h),
        h <= 64,
        kids.len() == 1,
        s1.pages == s.pages,
        s1.meta == (MetaData { root: id_of(kids[0]), ..s.meta }),
        freed(s1, s2, id),
    ensures
        h > 0,
        tree_at(s2, kids[0], (h - 1) as nat),
        contents(s2) == contents(s),
{
    let t = Tree::Node { id, kids };
    let kid = kids[0];
    let c = (h - 1) as nat;
    let cs = cells_of(s.pages[id]);
    lemma_node_open(s, id, kids, None, None, SENTINEL, h);
    assert(good(
        s,
        kid,
        lo_at(cs, 0, None),
        hi_at(cs, 0, None),
        next_at(kids, 0, SENTINEL),
        c,
    ));
    lemma_good_page(s, t, None, None, SENTINEL, h);
    lemma_root_in(t);
    lemma_root_owned(s, s1, ids_of(t));
    lemma_moved_freed(s1, s2, ids_of(t), id);
    assert forall|x: u32| #[trigger] ids_of(kid).contains(x) implies same_page(
        s.pages,
        s2.pages,
        x,
    ) && 1 <= x < s2.meta.page_count && !free_of(s2).contains(x) by {
        lemma_kid_in(id, kids, 0, x);
        assert(kids_ids(kids).contains(x));
        assert(ids_of(t).remove(id).contains(x));
        assert(same_page(s1.pages, s2.pages, x));
    }
    lemma_good_frame(s, s2, kid, None, None, SENTINEL, c);
    lemma_tree_finds(s, t, h);
    lemma_tree_finds(s2, kid, c);
    assert forall|k: Seq<u8>| #[trigger] find(s2.pages, s2.meta.root, k, 65) == find(
        s.pages,
        s.meta.root,
        k,
        65,
    ) by {
        assert(routed(cs, k, 0));
        lemma_kid_find(s.pages, cs, kids, k, c, 0);
        assert(find(s.pages, id, k, h) == kid_find(s.pages, cs, kids, k, c));
        assert(find(s2.pages, id_of(kid), k, c) == find(s.pages, id_of(kid), k, c));
    }
    assert(contents(s2) =~= contents(s));
}

/// Hands the tree to the only child of the root, as long as the root has one.
fn collapse_root(pager: &mut Pager, Ghost(t): Ghost<Tree>, Ghost(h): Ghost<nat>) -> (r: Result<()>)
    requires
        old(pager).inv(),
    ensures
        final(pager).inv(),
        grows(*old(pager), *final(pager)),
        tree_at(old(pager)@, t, h) && h <= 64 ==> r is Ok && tree_ok(final(pager)@, h) && contents(
            final(pager)@,
        ) == contents(old(pager)@),
        tree_at(old(pager)@, t, h) && h <= 64 && final(pager)@.pages.contains_key(SENTINEL)
            ==> old(pager)@.pages.contains_key(SENTINEL),
{
    broadcast use {lemma_grows_same, lemma_grows_then};

    let ghost s = pager@;
    let ghost ok = tree_at(s, t, h) && h <= 64;
    let ghost mut u = t;
    let ghost mut g = h;
    let mut depth: usize = 0;
    while depth <= MAX_DEPTH
        invariant
            pager.inv(),
            grows(*old(pager), *pager),
            s == old(pager)@,
            depth <= 65,
            ok == (tree_at(s, t, h) && h <= 64),
            ok ==> tree_at(pager@, u, g) && depth + g <= 64 && g <= h && contents(pager@)
                == contents(s),
            ok && pager@.pages.contains_key(SENTINEL) ==> s.pages.contains_key(SENTINEL),
        decreases 65 - depth,
    {
        broadcast use {lemma_grows_same, lemma_grows_then};

        let ghost s1 = pager@;
        let root_id: u32 = pager.meta().root;
        proof {
            if ok {
                lemma_good_page(s1, u, None, None, SENTINEL, g);
            }
        }
        let root: Page = pager.read_page(root_id)?;
        if root.is_leaf() || root.num_keys() > 0 {
            return Ok(());
        }
        let mut meta: MetaData = pager.meta();
        meta.root = root.extra();
        proof {
            if ok {
                assert(u == (Tree::Node { id: root_id, kids: u->kids }));
                lemma_node_open(s1, root_id, u->kids, None, None, SENTINEL, g);
                lemma_root_in(u);
                assert(1 <= root_id < s1.meta.page_count);
            }
        }
        pager.set_meta(meta);
        let ghost s2 = pager@;
        pager.free_page(root_id)?;
        proof {
            if ok {
                lemma_root_collapsed(s1, s2, pager@, root_id, u->kids, g);
                u = u->kids[0];
                g = (g - 1) as nat;
            }
        }
        depth += 1;
    }
    Err(Error::corrupt("B+Tree depth exceeded 64 levels (cycle?)"))
}

/// The last key went: its leaf is an empty root.
proof fn lemma_root_emptied(
    s: PagerState,
    s1: PagerState,
    s2: PagerState,
    s3: PagerState,
    s4: PagerState,
    t: Tree,
    h: nat,
    key: Seq<u8>,
    g: Gone,
)
    requires
        tree_at(s, t, h),
        h <= 64,
        emptied(s, s1, t, SENTINEL, h, key, g),
        s2.meta == s1.meta,
        s2.pages == s1.pages.insert(g.leaf_id, g.leaf@),
        s3.pages == s2.pages,
        s3.meta == (MetaData { root: g.leaf_id, ..s2.meta }),
        owned(s4, Set::<u32>::empty().insert(g.leaf_id)),
        s4.meta.root == g.leaf_id,
        same_page(s3.pages, s4.pages, g.leaf_id),
    ensures
        tree_at(s4, Tree::Leaf { id: g.leaf_id, chains: Seq::empty() }, 0),
        contents(s).contains_key(key),
        contents(s4) == contents(s).remove(key),
{
    reveal(emptied);
    let id = g.leaf_id;
    let b = g.leaf@;
    let chains = Seq::<Seq<u32>>::empty();
    let u = Tree::Leaf { id, chains };
    assert(ids_of(u) =~= Set::<u32>::empty().insert(id));
    lemma_good_leaf(s4, id, chains, b, None, None, SENTINEL);
    lemma_tree_finds(s, t, h);
    lemma_tree_finds(s4, u, 0);
    assert forall|k: Seq<u8>| #[trigger] find(s4.pages, s4.meta.root, k, 65) is None by {
        assert(find(s4.pages, id, k, 0) == leaf_find(s4.pages, cells_of(b), k));
    }
    assert(find(s.pages, s.meta.root, key, 65) is Some);
    assert forall|k: Seq<u8>| #[trigger] find(s.pages, s.meta.root, k, 65) is Some implies k
        == key by {
        assert(find(s.pages, id_of(t), k, h) is Some);
    }
    assert(contents(s4) =~= contents(s).remove(key));
}

/// The tree stayed without the key.
proof fn lemma_root_kept(
    s: PagerState,
    s2: PagerState,
    t: Tree,
    h: nat,
    key: Seq<u8>,
    u: Tree,
)
    requires
        tree_at(s, t, h),
        h <= 64,
        kept(s, s2, t, None, None, SENTINEL, h, None, key, u),
    ensures
        tree_at(s2, u, h),
        contents(s).contains_key(key),
        contents(s2) == contents(s).remove(key),
{
    reveal(kept);
    lemma_tree_finds(s, t, h);
    lemma_tree_finds(s2, u, h);
    assert(find(s.pages, s.meta.root, key, 65) is Some);
    assert forall|k: Seq<u8>| #[trigger] find(s2.pages, s2.meta.root, k, 65) == if k == key {
        None
    } else {
        find(s.pages, s.meta.root, k, 65)
    } by {
        assert(in_range(k, None, None));
        assert(find(s2.pages, id_of(u), k, h) == find(s2.pages, s2.meta.root, k, 65));
    }
    assert(contents(s2) =~= contents(s).remove(key));
}

/// Before the orphans go.
proof fn lemma_root_ready(
    s: PagerState,
    s1: PagerState,
    s2: PagerState,
    s3: PagerState,
    t: Tree,
    h: nat,
    key: Seq<u8>,
    g: Gone,
)
    requires
        emptied(s, s1, t, SENTINEL, h, key, g),
        s2.meta == s1.meta,
        s2.pages == s1.pages.insert(g.leaf_id, g.leaf@),
        s3.pages == s2.pages,
        s3.meta == (MetaData { root: g.leaf_id, ..s2.meta }),
    ensures
        owned(s3, Set::<u32>::empty().insert(g.leaf_id).union(g.orphans@.to_set())),
        g.orphans@.no_duplicates(),
        !g.orphans@.contains(g.leaf_id),
        page_id_of(g.leaf@) == g.leaf_id,
{
    reveal(emptied);
    let all = gone_ids(g);
    assert(all.contains(g.leaf_id));
    lemma_moved_write(s1, s2, all, g.leaf_id, g.leaf@);
    lemma_root_owned(s2, s3, all);
    assert(Set::<u32>::empty().insert(g.leaf_id).union(g.orphans@.to_set()) =~= all);
}

impl BTree {
    /// Removes a key, reporting when it is absent.
    pub fn delete(&self, pager: &mut Pager, key: &[u8]) -> (r: Result<()>)
        requires
            old(pager).inv(),
        ensures
            final(pager).inv(),
            grows(*old(pager), *final(pager)),
            forall|h: nat|
                h <= 64 && #[trigger] tree_ok(old(pager)@, h) ==> match r {
                    Ok(_) => contents(old(pager)@).contains_key(key@) && tree_ok(final(pager)@, h)
                        && contents(final(pager)@) == contents(old(pager)@).remove(key@),
                    Err(e) => e is NotFound && !contents(old(pager)@).contains_key(key@)
                        && final(pager)@ == old(pager)@,
                },
            tree_ok(old(pager)@, 64) && final(pager)@.pages.contains_key(SENTINEL) ==> old(
                pager,
            )@.pages.contains_key(SENTINEL),
    {
        broadcast use {lemma_grows_same, lemma_grows_then};

        let ghost s = pager@;
        let ghost ok = tree_ok(s, 64);
        let ghost (t, g) = choose|t: Tree, g: nat| g <= 64 && #[trigger] tree_at(s, t, g);
        proof {
            assert forall|h: nat| h <= 64 && #[trigger] tree_ok(s, h) implies ok && g <= h by {
                let (t2, g2) = choose|t2: Tree, g2: nat| g2 <= h && #[trigger] tree_at(s, t2, g2);
                assert(g2 <= 64 && tree_at(s, t2, g2));
                lemma_tree_height(s, t, g, h);
            }
            if ok {
                lemma_tree_finds(s, t, g);
                assert(find(s.pages, s.meta.root, key@, 65) == find(s.pages, id_of(t), key@, g));
            }
        }
        let root: u32 = pager.meta().root;
        let out: Removed = self.delete_from(
            pager,
            root,
            key,
            None,
            0,
            Ghost(t),
            Ghost(None),
            Ghost(None),
            Ghost(SENTINEL),
            Ghost(g),
            Ghost(None),
        )?;
        let ghost s1 = pager@;
        match out {
            Removed::Kept { unlinked, tree } => {
                proof {
                    if ok {
                        lemma_root_kept(s, s1, t, g, key@, tree@);
                        assert(s1.pages.contains_key(SENTINEL) ==> s.pages.contains_key(SENTINEL))
                            by {
                            reveal(kept);
                        }
                    }
                }
                if unlinked {
                    collapse_root(pager, tree, Ghost(g))?;
                    proof {
                        if ok {
                            let (t2, g2) = choose|t2: Tree, g2: nat|
                                g2 <= g && #[trigger] tree_at(pager@, t2, g2);
                            assert(tree_at(pager@, t2, g2));
                        }
                    }
                }
                Ok(())
            },
            Removed::Emptied(gone) => {
                let ghost g0 = gone;
                let leaf_id: u32 = gone.leaf_id;
                let ghost one = Set::<u32>::empty().insert(leaf_id);
                let Gone { leaf, leaf_id: _, orphans } = gone;
                pager.write_page(leaf);
                let ghost s2 = pager@;
                let mut meta: MetaData = pager.meta();
                meta.root = leaf_id;
                pager.set_meta(meta);
                let ghost s3 = pager@;
                proof {
                    if ok {
                        assert(page_id_of(g0.leaf@) == leaf_id) by {
                            reveal(emptied);
                        }
                        lemma_root_ready(s, s1, s2, s3, t, g, key@, g0);
                        assert(one.union(g0.orphans@.to_set()).contains(leaf_id));
                        assert(s1.pages.contains_key(SENTINEL) ==> s.pages.contains_key(SENTINEL))
                            by {
                            reveal(emptied);
                        }
                    }
                }
                release(pager, &orphans, Ghost(one))?;
                proof {
                    if ok {
                        assert(one.contains(leaf_id));
                        lemma_root_emptied(s, s1, s2, s3, pager@, t, g, key@, g0);
                    }
                }
                Ok(())
            },
        }
    }
}

} // verus!

//! B+Tree index over a [`Pager`].
//!
//! * Leaves are linked left to right (`extra` = next leaf) for range scans.
//! * Internal nodes keep the leftmost child in the header's `extra` field and
//!   one `(separator, right child)` cell per remaining child. A key equal to a
//!   separator belongs to the separator's right child.
//! * Splits are byte-balanced: the cells (the incoming one counted) are divided
//!   where both halves fit a page.
//! * Deletes reclaim pages: a leaf that becomes empty is unlinked from the leaf
//!   chain and its parent, internal nodes left without children go with it, and
//!   a root with a single child collapses into that child.

use crate::bytes::{
    copy_range, get_u16, get_u32, lemma_lex_asymmetric, lemma_lex_irreflexive, lemma_lex_total,
    lemma_lex_transitive, lex_le, lex_lt, u32_at,
};
use crate::error::{Error, Result};
use crate::page::{
    cell_key_of, cell_of, cells_of, extra_of, is_leaf_of, key_at, keys_ascend, leaf_ok,
    leaf_overflows, leaf_payload, lemma_page_len, num_keys_of, page_id_of, sane, slot_ok, slot_off,
    splits_at, structured, type_of, LeafCell, Page, PageType, MAX_KEY_SIZE, SENTINEL,
    USABLE_SPACE,
};
use crate::pager::{
    chain_data, chain_ok, chain_read, chunks_of, free_of, grows, lemma_grows_same, lemma_grows_then,
    max_links, pool_ok, Pager, PagerState,
};
use vstd::prelude::*;

pub mod check;
pub mod depth;
pub mod grow;
pub mod insert;
pub mod laws;
pub mod leaf;
pub mod moves;
pub mod node;
pub mod packed;
pub mod repack;
pub mod scan;
pub mod shrink;

verus! {

broadcast use {lemma_page_len, lemma_grows_same, lemma_grows_then};

/// Largest leaf cell stored inline. Longer values spill into an overflow chain,
/// which keeps every leaf cell small enough that any three fit one page.
pub const MAX_INLINE_CELL: usize = 1012;

/// Maximum tree height. Deeper means a cyclic child pointer.
pub const MAX_DEPTH: usize = 64;

/// Split and occupancy thresholds, in bytes of a page's usable space.
#[derive(Debug, Clone, Copy, PartialEq, Eq, Structural)]
pub struct FillFactor {
    /// Bytes below which a leaf is considered underfull.
    pub min: usize,
    /// Bytes a leaf may use before it must split.
    pub max: usize,
}

/// The thresholds that a pair of numbers stands for.
pub open spec fn clamped(min: int, max: int) -> (int, int) {
    let lo = if min < 2032 {
        2032
    } else if min > 4063 {
        4063
    } else {
        min
    };
    let hi = if max <= lo {
        lo + 1
    } else if max > 4064 {
        4064
    } else {
        max
    };
    (lo, hi)
}

impl FillFactor {
    /// Clamps the pair so that half the usable space is at most `min`, `min` is
    /// less than `max`, and `max` is at most the usable space.
    pub fn new(min: usize, max: usize) -> (f: Self)
        ensures
            f.min == (if min < 2032 {
                2032
            } else if min > 4063 {
                4063
            } else {
                min as int
            }),
            f.max == (if max <= f.min {
                f.min + 1
            } else if max > 4064 {
                4064
            } else {
                max as int
            }),
            2032 <= f.min < f.max <= 4064,
            (f.min as int, f.max as int) == clamped(min as int, max as int),
    {
        let lo: usize = if min < 2032 {
            2032
        } else if min > USABLE_SPACE - 1 {
            USABLE_SPACE - 1
        } else {
            min
        };
        let hi: usize = if max <= lo {
            lo + 1
        } else if max > USABLE_SPACE {
            USABLE_SPACE
        } else {
            max
        };
        FillFactor { min: lo, max: hi }
    }

    /// Bytes a page may use before it is considered full.
    pub fn max_used_bytes(&self) -> (n: usize)
        ensures
            n == self.max,
    {
        self.max
    }

    /// Bytes below which a page is underfull.
    pub fn min_used_bytes(&self) -> (n: usize)
        ensures
            n == self.min,
    {
        self.min
    }
}

impl Default for FillFactor {
    fn default() -> (f: Self)
        ensures
            f.min == 2032,
            f.max == 4064,
    {
        FillFactor { min: 2032, max: USABLE_SPACE }
    }
}

// ---- keys and cells --------------------------------------------------------------

/// A bound on keys, where there is one.
pub type KeyBound = Option<Seq<u8>>;

/// `k` is at least `lo` and below `hi`.
pub open spec fn in_range(k: Seq<u8>, lo: KeyBound, hi: KeyBound) -> bool {
    &&& lo matches Some(l) ==> lex_le(l, k)
    &&& hi matches Some(h) ==> lex_lt(k, h)
}

/// The key of a cell that has one.
pub open spec fn ckey(leaf: bool, cell: Seq<u8>) -> Seq<u8> {
    cell_key_of(leaf, cell)->0
}

/// Every cell has a key inside the range and the keys strictly ascend.
pub open spec fn ascending(leaf: bool, cs: Seq<Seq<u8>>, lo: KeyBound, hi: KeyBound) -> bool {
    &&& forall|i: int|
        0 <= i < cs.len() ==> cell_key_of(leaf, #[trigger] cs[i]) is Some && in_range(
            ckey(leaf, cs[i]),
            lo,
            hi,
        )
    &&& forall|i: int, j: int|
        0 <= i < j < cs.len() ==> lex_lt(ckey(leaf, #[trigger] cs[i]), ckey(leaf, #[trigger] cs[j]))
}

/// The first page of a leaf cell's overflow chain.
pub open spec fn chain_head(cell: Seq<u8>) -> u32 {
    u32_at(leaf_payload(cell), 0)
}

/// `ids` are the overflow pages of a leaf cell, and hold as much as it says.
pub open spec fn chained(pages: Map<u32, Seq<u8>>, cell: Seq<u8>, ids: Seq<u32>) -> bool {
    if leaf_overflows(cell) {
        chain_ok(pages, chain_head(cell), ids) && chain_data(pages, ids).len() == u32_at(cell, 4)
    } else {
        ids.len() == 0
    }
}

/// The value of a leaf cell.
pub open spec fn cell_value(pages: Map<u32, Seq<u8>>, cell: Seq<u8>) -> Seq<u8> {
    if leaf_overflows(cell) {
        chain_read(pages, chain_head(cell), max_links(u32_at(cell, 4)))->0
    } else {
        leaf_payload(cell)
    }
}

/// Leaf cells in order, inside the range, each with its overflow pages.
pub open spec fn leaf_cells(
    pages: Map<u32, Seq<u8>>,
    cs: Seq<Seq<u8>>,
    chains: Seq<Seq<u32>>,
    lo: KeyBound,
    hi: KeyBound,
) -> bool {
    &&& ascending(true, cs, lo, hi)
    &&& chains.len() == cs.len()
    &&& forall|i: int|
        0 <= i < cs.len() ==> leaf_ok(#[trigger] cs[i]) && chained(pages, cs[i], chains[i])
}

/// Leaf cells small enough to split, with no page wasted on their values.
pub open spec fn tight_cells(cs: Seq<Seq<u8>>, chains: Seq<Seq<u32>>) -> bool {
    forall|i: int|
        0 <= i < cs.len() ==> (#[trigger] cs[i]).len() <= 1036 && 0 < ckey(true, cs[i]).len()
            <= MAX_KEY_SIZE && (leaf_overflows(cs[i]) ==> chains[i].len() == chunks_of(
            u32_at(cs[i], 4) as nat,
        ))
}

/// The value stored under `key` in a list of leaf cells.
pub open spec fn leaf_find(
    pages: Map<u32, Seq<u8>>,
    cs: Seq<Seq<u8>>,
    key: Seq<u8>,
) -> Option<Seq<u8>> {
    if exists|i: int| 0 <= i < cs.len() && cell_key_of(true, #[trigger] cs[i]) == Some(key) {
        let i = choose|i: int|
            0 <= i < cs.len() && cell_key_of(true, #[trigger] cs[i]) == Some(key);
        Some(cell_value(pages, cs[i]))
    } else {
        None
    }
}

/// Child pointer `slot` of an internal node: 0 is the leftmost child, `i + 1`
/// the child of cell `i`.
pub open spec fn child_of(b: Seq<u8>, slot: int) -> u32 {
    if slot == 0 {
        extra_of(b)
    } else {
        u32_at(cells_of(b)[slot - 1], 2)
    }
}

/// `slot` is the child responsible for `key`: separators up to it are at most
/// the key, the rest are beyond it.
pub open spec fn routed(cs: Seq<Seq<u8>>, key: Seq<u8>, slot: int) -> bool {
    &&& 0 <= slot <= cs.len()
    &&& forall|j: int| 0 <= j < slot ==> lex_le(ckey(false, #[trigger] cs[j]), key)
    &&& forall|j: int| slot <= j < cs.len() ==> lex_lt(key, ckey(false, #[trigger] cs[j]))
}

/// What descending from page `id` finds under `key`, through at most `fuel`
/// internal nodes.
pub open spec fn find(pages: Map<u32, Seq<u8>>, id: u32, key: Seq<u8>, fuel: nat) -> Option<Seq<u8>>
    decreases fuel,
{
    if !pages.contains_key(id) {
        None
    } else if is_leaf_of(pages[id]) {
        leaf_find(pages, cells_of(pages[id]), key)
    } else if fuel == 0 {
        None
    } else {
        let b = pages[id];
        let slot = choose|slot: int| routed(cells_of(b), key, slot);
        find(pages, child_of(b, slot), key, (fuel - 1) as nat)
    }
}

/// The leaf that descending from page `id` for `key` ends at.
pub open spec fn owner(pages: Map<u32, Seq<u8>>, id: u32, key: Seq<u8>, fuel: nat) -> u32
    decreases fuel,
{
    if !pages.contains_key(id) || is_leaf_of(pages[id]) || fuel == 0 {
        id
    } else {
        let b = pages[id];
        let slot = choose|slot: int| routed(cells_of(b), key, slot);
        owner(pages, child_of(b, slot), key, (fuel - 1) as nat)
    }
}

/// The keys and values of the tree.
pub open spec fn contents(s: PagerState) -> Map<Seq<u8>, Seq<u8>> {
    Map::new(
        |k: Seq<u8>| find(s.pages, s.meta.root, k, 65) is Some,
        |k: Seq<u8>| find(s.pages, s.meta.root, k, 65)->0,
    )
}

// ---- the shape of a tree -----------------------------------------------------------

/// The pages of a tree: a leaf with the overflow pages of each of its cells, or
/// a node with its children.
pub enum Tree {
    /// A leaf page.
    Leaf {
        /// Its page.
        id: u32,
        /// The overflow pages of each cell.
        chains: Seq<Seq<u32>>,
    },
    /// An internal page.
    Node {
        /// Its page.
        id: u32,
        /// Its children.
        kids: Seq<Tree>,
    },
}

/// The page of a tree's root.
pub open spec fn id_of(t: Tree) -> u32 {
    match t {
        Tree::Leaf { id, .. } => id,
        Tree::Node { id, .. } => id,
    }
}

/// The leftmost leaf.
pub open spec fn first_of(t: Tree) -> u32
    decreases t,
{
    match t {
        Tree::Leaf { id, .. } => id,
        Tree::Node { id, kids } => if kids.len() > 0 {
            first_of(kids[0])
        } else {
            id
        },
    }
}

/// Every leaf is `h` levels below the root.
pub open spec fn uniform(t: Tree, h: nat) -> bool
    decreases t,
{
    match t {
        Tree::Leaf { .. } => h == 0,
        Tree::Node { kids, .. } => h > 0 && kids.len() > 0 && forall|i: int|
            0 <= i < kids.len() ==> uniform(#[trigger] kids[i], (h - 1) as nat),
    }
}

/// Every page of a tree.
pub open spec fn ids_of(t: Tree) -> Set<u32>
    decreases t,
{
    match t {
        Tree::Leaf { id, chains } => Set::new(
            |x: u32|
                x == id || exists|i: int| 0 <= i < chains.len() && (#[trigger] chains[i]).contains(x),
        ),
        Tree::Node { id, kids } => Set::new(
            |x: u32|
                x == id || exists|i: int| 0 <= i < kids.len() && ids_of(#[trigger] kids[i]).contains(x),
        ),
    }
}

/// No page occurs twice in a tree.
pub open spec fn distinct(t: Tree) -> bool
    decreases t,
{
    match t {
        Tree::Leaf { id, chains } => {
            &&& forall|i: int| 0 <= i < chains.len() ==> !(#[trigger] chains[i]).contains(id)
            &&& chains_apart(chains)
        },
        Tree::Node { id, kids } => {
            &&& forall|i: int|
                0 <= i < kids.len() ==> distinct(#[trigger] kids[i]) && !ids_of(kids[i]).contains(id)
            &&& kids_apart(kids)
        },
    }
}

/// No two chains share a page.
pub open spec fn chains_apart(chains: Seq<Seq<u32>>) -> bool {
    forall|i: int, j: int, x: u32|
        0 <= i < j < chains.len() && #[trigger] chains[i].contains(x) ==> !#[trigger] chains[j].contains(x)
}

/// No two trees of a list share a page.
pub open spec fn kids_apart(kids: Seq<Tree>) -> bool {
    forall|i: int, j: int, x: u32|
        0 <= i < j < kids.len() && #[trigger] ids_of(kids[i]).contains(x) ==> !#[trigger] ids_of(
            kids[j],
        ).contains(x)
}

/// The lower bound of child `j`.
pub open spec fn lo_at(cs: Seq<Seq<u8>>, j: int, lo: KeyBound) -> KeyBound {
    if j == 0 {
        lo
    } else {
        Some(ckey(false, cs[j - 1]))
    }
}

/// The upper bound of child `j`.
pub open spec fn hi_at(cs: Seq<Seq<u8>>, j: int, hi: KeyBound) -> KeyBound {
    if j == cs.len() {
        hi
    } else {
        Some(ckey(false, cs[j]))
    }
}

/// The leaf after child `j`.
pub open spec fn next_at(kids: Seq<Tree>, j: int, next: u32) -> u32 {
    if j + 1 < kids.len() {
        first_of(kids[j + 1])
    } else {
        next
    }
}

/// A page read back as a leaf.
pub open spec fn leaf_page(b: Seq<u8>, id: u32, next: u32) -> bool {
    &&& b.len() == 4096
    &&& page_id_of(b) == id
    &&& type_of(b) == Some(PageType::Leaf)
    &&& is_leaf_of(b)
    &&& structured(b)
    &&& extra_of(b) == next
}

/// A page read back as an internal node.
pub open spec fn node_page(b: Seq<u8>, id: u32) -> bool {
    &&& b.len() == 4096
    &&& page_id_of(b) == id
    &&& type_of(b) == Some(PageType::Internal)
    &&& !is_leaf_of(b)
    &&& structured(b)
}

/// The pages hold the tree `t`: keys ascend inside the range that the parent
/// assigns, and each leaf links to the next, the last one to `next`.
pub open spec fn holds(
    pages: Map<u32, Seq<u8>>,
    t: Tree,
    lo: KeyBound,
    hi: KeyBound,
    next: u32,
) -> bool
    decreases t,
{
    match t {
        Tree::Leaf { id, chains } => {
            &&& pages.contains_key(id)
            &&& leaf_page(pages[id], id, next)
            &&& leaf_cells(pages, cells_of(pages[id]), chains, lo, hi)
        },
        Tree::Node { id, kids } => {
            &&& pages.contains_key(id)
            &&& node_page(pages[id], id)
            &&& ascending(false, cells_of(pages[id]), lo, hi)
            &&& kids.len() == cells_of(pages[id]).len() + 1
            &&& forall|j: int|
                0 <= j < kids.len() ==> id_of(#[trigger] kids[j]) == child_of(pages[id], j) && holds(
                    pages,
                    kids[j],
                    lo_at(cells_of(pages[id]), j, lo),
                    hi_at(cells_of(pages[id]), j, hi),
                    next_at(kids, j, next),
                )
        },
    }
}

/// Cells that overlap no other, small enough to split, and separators beyond
/// the lower bound.
pub open spec fn trim(pages: Map<u32, Seq<u8>>, t: Tree, lo: KeyBound) -> bool
    decreases t,
{
    match t {
        Tree::Leaf { id, chains } => sane(pages[id]) && tight_cells(cells_of(pages[id]), chains),
        Tree::Node { id, kids } => {
            &&& sane(pages[id])
            &&& node_tight(cells_of(pages[id]), lo)
            &&& forall|j: int|
                0 <= j < kids.len() ==> trim(
                    pages,
                    #[trigger] kids[j],
                    lo_at(cells_of(pages[id]), j, lo),
                )
        },
    }
}

/// Separators small enough to split and beyond the lower bound.
pub open spec fn node_tight(cs: Seq<Seq<u8>>, lo: KeyBound) -> bool {
    forall|i: int|
        0 <= i < cs.len() ==> (#[trigger] cs[i]).len() <= 1034 && (lo matches Some(l) ==> lex_lt(
            l,
            ckey(false, cs[i]),
        ))
}

/// Every page of the tree is allocated, and none is free.
pub open spec fn owned(s: PagerState, ids: Set<u32>) -> bool {
    &&& pool_ok(s)
    &&& forall|x: u32| #[trigger]
        ids.contains(x) ==> 1 <= x < s.meta.page_count && !free_of(s).contains(x)
}

/// A subtree in good order.
#[verifier::opaque]
pub open spec fn good(
    s: PagerState,
    t: Tree,
    lo: KeyBound,
    hi: KeyBound,
    next: u32,
    h: nat,
) -> bool {
    &&& holds(s.pages, t, lo, hi, next)
    &&& trim(s.pages, t, lo)
    &&& uniform(t, h)
    &&& distinct(t)
    &&& owned(s, ids_of(t))
}

/// The pager holds a tree of height `h` at its root.
pub open spec fn tree_at(s: PagerState, t: Tree, h: nat) -> bool {
    &&& good(s, t, None, None, SENTINEL, h)
    &&& id_of(t) == s.meta.root
}

/// The pager holds a tree no higher than `h`.
pub open spec fn tree_ok(s: PagerState, h: nat) -> bool {
    exists|t: Tree, g: nat| g <= h && #[trigger] tree_at(s, t, g)
}

// ---- routing ------------------------------------------------------------------------

/// Ascending separators route each key to one child.
pub proof fn lemma_routed_unique(cs: Seq<Seq<u8>>, key: Seq<u8>, a: int, b: int)
    requires
        routed(cs, key, a),
        routed(cs, key, b),
    ensures
        a == b,
{
    if a < b {
        lemma_le_lt(ckey(false, cs[a]), key);
    } else if b < a {
        lemma_le_lt(ckey(false, cs[b]), key);
    }
}

/// Nothing is both at most and beyond.
pub proof fn lemma_le_lt(a: Seq<u8>, b: Seq<u8>)
    ensures
        !(lex_le(a, b) && lex_lt(b, a)),
{
    lemma_lex_irreflexive(a);
    if lex_lt(a, b) && lex_lt(b, a) {
        lemma_lex_asymmetric(a, b);
    }
}

/// At most, then below, is below.
pub proof fn lemma_le_lt_trans(a: Seq<u8>, b: Seq<u8>, c: Seq<u8>)
    requires
        lex_le(a, b),
        lex_lt(b, c),
    ensures
        lex_lt(a, c),
{
    if a != b {
        lemma_lex_transitive(a, b, c);
    }
}

/// Below, then at most, is below.
pub proof fn lemma_lt_le_trans(a: Seq<u8>, b: Seq<u8>, c: Seq<u8>)
    requires
        lex_lt(a, b),
        lex_le(b, c),
    ensures
        lex_lt(a, c),
{
    if b != c {
        lemma_lex_transitive(a, b, c);
    }
}

/// The slot keys of a page are the keys of its cells.
pub proof fn lemma_keys_of_cells(b: Seq<u8>, lo: KeyBound, hi: KeyBound)
    requires
        b.len() == 4096,
        structured(b),
        ascending(is_leaf_of(b), cells_of(b), lo, hi),
    ensures
        keys_ascend(b),
        forall|i: int|
            0 <= i < cells_of(b).len() ==> #[trigger] key_at(b, i) == Some(
                ckey(is_leaf_of(b), cells_of(b)[i]),
            ),
{
    let cs = cells_of(b);
    assert forall|i: int| 0 <= i < cs.len() implies #[trigger] key_at(b, i) == Some(
        ckey(is_leaf_of(b), cs[i]),
    ) by {
        assert(slot_ok(b, i)) by {
            assert(crate::page::cell_start_of(b) <= slot_off(b, i));
        }
        assert(cs[i] == cell_of(b, i));
        assert(cell_key_of(is_leaf_of(b), cs[i]) is Some);
    }
    assert forall|i: int, j: int| 0 <= i < j < num_keys_of(b) implies lex_lt(
        #[trigger] key_at(b, i)->0,
        #[trigger] key_at(b, j)->0,
    ) by {
        assert(lex_lt(ckey(is_leaf_of(b), cs[i]), ckey(is_leaf_of(b), cs[j])));
    }
}

/// A child slot of an internal node for `key`. A key equal to a separator goes
/// right.
fn child_slot_for(page: &Page, key: &[u8]) -> (r: Result<usize>)
    ensures
        match r {
            Ok(slot) => slot <= num_keys_of(page@) && (!is_leaf_of(page@) && structured(page@)
                && ascending(false, cells_of(page@), None, None) ==> routed(
                cells_of(page@),
                key@,
                slot as int,
            )),
            Err(e) => e is Corruption && exists|i: int|
                0 <= i < num_keys_of(page@) && (#[trigger] key_at(page@, i)) is None,
        },
{
    let found = page.search(key)?;
    let slot: usize = match found {
        Ok(i) => i + 1,
        Err(i) => i,
    };
    proof {
        let b = page@;
        let cs = cells_of(b);
        if !is_leaf_of(b) && structured(b) && ascending(false, cs, None, None) {
            lemma_keys_of_cells(b, None, None);
            assert forall|j: int| 0 <= j < slot implies lex_le(ckey(false, #[trigger] cs[j]), key@) by {
                assert(key_at(b, j) == Some(ckey(false, cs[j])));
                match found {
                    Ok(i) => {
                        assert(key_at(b, i as int) == Some(key@));
                        if j < i {
                            assert(lex_lt(key_at(b, j)->0, key_at(b, i as int)->0));
                        }
                    },
                    Err(i) => {},
                }
            }
            assert forall|j: int| slot <= j < cs.len() implies lex_lt(
                key@,
                ckey(false, #[trigger] cs[j]),
            ) by {
                assert(key_at(b, j) == Some(ckey(false, cs[j])));
                match found {
                    Ok(i) => {
                        assert(key_at(b, i as int) == Some(key@));
                        assert(lex_lt(key_at(b, i as int)->0, key_at(b, j)->0));
                    },
                    Err(i) => {},
                }
            }
        }
    }
    Ok(slot)
}

/// Page id stored in child `slot` of an internal node.
fn child_at(page: &Page, slot: usize) -> (r: Result<u32>)
    ensures
        match r {
            Ok(c) => c != SENTINEL && (slot <= num_keys_of(page@) ==> c == child_of(
                page@,
                slot as int,
            )),
            Err(e) => e is Corruption && ((structured(page@) || slot == 0 || slot_ok(
                page@,
                slot - 1,
            )) && slot <= num_keys_of(page@) && child_of(page@, slot as int) != SENTINEL ==> slot > 0
                && cells_of(page@)[slot - 1].len() < 6),
        },
{
    let child: u32 = if slot == 0 {
        page.extra()
    } else {
        proof {
            if structured(page@) && slot <= num_keys_of(page@) {
                assert(slot_ok(page@, slot - 1)) by {
                    assert(crate::page::cell_start_of(page@) <= slot_off(page@, slot - 1));
                }
            }
        }
        page.internal_child(slot - 1)?
    };
    if child == SENTINEL {
        return Err(Error::corrupt("internal page has a dangling child pointer"));
    }
    Ok(child)
}

fn decode_internal_cell(cell: &[u8]) -> (r: Result<(Vec<u8>, u32)>)
    ensures
        match r {
            Ok((k, c)) => cell_key_of(false, cell@) == Some(k@) && c == u32_at(cell@, 2),
            Err(e) => e is Corruption && cell_key_of(false, cell@) is None,
        },
{
    if cell.len() < 6 {
        return Err(Error::corrupt("internal cell too short"));
    }
    let key_len: usize = get_u16(cell, 0) as usize;
    if 6 + key_len > cell.len() {
        return Err(Error::corrupt("internal cell key escapes the cell"));
    }
    let child: u32 = get_u32(cell, 2);
    Ok((copy_range(cell, 6, 6 + key_len), child))
}

// ---- what a tree depends on -----------------------------------------------------------

/// A tree's root is one of its pages.
pub proof fn lemma_root_in(t: Tree)
    ensures
        ids_of(t).contains(id_of(t)),
{
}

/// A child's pages are the tree's pages.
pub proof fn lemma_kid_in(id: u32, kids: Seq<Tree>, j: int, x: u32)
    requires
        0 <= j < kids.len(),
        ids_of(kids[j]).contains(x),
    ensures
        ids_of(Tree::Node { id, kids }).contains(x),
{
}

/// A list of separators routes every key somewhere.
pub proof fn lemma_route_exists(cs: Seq<Seq<u8>>, lo: KeyBound, hi: KeyBound, key: Seq<u8>)
    requires
        ascending(false, cs, lo, hi),
    ensures
        exists|slot: int| routed(cs, key, slot),
    decreases cs.len(),
{
    if cs.len() == 0 {
        assert(routed(cs, key, 0));
    } else {
        let d = cs.drop_last();
        assert forall|i: int| 0 <= i < d.len() implies cell_key_of(false, #[trigger] d[i]) is Some
            && in_range(ckey(false, d[i]), lo, hi) by {
            assert(d[i] == cs[i]);
        }
        assert(ascending(false, d, lo, hi)) by {
            assert forall|i: int, j: int| 0 <= i < j < d.len() implies lex_lt(
                ckey(false, #[trigger] d[i]),
                ckey(false, #[trigger] d[j]),
            ) by {
                assert(d[i] == cs[i] && d[j] == cs[j]);
            }
        }
        lemma_route_exists(d, lo, hi, key);
        let slot = choose|slot: int| routed(d, key, slot);
        let last = ckey(false, cs.last());
        lemma_lex_total(last, key);
        if lex_le(last, key) {
            assert forall|j: int| 0 <= j < cs.len() implies lex_le(
                ckey(false, #[trigger] cs[j]),
                key,
            ) by {
                if j < cs.len() - 1 {
                    assert(lex_lt(ckey(false, cs[j]), ckey(false, cs[cs.len() - 1])));
                    lemma_lt_le_trans(ckey(false, cs[j]), last, key);
                }
            }
            assert(routed(cs, key, cs.len() as int));
        } else {
            assert forall|j: int| 0 <= j < slot implies lex_le(
                ckey(false, #[trigger] cs[j]),
                key,
            ) by {
                assert(d[j] == cs[j]);
            }
            assert forall|j: int| slot <= j < cs.len() implies lex_lt(
                key,
                ckey(false, #[trigger] cs[j]),
            ) by {
                if j < d.len() {
                    assert(d[j] == cs[j]);
                }
            }
            assert(routed(cs, key, slot));
        }
    }
}

/// A key inside the range of a node is inside the range of the child it is
/// routed to.
pub proof fn lemma_route_range(
    cs: Seq<Seq<u8>>,
    lo: KeyBound,
    hi: KeyBound,
    key: Seq<u8>,
    slot: int,
)
    requires
        routed(cs, key, slot),
        in_range(key, lo, hi),
    ensures
        in_range(key, lo_at(cs, slot, lo), hi_at(cs, slot, hi)),
{
    if slot > 0 {
        assert(lex_le(ckey(false, cs[slot - 1]), key));
    }
    if slot < cs.len() {
        assert(lex_lt(key, ckey(false, cs[slot])));
    }
}

/// Descending goes through the child that the key is routed to.
pub proof fn lemma_find_node(
    pages: Map<u32, Seq<u8>>,
    id: u32,
    key: Seq<u8>,
    slot: int,
    fuel: nat,
)
    requires
        pages.contains_key(id),
        !is_leaf_of(pages[id]),
        routed(cells_of(pages[id]), key, slot),
        fuel > 0,
    ensures
        find(pages, id, key, fuel) == find(
            pages,
            child_of(pages[id], slot),
            key,
            (fuel - 1) as nat,
        ),
{
    let other = choose|slot: int| routed(cells_of(pages[id]), key, slot);
    lemma_routed_unique(cells_of(pages[id]), key, slot, other);
}

/// The value of a leaf cell whose overflow pages stay as they are.
pub proof fn lemma_value_frame(
    p: Map<u32, Seq<u8>>,
    q: Map<u32, Seq<u8>>,
    cell: Seq<u8>,
    ids: Seq<u32>,
)
    requires
        leaf_ok(cell),
        chained(p, cell, ids),
        leaf_overflows(cell) ==> ids.len() == chunks_of(u32_at(cell, 4) as nat),
        forall|x: u32| #[trigger] ids.contains(x) ==> q.contains_key(x) && q[x] == p[x],
    ensures
        chained(q, cell, ids),
        cell_value(q, cell) == cell_value(p, cell),
        leaf_overflows(cell) ==> cell_value(p, cell) == chain_data(p, ids),
{
    if leaf_overflows(cell) {
        assert forall|i: int| 0 <= i < ids.len() implies q.contains_key(#[trigger] ids[i])
            && q[ids[i]] == p[ids[i]] by {
            assert(ids.contains(ids[i]));
        }
        crate::pager::lemma_chain_frame(p, q, chain_head(cell), ids);
        let n = max_links(u32_at(cell, 4));
        crate::pager::lemma_chain_reads(p, chain_head(cell), ids, n);
        crate::pager::lemma_chain_reads(q, chain_head(cell), ids, n);
    }
}

/// Leaf cells whose overflow pages stay as they are.
pub proof fn lemma_leaf_frame(
    p: Map<u32, Seq<u8>>,
    q: Map<u32, Seq<u8>>,
    cs: Seq<Seq<u8>>,
    chains: Seq<Seq<u32>>,
    lo: KeyBound,
    hi: KeyBound,
)
    requires
        leaf_cells(p, cs, chains, lo, hi),
        tight_cells(cs, chains),
        forall|i: int, x: u32|
            0 <= i < chains.len() && #[trigger] chains[i].contains(x) ==> q.contains_key(x) && q[x]
                == p[x],
    ensures
        leaf_cells(q, cs, chains, lo, hi),
        forall|key: Seq<u8>| #[trigger] leaf_find(q, cs, key) == leaf_find(p, cs, key),
{
    assert forall|i: int| 0 <= i < cs.len() implies leaf_ok(#[trigger] cs[i]) && chained(
        q,
        cs[i],
        chains[i],
    ) && cell_value(q, cs[i]) == cell_value(p, cs[i]) by {
        assert forall|x: u32| #[trigger] chains[i].contains(x) implies q.contains_key(x) && q[x]
            == p[x] by {}
        lemma_value_frame(p, q, cs[i], chains[i]);
    }
}

/// A tree whose pages stay as they are is still held.
pub proof fn lemma_frame(
    p: Map<u32, Seq<u8>>,
    q: Map<u32, Seq<u8>>,
    t: Tree,
    lo: KeyBound,
    hi: KeyBound,
    next: u32,
)
    requires
        holds(p, t, lo, hi, next),
        trim(p, t, lo),
        forall|x: u32| #[trigger] ids_of(t).contains(x) ==> q.contains_key(x) && q[x] == p[x],
    ensures
        holds(q, t, lo, hi, next),
        trim(q, t, lo),
    decreases t,
{
    lemma_root_in(t);
    match t {
        Tree::Leaf { id, chains } => {
            assert forall|i: int, x: u32|
                0 <= i < chains.len() && #[trigger] chains[i].contains(x) implies q.contains_key(x)
                && q[x] == p[x] by {
                assert(ids_of(t).contains(x));
            }
            lemma_leaf_frame(p, q, cells_of(p[id]), chains, lo, hi);
        },
        Tree::Node { id, kids } => {
            let cs = cells_of(p[id]);
            assert forall|j: int| 0 <= j < kids.len() implies id_of(#[trigger] kids[j]) == child_of(
                q[id],
                j,
            ) && holds(q, kids[j], lo_at(cs, j, lo), hi_at(cs, j, hi), next_at(kids, j, next))
                && trim(q, kids[j], lo_at(cs, j, lo)) by {
                assert forall|x: u32| #[trigger] ids_of(kids[j]).contains(x) implies q.contains_key(
                    x,
                ) && q[x] == p[x] by {
                    lemma_kid_in(id, kids, j, x);
                }
                assert(trim(p, kids[j], lo_at(cs, j, lo)));
                lemma_frame(
                    p,
                    q,
                    kids[j],
                    lo_at(cs, j, lo),
                    hi_at(cs, j, hi),
                    next_at(kids, j, next),
                );
            }
        },
    }
}

/// A tree whose pages stay as they are still yields the same.
pub proof fn lemma_find_frame(
    p: Map<u32, Seq<u8>>,
    q: Map<u32, Seq<u8>>,
    t: Tree,
    lo: KeyBound,
    hi: KeyBound,
    next: u32,
    key: Seq<u8>,
    fuel: nat,
)
    requires
        holds(p, t, lo, hi, next),
        trim(p, t, lo),
        forall|x: u32| #[trigger] ids_of(t).contains(x) ==> q.contains_key(x) && q[x] == p[x],
    ensures
        find(q, id_of(t), key, fuel) == find(p, id_of(t), key, fuel),
    decreases t,
{
    lemma_root_in(t);
    match t {
        Tree::Leaf { id, chains } => {
            assert forall|i: int, x: u32|
                0 <= i < chains.len() && #[trigger] chains[i].contains(x) implies q.contains_key(x)
                && q[x] == p[x] by {
                assert(ids_of(t).contains(x));
            }
            lemma_leaf_frame(p, q, cells_of(p[id]), chains, lo, hi);
            assert(leaf_find(q, cells_of(p[id]), key) == leaf_find(p, cells_of(p[id]), key));
        },
        Tree::Node { id, kids } => {
            if fuel > 0 {
                let cs = cells_of(p[id]);
                lemma_route_exists(cs, lo, hi, key);
                let slot = choose|slot: int| routed(cs, key, slot);
                lemma_find_node(p, id, key, slot, fuel);
                lemma_find_node(q, id, key, slot, fuel);
                assert(id_of(kids[slot]) == child_of(p[id], slot));
                assert forall|x: u32| #[trigger]
                    ids_of(kids[slot]).contains(x) implies q.contains_key(x) && q[x] == p[x] by {
                    lemma_kid_in(id, kids, slot, x);
                }
                assert(trim(p, kids[slot], lo_at(cs, slot, lo)));
                lemma_find_frame(
                    p,
                    q,
                    kids[slot],
                    lo_at(cs, slot, lo),
                    hi_at(cs, slot, hi),
                    next_at(kids, slot, next),
                    key,
                    (fuel - 1) as nat,
                );
            }
        },
    }
}

/// Descending needs no more fuel than the tree is high.
pub proof fn lemma_find_fuel(
    p: Map<u32, Seq<u8>>,
    t: Tree,
    lo: KeyBound,
    hi: KeyBound,
    next: u32,
    key: Seq<u8>,
    h: nat,
    fuel: nat,
)
    requires
        holds(p, t, lo, hi, next),
        uniform(t, h),
        h <= fuel,
    ensures
        find(p, id_of(t), key, fuel) == find(p, id_of(t), key, h),
    decreases t,
{
    match t {
        Tree::Leaf { id, chains } => {},
        Tree::Node { id, kids } => {
            let cs = cells_of(p[id]);
            lemma_route_exists(cs, lo, hi, key);
            let slot = choose|slot: int| routed(cs, key, slot);
            lemma_find_node(p, id, key, slot, fuel);
            lemma_find_node(p, id, key, slot, h);
            assert(id_of(kids[slot]) == child_of(p[id], slot));
            lemma_find_fuel(
                p,
                kids[slot],
                lo_at(cs, slot, lo),
                hi_at(cs, slot, hi),
                next_at(kids, slot, next),
                key,
                (h - 1) as nat,
                (fuel - 1) as nat,
            );
        },
    }
}

/// A leaf page whose cells can all be read.
pub open spec fn leaf_ready(s: PagerState, id: u32, chains: Seq<Seq<u32>>) -> bool {
    &&& s.pages.contains_key(id)
    &&& is_leaf_of(s.pages[id])
    &&& structured(s.pages[id])
    &&& s.pages[id].len() == 4096
    &&& leaf_cells(s.pages, cells_of(s.pages[id]), chains, None, None)
    &&& tight_cells(cells_of(s.pages[id]), chains)
    &&& forall|i: int|
        0 <= i < chains.len() ==> (#[trigger] chains[i]).len() + 2 <= s.meta.page_count
}

/// Narrower bounds imply wider ones.
pub proof fn lemma_unbounded(leaf: bool, cs: Seq<Seq<u8>>, lo: KeyBound, hi: KeyBound)
    requires
        ascending(leaf, cs, lo, hi),
    ensures
        ascending(leaf, cs, None, None),
{
}

/// A leaf of a tree in good order can be read.
pub proof fn lemma_leaf_ready(
    s: PagerState,
    id: u32,
    chains: Seq<Seq<u32>>,
    lo: KeyBound,
    hi: KeyBound,
    next: u32,
)
    requires
        good(s, Tree::Leaf { id, chains }, lo, hi, next, 0),
    ensures
        leaf_ready(s, id, chains),
{
    reveal(good);
    let t = Tree::Leaf { id, chains };
    let cs = cells_of(s.pages[id]);
    lemma_unbounded(true, cs, lo, hi);
    lemma_root_in(t);
    assert forall|i: int| 0 <= i < chains.len() implies (#[trigger] chains[i]).len() + 2
        <= s.meta.page_count by {
        let c = chains[i];
        if c.len() > 0 {
            assert(chained(s.pages, cs[i], c));
            let g = c.push(id);
            assert forall|k: int| 0 <= k < g.len() implies 1 <= #[trigger] g[k]
                < s.meta.page_count by {
                if k < c.len() {
                    assert(c.contains(c[k]));
                    assert(ids_of(t).contains(c[k]));
                }
            }
            assert(!c.contains(id));
            assert(g.no_duplicates()) by {
                assert forall|a: int, b: int| 0 <= a < g.len() && 0 <= b < g.len() && a != b implies g[a]
                    != g[b] by {
                    if a < c.len() && b < c.len() {
                    } else if a < c.len() {
                        assert(c.contains(c[a]));
                    } else {
                        assert(c.contains(c[b]));
                    }
                }
            }
            crate::pager::lemma_distinct_ids(g, s.meta.page_count as int);
        } else {
            assert(ids_of(t).contains(id));
        }
    }
}

/// B+Tree operations over a [`Pager`].
///
/// The tree is stateless: the root id lives in the pager's metadata, so a
/// `BTree` value is just a handle carrying the fill policy.
#[derive(Debug, Clone, Copy)]
pub struct BTree {
    fill: FillFactor,
}

impl BTree {
    /// The configured fill policy.
    pub closed spec fn fill_spec(&self) -> FillFactor {
        self.fill
    }

    /// Creates a tree handle with the given fill policy.
    pub fn new(fill: FillFactor) -> (t: Self)
        ensures
            t.fill_spec() == fill,
    {
        BTree { fill }
    }

    /// The configured fill factor.
    pub fn fill_factor(&self) -> (f: FillFactor)
        ensures
            f == self.fill_spec(),
    {
        self.fill
    }

    /// Descends from the root to the leaf that owns `key`.
    pub(crate) fn find_leaf(&self, pager: &mut Pager, key: &[u8]) -> (r: Result<u32>)
        requires
            old(pager).inv(),
        ensures
            final(pager).inv(),
            grows(*old(pager), *final(pager)),
            final(pager).dirty() == old(pager).dirty(),
            final(pager)@ == old(pager)@,
            tree_ok(old(pager)@, 64) ==> (r matches Ok(id) && (exists|chains: Seq<Seq<u32>>|
                leaf_ready(old(pager)@, id, chains)) && leaf_find(
                old(pager)@.pages,
                cells_of(old(pager)@.pages[id]),
                key@,
            ) == find(old(pager)@.pages, old(pager)@.meta.root, key@, 65) && id == owner(
                old(pager)@.pages,
                old(pager)@.meta.root,
                key@,
                65,
            )),
            r matches Err(e) ==> e is Corruption,
    {
        proof {
            reveal(good);
        }
        let ghost s = pager@;
        let ghost ok = tree_ok(s, 64);
        let mut current: u32 = pager.meta().root;
        let ghost mut t: Tree = arbitrary();
        let ghost mut lo: KeyBound = None;
        let ghost mut hi: KeyBound = None;
        let ghost mut next: u32 = SENTINEL;
        let ghost mut h: nat = 0;
        proof {
            if ok {
                let (t0, h0) = choose|t: Tree, g: nat| g <= 64 && #[trigger] tree_at(s, t, g);
                t = t0;
                h = h0;
                lemma_find_fuel(s.pages, t, None, None, SENTINEL, key@, h, 65);
            }
        }
        let mut depth: usize = 0;
        while depth <= MAX_DEPTH
            invariant
                pager.inv(),
                grows(*old(pager), *pager),
                pager.dirty() == old(pager).dirty(),
                pager@ == s,
                s == old(pager)@,
                depth <= 65,
                ok == tree_ok(s, 64),
                ok ==> good(s, t, lo, hi, next, h) && id_of(t) == current && depth + h <= 64,
                ok ==> find(s.pages, current, key@, h) == find(s.pages, s.meta.root, key@, 65),
                ok ==> owner(s.pages, current, key@, (65 - depth) as nat) == owner(
                    s.pages,
                    s.meta.root,
                    key@,
                    65,
                ),
            decreases 65 - depth,
        {
            proof {
                reveal(good);
                lemma_root_in(t);
            }
            let page: Page = pager.read_page(current)?;
            if page.is_leaf() {
                proof {
                    if ok {
                        match t {
                            Tree::Leaf { id, chains } => {
                                lemma_leaf_ready(s, id, chains, lo, hi, next);
                            },
                            Tree::Node { .. } => {},
                        }
                    }
                }
                return Ok(current);
            }
            let slot: usize = match child_slot_for(&page, key) {
                Ok(x) => x,
                Err(e) => {
                    proof {
                        if ok {
                            match t {
                                Tree::Leaf { .. } => {},
                                Tree::Node { id, kids } => {
                                    lemma_keys_of_cells(page@, lo, hi);
                                },
                            }
                        }
                    }
                    return Err(e);
                },
            };
            let child: u32 = match child_at(&page, slot) {
                Ok(c) => c,
                Err(e) => {
                    proof {
                        if ok {
                            lemma_step_down(s, t, lo, hi, next, h, key@, slot as int);
                        }
                    }
                    return Err(e);
                },
            };
            proof {
                if ok {
                    lemma_unbounded(false, cells_of(page@), lo, hi);
                    lemma_step_down(s, t, lo, hi, next, h, key@, slot as int);
                    match t {
                        Tree::Leaf { .. } => {},
                        Tree::Node { id, kids } => {
                            lemma_find_node(s.pages, id, key@, slot as int, h);
                            let cs = cells_of(page@);
                            let other = choose|x: int| routed(cs, key@, x);
                            lemma_routed_unique(cs, key@, slot as int, other);
                            next = next_at(kids, slot as int, next);
                            lo = lo_at(cs, slot as int, lo);
                            hi = hi_at(cs, slot as int, hi);
                            t = kids[slot as int];
                            h = (h - 1) as nat;
                        },
                    }
                }
            }
            current = child;
            depth += 1;
        }
        Err(Error::corrupt("B+Tree depth exceeded 64 levels (cycle?)"))
    }
}

/// The child of a node in good order is in good order, and its page can be
/// told from the end marker.
pub proof fn lemma_step_down(
    s: PagerState,
    t: Tree,
    lo: KeyBound,
    hi: KeyBound,
    next: u32,
    h: nat,
    key: Seq<u8>,
    slot: int,
)
    requires
        good(s, t, lo, hi, next, h),
        t is Node,
        0 <= slot <= cells_of(s.pages[id_of(t)]).len(),
    ensures
        ({
            let kids = t->kids;
            let cs = cells_of(s.pages[id_of(t)]);
            &&& h > 0
            &&& slot < kids.len()
            &&& good(
                s,
                kids[slot],
                lo_at(cs, slot, lo),
                hi_at(cs, slot, hi),
                next_at(kids, slot, next),
                (h - 1) as nat,
            )
            &&& child_of(s.pages[id_of(t)], slot) == id_of(kids[slot])
            &&& id_of(kids[slot]) != SENTINEL
            &&& slot > 0 ==> cs[slot - 1].len() >= 6
        }),
{
    reveal(good);
    match t {
        Tree::Leaf { .. } => {},
        Tree::Node { id, kids } => {
            let cs = cells_of(s.pages[id]);
            let k = kids[slot];
            assert(trim(s.pages, k, lo_at(cs, slot, lo)));
            assert(uniform(k, (h - 1) as nat));
            assert(distinct(k));
            assert forall|x: u32| #[trigger] ids_of(k).contains(x) implies 1 <= x
                < s.meta.page_count && !free_of(s).contains(x) by {
                lemma_kid_in(id, kids, slot, x);
            }
            lemma_root_in(k);
            assert(id_of(k) == child_of(s.pages[id], slot));
            if slot > 0 {
                assert(cell_key_of(false, cs[slot - 1]) is Some);
            }
        },
    }
}

/// A search of a leaf agrees with what its cells hold.
pub proof fn lemma_leaf_search(
    pages: Map<u32, Seq<u8>>,
    b: Seq<u8>,
    chains: Seq<Seq<u32>>,
    lo: KeyBound,
    hi: KeyBound,
    key: Seq<u8>,
)
    requires
        b.len() == 4096,
        is_leaf_of(b),
        structured(b),
        leaf_cells(pages, cells_of(b), chains, lo, hi),
    ensures
        keys_ascend(b),
        forall|i: int|
            0 <= i < cells_of(b).len() && #[trigger] key_at(b, i) == Some(key) ==> cell_key_of(
                true,
                cells_of(b)[i],
            ) == Some(key) && leaf_find(pages, cells_of(b), key) == Some(
                cell_value(pages, cells_of(b)[i]),
            ),
        forall|i: int| #[trigger]
            splits_at(b, key, i) ==> leaf_find(pages, cells_of(b), key) is None && forall|j: int|
                0 <= j < cells_of(b).len() ==> cell_key_of(true, #[trigger] cells_of(b)[j]) != Some(
                    key,
                ),
{
    let cs = cells_of(b);
    lemma_keys_of_cells(b, lo, hi);
    assert forall|i: int| 0 <= i < cs.len() && #[trigger] key_at(b, i) == Some(key) implies cell_key_of(
        true,
        cs[i],
    ) == Some(key) && leaf_find(pages, cs, key) == Some(cell_value(pages, cs[i])) by {
        assert(cell_key_of(true, cs[i]) is Some);
        let j = choose|j: int| 0 <= j < cs.len() && cell_key_of(true, #[trigger] cs[j]) == Some(key);
        if i < j {
            lemma_lex_asymmetric(ckey(true, cs[i]), ckey(true, cs[j]));
        } else if j < i {
            lemma_lex_asymmetric(ckey(true, cs[j]), ckey(true, cs[i]));
        }
    }
    assert forall|i: int| #[trigger] splits_at(b, key, i) implies leaf_find(pages, cs, key) is None
        && forall|j: int|
        0 <= j < cs.len() ==> cell_key_of(true, #[trigger] cs[j]) != Some(key) by {
        assert forall|j: int| 0 <= j < cs.len() implies cell_key_of(true, #[trigger] cs[j]) != Some(
            key,
        ) by {
            assert(key_at(b, j) == Some(ckey(true, cs[j])));
            crate::page::law_search_misses_only_absent_keys(b, key, i, j);
            assert(cell_key_of(true, cs[j]) is Some);
        }
    }
}

impl BTree {
    /// Looks up `key`, returning its value or that it was not found.
    pub fn get(&self, pager: &mut Pager, key: &[u8]) -> (r: Result<Vec<u8>>)
        requires
            old(pager).inv(),
        ensures
            final(pager).inv(),
            grows(*old(pager), *final(pager)),
            final(pager).dirty() == old(pager).dirty(),
            final(pager)@ == old(pager)@,
            tree_ok(old(pager)@, 64) ==> match r {
                Ok(v) => contents(old(pager)@).contains_key(key@) && contents(old(pager)@)[key@]
                    == v@,
                Err(e) => e is NotFound && !contents(old(pager)@).contains_key(key@),
            },
            r matches Err(e) ==> e is NotFound || e is Corruption,
    {
        proof {
            reveal(good);
        }
        let ghost s = pager@;
        let leaf_id: u32 = self.find_leaf(pager, key)?;
        let ghost chains = choose|chains: Seq<Seq<u32>>| leaf_ready(s, leaf_id, chains);
        let leaf: Page = pager.read_page(leaf_id)?;
        proof {
            if tree_ok(s, 64) {
                lemma_leaf_search(s.pages, leaf@, chains, None, None, key@);
            }
        }
        match leaf.search(key)? {
            Ok(idx) => {
                proof {
                    if tree_ok(s, 64) {
                        lemma_cell_readable(s, leaf_id, chains, idx as int);
                    }
                }
                let cell: LeafCell = leaf.leaf_cell(idx)?;
                Self::cell_value(pager, cell)
            },
            Err(_) => Err(Error::NotFound),
        }
    }

    /// True when `key` is present. Does not read overflow values.
    pub fn contains(&self, pager: &mut Pager, key: &[u8]) -> (r: Result<bool>)
        requires
            old(pager).inv(),
        ensures
            final(pager).inv(),
            grows(*old(pager), *final(pager)),
            final(pager).dirty() == old(pager).dirty(),
            final(pager)@ == old(pager)@,
            tree_ok(old(pager)@, 64) ==> r is Ok && r->Ok_0 == contents(old(pager)@).contains_key(
                key@,
            ),
            r matches Err(e) ==> e is Corruption,
    {
        proof {
            reveal(good);
        }
        let ghost s = pager@;
        let leaf_id: u32 = self.find_leaf(pager, key)?;
        let ghost chains = choose|chains: Seq<Seq<u32>>| leaf_ready(s, leaf_id, chains);
        let leaf: Page = pager.read_page(leaf_id)?;
        proof {
            if tree_ok(s, 64) {
                lemma_leaf_search(s.pages, leaf@, chains, None, None, key@);
            }
        }
        match leaf.search(key)? {
            Ok(_) => Ok(true),
            Err(_) => Ok(false),
        }
    }

    pub(crate) fn cell_value(pager: &mut Pager, cell: LeafCell) -> (r: Result<Vec<u8>>)
        requires
            old(pager).inv(),
        ensures
            final(pager).inv(),
            grows(*old(pager), *final(pager)),
            final(pager).dirty() == old(pager).dirty(),
            final(pager)@ == old(pager)@,
            match cell.overflow {
                None => r is Ok && r->Ok_0@ == cell.value@,
                Some(head) => match r {
                    Ok(v) => chain_read(old(pager)@.pages, head, max_links(cell.total_len)) == Some(
                        v@,
                    ),
                    Err(e) => e is Corruption && !(max_links(cell.total_len)
                        <= old(pager)@.meta.page_count && (chain_read(
                        old(pager)@.pages,
                        head,
                        max_links(cell.total_len),
                    ) matches Some(v) && v.len() == cell.total_len)),
                },
            },
    {
        match cell.overflow {
            Some(head) => pager.read_overflow_chain(head, cell.total_len),
            None => Ok(cell.value),
        }
    }
}

/// A cell of a readable leaf can be read.
pub proof fn lemma_cell_readable(s: PagerState, id: u32, chains: Seq<Seq<u32>>, i: int)
    requires
        leaf_ready(s, id, chains),
        0 <= i < cells_of(s.pages[id]).len(),
    ensures
        ({
            let cell = cells_of(s.pages[id])[i];
            &&& slot_ok(s.pages[id], i)
            &&& cell == cell_of(s.pages[id], i)
            &&& leaf_ok(cell)
            &&& leaf_overflows(cell) ==> max_links(u32_at(cell, 4)) <= s.meta.page_count
                && chain_read(s.pages, chain_head(cell), max_links(u32_at(cell, 4))) == Some(
                cell_value(s.pages, cell),
            ) && cell_value(s.pages, cell).len() == u32_at(cell, 4)
        }),
{
    let b = s.pages[id];
    let cell = cells_of(b)[i];
    assert(crate::page::cell_start_of(b) <= slot_off(b, i));
    assert(chained(s.pages, cell, chains[i]));
    if leaf_overflows(cell) {
        crate::pager::law_chain_write_then_read(
            s.pages,
            chain_head(cell),
            chains[i],
            u32_at(cell, 4),
        );
    }
}

} // verus!

//! The height of a tree.

use crate::btree::grow::lemma_height_unique;
use crate::btree::grow::lemma_good_page;
use crate::btree::{
    child_at, good, hi_at, id_of, lemma_step_down, lo_at, next_at, tree_at, tree_ok, BTree,
    KeyBound, Tree, MAX_DEPTH,
};
use crate::error::{Error, Result};
use crate::page::{cells_of, lemma_page_len, Page, SENTINEL};
use crate::pager::{grows, lemma_grows_same, lemma_grows_then, Pager};
use vstd::prelude::*;

verus! {

broadcast use {lemma_page_len, lemma_grows_same, lemma_grows_then};

impl BTree {
    /// How many levels lie above the leaves.
    pub fn depth(&self, pager: &mut Pager) -> (r: Result<usize>)
        requires
            old(pager).inv(),
        ensures
            final(pager).inv(),
            grows(*old(pager), *final(pager)),
            final(pager).dirty() == old(pager).dirty(),
            final(pager)@ == old(pager)@,
            tree_ok(old(pager)@, 64) ==> (r matches Ok(d) && d <= 64 && tree_ok(
                old(pager)@,
                d as nat,
            )),
            tree_ok(old(pager)@, 64) ==> forall|t: Tree, g: nat| #[trigger]
                tree_at(old(pager)@, t, g) ==> r is Ok && g == r->Ok_0,
            r matches Err(e) ==> e is Corruption,
    {
        let ghost s = pager@;
        let ghost ok = tree_ok(s, 64);
        let ghost (t, h) = choose|t: Tree, g: nat| g <= 64 && #[trigger] tree_at(s, t, g);
        let mut current: u32 = pager.meta().root;
        let mut depth: usize = 0;
        let ghost mut u: Tree = t;
        let ghost mut lo: KeyBound = None;
        let ghost mut hi: KeyBound = None;
        let ghost mut next: u32 = SENTINEL;
        let ghost mut g: nat = h;
        while depth <= MAX_DEPTH
            invariant
                pager.inv(),
                grows(*old(pager), *pager),
                pager.dirty() == old(pager).dirty(),
                pager@ == s,
                s == old(pager)@,
                ok == tree_ok(s, 64),
                depth <= 65,
                ok ==> tree_at(s, t, h) && h <= 64 && good(s, u, lo, hi, next, g) && id_of(u)
                    == current && depth + g == h,
            decreases 65 - depth,
        {
            proof {
                if ok {
                    lemma_good_page(s, u, lo, hi, next, g);
                    reveal(good);
                }
            }
            let page: Page = pager.read_page(current)?;
            if page.is_leaf() {
                proof {
                    if ok {
                        assert(u is Leaf);
                        assert(tree_at(s, t, depth as nat));
                        reveal(good);
                        assert forall|t2: Tree, g2: nat| #[trigger] tree_at(s, t2, g2) implies g2
                            == depth by {
                            lemma_height_unique(
                                s.pages,
                                t,
                                None,
                                None,
                                SENTINEL,
                                h,
                                t2,
                                None,
                                None,
                                SENTINEL,
                                g2,
                            );
                        }
                    }
                }
                return Ok(depth);
            }
            proof {
                if ok {
                    let cs = cells_of(s.pages[current]);
                    let kids = u->kids;
                    lemma_step_down(s, u, lo, hi, next, g, Seq::empty(), 0);
                    u = kids[0];
                    next = next_at(kids, 0, next);
                    hi = hi_at(cs, 0, hi);
                    lo = lo_at(cs, 0, lo);
                    g = (g - 1) as nat;
                }
            }
            current = child_at(&page, 0)?;
            depth += 1;
        }
        Err(Error::corrupt("B+Tree depth exceeded 64 levels (cycle?)"))
    }
}

} // verus!

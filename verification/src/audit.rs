//! The offline integrity check: every allocated page, then the whole tree.

use crate::btree::check::{is_sound, reports, sound, TreeReport};
use crate::btree::{BTree, FillFactor, Tree};
use crate::error::{Error, Result};
use crate::page::{type_of, MetaData, Page, PageType};
use crate::pager::{Pager, PagerState};
use vstd::prelude::*;

verus! {

/// Exit code of a healthy database.
pub const EXIT_OK: i32 = 0;

/// Exit code of a damaged database.
pub const EXIT_CORRUPTION: i32 = 1;

/// What the check found.
#[derive(Debug)]
pub enum Audit {
    /// All pages and the tree are sound.
    Healthy(TreeReport),
    /// Pages that failed, with the reason.
    Damaged(Vec<(u32, Error)>),
    /// All pages can be read, but the tree is not sound.
    Unsound(Error),
}

/// A page cannot be read, or is of no known kind; page 0 is the meta page.
pub open spec fn faulty(s: PagerState, id: u32) -> bool {
    ||| !s.pages.contains_key(id)
    ||| type_of(s.pages[id]) is None
    ||| id == 0 && type_of(s.pages[id]) != Some(PageType::Meta)
}

/// The pages below `n` that are faulty, in order.
pub open spec fn faults(s: PagerState, n: nat) -> Seq<u32>
    decreases n,
{
    if n == 0 {
        Seq::empty()
    } else {
        let less = faults(s, (n - 1) as nat);
        if faulty(s, (n - 1) as u32) {
            less.push((n - 1) as u32)
        } else {
            less
        }
    }
}

/// The pages of a list of failures.
pub open spec fn pages_of(v: Seq<(u32, Error)>) -> Seq<u32> {
    Seq::new(v.len(), |i: int| v[i].0)
}

impl Audit {
    /// The exit code of the check.
    #[must_use]
    pub fn exit_code(&self) -> (c: i32)
        ensures
            c == if *self is Healthy {
                EXIT_OK
            } else {
                EXIT_CORRUPTION
            },
    {
        match self {
            Audit::Healthy(_) => EXIT_OK,
            _ => EXIT_CORRUPTION,
        }
    }
}

/// Reads a page and its kind.
fn check_page(pager: &mut Pager, id: u32) -> (r: Result<()>)
    requires
        old(pager).inv(),
    ensures
        final(pager).inv(),
        final(pager)@ == old(pager)@,
        match r {
            Ok(_) => !faulty(old(pager)@, id),
            Err(e) => e is Corruption && faulty(old(pager)@, id),
        },
{
    let page: Page = pager.read_page(id)?;
    let kind: PageType = page.page_type()?;
    if id == 0 && kind != PageType::Meta {
        return Err(Error::corrupt("not a meta page"));
    }
    Ok(())
}

/// Checks every allocated page and, if all can be read, the structure of the
/// tree.
pub fn verify(pager: &mut Pager) -> (a: Audit)
    requires
        old(pager).inv(),
    ensures
        final(pager).inv(),
        final(pager)@ == old(pager)@,
        ({
            let s = old(pager)@;
            let bad = faults(s, s.meta.page_count as nat);
            match a {
                Audit::Damaged(v) => {
                    &&& bad.len() > 0
                    &&& pages_of(v@) == bad
                    &&& forall|i: int| 0 <= i < v@.len() ==> (#[trigger] v@[i]).1 is Corruption
                },
                Audit::Unsound(e) => bad.len() == 0 && e is Corruption && !is_sound(s),
                Audit::Healthy(report) => bad.len() == 0 && exists|
                    t: Tree,
                    h: nat,
                    free: Seq<u32>,
                | sound(s, t, h, free) && reports(report, s, t, h, free, 2032),
            }
        }),
{
    let ghost s = pager@;
    let meta: MetaData = pager.meta();
    let mut bad: Vec<(u32, Error)> = Vec::new();
    let mut id: u32 = 0;
    assert(pages_of(bad@) =~= faults(s, 0));
    while id < meta.page_count
        invariant
            id <= meta.page_count,
            pager.inv(),
            pager@ == s,
            pages_of(bad@) == faults(s, id as nat),
            forall|i: int| 0 <= i < bad@.len() ==> (#[trigger] bad@[i]).1 is Corruption,
        decreases meta.page_count - id,
    {
        let ghost was = pages_of(bad@);
        match check_page(pager, id) {
            Ok(_) => {},
            Err(e) => {
                bad.push((id, e));
                assert(pages_of(bad@) =~= was.push(id));
            },
        }
        id += 1;
    }
    if bad.len() > 0 {
        return Audit::Damaged(bad);
    }
    let tree: BTree = BTree::new(FillFactor::default());
    match tree.check(pager) {
        Ok(report) => Audit::Healthy(report),
        Err(e) => Audit::Unsound(e),
    }
}

} // verus!

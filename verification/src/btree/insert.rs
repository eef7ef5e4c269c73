//! Inserting into the tree.

use crate::btree::{
    ascending, cell_value, chained, ckey, in_range, leaf_cells, leaf_find, lemma_le_lt_trans,
    tight_cells, KeyBound,
};
use crate::bytes::{copy_bytes, lemma_lex_asymmetric, lemma_lex_irreflexive, lex_lt, u32_at};
use crate::error::Result;
use crate::page::{
    cell_bytes, cell_key_of, cell_of, cells_of, leaf_ok, leaf_overflows, lemma_cell_bytes_concat,
    lemma_cell_bytes_prefix, lemma_page_len, num_keys_of, same_header, sane, slot_ok, slot_off,
    structured, used_bytes, Page, MAX_KEY_SIZE, SLOT_SIZE, USABLE_SPACE,
};
use crate::pager::chunks_of;
use vstd::prelude::*;

verus! {

broadcast use lemma_page_len;

// ---- dividing a list of cells ---------------------------------------------------------

/// The contents of a list of cells.
pub open spec fn views(v: Seq<Vec<u8>>) -> Seq<Seq<u8>> {
    Seq::new(v.len(), |i: int| v[i]@)
}

/// The cells that stay on the left of a division.
pub open spec fn left_part(cs: Seq<Seq<u8>>, at: int) -> Seq<Seq<u8>> {
    cs.take(at)
}

/// The cells that go right. An internal division leaves out the cell that moves
/// to the parent.
pub open spec fn right_part(cs: Seq<Seq<u8>>, promote: bool, at: int) -> Seq<Seq<u8>> {
    if promote {
        cs.skip(at + 1)
    } else {
        cs.skip(at)
    }
}

/// Both halves of a division fit a page; neither half of a leaf is empty.
pub open spec fn divides(cs: Seq<Seq<u8>>, promote: bool, at: int) -> bool {
    &&& 0 <= at < cs.len()
    &&& !promote ==> 0 < at
    &&& used_bytes(left_part(cs, at)) <= USABLE_SPACE
    &&& used_bytes(right_part(cs, promote, at)) <= USABLE_SPACE
}

/// How far apart the two halves are in bytes.
pub open spec fn imbalance(cs: Seq<Seq<u8>>, promote: bool, at: int) -> int {
    let d = used_bytes(left_part(cs, at)) - used_bytes(right_part(cs, promote, at));
    if d < 0 {
        -d
    } else {
        d
    }
}

/// `at` is the first of the most even divisions.
pub open spec fn best_division(cs: Seq<Seq<u8>>, promote: bool, at: int) -> bool {
    &&& divides(cs, promote, at)
    &&& forall|j: int| #[trigger]
        divides(cs, promote, j) ==> imbalance(cs, promote, at) <= imbalance(cs, promote, j) && (j < at
            ==> imbalance(cs, promote, at) < imbalance(cs, promote, j))
}

/// A prefix and the rest add up.
pub proof fn lemma_used_split(cs: Seq<Seq<u8>>, k: int)
    requires
        0 <= k <= cs.len(),
    ensures
        used_bytes(cs.take(k)) + used_bytes(cs.skip(k)) == used_bytes(cs),
        k < cs.len() ==> used_bytes(cs.take(k + 1)) == used_bytes(cs.take(k)) + cs[k].len() + 4,
        k < cs.len() ==> used_bytes(cs.skip(k)) == used_bytes(cs.skip(k + 1)) + cs[k].len() + 4,
{
    lemma_cell_bytes_concat(cs.take(k), cs.skip(k));
    assert(cs =~= cs.take(k) + cs.skip(k));
    if k < cs.len() {
        lemma_cell_bytes_prefix(cs, k);
        lemma_cell_bytes_concat(cs.take(k + 1), cs.skip(k + 1));
        assert(cs =~= cs.take(k + 1) + cs.skip(k + 1));
    }
}

/// Picks where to divide an ordered list of cells so that both halves fit a
/// page, with the byte volumes as even as possible.
///
/// For a leaf the result `s` means the cells before and from `s`, neither part
/// empty. For an internal node the result `m` means that the cells before `m`
/// stay, cell `m` moves to the parent and those behind it go right.
pub fn split_point(cells: &Vec<Vec<u8>>, promote: bool) -> (r: Option<usize>)
    requires
        used_bytes(views(cells@)) <= usize::MAX,
    ensures
        match r {
            Some(at) => best_division(views(cells@), promote, at as int),
            None => forall|j: int| !divides(views(cells@), promote, j),
        },
{
    let ghost cs = views(cells@);
    let n: usize = cells.len();
    let mut total: usize = 0;
    let mut k: usize = 0;
    assert(cs.take(0) =~= Seq::<Seq<u8>>::empty());
    assert(cell_bytes(cs.take(0)) == 0);
    while k < n
        invariant
            k <= n,
            n == cells@.len(),
            cs == views(cells@),
            cs.len() == n,
            used_bytes(cs) <= usize::MAX,
            total == used_bytes(cs.take(k as int)),
        decreases n - k,
    {
        proof {
            lemma_used_split(cs, k as int);
            lemma_used_split(cs, k + 1);
        }
        total = total + cells[k].len() + SLOT_SIZE;
        k += 1;
    }
    assert(cs.take(n as int) =~= cs);
    let mut best: Option<(usize, usize)> = None;
    let mut left: usize = 0;
    let mut i: usize = 0;
    while i < n
        invariant
            i <= n,
            n == cells@.len(),
            cs == views(cells@),
            cs.len() == n,
            used_bytes(cs) <= usize::MAX,
            total == used_bytes(cs),
            left == used_bytes(cs.take(i as int)),
            match best {
                Some((d, at)) => (if promote {
                    at < i
                } else {
                    at <= i
                }) && divides(cs, promote, at as int) && d == imbalance(
                    cs,
                    promote,
                    at as int,
                ) && forall|j: int| #[trigger]
                    divides(cs, promote, j) && (if promote {
                        j < i
                    } else {
                        j <= i
                    }) ==> d <= imbalance(cs, promote, j) && (j < at ==> d < imbalance(
                        cs,
                        promote,
                        j,
                    )),
                None => forall|j: int|
                    (if promote {
                        j < i
                    } else {
                        j <= i
                    }) ==> !#[trigger] divides(cs, promote, j),
            },
        decreases n - i,
    {
        proof {
            lemma_used_split(cs, i as int);
            lemma_used_split(cs, i + 1);
        }
        let size: usize = cells[i].len() + SLOT_SIZE;
        let l: usize = if promote {
            left
        } else {
            left + size
        };
        let r: usize = total - left - size;
        let candidate: usize = if promote {
            i
        } else {
            i + 1
        };
        left = left + size;
        let ok: bool = (promote || candidate < n) && l <= USABLE_SPACE && r <= USABLE_SPACE;
        assert(ok == divides(cs, promote, candidate as int));
        if ok {
            let d: usize = if l < r {
                r - l
            } else {
                l - r
            };
            assert(d == imbalance(cs, promote, candidate as int));
            let better: bool = match best {
                None => true,
                Some((b, _)) => d < b,
            };
            if better {
                best = Some((d, candidate));
            }
        }
        i += 1;
    }
    match best {
        Some((_, at)) => Some(at),
        None => {
            assert forall|j: int| !divides(cs, promote, j) by {
                if j > n {
                    assert(!divides(cs, promote, j));
                }
            }
            None
        },
    }
}

/// Cells that were on one page together with one more small cell can always be
/// divided.
pub proof fn lemma_division_exists(cs: Seq<Seq<u8>>, promote: bool)
    requires
        !promote ==> cs.len() >= 2,
        cs.len() >= 1,
        forall|i: int| 0 <= i < cs.len() ==> (#[trigger] cs[i]).len() <= 1036,
        used_bytes(cs) <= 5104,
    ensures
        exists|at: int| divides(cs, promote, at),
{
    let start = if promote {
        0int
    } else {
        1int
    };
    lemma_used_split(cs, 0);
    assert(cs.take(0) =~= Seq::<Seq<u8>>::empty());
    assert(used_bytes(cs.take(0)) == 0);
    lemma_division_from(cs, promote, start);
}

proof fn lemma_division_from(cs: Seq<Seq<u8>>, promote: bool, at: int)
    requires
        cs.len() >= 1,
        0 <= at < cs.len(),
        !promote ==> 0 < at,
        forall|i: int| 0 <= i < cs.len() ==> (#[trigger] cs[i]).len() <= 1036,
        used_bytes(cs) <= 5104,
        used_bytes(cs.take(at)) <= 2080,
    ensures
        exists|k: int| divides(cs, promote, k),
    decreases cs.len() - at,
{
    lemma_used_split(cs, at);
    if used_bytes(right_part(cs, promote, at)) <= USABLE_SPACE {
        assert(divides(cs, promote, at));
    } else {
        if at + 1 == cs.len() {
            lemma_used_split(cs, at + 1);
            assert(cs.skip(at + 1) =~= Seq::<Seq<u8>>::empty());
            assert(cell_bytes(cs.skip(at + 1)) == 0);
            assert(false);
        }
        lemma_used_split(cs, at + 1);
        lemma_division_from(cs, promote, at + 1);
    }
}

/// Fills an empty page with the cells from `from` to `to`.
pub(crate) fn fill_page(page: &mut Page, cells: &Vec<Vec<u8>>, from: usize, to: usize) -> (r: Result<()>)
    requires
        from <= to <= cells@.len(),
        sane(old(page)@),
        cells_of(old(page)@) == Seq::<Seq<u8>>::empty(),
    ensures
        structured(final(page)@),
        same_header(old(page)@, final(page)@),
        used_bytes(views(cells@).subrange(from as int, to as int)) <= USABLE_SPACE ==> r is Ok
            && sane(final(page)@) && cells_of(final(page)@) == views(cells@).subrange(
            from as int,
            to as int,
        ),
{
    let ghost cs = views(cells@);
    let ghost part = cs.subrange(from as int, to as int);
    let mut i: usize = from;
    assert(part.take(0) =~= Seq::<Seq<u8>>::empty());
    while i < to
        invariant
            from <= i <= to <= cells@.len(),
            cs == views(cells@),
            part == cs.subrange(from as int, to as int),
            structured(page@),
            same_header(old(page)@, page@),
            used_bytes(part) <= USABLE_SPACE ==> sane(page@) && cells_of(page@) == part.take(
                i - from,
            ),
        decreases to - i,
    {
        proof {
            lemma_used_split(part, i - from);
            lemma_used_split(part, i - from + 1);
            assert(part[i - from] == cells@[i as int]@);
            assert(part.take(i - from).insert(i - from, part[i - from]) =~= part.take(
                i - from + 1,
            ));
        }
        page.insert_cell_at(i - from, &cells[i])?;
        i += 1;
    }
    assert(part.take(to - from) =~= part);
    Ok(())
}

/// Copies the cells of a page.
pub(crate) fn copy_cells(page: &Page) -> (r: Result<Vec<Vec<u8>>>)
    requires
        structured(page@),
    ensures
        r is Ok,
        views(r->Ok_0@) == cells_of(page@),
        r->Ok_0@.len() <= 1016,
        forall|i: int| 0 <= i < r->Ok_0@.len() ==> (#[trigger] r->Ok_0@[i])@.len() <= 4096,
{
    let n: usize = page.num_keys() as usize;
    let mut cells: Vec<Vec<u8>> = Vec::new();
    let mut i: usize = 0;
    while i < n
        invariant
            i <= n,
            n == num_keys_of(page@),
            n <= 1016,
            structured(page@),
            cells@.len() == i,
            forall|j: int|
                0 <= j < i ==> (#[trigger] cells@[j])@ == cell_of(page@, j) && cells@[j]@.len()
                    <= 4096,
        decreases n - i,
    {
        assert(slot_ok(page@, i as int)) by {
            assert(crate::page::cell_start_of(page@) <= slot_off(page@, i as int));
        }
        let c: &[u8] = page.cell(i)?;
        cells.push(copy_bytes(c));
        i += 1;
    }
    assert(views(cells@) =~= cells_of(page@));
    Ok(cells)
}

/// Short lists of short cells take up little.
pub proof fn lemma_used_bound(cs: Seq<Seq<u8>>)
    requires
        forall|i: int| 0 <= i < cs.len() ==> (#[trigger] cs[i]).len() <= 70_000,
    ensures
        used_bytes(cs) <= 70_004 * cs.len(),
    decreases cs.len(),
{
    if cs.len() > 0 {
        let d = cs.drop_last();
        assert forall|i: int| 0 <= i < d.len() implies (#[trigger] d[i]).len() <= 70_000 by {
            assert(d[i] == cs[i]);
        }
        lemma_used_bound(d);
        assert(cs.last() == cs[cs.len() - 1]);
    }
}

// ---- lists of leaf cells -----------------------------------------------------------------

/// Where `key` belongs in a list of leaf cells that does not hold it.
pub open spec fn gap(cs: Seq<Seq<u8>>, key: Seq<u8>, idx: int) -> bool {
    &&& 0 <= idx <= cs.len()
    &&& forall|j: int| 0 <= j < idx ==> lex_lt(ckey(true, #[trigger] cs[j]), key)
    &&& forall|j: int| idx <= j < cs.len() ==> lex_lt(key, ckey(true, #[trigger] cs[j]))
}

/// Finding the one cell of a list that has the key.
pub proof fn lemma_leaf_find_at(
    pages: Map<u32, Seq<u8>>,
    cs: Seq<Seq<u8>>,
    lo: KeyBound,
    hi: KeyBound,
    i: int,
)
    requires
        ascending(true, cs, lo, hi),
        0 <= i < cs.len(),
    ensures
        leaf_find(pages, cs, ckey(true, cs[i])) == Some(cell_value(pages, cs[i])),
{
    let key = ckey(true, cs[i]);
    assert(cell_key_of(true, cs[i]) == Some(key));
    let j = choose|j: int| 0 <= j < cs.len() && cell_key_of(true, #[trigger] cs[j]) == Some(key);
    if i < j {
        lemma_lex_asymmetric(ckey(true, cs[i]), ckey(true, cs[j]));
    } else if j < i {
        lemma_lex_asymmetric(ckey(true, cs[j]), ckey(true, cs[i]));
    }
}

/// Removing a cell from a list.
pub proof fn lemma_cells_remove(
    pages: Map<u32, Seq<u8>>,
    cs: Seq<Seq<u8>>,
    chains: Seq<Seq<u32>>,
    lo: KeyBound,
    hi: KeyBound,
    idx: int,
)
    requires
        leaf_cells(pages, cs, chains, lo, hi),
        tight_cells(cs, chains),
        0 <= idx < cs.len(),
    ensures
        leaf_cells(pages, cs.remove(idx), chains.remove(idx), lo, hi),
        tight_cells(cs.remove(idx), chains.remove(idx)),
        gap(cs.remove(idx), ckey(true, cs[idx]), idx),
        leaf_find(pages, cs.remove(idx), ckey(true, cs[idx])) is None,
        forall|k: Seq<u8>|
            k != ckey(true, cs[idx]) ==> #[trigger] leaf_find(pages, cs.remove(idx), k) == leaf_find(
                pages,
                cs,
                k,
            ),
{
    let ds = cs.remove(idx);
    let key = ckey(true, cs[idx]);
    assert forall|i: int| 0 <= i < ds.len() implies #[trigger] ds[i] == (if i < idx {
        cs[i]
    } else {
        cs[i + 1]
    }) && chains.remove(idx)[i] == (if i < idx {
        chains[i]
    } else {
        chains[i + 1]
    }) by {}
    assert(ascending(true, ds, lo, hi)) by {
        assert forall|i: int, j: int| 0 <= i < j < ds.len() implies lex_lt(
            ckey(true, #[trigger] ds[i]),
            ckey(true, #[trigger] ds[j]),
        ) by {
            let a = if i < idx {
                i
            } else {
                i + 1
            };
            let b = if j < idx {
                j
            } else {
                j + 1
            };
            assert(lex_lt(ckey(true, cs[a]), ckey(true, cs[b])));
        }
    }
    assert(leaf_cells(pages, ds, chains.remove(idx), lo, hi));
    assert(gap(ds, key, idx)) by {
        assert forall|j: int| 0 <= j < idx implies lex_lt(ckey(true, #[trigger] ds[j]), key) by {
            assert(lex_lt(ckey(true, cs[j]), ckey(true, cs[idx])));
        }
        assert forall|j: int| idx <= j < ds.len() implies lex_lt(
            key,
            ckey(true, #[trigger] ds[j]),
        ) by {
            assert(lex_lt(ckey(true, cs[idx]), ckey(true, cs[j + 1])));
        }
    }
    lemma_gap_absent(pages, ds, lo, hi, key, idx);
    assert forall|k: Seq<u8>| k != key implies #[trigger] leaf_find(pages, ds, k) == leaf_find(
        pages,
        cs,
        k,
    ) by {
        if exists|i: int| 0 <= i < cs.len() && cell_key_of(true, #[trigger] cs[i]) == Some(k) {
            let i = choose|i: int|
                0 <= i < cs.len() && cell_key_of(true, #[trigger] cs[i]) == Some(k);
            lemma_leaf_find_at(pages, cs, lo, hi, i);
            let j = if i < idx {
                i
            } else {
                i - 1
            };
            assert(ds[j] == cs[i]);
            lemma_leaf_find_at(pages, ds, lo, hi, j);
        } else if exists|i: int| 0 <= i < ds.len() && cell_key_of(true, #[trigger] ds[i]) == Some(
            k,
        ) {
            let i = choose|i: int|
                0 <= i < ds.len() && cell_key_of(true, #[trigger] ds[i]) == Some(k);
            let j = if i < idx {
                i
            } else {
                i + 1
            };
            assert(cs[j] == ds[i]);
        }
    }
}

/// A list with a gap at a key does not hold the key.
pub proof fn lemma_gap_absent(
    pages: Map<u32, Seq<u8>>,
    cs: Seq<Seq<u8>>,
    lo: KeyBound,
    hi: KeyBound,
    key: Seq<u8>,
    idx: int,
)
    requires
        ascending(true, cs, lo, hi),
        gap(cs, key, idx),
    ensures
        leaf_find(pages, cs, key) is None,
{
    assert forall|i: int| 0 <= i < cs.len() implies cell_key_of(true, #[trigger] cs[i]) != Some(
        key,
    ) by {
        lemma_lex_irreflexive(key);
        assert(cell_key_of(true, cs[i]) is Some);
        if i < idx {
            assert(lex_lt(ckey(true, cs[i]), key));
        } else {
            assert(lex_lt(key, ckey(true, cs[i])));
        }
    }
}

/// Inserting a cell into a list.
pub proof fn lemma_cells_insert(
    pages: Map<u32, Seq<u8>>,
    cs: Seq<Seq<u8>>,
    chains: Seq<Seq<u32>>,
    lo: KeyBound,
    hi: KeyBound,
    idx: int,
    cell: Seq<u8>,
    ids: Seq<u32>,
)
    requires
        leaf_cells(pages, cs, chains, lo, hi),
        tight_cells(cs, chains),
        leaf_ok(cell),
        in_range(ckey(true, cell), lo, hi),
        gap(cs, ckey(true, cell), idx),
        chained(pages, cell, ids),
        cell.len() <= 1036,
        0 < ckey(true, cell).len() <= MAX_KEY_SIZE,
        leaf_overflows(cell) ==> ids.len() == chunks_of(u32_at(cell, 4) as nat),
    ensures
        leaf_cells(pages, cs.insert(idx, cell), chains.insert(idx, ids), lo, hi),
        tight_cells(cs.insert(idx, cell), chains.insert(idx, ids)),
        leaf_find(pages, cs.insert(idx, cell), ckey(true, cell)) == Some(cell_value(pages, cell)),
        forall|k: Seq<u8>|
            k != ckey(true, cell) ==> #[trigger] leaf_find(pages, cs.insert(idx, cell), k)
                == leaf_find(pages, cs, k),
{
    let ds = cs.insert(idx, cell);
    let ch = chains.insert(idx, ids);
    let key = ckey(true, cell);
    assert forall|i: int| 0 <= i < ds.len() implies #[trigger] ds[i] == (if i < idx {
        cs[i]
    } else if i == idx {
        cell
    } else {
        cs[i - 1]
    }) && ch[i] == (if i < idx {
        chains[i]
    } else if i == idx {
        ids
    } else {
        chains[i - 1]
    }) by {}
    assert(ascending(true, ds, lo, hi)) by {
        assert forall|i: int, j: int| 0 <= i < j < ds.len() implies lex_lt(
            ckey(true, #[trigger] ds[i]),
            ckey(true, #[trigger] ds[j]),
        ) by {
            let a = if i < idx {
                i
            } else {
                i - 1
            };
            let b = if j < idx {
                j
            } else {
                j - 1
            };
            if i == idx {
                assert(lex_lt(key, ckey(true, cs[b])));
            } else if j == idx {
                assert(lex_lt(ckey(true, cs[a]), key));
            } else {
                assert(lex_lt(ckey(true, cs[a]), ckey(true, cs[b])));
            }
        }
    }
    assert(ds[idx] == cell);
    lemma_leaf_find_at(pages, ds, lo, hi, idx);
    assert forall|k: Seq<u8>| k != key implies #[trigger] leaf_find(pages, ds, k) == leaf_find(
        pages,
        cs,
        k,
    ) by {
        if exists|i: int| 0 <= i < cs.len() && cell_key_of(true, #[trigger] cs[i]) == Some(k) {
            let i = choose|i: int|
                0 <= i < cs.len() && cell_key_of(true, #[trigger] cs[i]) == Some(k);
            lemma_leaf_find_at(pages, cs, lo, hi, i);
            let j = if i < idx {
                i
            } else {
                i + 1
            };
            assert(ds[j] == cs[i]);
            lemma_leaf_find_at(pages, ds, lo, hi, j);
        } else if exists|i: int| 0 <= i < ds.len() && cell_key_of(true, #[trigger] ds[i]) == Some(
            k,
        ) {
            let i = choose|i: int|
                0 <= i < ds.len() && cell_key_of(true, #[trigger] ds[i]) == Some(k);
            let j = if i < idx {
                i
            } else {
                i - 1
            };
            assert(i != idx);
            assert(cs[j] == ds[i]);
        }
    }
}

/// Dividing a list of leaf cells at `at`: the first key on the right is the
/// separator.
pub proof fn lemma_cells_split(
    pages: Map<u32, Seq<u8>>,
    cs: Seq<Seq<u8>>,
    chains: Seq<Seq<u32>>,
    lo: KeyBound,
    hi: KeyBound,
    at: int,
)
    requires
        leaf_cells(pages, cs, chains, lo, hi),
        tight_cells(cs, chains),
        0 < at < cs.len(),
    ensures
        ({
            let sep = ckey(true, cs[at]);
            &&& leaf_cells(pages, cs.take(at), chains.take(at), lo, Some(sep))
            &&& leaf_cells(pages, cs.skip(at), chains.skip(at), Some(sep), hi)
            &&& tight_cells(cs.take(at), chains.take(at))
            &&& tight_cells(cs.skip(at), chains.skip(at))
            &&& lo matches Some(l) ==> lex_lt(l, sep)
            &&& hi matches Some(h) ==> lex_lt(sep, h)
            &&& forall|k: Seq<u8>| #[trigger]
                leaf_find(pages, cs, k) == if lex_lt(k, sep) {
                    leaf_find(pages, cs.take(at), k)
                } else {
                    leaf_find(pages, cs.skip(at), k)
                }
        }),
{
    let sep = ckey(true, cs[at]);
    let a = cs.take(at);
    let b = cs.skip(at);
    assert(lex_lt(ckey(true, cs[0]), sep));
    assert(cell_key_of(true, cs[0]) is Some);
    assert(cell_key_of(true, cs[at]) is Some);
    if lo is Some {
        lemma_le_lt_trans(lo->0, ckey(true, cs[0]), sep);
    }
    assert(ascending(true, a, lo, Some(sep))) by {
        assert forall|i: int| 0 <= i < a.len() implies cell_key_of(true, #[trigger] a[i]) is Some
            && in_range(ckey(true, a[i]), lo, Some(sep)) by {
            assert(a[i] == cs[i]);
            assert(lex_lt(ckey(true, cs[i]), ckey(true, cs[at])));
        }
        assert forall|i: int, j: int| 0 <= i < j < a.len() implies lex_lt(
            ckey(true, #[trigger] a[i]),
            ckey(true, #[trigger] a[j]),
        ) by {
            assert(a[i] == cs[i] && a[j] == cs[j]);
        }
    }
    assert(ascending(true, b, Some(sep), hi)) by {
        assert forall|i: int| 0 <= i < b.len() implies cell_key_of(true, #[trigger] b[i]) is Some
            && in_range(ckey(true, b[i]), Some(sep), hi) by {
            assert(b[i] == cs[at + i]);
            if i > 0 {
                assert(lex_lt(ckey(true, cs[at]), ckey(true, cs[at + i])));
            }
        }
        assert forall|i: int, j: int| 0 <= i < j < b.len() implies lex_lt(
            ckey(true, #[trigger] b[i]),
            ckey(true, #[trigger] b[j]),
        ) by {
            assert(b[i] == cs[at + i] && b[j] == cs[at + j]);
        }
    }
    assert forall|i: int| 0 <= i < a.len() implies leaf_ok(#[trigger] a[i]) && chained(
        pages,
        a[i],
        chains.take(at)[i],
    ) by {
        assert(a[i] == cs[i]);
    }
    assert forall|i: int| 0 <= i < b.len() implies leaf_ok(#[trigger] b[i]) && chained(
        pages,
        b[i],
        chains.skip(at)[i],
    ) by {
        assert(b[i] == cs[at + i]);
    }
    assert(tight_cells(a, chains.take(at))) by {
        assert forall|i: int| 0 <= i < a.len() implies (#[trigger] a[i]).len() <= 1036 && (
        leaf_overflows(a[i]) ==> chains.take(at)[i].len() == chunks_of(
            u32_at(a[i], 4) as nat,
        )) by {
            assert(a[i] == cs[i]);
        }
    }
    assert(tight_cells(b, chains.skip(at))) by {
        assert forall|i: int| 0 <= i < b.len() implies (#[trigger] b[i]).len() <= 1036 && (
        leaf_overflows(b[i]) ==> chains.skip(at)[i].len() == chunks_of(
            u32_at(b[i], 4) as nat,
        )) by {
            assert(b[i] == cs[at + i]);
        }
    }
    assert forall|k: Seq<u8>| #[trigger] leaf_find(pages, cs, k) == if lex_lt(k, sep) {
        leaf_find(pages, a, k)
    } else {
        leaf_find(pages, b, k)
    } by {
        if exists|i: int| 0 <= i < cs.len() && cell_key_of(true, #[trigger] cs[i]) == Some(k) {
            let i = choose|i: int|
                0 <= i < cs.len() && cell_key_of(true, #[trigger] cs[i]) == Some(k);
            lemma_leaf_find_at(pages, cs, lo, hi, i);
            if i < at {
                assert(a[i] == cs[i]);
                lemma_leaf_find_at(pages, a, lo, Some(sep), i);
                assert(lex_lt(ckey(true, cs[i]), ckey(true, cs[at])));
            } else {
                assert(b[i - at] == cs[i]);
                lemma_leaf_find_at(pages, b, Some(sep), hi, i - at);
                if i > at {
                    lemma_lex_asymmetric(ckey(true, cs[at]), ckey(true, cs[i]));
                } else {
                    lemma_lex_irreflexive(sep);
                }
            }
        } else {
            if exists|i: int| 0 <= i < a.len() && cell_key_of(true, #[trigger] a[i]) == Some(k) {
                let i = choose|i: int|
                    0 <= i < a.len() && cell_key_of(true, #[trigger] a[i]) == Some(k);
                assert(cs[i] == a[i]);
            }
            if exists|i: int| 0 <= i < b.len() && cell_key_of(true, #[trigger] b[i]) == Some(k) {
                let i = choose|i: int|
                    0 <= i < b.len() && cell_key_of(true, #[trigger] b[i]) == Some(k);
                assert(cs[at + i] == b[i]);
            }
        }
    }
}

} // verus!

//! What pages, files, caches and their accounts promise.

use crate::btree::check::{
    cell_fits, chain_pages, reports, shape, slot_hi, slot_lo, sound, tally, tally_upto, underfull,
    TreeReport,
};
use crate::btree::insert::{best_division, divides, imbalance, lemma_used_split};
use crate::btree::leaf::spill;
use crate::btree::scan::{leaves, leaves_upto, upto_ids};
use crate::btree::{chains_apart, clamped, distinct, ids_of, kids_apart, KeyBound, Tree};
use crate::lsm::files::{
    digits, is_orphan, law_names_give_back_ids, name_of, suffix,
};
use crate::lsm::sstable::Summary;
use crate::observability::metrics::{
    bucket_of, lemma_total_update, no_samples, total_of, with_sample, Samples,
};
use crate::page::{
    crc_ok, free_of as free_bytes, meta_of, type_byte, type_from, used_bytes, zero_page, PageType,
};
use crate::page_cache::{cached, lemma_without_shorter, with_front, without};
use crate::pager::{backup_ok, grown, grown_len, opens, page_valid, pages_of, PagerState};
use vstd::prelude::*;

verus! {

// ---- pages of the tree ------------------------------------------------------------------

/// A full page is divided where the two parts come closest to the same number
/// of bytes, each cell taking four bytes more than it has; both parts fit a
/// page. A cell that moves up to the parent counts on neither side.
pub proof fn law_divisions_are_even(cs: Seq<Seq<u8>>, at: int, j: int)
    ensures
        best_division(cs, false, at) ==> 0 < at < cs.len() && used_bytes(cs.take(at)) <= 4064
            && used_bytes(cs.skip(at)) <= 4064,
        best_division(cs, true, at) ==> 0 <= at < cs.len() && used_bytes(cs.take(at)) <= 4064
            && used_bytes(cs.skip(at + 1)) <= 4064,
        best_division(cs, false, at) && 0 < j < cs.len() && used_bytes(cs.take(j)) <= 4064
            && used_bytes(cs.skip(j)) <= 4064 ==> distance(
            used_bytes(cs.take(at)) as int,
            used_bytes(cs.skip(at)) as int,
        ) <= distance(used_bytes(cs.take(j)) as int, used_bytes(cs.skip(j)) as int),
        best_division(cs, true, at) && 0 <= j < cs.len() && used_bytes(cs.take(j)) <= 4064
            && used_bytes(cs.skip(j + 1)) <= 4064 ==> distance(
            used_bytes(cs.take(at)) as int,
            used_bytes(cs.skip(at + 1)) as int,
        ) <= distance(used_bytes(cs.take(j)) as int, used_bytes(cs.skip(j + 1)) as int),
        0 <= j < cs.len() ==> used_bytes(cs.take(j + 1)) == used_bytes(cs.take(j)) + cs[j].len()
            + 4,
        used_bytes(Seq::empty()) == 0,
{
    if 0 <= j < cs.len() {
        lemma_used_split(cs, j);
    }
    if best_division(cs, false, at) && 0 < j < cs.len() && used_bytes(cs.take(j)) <= 4064
        && used_bytes(cs.skip(j)) <= 4064 {
        assert(divides(cs, false, j));
        assert(imbalance(cs, false, at) <= imbalance(cs, false, j));
    }
    if best_division(cs, true, at) && 0 <= j < cs.len() && used_bytes(cs.take(j)) <= 4064
        && used_bytes(cs.skip(j + 1)) <= 4064 {
        assert(divides(cs, true, j));
        assert(imbalance(cs, true, at) <= imbalance(cs, true, j));
    }
}

/// How far two numbers are apart.
pub open spec fn distance(a: int, b: int) -> int {
    if a < b {
        b - a
    } else {
        a - b
    }
}

/// Thresholds that make sense are taken as they are; others are moved no
/// further than they must be: the least occupancy is at least half of the 4064
/// bytes of a page and less than the most.
pub proof fn law_thresholds_are_kept_apart(min: int, max: int)
    ensures
        ({
            let (lo, hi) = clamped(min, max);
            &&& 2032 <= lo < hi <= 4064
            &&& 2032 <= min < max <= 4064 ==> lo == min && hi == max
            &&& min < 2032 ==> lo == 2032
            &&& min >= 4064 ==> lo == 4063
            &&& 2032 <= min < 4064 ==> lo == min
            &&& max >= 4064 ==> hi == 4064
            &&& max <= lo ==> hi == lo + 1
            &&& lo < max <= 4064 ==> hi == max
        }),
{
}

/// A value stays in its leaf as long as its cell takes no more than 1012
/// bytes, eight of them for the lengths; otherwise it goes to pages of its own,
/// each but the last filled with 4056 bytes.
pub proof fn law_long_values_move_out(key: Seq<u8>, value: Seq<u8>)
    ensures
        spill(key, value) == 0 <==> 8 + key.len() + value.len() <= 1012 || value.len() == 0,
        spill(key, value) > 0 ==> 4056 * (spill(key, value) - 1) < value.len() <= 4056 * spill(
            key,
            value,
        ),
{
}

/// A leaf that is not the root is underfull when it uses fewer bytes than
/// asked for, of 4064; the root never is.
pub proof fn law_roots_are_never_underfull(b: Seq<u8>, min: int)
    ensures
        !underfull(b, min, false),
        underfull(b, min, true) <==> 4064 < min + free_bytes(b),
{
}

proof fn lemma_chain_count(chains: Seq<Seq<u32>>)
    requires
        chains_apart(chains),
        forall|i: int| 0 <= i < chains.len() ==> (#[trigger] chains[i]).no_duplicates(),
    ensures
        on_chains(chains).finite(),
        on_chains(chains).len() == chain_pages(chains),
    decreases chains.len(),
{
    if chains.len() == 0 {
        assert(on_chains(chains) =~= Set::empty());
    } else {
        let (less, last) = (chains.drop_last(), chains.last());
        let n = chains.len() - 1;
        assert forall|i: int| 0 <= i < less.len() implies (#[trigger] less[i]).no_duplicates() by {
            assert(less[i] == chains[i]);
        }
        assert forall|i: int, j: int, x: u32|
            0 <= i < j < less.len() && #[trigger] less[i].contains(x) implies !#[trigger] less[j].contains(
            x,
        ) by {
            assert(chains[i].contains(x));
            assert(less[j] == chains[j]);
        }
        lemma_chain_count(less);
        last.unique_seq_to_set();
        let (a, b) = (on_chains(less), last.to_set());
        assert(a.disjoint(b)) by {
            assert forall|x: u32| a.contains(x) implies !b.contains(x) by {
                let i = choose|i: int| 0 <= i < less.len() && (#[trigger] less[i]).contains(x);
                assert(chains[i].contains(x));
                assert(!chains[n].contains(x));
            }
        }
        vstd::set_lib::lemma_set_disjoint_lens(a, b);
        assert(on_chains(chains) =~= a + b) by {
            assert forall|x: u32| on_chains(chains).contains(x) implies (a + b).contains(x) by {
                let i = choose|i: int| 0 <= i < chains.len() && (#[trigger] chains[i]).contains(x);
                if i < n {
                    assert(less[i].contains(x));
                } else {
                    assert(last.contains(x));
                }
            }
            assert forall|x: u32| (a + b).contains(x) implies on_chains(chains).contains(x) by {
                if a.contains(x) {
                    let i = choose|i: int| 0 <= i < less.len() && (#[trigger] less[i]).contains(x);
                    assert(chains[i].contains(x));
                } else {
                    assert(chains[n].contains(x));
                }
            }
        }
    }
}

/// The pages of some chains.
pub open spec fn on_chains(chains: Seq<Seq<u32>>) -> Set<u32> {
    Set::new(|x: u32| exists|i: int| 0 <= i < chains.len() && (#[trigger] chains[i]).contains(x))
}

proof fn lemma_tree_count(
    pages: Map<u32, Seq<u8>>,
    t: Tree,
    lo: KeyBound,
    hi: KeyBound,
    min: int,
    deep: bool,
)
    requires
        shape(pages, t, lo, hi),
        distinct(t),
    ensures
        ids_of(t).finite(),
        ids_of(t).len() == tally(pages, t, min, deep).leaf + tally(pages, t, min, deep).internal
            + tally(pages, t, min, deep).overflow,
        leaves(t).len() == tally(pages, t, min, deep).leaf,
        tally(pages, t, min, deep).underfull <= leaves(t).len(),
    decreases t, 0int,
{
    match t {
        Tree::Leaf { id, chains } => {
            assert forall|i: int| 0 <= i < chains.len() implies (
            #[trigger] chains[i]).no_duplicates() by {
                assert(cell_fits(pages, pages[id], i, chains[i]));
            }
            lemma_chain_count(chains);
            assert(ids_of(t) =~= on_chains(chains).insert(id));
            assert(!on_chains(chains).contains(id));
        },
        Tree::Node { id, kids } => {
            lemma_kids_count(pages, pages[id], kids, lo, hi, kids.len() as int, min);
            let below = upto_ids(kids, kids.len() as int);
            assert(!below.contains(id));
            assert(ids_of(t) =~= below.insert(id));
        },
    }
}

proof fn lemma_kids_count(
    pages: Map<u32, Seq<u8>>,
    b: Seq<u8>,
    kids: Seq<Tree>,
    lo: KeyBound,
    hi: KeyBound,
    n: int,
    min: int,
)
    requires
        0 <= n <= kids.len(),
        kids_apart(kids),
        forall|i: int|
            0 <= i < kids.len() ==> distinct(#[trigger] kids[i]) && shape(
                pages,
                kids[i],
                slot_lo(b, i, lo),
                slot_hi(b, i, hi),
            ),
    ensures
        upto_ids(kids, n).finite(),
        upto_ids(kids, n).len() == tally_upto(pages, kids, n, min).leaf + tally_upto(
            pages,
            kids,
            n,
            min,
        ).internal + tally_upto(pages, kids, n, min).overflow,
        leaves_upto(kids, n).len() == tally_upto(pages, kids, n, min).leaf,
        tally_upto(pages, kids, n, min).underfull <= leaves_upto(kids, n).len(),
    decreases kids, n,
{
    if n == 0 {
        assert(upto_ids(kids, n) =~= Set::empty());
    } else {
        lemma_kids_count(pages, b, kids, lo, hi, n - 1, min);
        lemma_tree_count(
            pages,
            kids[n - 1],
            slot_lo(b, n - 1, lo),
            slot_hi(b, n - 1, hi),
            min,
            true,
        );
        let (a, c) = (upto_ids(kids, n - 1), ids_of(kids[n - 1]));
        assert(a.disjoint(c)) by {
            assert forall|x: u32| a.contains(x) implies !c.contains(x) by {
                let i = choose|i: int|
                    0 <= i < n - 1 && i < kids.len() && ids_of(#[trigger] kids[i]).contains(x);
                assert(ids_of(kids[i]).contains(x));
            }
        }
        vstd::set_lib::lemma_set_disjoint_lens(a, c);
        assert(upto_ids(kids, n) =~= a + c) by {
            assert forall|x: u32| upto_ids(kids, n).contains(x) implies (a + c).contains(x) by {
                let i = choose|i: int|
                    0 <= i < n && i < kids.len() && ids_of(#[trigger] kids[i]).contains(x);
                if i < n - 1 {
                    assert(a.contains(x));
                }
            }
        }
    }
}

/// The full check accounts for every page once: the pages of the tree, the
/// free ones, the first one and those that nothing reaches add up to the file.
/// It counts each leaf, and no more leaves as underfull than there are.
pub proof fn law_checks_account_for_every_page(
    r: TreeReport,
    s: PagerState,
    t: Tree,
    h: nat,
    free: Seq<u32>,
    min: int,
)
    requires
        sound(s, t, h, free),
        reports(r, s, t, h, free, min),
    ensures
        ids_of(t).finite(),
        r.leaf_pages + r.internal_pages + r.overflow_pages == ids_of(t).len(),
        r.leaf_pages == leaves(t).len(),
        r.free_pages == free.len(),
        r.underfull_leaves <= r.leaf_pages,
        ids_of(t).len() + free.len() + 1 <= s.meta.page_count ==> ids_of(t).len() + r.free_pages
            + r.unreachable_pages + 1 == s.meta.page_count,
        r.depth == h + 1,
{
    reveal(reports);
    reveal(sound);
    lemma_tree_count(s.pages, t, None, None, min, false);
}

// ---- the file ---------------------------------------------------------------------------

/// A file grows only when it must, to at least what is asked, and by no fewer
/// than thirty-two pages as far as page numbers go; what was there stays, and
/// what is new is zero.
pub proof fn law_files_grow_in_steps(file: Seq<Seq<u8>>, pages: int, n: int, i: int)
    requires
        file.len() <= 0xFFFF_FFFF,
    ensures
        pages <= file.len() ==> grown_len(file.len() as int, pages) == file.len(),
        grown_len(file.len() as int, pages) >= pages,
        pages > file.len() ==> grown_len(file.len() as int, pages) >= file.len() + 32 || grown_len(
            file.len() as int,
            pages,
        ) >= 0xFFFF_FFFF,
        grown_len(file.len() as int, pages) <= file.len() + 32 || grown_len(
            file.len() as int,
            pages,
        ) == pages,
        grown(file, n).len() >= n,
        grown(file, n).len() == n || grown(file, n) == file,
        0 <= i < file.len() ==> grown(file, n)[i] == file[i],
        file.len() <= i < n ==> grown(file, n)[i] == zero_page(),
{
}

/// What is taken as a backup can be opened, and no page in use of it is
/// damaged: one that is, or a size that is no number of pages, has it refused.
pub proof fn law_damaged_backups_are_refused(bytes: Seq<u8>, i: int)
    requires
        bytes.len() <= 0xFFFF_FFFF * 4096,
    ensures
        backup_ok(bytes) ==> bytes.len() % 4096 == 0 && opens(
            pages_of(bytes, bytes.len() / 4096),
        ),
        bytes.len() > 0 && 0 < i < (meta_of(pages_of(bytes, bytes.len() / 4096)[0])->0).page_count
            && !crc_ok(pages_of(bytes, bytes.len() / 4096)[i]) ==> !backup_ok(bytes),
        bytes.len() > 0 && !page_valid(pages_of(bytes, bytes.len() / 4096)[0], 0) ==> !backup_ok(
            bytes,
        ),
{
}

/// Each kind of page has its code, by which it is known again, and there are
/// five of them.
pub proof fn law_kinds_have_their_codes(t: PageType, code: u8)
    ensures
        type_from(type_byte(t)) == Some(t),
        type_from(code) is None <==> code > 4,
        type_from(0) == Some(PageType::Free),
        type_byte(PageType::Meta) == 4,
        type_from(code) == Some(t) ==> type_byte(t) == code,
        t == PageType::Leaf ==> type_byte(t) == 2,
        t == PageType::Internal ==> type_byte(t) == 1,
{
}

// ---- cached pages -----------------------------------------------------------------------

/// Where a key stands in a list of pages.
spec fn stands(s: Seq<(u32, Seq<u8>)>, key: u32) -> bool {
    exists|i: int| 0 <= i < s.len() && (#[trigger] s[i]).0 == key
}

proof fn lemma_stands(s: Seq<(u32, Seq<u8>)>, key: u32)
    ensures
        cached(s, key) is Some <==> stands(s, key),
    decreases s.len(),
{
    if s.len() > 0 {
        lemma_stands(s.skip(1), key);
        if s[0].0 != key && stands(s, key) {
            let i = choose|i: int| 0 <= i < s.len() && (#[trigger] s[i]).0 == key;
            assert(s.skip(1)[i - 1] == s[i]);
        }
        if stands(s.skip(1), key) {
            let i = choose|i: int| 0 <= i < s.skip(1).len() && (#[trigger] s.skip(1)[i]).0 == key;
            assert(s[i + 1] == s.skip(1)[i]);
        }
    }
}

/// A page that was just put or used stands first. When there is no room for a
/// new page the one that was used longest ago goes, and no other; while there
/// is room, or for a page that is there already, none goes.
pub proof fn law_the_least_used_page_goes(
    s: Seq<(u32, Seq<u8>)>,
    cap: nat,
    key: u32,
    page: Seq<u8>,
)
    requires
        0 < s.len() <= cap,
        forall|i: int, j: int| 0 <= i < j < s.len() ==> (#[trigger] s[i]).0 != (#[trigger] s[j]).0,
    ensures
        with_front(s, cap, key, page)[0] == (key, page),
        cached(s, key) is None && s.len() == cap ==> with_front(s, cap, key, page) == seq![
            (key, page),
        ] + s.subrange(0, s.len() - 1) && cached(with_front(s, cap, key, page), s.last().0) is None,
        cached(s, key) is None && s.len() < cap ==> with_front(s, cap, key, page) == seq![
            (key, page),
        ] + s,
        cached(s, key) is Some ==> with_front(s, cap, key, page).len() == s.len(),
{
    let w = with_front(s, cap, key, page);
    lemma_without_shorter(s, key);
    lemma_stands(s, key);
    if cached(s, key) is None && s.len() == cap {
        assert(s.drop_last() =~= s.subrange(0, s.len() - 1));
        lemma_stands(w, s.last().0);
        assert(s[s.len() - 1].0 != key);
        if stands(w, s.last().0) {
            let i = choose|i: int| 0 <= i < w.len() && (#[trigger] w[i]).0 == s.last().0;
            assert(i > 0);
            assert(w[i] == s[i - 1]);
        }
    }
    if cached(s, key) is Some {
        lemma_one_less(s, key);
    }
}

proof fn lemma_one_less(s: Seq<(u32, Seq<u8>)>, key: u32)
    requires
        forall|i: int, j: int| 0 <= i < j < s.len() ==> (#[trigger] s[i]).0 != (#[trigger] s[j]).0,
        cached(s, key) is Some,
    ensures
        without(s, key).len() == s.len() - 1,
    decreases s.len(),
{
    let rest = s.skip(1);
    assert forall|i: int, j: int| 0 <= i < j < rest.len() implies (#[trigger] rest[i]).0 != (
    #[trigger] rest[j]).0 by {
        assert(rest[i] == s[i + 1] && rest[j] == s[j + 1]);
    }
    if s[0].0 == key {
        lemma_stands(rest, key);
        if stands(rest, key) {
            let i = choose|i: int| 0 <= i < rest.len() && (#[trigger] rest[i]).0 == key;
            assert(rest[i] == s[i + 1]);
            assert(s[0].0 != s[i + 1].0);
        }
        lemma_without_shorter(rest, key);
    } else {
        lemma_one_less(rest, key);
    }
}

// ---- table files ------------------------------------------------------------------------

/// A table's file ends in `.sst` behind ten digits or more, and is debris if no
/// live table has its id; a file that ends otherwise never is.
pub proof fn law_only_table_files_are_debris(id: u64, live: Seq<Summary>, other: Seq<u8>)
    ensures
        name_of(id).len() >= 14,
        name_of(id).subrange(name_of(id).len() - 4, name_of(id).len() as int) == seq![
            46u8,
            115u8,
            115u8,
            116u8,
        ],
        forall|i: int| 0 <= i < name_of(id).len() - 4 ==> 48 <= #[trigger] name_of(id)[i] <= 57,
        is_orphan(name_of(id), live) <==> forall|i: int|
            0 <= i < live.len() ==> (#[trigger] live[i]).id != id,
        other.len() < 5 || other.last() != 116 ==> !is_orphan(other, live),
{
    law_names_give_back_ids(id);
    let name = name_of(id);
    let n = name.len() - 4;
    lemma_digits(id as nat);
    assert(name.subrange(n, name.len() as int) =~= suffix());
    if other.len() >= 5 && other.subrange(other.len() - 4, other.len() as int) == suffix() {
        assert(other.subrange(other.len() - 4, other.len() as int)[3] == other.last());
    }
}

proof fn lemma_digits(n: nat)
    ensures
        digits(n).len() > 0,
        forall|i: int| 0 <= i < digits(n).len() ==> 48 <= #[trigger] digits(n)[i] <= 57,
    decreases n,
{
    if n >= 10 {
        lemma_digits(n / 10);
    }
}

// ---- samples ----------------------------------------------------------------------------

/// One more sample is one more in all and one more in one bucket; it is never
/// below the smallest nor above the largest sample, and these move only to it.
/// The sum grows by it, as far as sixty-four bits go.
pub proof fn law_samples_add_up(s: Samples, micros: u64)
    requires
        s.buckets.len() == 32,
        s.count < u64::MAX,
        total_of(s.buckets) == s.count,
        forall|i: int| 0 <= i < 32 ==> #[trigger] s.buckets[i] <= s.count,
        0 <= bucket_of(micros) < 32,
    ensures
        with_sample(s, micros).count == s.count + 1,
        total_of(with_sample(s, micros).buckets) == s.count + 1,
        s.sum + micros <= u64::MAX ==> with_sample(s, micros).sum == s.sum + micros,
        with_sample(s, micros).min <= micros <= with_sample(s, micros).max,
        with_sample(s, micros).min <= s.min && s.max <= with_sample(s, micros).max,
        with_sample(s, micros).min == s.min || with_sample(s, micros).min == micros,
        with_sample(s, micros).max == s.max || with_sample(s, micros).max == micros,
        with_sample(no_samples(), micros).min == micros,
        with_sample(no_samples(), micros).max == micros,
{
    let b = bucket_of(micros);
    assert(s.buckets[b] <= s.count);
    lemma_total_update(s.buckets, b, (s.buckets[b] + 1) as u64);
}

} // verus!

//! Merging sorted runs, and which versions may be dropped.
//!
//! A merge keeps only the versions that a live snapshot can still read. Two
//! rules protect correctness:
//!
//! 1. A version at or below the **retain floor** (the oldest live snapshot) may
//!    be dropped once a newer version also sits at or below it — no reader can
//!    observe the difference.
//! 2. A tombstone may only be discarded when merging into the **bottom-most
//!    level**, because a lower level may still hold an older version that the
//!    tombstone is responsible for masking. Dropping it early resurrects data.

use crate::bytes::{
    copy_bytes, lemma_lex_asymmetric, lemma_lex_irreflexive, lex_lt, same, Order,
};
use crate::error::Error;
use crate::lsm::memtable::copy_slot;
use crate::lsm::version::{
    in_order, is_newest, items, lemma_listed, lemma_seen, lemma_version_total,
    lemma_version_transitive, lemma_versions, lists, seen, slot_of, version_lt, versions,
    InternalKey, Item, ValueSlot, Version,
};
use vstd::prelude::*;

verus! {

/// Counters describing the work a compaction performed.
#[derive(Debug, Clone, Copy, PartialEq, Eq)]
pub struct CompactionStats {
    /// Tables consumed.
    pub input_tables: usize,
    /// Entries read from the inputs.
    pub entries_in: u64,
    /// Entries written to the output.
    pub entries_out: u64,
    /// Entries dropped because a newer version supersedes them.
    pub versions_dropped: u64,
    /// Tombstones dropped at the bottom-most level.
    pub tombstones_dropped: u64,
    /// Bytes read from the inputs.
    pub bytes_in: u64,
}

/// The contents of a list of runs.
pub open spec fn run_items(runs: Seq<Vec<(InternalKey, ValueSlot)>>) -> Seq<Seq<Item>> {
    Seq::new(runs.len(), |r: int| items(runs[r]@))
}

/// Runs, one behind the other.
pub open spec fn joined(runs: Seq<Seq<Item>>) -> Seq<Item>
    decreases runs.len(),
{
    if runs.len() == 0 {
        Seq::empty()
    } else {
        joined(runs.drop_last()) + runs.last()
    }
}

/// The place of the first entry of a version.
pub open spec fn is_first(all: Seq<Item>, p: int) -> bool {
    &&& 0 <= p < all.len()
    &&& forall|q: int| 0 <= q < p ==> (#[trigger] all[q]).0 != all[p].0
}

/// The versions of a list; of two entries of one version the first counts.
pub open spec fn merged(all: Seq<Item>) -> Map<Version, Option<Seq<u8>>> {
    Map::new(
        |v: Version| lists(all, v),
        |v: Version| all[choose|p: int| is_first(all, p) && (#[trigger] all[p]).0 == v].1,
    )
}

/// The version is the one that a reader at the floor sees, it is a tombstone,
/// and tombstones are dropped.
pub open spec fn reclaimed(
    m: Map<Version, Option<Seq<u8>>>,
    floor: u64,
    drop_tombstones: bool,
    v: Version,
) -> bool {
    drop_tombstones && is_newest(m, v.0, floor, v.1) && m[v] is None
}

/// The version can still be read: it is above the floor, or the newest that is
/// not, unless it is a tombstone that nothing needs.
pub open spec fn survives(
    m: Map<Version, Option<Seq<u8>>>,
    floor: u64,
    drop_tombstones: bool,
    v: Version,
) -> bool {
    &&& m.contains_key(v)
    &&& v.1 > floor || is_newest(m, v.0, floor, v.1)
    &&& !reclaimed(m, floor, drop_tombstones, v)
}

/// What a merge leaves.
pub open spec fn surviving(
    m: Map<Version, Option<Seq<u8>>>,
    floor: u64,
    drop_tombstones: bool,
) -> Map<Version, Option<Seq<u8>>> {
    Map::new(|v: Version| survives(m, floor, drop_tombstones, v), |v: Version| m[v])
}

/// How many versions of a list, taken in order, are reclaimed.
pub open spec fn reclaims(
    run: Seq<Item>,
    m: Map<Version, Option<Seq<u8>>>,
    floor: u64,
    drop_tombstones: bool,
) -> nat
    decreases run.len(),
{
    if run.len() == 0 {
        0
    } else {
        reclaims(run.drop_last(), m, floor, drop_tombstones) + if reclaimed(
            m,
            floor,
            drop_tombstones,
            run.last().0,
        ) {
            1nat
        } else {
            0
        }
    }
}

/// Key and value bytes of a list.
pub open spec fn payload(all: Seq<Item>) -> nat
    decreases all.len(),
{
    if all.len() == 0 {
        0
    } else {
        let e = all.last();
        payload(all.drop_last()) + e.0.0.len() + match e.1 {
            Some(v) => v.len(),
            None => 0,
        }
    }
}

/// A number kept within sixty-four bits.
pub open spec fn clipped(n: int) -> u64 {
    if n > u64::MAX {
        u64::MAX
    } else {
        n as u64
    }
}

/// The entries at the places listed.
spec fn picked(all: Seq<Item>, ix: Seq<usize>) -> Seq<Item> {
    Seq::new(ix.len(), |k: int| all[ix[k] as int])
}

/// `ix` lists places from `lo` on and below `hi`, in version order, and for
/// each entry there the first one of its version.
spec fn settled(all: Seq<Item>, lo: int, hi: int, ix: Seq<usize>) -> bool {
    &&& forall|k: int| 0 <= k < ix.len() ==> lo <= #[trigger] ix[k] < hi
    &&& forall|a: int, b: int|
        0 <= a < b < ix.len() ==> version_lt(
            all[#[trigger] ix[a] as int].0,
            all[#[trigger] ix[b] as int].0,
        )
    &&& forall|p: int| lo <= p < hi ==> shown_by(all, ix, #[trigger] all[p].0, p)
}

/// Some place listed, at or before `p`, holds the version.
spec fn shown_by(all: Seq<Item>, ix: Seq<usize>, v: Version, p: int) -> bool {
    exists|k: int| 0 <= k < ix.len() && all[#[trigger] ix[k] as int].0 == v && ix[k] <= p
}

/// Where an entry stands: its run and its place in it.
type Spot = (usize, usize);

/// The entries at the spots.
spec fn at_spots(runs: Seq<Vec<(InternalKey, ValueSlot)>>, spots: Seq<Spot>) -> Seq<Item> {
    Seq::new(
        spots.len(),
        |p: int|
            {
                let e = runs[spots[p].0 as int]@[spots[p].1 as int];
                (e.0@, slot_of(e.1))
            },
    )
}

spec fn spots_ok(runs: Seq<Vec<(InternalKey, ValueSlot)>>, spots: Seq<Spot>) -> bool {
    forall|p: int|
        0 <= p < spots.len() ==> (#[trigger] spots[p]).0 < runs.len() && spots[p].1
            < runs[spots[p].0 as int]@.len()
}

/// Lists the entries of all runs, one run behind the other, and adds up their
/// bytes.
fn list_spots(runs: &Vec<Vec<(InternalKey, ValueSlot)>>) -> (r: (Vec<Spot>, u64))
    ensures
        spots_ok(runs@, r.0@),
        at_spots(runs@, r.0@) == joined(run_items(runs@)),
        r.1 == clipped(payload(joined(run_items(runs@))) as int),
{
    let ghost all = run_items(runs@);
    let mut spots: Vec<Spot> = Vec::new();
    let mut bytes: u64 = 0;
    let mut r: usize = 0;
    assert(at_spots(runs@, spots@) =~= joined(all.subrange(0, 0)));
    while r < runs.len()
        invariant
            r <= runs@.len(),
            all == run_items(runs@),
            spots_ok(runs@, spots@),
            at_spots(runs@, spots@) == joined(all.subrange(0, r as int)),
            bytes == clipped(payload(joined(all.subrange(0, r as int))) as int),
        decreases runs@.len() - r,
    {
        let ghost head = joined(all.subrange(0, r as int));
        let ghost run = all[r as int];
        let mut i: usize = 0;
        assert(head + run.subrange(0, 0) =~= head);
        while i < runs[r].len()
            invariant
                r < runs@.len(),
                i <= runs@[r as int]@.len(),
                all == run_items(runs@),
                run == all[r as int],
                spots_ok(runs@, spots@),
                at_spots(runs@, spots@) == head + run.subrange(0, i as int),
                bytes == clipped(payload(head + run.subrange(0, i as int)) as int),
            decreases runs@[r as int]@.len() - i,
        {
            let ghost was = at_spots(runs@, spots@);
            let ghost e = run[i as int];
            spots.push((r, i));
            assert(e == (runs@[r as int]@[i as int].0@, slot_of(runs@[r as int]@[i as int].1)));
            assert(at_spots(runs@, spots@) =~= was.push(e));
            assert(head + run.subrange(0, i + 1) =~= was.push(e));
            assert(was.push(e).drop_last() =~= was);
            let key_len: u64 = runs[r][i].0.user_key.len() as u64;
            let val_len: u64 = match &runs[r][i].1 {
                Some(v) => v.len() as u64,
                None => 0,
            };
            bytes = bytes.saturating_add(key_len).saturating_add(val_len);
            i += 1;
        }
        let ghost more = all.subrange(0, r + 1);
        assert(more.drop_last() =~= all.subrange(0, r as int));
        assert(run.subrange(0, i as int) =~= run);
        r += 1;
    }
    assert(all.subrange(0, r as int) =~= all);
    (spots, bytes)
}

/// How the entries at two spots stand to each other.
fn compare_spots(runs: &Vec<Vec<(InternalKey, ValueSlot)>>, a: Spot, b: Spot) -> (o: Order)
    requires
        a.0 < runs@.len(),
        a.1 < runs@[a.0 as int]@.len(),
        b.0 < runs@.len(),
        b.1 < runs@[b.0 as int]@.len(),
    ensures
        ({
            let v = runs@[a.0 as int]@[a.1 as int].0@;
            let w = runs@[b.0 as int]@[b.1 as int].0@;
            match o {
                Order::Less => version_lt(v, w),
                Order::Equal => v == w,
                Order::Greater => version_lt(w, v),
            }
        }),
{
    let o: Order = runs[a.0][a.1].0.compare(&runs[b.0][b.1].0);
    proof {
        let v = runs@[a.0 as int]@[a.1 as int].0@;
        let w = runs@[b.0 as int]@[b.1 as int].0@;
        lemma_version_total(v, w);
    }
    o
}

/// Puts the entries from `lo` on and below `hi` in version order, keeping the
/// first of each version.
fn settle(
    runs: &Vec<Vec<(InternalKey, ValueSlot)>>,
    spots: &Vec<Spot>,
    lo: usize,
    hi: usize,
) -> (ix: Vec<usize>)
    requires
        spots_ok(runs@, spots@),
        lo <= hi <= spots@.len(),
    ensures
        settled(at_spots(runs@, spots@), lo as int, hi as int, ix@),
        ix@.len() <= hi - lo,
    decreases hi - lo,
{
    let ghost all = at_spots(runs@, spots@);
    let mut out: Vec<usize> = Vec::new();
    if lo == hi {
        return out;
    }
    if hi - lo == 1 {
        out.push(lo);
        assert(out@[0] == lo);
        assert(shown_by(all, out@, all[lo as int].0, lo as int));
        return out;
    }
    let mid: usize = lo + (hi - lo) / 2;
    let left: Vec<usize> = settle(runs, spots, lo, mid);
    let right: Vec<usize> = settle(runs, spots, mid, hi);
    let mut i: usize = 0;
    let mut j: usize = 0;
    while i < left.len() || j < right.len()
        invariant
            lo <= mid <= hi <= spots@.len(),
            spots_ok(runs@, spots@),
            all == at_spots(runs@, spots@),
            settled(all, lo as int, mid as int, left@),
            settled(all, mid as int, hi as int, right@),
            left@.len() <= mid - lo,
            right@.len() <= hi - mid,
            i <= left@.len(),
            j <= right@.len(),
            out@.len() <= i + j,
            weaves(all, left@, i as int, right@, j as int, out@),
        decreases left@.len() - i + right@.len() - j,
    {
        let ghost was = out@;
        let take: Order = if i >= left.len() {
            Order::Greater
        } else if j >= right.len() {
            Order::Less
        } else {
            assert(lo <= left@[i as int] < mid);
            assert(mid <= right@[j as int] < hi);
            compare_spots(runs, spots[left[i]], spots[right[j]])
        };
        match take {
            Order::Less => {
                proof {
                    lemma_weave_left(all, left@, i as int, right@, j as int, was);
                }
                out.push(left[i]);
                i += 1;
            },
            Order::Equal => {
                proof {
                    lemma_weave_both(all, left@, i as int, right@, j as int, was);
                }
                out.push(left[i]);
                i += 1;
                j += 1;
            },
            Order::Greater => {
                proof {
                    lemma_weave_right(all, left@, i as int, right@, j as int, was);
                }
                out.push(right[j]);
                j += 1;
            },
        }
    }
    proof {
        lemma_woven(all, lo as int, mid as int, hi as int, left@, right@, out@);
    }
    out
}

/// `out` is the merge of the first `i` of one list and the first `j` of
/// another, and comes before what is left of both.
spec fn weaves(
    all: Seq<Item>,
    left: Seq<usize>,
    i: int,
    right: Seq<usize>,
    j: int,
    out: Seq<usize>,
) -> bool {
    &&& forall|a: int, b: int|
        0 <= a < b < out.len() ==> version_lt(
            all[#[trigger] out[a] as int].0,
            all[#[trigger] out[b] as int].0,
        )
    &&& forall|k: int|
        0 <= k < out.len() ==> left.contains(#[trigger] out[k]) || right.contains(out[k])
    &&& forall|k: int, m: int|
        0 <= k < out.len() && i <= m < left.len() ==> version_lt(
            all[#[trigger] out[k] as int].0,
            all[#[trigger] left[m] as int].0,
        )
    &&& forall|k: int, m: int|
        0 <= k < out.len() && j <= m < right.len() ==> version_lt(
            all[#[trigger] out[k] as int].0,
            all[#[trigger] right[m] as int].0,
        )
    &&& forall|m: int|
        0 <= m < i ==> shown_by(
            all,
            out,
            all[#[trigger] left[m] as int].0,
            left[m] as int,
        )
    &&& forall|m: int|
        0 <= m < j ==> shown_by(
            all,
            out,
            all[#[trigger] right[m] as int].0,
            right[m] as int,
        )
}

/// What was shown stays shown.
proof fn lemma_shown_push(all: Seq<Item>, out: Seq<usize>, x: usize, v: Version, p: int)
    requires
        shown_by(all, out, v, p),
    ensures
        shown_by(all, out.push(x), v, p),
{
    let k = choose|k: int|
        0 <= k < out.len() && all[#[trigger] out[k] as int].0 == v && out[k] <= p;
    assert(out.push(x)[k] == out[k]);
}

/// The facts that a step keeps, whichever list it takes from.
proof fn lemma_weave_push(
    all: Seq<Item>,
    left: Seq<usize>,
    i: int,
    right: Seq<usize>,
    j: int,
    out: Seq<usize>,
    x: usize,
    i2: int,
    j2: int,
)
    requires
        0 <= i <= i2 <= left.len(),
        0 <= j <= j2 <= right.len(),
        weaves(all, left, i, right, j, out),
        left.contains(x) || right.contains(x),
        forall|k: int|
            0 <= k < out.len() ==> version_lt(all[#[trigger] out[k] as int].0, all[x as int].0),
        forall|m: int|
            i2 <= m < left.len() ==> version_lt(
                all[x as int].0,
                all[#[trigger] left[m] as int].0,
            ),
        forall|m: int|
            j2 <= m < right.len() ==> version_lt(
                all[x as int].0,
                all[#[trigger] right[m] as int].0,
            ),
        forall|m: int|
            i <= m < i2 ==> all[#[trigger] left[m] as int].0 == all[x as int].0 && x <= left[m],
        forall|m: int|
            j <= m < j2 ==> all[#[trigger] right[m] as int].0 == all[x as int].0 && x <= right[m],
    ensures
        weaves(all, left, i2, right, j2, out.push(x)),
{
    let now = out.push(x);
    let n = out.len() as int;
    assert(now[n] == x);
    assert forall|a: int, b: int| 0 <= a < b < now.len() implies version_lt(
        all[#[trigger] now[a] as int].0,
        all[#[trigger] now[b] as int].0,
    ) by {
        assert(now[a] == out[a]);
        if b < n {
            assert(now[b] == out[b]);
        }
    }
    assert forall|k: int| 0 <= k < now.len() implies left.contains(#[trigger] now[k])
        || right.contains(now[k]) by {
        if k < n {
            assert(now[k] == out[k]);
        }
    }
    assert forall|k: int, m: int| 0 <= k < now.len() && i2 <= m < left.len() implies version_lt(
        all[#[trigger] now[k] as int].0,
        all[#[trigger] left[m] as int].0,
    ) by {
        if k < n {
            assert(now[k] == out[k]);
        }
    }
    assert forall|k: int, m: int| 0 <= k < now.len() && j2 <= m < right.len() implies version_lt(
        all[#[trigger] now[k] as int].0,
        all[#[trigger] right[m] as int].0,
    ) by {
        if k < n {
            assert(now[k] == out[k]);
        }
    }
    assert forall|m: int| 0 <= m < i2 implies shown_by(
        all,
        now,
        all[#[trigger] left[m] as int].0,
        left[m] as int,
    ) by {
        if m < i {
            lemma_shown_push(all, out, x, all[left[m] as int].0, left[m] as int);
        } else {
            assert(all[now[n] as int].0 == all[left[m] as int].0);
        }
    }
    assert forall|m: int| 0 <= m < j2 implies shown_by(
        all,
        now,
        all[#[trigger] right[m] as int].0,
        right[m] as int,
    ) by {
        if m < j {
            lemma_shown_push(all, out, x, all[right[m] as int].0, right[m] as int);
        } else {
            assert(all[now[n] as int].0 == all[right[m] as int].0);
        }
    }
}

spec fn picks_ordered(all: Seq<Item>, ix: Seq<usize>) -> bool {
    forall|a: int, b: int|
        0 <= a < b < ix.len() ==> version_lt(
            all[#[trigger] ix[a] as int].0,
            all[#[trigger] ix[b] as int].0,
        )
}

proof fn lemma_weave_left(
    all: Seq<Item>,
    left: Seq<usize>,
    i: int,
    right: Seq<usize>,
    j: int,
    out: Seq<usize>,
)
    requires
        weaves(all, left, i, right, j, out),
        picks_ordered(all, left),
        picks_ordered(all, right),
        0 <= i < left.len(),
        0 <= j <= right.len(),
        j < right.len() ==> version_lt(all[left[i] as int].0, all[right[j] as int].0),
    ensures
        weaves(all, left, i + 1, right, j, out.push(left[i])),
{
    let x = left[i];
    assert(left.contains(x));
    assert forall|m: int| j <= m < right.len() implies version_lt(
        all[x as int].0,
        all[#[trigger] right[m] as int].0,
    ) by {
        if m > j {
            lemma_version_transitive(
                all[x as int].0,
                all[right[j] as int].0,
                all[right[m] as int].0,
            );
        }
    }
    lemma_weave_push(all, left, i, right, j, out, x, i + 1, j);
}

proof fn lemma_weave_right(
    all: Seq<Item>,
    left: Seq<usize>,
    i: int,
    right: Seq<usize>,
    j: int,
    out: Seq<usize>,
)
    requires
        weaves(all, left, i, right, j, out),
        picks_ordered(all, left),
        picks_ordered(all, right),
        0 <= i <= left.len(),
        0 <= j < right.len(),
        i < left.len() ==> version_lt(all[right[j] as int].0, all[left[i] as int].0),
    ensures
        weaves(all, left, i, right, j + 1, out.push(right[j])),
{
    let x = right[j];
    assert(right.contains(x));
    assert forall|m: int| i <= m < left.len() implies version_lt(
        all[x as int].0,
        all[#[trigger] left[m] as int].0,
    ) by {
        if m > i {
            lemma_version_transitive(all[x as int].0, all[left[i] as int].0, all[left[m] as int].0);
        }
    }
    lemma_weave_push(all, left, i, right, j, out, x, i, j + 1);
}

proof fn lemma_weave_both(
    all: Seq<Item>,
    left: Seq<usize>,
    i: int,
    right: Seq<usize>,
    j: int,
    out: Seq<usize>,
)
    requires
        weaves(all, left, i, right, j, out),
        picks_ordered(all, left),
        picks_ordered(all, right),
        0 <= i < left.len(),
        0 <= j < right.len(),
        all[left[i] as int].0 == all[right[j] as int].0,
        left[i] <= right[j],
    ensures
        weaves(all, left, i + 1, right, j + 1, out.push(left[i])),
{
    assert(left.contains(left[i]));
    lemma_weave_push(all, left, i, right, j, out, left[i], i + 1, j + 1);
}

proof fn lemma_woven(
    all: Seq<Item>,
    lo: int,
    mid: int,
    hi: int,
    left: Seq<usize>,
    right: Seq<usize>,
    out: Seq<usize>,
)
    requires
        lo <= mid <= hi,
        settled(all, lo, mid, left),
        settled(all, mid, hi, right),
        weaves(all, left, left.len() as int, right, right.len() as int, out),
    ensures
        settled(all, lo, hi, out),
{
    assert forall|k: int| 0 <= k < out.len() implies lo <= #[trigger] out[k] < hi by {
        if left.contains(out[k]) {
            let m = choose|m: int| 0 <= m < left.len() && left[m] == out[k];
            assert(lo <= left[m] < mid);
        } else {
            let m = choose|m: int| 0 <= m < right.len() && right[m] == out[k];
            assert(mid <= right[m] < hi);
        }
    }
    assert forall|p: int| lo <= p < hi implies shown_by(all, out, #[trigger] all[p].0, p) by {
        let v = all[p].0;
        if p < mid {
            assert(shown_by(all, left, v, p));
            let m = choose|m: int|
                0 <= m < left.len() && all[#[trigger] left[m] as int].0 == v && left[m] <= p;
            assert(shown_by(all, out, all[left[m] as int].0, left[m] as int));
            let k = choose|k: int|
                0 <= k < out.len() && all[#[trigger] out[k] as int].0 == v && out[k] <= left[m];
            assert(all[out[k] as int].0 == v);
        } else {
            assert(shown_by(all, right, v, p));
            let m = choose|m: int|
                0 <= m < right.len() && all[#[trigger] right[m] as int].0 == v && right[m] <= p;
            assert(shown_by(all, out, all[right[m] as int].0, right[m] as int));
            let k = choose|k: int|
                0 <= k < out.len() && all[#[trigger] out[k] as int].0 == v && out[k] <= right[m];
            assert(all[out[k] as int].0 == v);
        }
    }
}

/// The settled places make up the merged map.
proof fn lemma_settled(all: Seq<Item>, ix: Seq<usize>)
    requires
        settled(all, 0, all.len() as int, ix),
    ensures
        in_order(picked(all, ix)),
        versions(picked(all, ix)) == merged(all),
{
    let run = picked(all, ix);
    assert forall|a: int, b: int| 0 <= a < b < run.len() implies version_lt(
        (#[trigger] run[a]).0,
        (#[trigger] run[b]).0,
    ) by {
        assert(version_lt(all[ix[a] as int].0, all[ix[b] as int].0));
    }
    let (m, n) = (versions(run), merged(all));
    assert forall|v: Version| #[trigger] m.dom().contains(v) == n.dom().contains(v) && (
    m.dom().contains(v) ==> m[v] == n[v]) by {
        if m.contains_key(v) {
            let k = lemma_listed(run, v);
            assert(0 <= ix[k] < all.len());
            assert(all[ix[k] as int].0 == v);
            lemma_versions(run, k);
            let p = ix[k] as int;
            assert(is_first(all, p)) by {
                assert forall|q: int| 0 <= q < p implies (#[trigger] all[q]).0 != all[p].0 by {
                    if all[q].0 == v {
                        assert(shown_by(all, ix, all[q].0, q));
                        let h = choose|h: int|
                            0 <= h < ix.len() && all[#[trigger] ix[h] as int].0 == v && ix[h] <= q;
                        lemma_version_total(v, v);
                        if h < k {
                            assert(version_lt(all[ix[h] as int].0, all[ix[k] as int].0));
                        } else if k < h {
                            assert(version_lt(all[ix[k] as int].0, all[ix[h] as int].0));
                        }
                    }
                }
            }
            assert(all[p].0 == v);
            let c = choose|c: int| is_first(all, c) && (#[trigger] all[c]).0 == v;
            assert(is_first(all, c) && all[c].0 == v);
            if c < p {
                assert(all[c].0 != all[p].0);
            } else if p < c {
                assert(all[p].0 != all[c].0);
            }
        }
        if n.contains_key(v) {
            let p = choose|p: int| 0 <= p < all.len() && (#[trigger] all[p]).0 == v;
            assert(shown_by(all, ix, all[p].0, p));
            let k = choose|k: int|
                0 <= k < ix.len() && all[#[trigger] ix[k] as int].0 == v && ix[k] <= p;
            assert(run[k].0 == v);
            assert(lists(run, v));
        }
    }
    assert(m.dom() =~= n.dom());
    assert(m =~= n);
}

/// The entries of a list that survive, in order.
spec fn sifted(
    run: Seq<Item>,
    m: Map<Version, Option<Seq<u8>>>,
    floor: u64,
    drop_tombstones: bool,
) -> Seq<Item>
    decreases run.len(),
{
    if run.len() == 0 {
        Seq::empty()
    } else {
        let less = sifted(run.drop_last(), m, floor, drop_tombstones);
        if survives(m, floor, drop_tombstones, run.last().0) {
            less.push(run.last())
        } else {
            less
        }
    }
}

/// The next entry is superseded exactly if the one before it is a version of
/// the same key at or below the floor.
proof fn lemma_sift(run: Seq<Item>, k: int, floor: u64, drop_tombstones: bool)
    requires
        in_order(run),
        0 <= k < run.len(),
    ensures
        ({
            let m = versions(run);
            let v = run[k].0;
            let dead = k > 0 && run[k - 1].0.0 == v.0 && run[k - 1].0.1 <= floor;
            let spent = !dead && drop_tombstones && run[k].1 is None && v.1 <= floor;
            &&& survives(m, floor, drop_tombstones, v) == (!dead && !spent)
            &&& reclaimed(m, floor, drop_tombstones, v) == spent
        }),
{
    let m = versions(run);
    let v = run[k].0;
    let dead = k > 0 && run[k - 1].0.0 == v.0 && run[k - 1].0.1 <= floor;
    lemma_versions(run, k);
    if dead {
        lemma_versions(run, k - 1);
        assert(version_lt(run[k - 1].0, run[k].0));
        lemma_version_total(run[k - 1].0, run[k].0);
        lemma_lex_irreflexive(v.0);
        assert(m.contains_key((v.0, run[k - 1].0.1)));
        assert(!is_newest(m, v.0, floor, v.1));
    } else if v.1 <= floor {
        assert forall|t: u64| #[trigger] m.contains_key((v.0, t)) && t <= floor implies t
            <= v.1 by {
            let q = lemma_listed(run, (v.0, t));
            lemma_lex_irreflexive(v.0);
            if q > k {
                assert(version_lt(run[k].0, run[q].0));
            } else if q < k {
                assert(version_lt(run[q].0, run[k].0));
                if q < k - 1 {
                    assert(version_lt(run[q].0, run[k - 1].0));
                    assert(version_lt(run[k - 1].0, run[k].0));
                    let (a, b) = (v.0, run[k - 1].0.0);
                    if lex_lt(a, b) && lex_lt(b, a) {
                        lemma_lex_asymmetric(a, b);
                    }
                }
            }
        }
        assert(is_newest(m, v.0, floor, v.1));
    }
}

/// Where an entry that survives stands among those that do.
proof fn lemma_sifted_has(
    run: Seq<Item>,
    k: int,
    m: Map<Version, Option<Seq<u8>>>,
    floor: u64,
    drop_tombstones: bool,
) -> (c: int)
    requires
        0 <= k < run.len(),
        survives(m, floor, drop_tombstones, run[k].0),
    ensures
        0 <= c < sifted(run, m, floor, drop_tombstones).len(),
        sifted(run, m, floor, drop_tombstones)[c] == run[k],
    decreases run.len(),
{
    let less = sifted(run.drop_last(), m, floor, drop_tombstones);
    if k == run.len() - 1 {
        less.len() as int
    } else {
        lemma_sifted_has(run.drop_last(), k, m, floor, drop_tombstones)
    }
}

/// What survives is from the list, survives, and stands in the order of the list.
proof fn lemma_sifted(
    run: Seq<Item>,
    m: Map<Version, Option<Seq<u8>>>,
    floor: u64,
    drop_tombstones: bool,
)
    requires
        in_order(run),
    ensures
        in_order(sifted(run, m, floor, drop_tombstones)),
        forall|c: int|
            0 <= c < sifted(run, m, floor, drop_tombstones).len() ==> run.contains(
                #[trigger] sifted(run, m, floor, drop_tombstones)[c],
            ) && survives(m, floor, drop_tombstones, sifted(run, m, floor, drop_tombstones)[c].0),
        sifted(run, m, floor, drop_tombstones).len() + reclaims(run, m, floor, drop_tombstones)
            <= run.len(),
    decreases run.len(),
{
    if run.len() > 0 {
        let shorter = run.drop_last();
        let (out, less) = (
            sifted(run, m, floor, drop_tombstones),
            sifted(shorter, m, floor, drop_tombstones),
        );
        assert(in_order(shorter)) by {
            assert forall|i: int, j: int| 0 <= i < j < shorter.len() implies version_lt(
                (#[trigger] shorter[i]).0,
                (#[trigger] shorter[j]).0,
            ) by {
                assert(shorter[i] == run[i] && shorter[j] == run[j]);
            }
        }
        lemma_sifted(shorter, m, floor, drop_tombstones);
        assert forall|c: int| 0 <= c < out.len() implies run.contains(#[trigger] out[c])
            && survives(m, floor, drop_tombstones, out[c].0) by {
            if c < less.len() {
                assert(out[c] == less[c]);
                let q = choose|q: int| 0 <= q < shorter.len() && shorter[q] == less[c];
                assert(run[q] == out[c]);
            } else {
                assert(run[run.len() - 1] == out[c]);
            }
        }
        assert forall|a: int, b: int| 0 <= a < b < out.len() implies version_lt(
            (#[trigger] out[a]).0,
            (#[trigger] out[b]).0,
        ) by {
            assert(out[a] == less[a]);
            if b < less.len() {
                assert(out[b] == less[b]);
            } else {
                let q = choose|q: int| 0 <= q < shorter.len() && shorter[q] == less[a];
                assert(run[q] == out[a]);
                assert(version_lt(run[q].0, run[run.len() - 1].0));
            }
        }
    }
}

/// The entries that survive make up the surviving map.
proof fn lemma_survivors(run: Seq<Item>, floor: u64, drop_tombstones: bool)
    requires
        in_order(run),
    ensures
        versions(sifted(run, versions(run), floor, drop_tombstones)) == surviving(
            versions(run),
            floor,
            drop_tombstones,
        ),
{
    let m = versions(run);
    let out = sifted(run, m, floor, drop_tombstones);
    lemma_sifted(run, m, floor, drop_tombstones);
    let (x, y) = (versions(out), surviving(m, floor, drop_tombstones));
    assert forall|v: Version| #[trigger] x.dom().contains(v) == y.dom().contains(v) && (
    x.dom().contains(v) ==> x[v] == y[v]) by {
        if x.dom().contains(v) {
            let c = lemma_listed(out, v);
            lemma_versions(out, c);
            assert(run.contains(out[c]));
            let q = choose|q: int| 0 <= q < run.len() && run[q] == out[c];
            lemma_versions(run, q);
        }
        if y.dom().contains(v) {
            let k = lemma_listed(run, v);
            let c = lemma_sifted_has(run, k, m, floor, drop_tombstones);
            lemma_versions(out, c);
        }
    }
    assert(x.dom() =~= y.dom());
    assert(x =~= y);
}

/// Merges pre-sorted entry runs into one sorted run, dropping dead versions.
///
/// Earlier runs win ties on identical `(key, seqno)`, so callers pass newer
/// levels first.
///
/// * `retain_floor` — the oldest sequence number any live snapshot can still
///   read. Versions strictly older than the newest version at-or-below this
///   floor are unobservable and are dropped.
/// * `drop_tombstones` — only ever `true` when writing the bottom-most level.
///
/// Returns the merged entries and the statistics describing what was dropped.
/// The byte count stays at the largest number once it would pass it.
pub fn merge_runs(
    runs: Vec<Vec<(InternalKey, ValueSlot)>>,
    retain_floor: u64,
    drop_tombstones: bool,
) -> (r: Result<(Vec<(InternalKey, ValueSlot)>, CompactionStats), Error>)
    ensures
        match r {
            Ok((out, stats)) => {
                let all = joined(run_items(runs@));
                let m = merged(all);
                &&& in_order(items(out@))
                &&& versions(items(out@)) == surviving(m, retain_floor, drop_tombstones)
                &&& stats.input_tables == runs@.len()
                &&& stats.entries_in == all.len()
                &&& stats.entries_out == out@.len()
                &&& stats.bytes_in == clipped(payload(all) as int)
                &&& stats.versions_dropped + stats.tombstones_dropped + stats.entries_out
                    == stats.entries_in
                &&& exists|run: Seq<Item>| #[trigger]
                    in_order(run) && versions(run) == m && stats.tombstones_dropped == reclaims(
                        run,
                        m,
                        retain_floor,
                        drop_tombstones,
                    )
            },
            Err(_) => false,
        },
{
    let (spots, bytes_in): (Vec<Spot>, u64) = list_spots(&runs);
    let ghost all = at_spots(runs@, spots@);
    let ix: Vec<usize> = settle(&runs, &spots, 0, spots.len());
    let ghost run = picked(all, ix@);
    let ghost m = versions(run);
    proof {
        lemma_settled(all, ix@);
    }
    let mut out: Vec<(InternalKey, ValueSlot)> = Vec::new();
    let mut reclaimed_count: usize = 0;
    let mut k: usize = 0;
    assert(items(out@) =~= sifted(run.subrange(0, 0), m, retain_floor, drop_tombstones));
    while k < ix.len()
        invariant
            k <= ix@.len(),
            spots_ok(runs@, spots@),
            all == at_spots(runs@, spots@),
            settled(all, 0, all.len() as int, ix@),
            run == picked(all, ix@),
            in_order(run),
            m == versions(run),
            items(out@) == sifted(
                run.subrange(0, k as int),
                m,
                retain_floor,
                drop_tombstones,
            ),
            reclaimed_count == reclaims(
                run.subrange(0, k as int),
                m,
                retain_floor,
                drop_tombstones,
            ),
            reclaimed_count <= k,
        decreases ix@.len() - k,
    {
        let ghost was = items(out@);
        let ghost e = run[k as int];
        assert(0 <= ix@[k as int] < all.len());
        let spot: Spot = spots[ix[k]];
        let ghost upto = run.subrange(0, k + 1);
        assert(upto.drop_last() =~= run.subrange(0, k as int));
        assert(upto.last() == e);
        assert(e == all[ix@[k as int] as int]);
        let mut dead: bool = false;
        if k > 0 {
            assert(0 <= ix@[k - 1] < all.len());
            assert(run[k - 1] == all[ix@[k - 1] as int]);
            let last: Spot = spots[ix[k - 1]];
            dead = runs[last.0][last.1].0.seqno <= retain_floor && same(
                runs[last.0][last.1].0.user_key.as_slice(),
                runs[spot.0][spot.1].0.user_key.as_slice(),
            );
        }
        proof {
            lemma_sift(run, k as int, retain_floor, drop_tombstones);
        }
        if !dead {
            let seqno: u64 = runs[spot.0][spot.1].0.seqno;
            if runs[spot.0][spot.1].1.is_none() && drop_tombstones && seqno <= retain_floor {
                reclaimed_count += 1;
            } else {
                let key: InternalKey = InternalKey::new(
                    copy_bytes(runs[spot.0][spot.1].0.user_key.as_slice()),
                    seqno,
                );
                let slot: ValueSlot = copy_slot(&runs[spot.0][spot.1].1);
                out.push((key, slot));
                assert(items(out@) =~= was.push(e));
            }
        }
        k += 1;
    }
    proof {
        assert(run.subrange(0, k as int) =~= run);
        lemma_sifted(run, m, retain_floor, drop_tombstones);
        lemma_survivors(run, retain_floor, drop_tombstones);
    }
    let entries_in: u64 = spots.len() as u64;
    let entries_out: u64 = out.len() as u64;
    let tombstones_dropped: u64 = reclaimed_count as u64;
    assert(items(out@).len() == out@.len());
    let stats: CompactionStats = CompactionStats {
        input_tables: runs.len(),
        entries_in,
        entries_out,
        versions_dropped: entries_in - entries_out - tombstones_dropped,
        tombstones_dropped,
        bytes_in,
    };
    Ok((out, stats))
}

/// A merge changes nothing that a snapshot at or above the floor can read:
/// without dropping tombstones it sees the same version of every key, and with
/// it the same value, or none where it saw a tombstone.
pub proof fn law_merge_keeps_reads(
    m: Map<Version, Option<Seq<u8>>>,
    floor: u64,
    drop_tombstones: bool,
    key: Seq<u8>,
    snapshot: u64,
)
    requires
        snapshot >= floor,
    ensures
        ({
            let before = seen(m, key, snapshot);
            let after = seen(surviving(m, floor, drop_tombstones), key, snapshot);
            after == before || (drop_tombstones && before == Some(None::<Seq<u8>>) && after
                is None)
        }),
{
    let n = surviving(m, floor, drop_tombstones);
    if exists|s: u64| is_newest(m, key, snapshot, s) {
        let s = choose|s: u64| is_newest(m, key, snapshot, s);
        lemma_seen(m, key, snapshot, s);
        let v = (key, s);
        if s <= floor {
            assert(is_newest(m, key, floor, s)) by {
                assert forall|t: u64| #[trigger] m.contains_key((key, t)) && t <= floor implies t
                    <= s by {}
            }
        }
        if survives(m, floor, drop_tombstones, v) {
            assert(n.contains_key(v));
            assert(is_newest(n, key, snapshot, s)) by {
                assert forall|t: u64| #[trigger] n.contains_key((key, t)) && t
                    <= snapshot implies t <= s by {
                    assert(m.contains_key((key, t)));
                }
            }
            lemma_seen(n, key, snapshot, s);
        } else {
            assert(reclaimed(m, floor, drop_tombstones, v));
            if exists|t: u64| is_newest(n, key, snapshot, t) {
                let t = choose|t: u64| is_newest(n, key, snapshot, t);
                assert(n.contains_key((key, t)));
                assert(m.contains_key((key, t)));
                assert(t <= s);
                assert(survives(m, floor, drop_tombstones, (key, t)));
                assert(m.contains_key((key, s)));
                assert(is_newest(m, key, floor, t));
                assert(t == s);
            }
        }
    } else {
        if exists|t: u64| is_newest(n, key, snapshot, t) {
            let t = choose|t: u64| is_newest(n, key, snapshot, t);
            assert(m.contains_key((key, t)));
            lemma_newest_exists(m, key, snapshot, t);
        }
    }
}

/// Where a snapshot sees a version of a key there is a newest one.
pub proof fn lemma_newest_exists(
    m: Map<Version, Option<Seq<u8>>>,
    key: Seq<u8>,
    snapshot: u64,
    t: u64,
) -> (s: u64)
    requires
        m.contains_key((key, t)),
        t <= snapshot,
    ensures
        is_newest(m, key, snapshot, s),
    decreases snapshot - t,
{
    if is_newest(m, key, snapshot, t) {
        t
    } else {
        let u = choose|u: u64| #[trigger] m.contains_key((key, u)) && u <= snapshot && u > t;
        lemma_newest_exists(m, key, snapshot, u)
    }
}

} // verus!

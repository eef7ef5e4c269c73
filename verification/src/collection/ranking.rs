//! Rankings: bringing two of them together by id, and putting scored ids in
//! order. Scores are the bits of `f32` numbers.

use crate::bytes::{
    copy_bytes, lemma_lex_asymmetric, lemma_lex_irreflexive, lemma_lex_total, lemma_lex_transitive,
    lex_le, lex_lt, order, same, Order,
};
use crate::ordered::byte_lists;
use vstd::prelude::*;
use vstd::relations::{antisymmetric, sorted_by, strongly_connected, transitive};
use vstd::seq_lib::{
    lemma_sorted_unique, to_multiset_build, to_multiset_contains, to_multiset_remove,
};
use vstd::set_lib::{lemma_int_range, lemma_len_subset, set_int_range};

verus! {

/// An id with a score.
#[derive(Debug)]
pub struct Scored {
    /// Document id.
    pub id: Vec<u8>,
    /// The bits of the score.
    pub score: u32,
}

impl View for Scored {
    type V = (Seq<u8>, u32);

    open spec fn view(&self) -> (Seq<u8>, u32) {
        (self.id@, self.score)
    }
}

/// Ids with their scores.
pub open spec fn scores(v: Seq<Scored>) -> Seq<(Seq<u8>, u32)> {
    Seq::new(v.len(), |i: int| v[i]@)
}

/// Where a number stands among all, by its bits: those with the sign bit lie
/// below the others and descend.
pub open spec fn height(bits: u32) -> int {
    if bits < 0x8000_0000 {
        bits as int
    } else {
        0x7FFF_FFFF - bits
    }
}

/// The first stands no lower: its score is higher, or it is the same and its id
/// does not come later.
pub open spec fn no_lower(a: (Seq<u8>, u32), b: (Seq<u8>, u32)) -> bool {
    height(a.1) > height(b.1) || height(a.1) == height(b.1) && lex_le(a.0, b.0)
}

/// The places from `lo` on and below `hi`, each once.
pub open spec fn places(ix: Seq<usize>, lo: int, hi: int) -> bool {
    &&& ix.len() == hi - lo
    &&& ix.no_duplicates()
    &&& forall|k: int| 0 <= k < ix.len() ==> lo <= #[trigger] ix[k] < hi
}

/// The places are listed best first.
pub open spec fn descends(list: Seq<(Seq<u8>, u32)>, ix: Seq<usize>) -> bool {
    forall|a: int, b: int|
        0 <= a < b < ix.len() ==> no_lower(
            list[#[trigger] ix[a] as int],
            list[#[trigger] ix[b] as int],
        )
}

/// `out` is the list in order, cut off after `n`.
pub open spec fn best(
    list: Seq<(Seq<u8>, u32)>,
    n: int,
    ix: Seq<usize>,
    out: Seq<(Seq<u8>, u32)>,
) -> bool {
    &&& places(ix, 0, list.len() as int)
    &&& descends(list, ix)
    &&& out.len() == if n < list.len() {
        n
    } else {
        list.len() as int
    }
    &&& forall|i: int| 0 <= i < out.len() ==> out[i] == list[#[trigger] ix[i] as int]
}

fn height_of(bits: u32) -> (h: i64)
    ensures
        h == height(bits),
{
    if bits < 0x8000_0000 {
        bits as i64
    } else {
        0x7FFF_FFFF - bits as i64
    }
}

fn stands_no_lower(a: &Scored, b: &Scored) -> (r: bool)
    ensures
        r == no_lower(a@, b@),
{
    let x: i64 = height_of(a.score);
    let y: i64 = height_of(b.score);
    if x != y {
        return x > y;
    }
    proof {
        lemma_lex_total(a.id@, b.id@);
        lemma_lex_irreflexive(a.id@);
        if lex_lt(b.id@, a.id@) {
            lemma_lex_asymmetric(b.id@, a.id@);
        }
    }
    match order(a.id.as_slice(), b.id.as_slice()) {
        Order::Greater => false,
        _ => true,
    }
}

proof fn lemma_no_lower_transitive(a: (Seq<u8>, u32), b: (Seq<u8>, u32), c: (Seq<u8>, u32))
    requires
        no_lower(a, b),
        no_lower(b, c),
    ensures
        no_lower(a, c),
{
    if height(a.1) == height(b.1) && height(b.1) == height(c.1) && a.0 != b.0 && b.0 != c.0 {
        lemma_lex_transitive(a.0, b.0, c.0);
    }
}

proof fn lemma_no_lower_total(a: (Seq<u8>, u32), b: (Seq<u8>, u32))
    ensures
        no_lower(a, b) || no_lower(b, a),
{
    lemma_lex_total(a.0, b.0);
}

/// `out` is the merge of the first `i` of one list and the first `j` of
/// another, and nothing that is left of them stands higher.
spec fn woven(
    list: Seq<(Seq<u8>, u32)>,
    left: Seq<usize>,
    i: int,
    right: Seq<usize>,
    j: int,
    out: Seq<usize>,
) -> bool {
    &&& out.len() == i + j
    &&& out.no_duplicates()
    &&& descends(list, out)
    &&& forall|k: int|
        0 <= k < out.len() ==> left.take(i).contains(#[trigger] out[k]) || right.take(j).contains(
            out[k],
        )
    &&& forall|k: int, m: int|
        0 <= k < out.len() && i <= m < left.len() ==> no_lower(
            list[#[trigger] out[k] as int],
            list[#[trigger] left[m] as int],
        )
    &&& forall|k: int, m: int|
        0 <= k < out.len() && j <= m < right.len() ==> no_lower(
            list[#[trigger] out[k] as int],
            list[#[trigger] right[m] as int],
        )
}

/// One more from the left.
proof fn lemma_weave(
    list: Seq<(Seq<u8>, u32)>,
    left: Seq<usize>,
    i: int,
    right: Seq<usize>,
    j: int,
    out: Seq<usize>,
)
    requires
        woven(list, left, i, right, j, out),
        0 <= i < left.len(),
        0 <= j <= right.len(),
        left.no_duplicates(),
        forall|m: int| 0 <= m < right.len() ==> #[trigger] right[m] != left[i],
        descends(list, left),
        descends(list, right),
        j < right.len() ==> no_lower(list[left[i] as int], list[right[j] as int]),
    ensures
        woven(list, left, i + 1, right, j, out.push(left[i])),
{
    let now = out.push(left[i]);
    let x = left[i];
    assert forall|k: int| 0 <= k < out.len() implies #[trigger] out[k] != x by {
        if left.take(i).contains(out[k]) {
            let m = choose|m: int| 0 <= m < left.take(i).len() && left.take(i)[m] == out[k];
            assert(left[m] != left[i]);
        } else {
            let m = choose|m: int| 0 <= m < right.take(j).len() && right.take(j)[m] == out[k];
            assert(right[m] != left[i]);
        }
    }
    assert(now.no_duplicates());
    assert forall|k: int| 0 <= k < now.len() implies left.take(i + 1).contains(#[trigger] now[k])
        || right.take(j).contains(now[k]) by {
        if k < out.len() {
            assert(now[k] == out[k]);
            if left.take(i).contains(out[k]) {
                let m = choose|m: int| 0 <= m < left.take(i).len() && left.take(i)[m] == out[k];
                assert(left.take(i + 1)[m] == out[k]);
            }
        } else {
            assert(left.take(i + 1)[i] == x);
        }
    }
    assert forall|a: int, b: int| 0 <= a < b < now.len() implies no_lower(
        list[#[trigger] now[a] as int],
        list[#[trigger] now[b] as int],
    ) by {
        assert(now[a] == out[a]);
        if b < out.len() {
            assert(now[b] == out[b]);
        }
    }
    assert forall|k: int, m: int| 0 <= k < now.len() && i + 1 <= m < left.len() implies no_lower(
        list[#[trigger] now[k] as int],
        list[#[trigger] left[m] as int],
    ) by {
        if k < out.len() {
            assert(now[k] == out[k]);
        } else {
            assert(no_lower(list[left[i] as int], list[left[m] as int]));
        }
    }
    assert forall|k: int, m: int| 0 <= k < now.len() && j <= m < right.len() implies no_lower(
        list[#[trigger] now[k] as int],
        list[#[trigger] right[m] as int],
    ) by {
        if k < out.len() {
            assert(now[k] == out[k]);
        } else if m > j {
            assert(no_lower(list[right[j] as int], list[right[m] as int]));
            lemma_no_lower_transitive(
                list[x as int],
                list[right[j] as int],
                list[right[m] as int],
            );
        }
    }
}

/// Two lists are interchangeable in a merge.
proof fn lemma_swapped(
    list: Seq<(Seq<u8>, u32)>,
    left: Seq<usize>,
    i: int,
    right: Seq<usize>,
    j: int,
    out: Seq<usize>,
)
    requires
        woven(list, left, i, right, j, out),
    ensures
        woven(list, right, j, left, i, out),
{
}

/// The places from `lo` on and below `hi`, best first.
fn sort_places(list: &Vec<Scored>, lo: usize, hi: usize) -> (ix: Vec<usize>)
    requires
        lo <= hi <= list@.len(),
    ensures
        places(ix@, lo as int, hi as int),
        descends(scores(list@), ix@),
    decreases hi - lo,
{
    let ghost all = scores(list@);
    let mut out: Vec<usize> = Vec::new();
    if hi - lo <= 1 {
        if lo < hi {
            out.push(lo);
        }
        return out;
    }
    let mid: usize = lo + (hi - lo) / 2;
    let left: Vec<usize> = sort_places(list, lo, mid);
    let right: Vec<usize> = sort_places(list, mid, hi);
    let mut i: usize = 0;
    let mut j: usize = 0;
    while i < left.len() || j < right.len()
        invariant
            lo <= mid <= hi <= list@.len(),
            all == scores(list@),
            places(left@, lo as int, mid as int),
            places(right@, mid as int, hi as int),
            descends(all, left@),
            descends(all, right@),
            i <= left@.len(),
            j <= right@.len(),
            woven(all, left@, i as int, right@, j as int, out@),
        decreases left@.len() - i + right@.len() - j,
    {
        let ghost was = out@;
        let first: bool = if i >= left.len() {
            false
        } else if j >= right.len() {
            true
        } else {
            assert(lo <= left@[i as int] < mid);
            assert(mid <= right@[j as int] < hi);
            proof {
                lemma_no_lower_total(all[left@[i as int] as int], all[right@[j as int] as int]);
            }
            stands_no_lower(&list[left[i]], &list[right[j]])
        };
        if first {
            proof {
                assert forall|m: int| 0 <= m < right@.len() implies #[trigger] right@[m]
                    != left@[i as int] by {
                    assert(left@[i as int] < mid);
                }
                lemma_weave(all, left@, i as int, right@, j as int, was);
            }
            out.push(left[i]);
            i += 1;
        } else {
            proof {
                assert forall|m: int| 0 <= m < left@.len() implies #[trigger] left@[m]
                    != right@[j as int] by {
                    assert(right@[j as int] >= mid);
                }
                lemma_swapped(all, left@, i as int, right@, j as int, was);
                lemma_weave(all, right@, j as int, left@, i as int, was);
                lemma_swapped(
                    all,
                    right@,
                    j + 1,
                    left@,
                    i as int,
                    was.push(right@[j as int]),
                );
            }
            out.push(right[j]);
            j += 1;
        }
    }
    proof {
        assert forall|k: int| 0 <= k < out@.len() implies lo <= #[trigger] out@[k] < hi by {
            if left@.take(i as int).contains(out@[k]) {
                let m = choose|m: int|
                    0 <= m < left@.take(i as int).len() && left@.take(i as int)[m] == out@[k];
                assert(left@[m] == out@[k]);
            } else {
                let m = choose|m: int|
                    0 <= m < right@.take(j as int).len() && right@.take(j as int)[m] == out@[k];
                assert(right@[m] == out@[k]);
            }
        }
    }
    out
}

/// The `n` best of a list: higher scores first, and ids in order where scores
/// are equal.
pub fn best_first(list: &Vec<Scored>, n: usize) -> (out: Vec<Scored>)
    ensures
        exists|ix: Seq<usize>| #[trigger] best(scores(list@), n as int, ix, scores(out@)),
{
    let ghost all = scores(list@);
    let ix: Vec<usize> = sort_places(list, 0, list.len());
    let mut out: Vec<Scored> = Vec::new();
    let mut k: usize = 0;
    while k < ix.len() && k < n
        invariant
            k <= ix@.len(),
            k <= n,
            all == scores(list@),
            places(ix@, 0, list@.len() as int),
            out@.len() == k,
            forall|i: int| 0 <= i < k ==> scores(out@)[i] == all[#[trigger] ix@[i] as int],
        decreases ix@.len() - k,
    {
        let ghost was = scores(out@);
        let at: usize = ix[k];
        out.push(Scored { id: copy_bytes(list[at].id.as_slice()), score: list[at].score });
        assert forall|i: int| 0 <= i < k + 1 implies scores(out@)[i] == all[
            #[trigger] ix@[i] as int
        ] by {
            if i < k {
                assert(scores(out@)[i] == was[i]);
            }
        }
        k += 1;
    }
    assert(best(all, n as int, ix@, scores(out@)));
    out
}

/// Lists of all places below `n` hold each of them.
proof fn lemma_holds_last(ix: Seq<usize>, n: int) -> (p: int)
    requires
        places(ix, 0, n),
        n > 0,
    ensures
        0 <= p < n,
        ix[p] == n - 1,
{
    let some = ix.map_values(|x: usize| x as int);
    let found = exists|p: int| 0 <= p < n && #[trigger] ix[p] == n - 1;
    if !found {
        let below = set_int_range(0, n - 1);
        lemma_int_range(0, n - 1);
        assert(some.no_duplicates()) by {
            assert forall|i: int, j: int| 0 <= i < j < some.len() implies some[i] != some[j] by {
                assert(ix[i] != ix[j]);
            }
        }
        some.unique_seq_to_set();
        assert(some.to_set().subset_of(below)) by {
            assert forall|x: int| some.to_set().contains(x) implies below.contains(x) by {
                let k = choose|k: int| 0 <= k < some.len() && some[k] == x;
                assert(some[k] == ix[k]);
            }
        }
        lemma_len_subset(some.to_set(), below);
    }
    choose|p: int| 0 <= p < n && #[trigger] ix[p] == n - 1
}

/// Listing the places in another order does not change what is listed.
proof fn lemma_same_entries(list: Seq<(Seq<u8>, u32)>, ix: Seq<usize>)
    requires
        places(ix, 0, list.len() as int),
    ensures
        Seq::new(ix.len(), |i: int| list[ix[i] as int]).to_multiset() == list.to_multiset(),
    decreases list.len(),
{
    let all = Seq::new(ix.len(), |i: int| list[ix[i] as int]);
    if list.len() == 0 {
        assert(all =~= list);
    } else {
        let n = list.len() as int;
        let p = lemma_holds_last(ix, n);
        let less = list.drop_last();
        let rest = ix.remove(p);
        assert forall|k: int| 0 <= k < rest.len() implies 0 <= #[trigger] rest[k] < n - 1 by {
            let at = if k < p {
                k
            } else {
                k + 1
            };
            assert(rest[k] == ix[at]);
            assert(ix[at] != ix[p]);
        }
        assert(rest.no_duplicates()) by {
            assert forall|i: int, j: int| 0 <= i < j < rest.len() implies rest[i] != rest[j] by {
                let a = if i < p {
                    i
                } else {
                    i + 1
                };
                let b = if j < p {
                    j
                } else {
                    j + 1
                };
                assert(rest[i] == ix[a] && rest[j] == ix[b]);
            }
        }
        lemma_same_entries(less, rest);
        let some = Seq::new(rest.len(), |i: int| less[rest[i] as int]);
        assert forall|i: int| 0 <= i < some.len() implies some[i] == #[trigger] all.remove(p)[i] by {
            assert(0 <= rest[i] < n - 1);
        }
        assert(some =~= all.remove(p));
        to_multiset_remove(all, p);
        to_multiset_build(less, list.last());
        assert(list =~= less.push(list.last()));
        assert(all[p] == list.last());
        to_multiset_contains(all, all[p]);
        assert(all.contains(all[p]));
        assert(all.to_multiset() =~= list.to_multiset());
    }
}

/// A list has one ranking: in whatever way its places are put in order, the same
/// entries come out, and in the same order.
pub proof fn law_rankings_are_unique(
    list: Seq<(Seq<u8>, u32)>,
    n: int,
    a: Seq<usize>,
    out: Seq<(Seq<u8>, u32)>,
    b: Seq<usize>,
    again: Seq<(Seq<u8>, u32)>,
)
    requires
        best(list, n, a, out),
        best(list, n, b, again),
    ensures
        out == again,
{
    let leq = |x: (Seq<u8>, u32), y: (Seq<u8>, u32)| no_lower(x, y);
    let first = Seq::new(a.len(), |i: int| list[a[i] as int]);
    let second = Seq::new(b.len(), |i: int| list[b[i] as int]);
    lemma_same_entries(list, a);
    lemma_same_entries(list, b);
    assert(antisymmetric(leq)) by {
        assert forall|x: (Seq<u8>, u32), y: (Seq<u8>, u32)| #[trigger]
            leq(x, y) && #[trigger] leq(y, x) implies x == y by {
            if x.0 != y.0 {
                lemma_lex_asymmetric(x.0, y.0);
            }
        }
    }
    assert(transitive(leq)) by {
        assert forall|x: (Seq<u8>, u32), y: (Seq<u8>, u32), z: (Seq<u8>, u32)| #[trigger]
            leq(x, y) && #[trigger] leq(y, z) implies leq(x, z) by {
            lemma_no_lower_transitive(x, y, z);
        }
    }
    assert(strongly_connected(leq)) by {
        assert forall|x: (Seq<u8>, u32), y: (Seq<u8>, u32)| #[trigger] leq(x, y) || #[trigger] leq(
            y,
            x,
        ) by {
            lemma_no_lower_total(x, y);
        }
    }
    assert(sorted_by(first, leq));
    assert(sorted_by(second, leq));
    lemma_sorted_unique(first, second, leq);
    assert forall|i: int| 0 <= i < out.len() implies out[i] == again[i] by {
        assert(out[i] == list[a[i] as int]);
        assert(again[i] == list[b[i] as int]);
        assert(first[i] == second[i]);
    }
    assert(out =~= again);
}

/// An id of two rankings, with its place in each.
#[derive(Debug)]
pub struct Merged {
    /// Document id.
    pub id: Vec<u8>,
    /// Place among the vector hits.
    pub vector: Option<usize>,
    /// Place among the text hits.
    pub text: Option<usize>,
}

/// The last place of an id in a list.
pub open spec fn last_in(v: Seq<Seq<u8>>, id: Seq<u8>) -> Option<usize>
    decreases v.len(),
{
    if v.len() == 0 {
        None
    } else if v.last() == id {
        Some((v.len() - 1) as usize)
    } else {
        last_in(v.drop_last(), id)
    }
}

/// Each id of one of the lists, once, with its place in each.
pub open spec fn merges(v: Seq<Seq<u8>>, t: Seq<Seq<u8>>, out: Seq<Merged>) -> bool {
    &&& forall|k: int|
        0 <= k < out.len() ==> (#[trigger] out[k]).vector == last_in(v, out[k].id@) && out[k].text
            == last_in(t, out[k].id@) && (v.contains(out[k].id@) || t.contains(out[k].id@))
    &&& forall|a: int, b: int|
        0 <= a < b < out.len() ==> (#[trigger] out[a]).id@ != (#[trigger] out[b]).id@
    &&& forall|id: Seq<u8>|
        v.contains(id) || t.contains(id) ==> exists|k: int|
            0 <= k < out.len() && (#[trigger] out[k]).id@ == id
}

/// The place that is found is the last one.
pub(crate) proof fn lemma_last_in(v: Seq<Seq<u8>>, id: Seq<u8>)
    requires
        v.len() <= usize::MAX,
    ensures
        match last_in(v, id) {
            Some(p) => p < v.len() && v[p as int] == id && forall|i: int|
                p < i < v.len() ==> #[trigger] v[i] != id,
            None => forall|i: int| 0 <= i < v.len() ==> #[trigger] v[i] != id,
        },
        last_in(v, id) is Some <==> v.contains(id),
    decreases v.len(),
{
    if v.len() > 0 {
        let less = v.drop_last();
        lemma_last_in(less, id);
        if v.last() == id {
            assert(v[v.len() - 1] == id);
        } else {
            assert forall|i: int| 0 <= i < less.len() implies v[i] == #[trigger] less[i] by {}
            if less.contains(id) {
                let i = choose|i: int| 0 <= i < less.len() && less[i] == id;
                assert(v[i] == id);
            }
            match last_in(less, id) {
                Some(p) => {
                    assert(less[p as int] == v[p as int]);
                    assert forall|i: int| p < i < v.len() implies #[trigger] v[i] != id by {
                        if i < less.len() {
                            assert(less[i] != id);
                        }
                    }
                },
                None => {
                    assert forall|i: int| 0 <= i < v.len() implies #[trigger] v[i] != id by {
                        if i < less.len() {
                            assert(less[i] != id);
                        }
                    }
                },
            }
        }
    }
}

fn find_last(v: &Vec<Vec<u8>>, id: &[u8]) -> (r: Option<usize>)
    ensures
        r == last_in(byte_lists(v@), id@),
{
    let ghost all = byte_lists(v@);
    let mut n: usize = v.len();
    assert(all.take(n as int) =~= all);
    while n > 0
        invariant
            n <= v@.len(),
            all == byte_lists(v@),
            last_in(all, id@) == last_in(all.take(n as int), id@),
        decreases n,
    {
        assert(all.take(n as int).last() == v@[n - 1]@);
        assert(all.take(n as int).drop_last() =~= all.take(n - 1));
        if same(v[n - 1].as_slice(), id) {
            return Some(n - 1);
        }
        n -= 1;
    }
    None
}

/// What the first `i` of one list and the first `j` of another have given.
spec fn merged_so_far(
    v: Seq<Seq<u8>>,
    t: Seq<Seq<u8>>,
    i: int,
    j: int,
    out: Seq<Merged>,
) -> bool {
    &&& forall|k: int|
        0 <= k < out.len() ==> (#[trigger] out[k]).vector == last_in(v, out[k].id@) && out[k].text
            == last_in(t, out[k].id@) && match last_in(v, out[k].id@) {
            Some(p) => p < i,
            None => match last_in(t, out[k].id@) {
                Some(q) => q < j,
                None => false,
            },
        }
    &&& forall|a: int, b: int|
        0 <= a < b < out.len() ==> (#[trigger] out[a]).id@ != (#[trigger] out[b]).id@
    &&& forall|id: Seq<u8>| #[trigger]
        given(v, t, i, j, id) ==> exists|k: int|
            0 <= k < out.len() && (#[trigger] out[k]).id@ == id
}

/// The id stands for the last time in what was looked at.
spec fn given(v: Seq<Seq<u8>>, t: Seq<Seq<u8>>, i: int, j: int, id: Seq<u8>) -> bool {
    match last_in(v, id) {
        Some(p) => p < i,
        None => match last_in(t, id) {
            Some(q) => q < j,
            None => false,
        },
    }
}

/// One more id.
proof fn lemma_given(
    v: Seq<Seq<u8>>,
    t: Seq<Seq<u8>>,
    i: int,
    j: int,
    ni: int,
    nj: int,
    out: Seq<Merged>,
    m: Merged,
)
    requires
        merged_so_far(v, t, i, j, out),
        m.vector == last_in(v, m.id@),
        m.text == last_in(t, m.id@),
        !given(v, t, i, j, m.id@),
        given(v, t, ni, nj, m.id@),
        i <= ni,
        j <= nj,
        forall|id: Seq<u8>| #[trigger]
            given(v, t, ni, nj, id) ==> given(v, t, i, j, id) || id == m.id@,
    ensures
        merged_so_far(v, t, ni, nj, out.push(m)),
{
    let now = out.push(m);
    assert forall|k: int| 0 <= k < out.len() implies (#[trigger] out[k]).id@ != m.id@ by {
        assert(given(v, t, i, j, out[k].id@));
    }
    assert forall|id: Seq<u8>| #[trigger] given(v, t, ni, nj, id) implies exists|k: int|
        0 <= k < now.len() && (#[trigger] now[k]).id@ == id by {
        if given(v, t, i, j, id) {
            let k = choose|k: int| 0 <= k < out.len() && (#[trigger] out[k]).id@ == id;
            assert(now[k].id@ == id);
        } else {
            assert(now[out.len() as int].id@ == id);
        }
    }
}

/// Brings two rankings together: each id once, with its place in each.
pub fn merge_rankings(vector: &Vec<Vec<u8>>, text: &Vec<Vec<u8>>) -> (out: Vec<Merged>)
    ensures
        merges(byte_lists(vector@), byte_lists(text@), out@),
{
    let ghost v = byte_lists(vector@);
    let ghost t = byte_lists(text@);
    let mut out: Vec<Merged> = Vec::new();
    let mut i: usize = 0;
    while i < vector.len()
        invariant
            i <= vector@.len(),
            v == byte_lists(vector@),
            t == byte_lists(text@),
            merged_so_far(v, t, i as int, 0, out@),
        decreases vector@.len() - i,
    {
        let id: &[u8] = vector[i].as_slice();
        let place: Option<usize> = find_last(vector, id);
        let ghost was = out@;
        proof {
            lemma_last_in(v, id@);
            assert(v[i as int] == id@);
        }
        let last: bool = match place {
            Some(p) => p == i,
            None => false,
        };
        if last {
            let m: Merged = Merged {
                id: copy_bytes(id),
                vector: place,
                text: find_last(text, id),
            };
            let ghost one = m;
            out.push(m);
            proof {
                assert forall|other: Seq<u8>| #[trigger]
                    given(v, t, i + 1, 0, other) implies given(v, t, i as int, 0, other) || other
                    == id@ by {
                    lemma_last_in(v, other);
                }
                lemma_given(v, t, i as int, 0, i + 1, 0, was, one);
            }
        } else {
            assert forall|other: Seq<u8>| #[trigger] given(v, t, i + 1, 0, other) implies given(
                v,
                t,
                i as int,
                0,
                other,
            ) by {
                lemma_last_in(v, other);
            }
        }
        i += 1;
    }
    let mut j: usize = 0;
    while j < text.len()
        invariant
            i == vector@.len(),
            j <= text@.len(),
            v == byte_lists(vector@),
            t == byte_lists(text@),
            merged_so_far(v, t, i as int, j as int, out@),
        decreases text@.len() - j,
    {
        let id: &[u8] = text[j].as_slice();
        let place: Option<usize> = find_last(text, id);
        let before: Option<usize> = find_last(vector, id);
        let ghost was = out@;
        proof {
            lemma_last_in(v, id@);
            lemma_last_in(t, id@);
            assert(t[j as int] == id@);
        }
        let last: bool = match place {
            Some(p) => p == j && before.is_none(),
            None => false,
        };
        if last {
            let m: Merged = Merged { id: copy_bytes(id), vector: None, text: place };
            let ghost one = m;
            out.push(m);
            proof {
                assert forall|other: Seq<u8>| #[trigger]
                    given(v, t, i as int, j + 1, other) implies given(
                    v,
                    t,
                    i as int,
                    j as int,
                    other,
                ) || other == id@ by {
                    lemma_last_in(t, other);
                }
                lemma_given(v, t, i as int, j as int, i as int, j + 1, was, one);
            }
        } else {
            assert forall|other: Seq<u8>| #[trigger]
                given(v, t, i as int, j + 1, other) implies given(
                v,
                t,
                i as int,
                j as int,
                other,
            ) by {
                lemma_last_in(t, other);
            }
        }
        j += 1;
    }
    proof {
        assert forall|k: int| 0 <= k < out@.len() implies v.contains((#[trigger] out@[k]).id@)
            || t.contains(out@[k].id@) by {
            lemma_last_in(v, out@[k].id@);
            lemma_last_in(t, out@[k].id@);
        }
        assert forall|id: Seq<u8>| v.contains(id) || t.contains(id) implies exists|k: int|
            0 <= k < out@.len() && (#[trigger] out@[k]).id@ == id by {
            lemma_last_in(v, id);
            lemma_last_in(t, id);
            assert(given(v, t, i as int, j as int, id));
        }
    }
    out
}

} // verus!

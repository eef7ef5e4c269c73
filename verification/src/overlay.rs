//! In-memory versions over the pairs of the tree, in key order.

use crate::btree::scan::{lower_ok, pairs, sorted, upper_ok, Bound, Entry};
use crate::bytes::{
    copy_bytes, lemma_lex_asymmetric, lemma_lex_irreflexive, lemma_lex_total,
    lemma_lex_transitive, lex_le, lex_lt, order, Order,
};
use crate::lsm::memtable::{collapse, copy_slot, shown, views};
use crate::lsm::version::{seen, slot_of, ValueSlot};
use crate::txn::{own_list, sees, Says, VersionStore};
use crate::error::{Error, Result};
use vstd::prelude::*;

verus! {

/// Keys with what they are given.
pub type Layer = Seq<(Seq<u8>, Says)>;

/// Keys strictly ascend.
pub open spec fn keys_up(l: Layer) -> bool {
    forall|i: int, j: int| 0 <= i < j < l.len() ==> lex_lt((#[trigger] l[i]).0, (#[trigger] l[j]).0)
}

/// Whether a key is listed.
pub open spec fn knows(l: Layer, k: Seq<u8>) -> bool {
    exists|i: int| 0 <= i < l.len() && (#[trigger] l[i]).0 == k
}

/// What a list says of a key.
pub open spec fn got(l: Layer, k: Seq<u8>) -> Option<Says> {
    if knows(l, k) {
        Some(l[choose|i: int| 0 <= i < l.len() && (#[trigger] l[i]).0 == k].1)
    } else {
        None
    }
}

/// `k` is inside a range.
pub open spec fn within(lo: Bound, hi: Bound, k: Seq<u8>) -> bool {
    lower_ok(lo, k) && upper_ok(hi, k)
}

/// `l` lists, in key order, every key of a range of which `f` says something.
pub open spec fn overlays(
    f: spec_fn(Seq<u8>) -> Option<Says>,
    lo: Bound,
    hi: Bound,
    l: Layer,
) -> bool {
    &&& keys_up(l)
    &&& forall|k: Seq<u8>| #[trigger]
        got(l, k) == if within(lo, hi, k) {
            f(k)
        } else {
            None
        }
}

/// A listed key has one place.
pub proof fn lemma_got(l: Layer, i: int)
    requires
        keys_up(l),
        0 <= i < l.len(),
    ensures
        knows(l, l[i].0),
        got(l, l[i].0) == Some(l[i].1),
{
    let k = l[i].0;
    let j = choose|j: int| 0 <= j < l.len() && (#[trigger] l[j]).0 == k;
    assert(l[i].0 == k);
    lemma_lex_irreflexive(k);
    if i < j {
        assert(lex_lt(l[i].0, l[j].0));
    } else if j < i {
        assert(lex_lt(l[j].0, l[i].0));
    }
}

/// Whether a key is inside a range.
pub fn inside(key: &[u8], lo: &Bound, hi: &Bound) -> (r: bool)
    ensures
        r == within(*lo, *hi, key@),
{
    let low: bool = match lo {
        Bound::Unbounded => true,
        Bound::Included(b) => {
            let o: Order = order(b.as_slice(), key);
            proof {
                lemma_lex_total(b@, key@);
                if lex_lt(b@, key@) {
                    lemma_lex_asymmetric(b@, key@);
                }
                lemma_lex_irreflexive(key@);
            }
            o != Order::Greater
        },
        Bound::Excluded(b) => {
            let o: Order = order(b.as_slice(), key);
            proof {
                lemma_lex_irreflexive(key@);
            }
            o == Order::Less
        },
    };
    let high: bool = match hi {
        Bound::Unbounded => true,
        Bound::Included(b) => {
            let o: Order = order(key, b.as_slice());
            proof {
                lemma_lex_total(key@, b@);
                if lex_lt(key@, b@) {
                    lemma_lex_asymmetric(key@, b@);
                }
                lemma_lex_irreflexive(key@);
            }
            o != Order::Greater
        },
        Bound::Excluded(b) => {
            let o: Order = order(key, b.as_slice());
            proof {
                lemma_lex_irreflexive(key@);
            }
            o == Order::Less
        },
    };
    low && high
}

/// The part of a list that a range holds.
fn clip(list: Vec<(Vec<u8>, ValueSlot)>, lo: &Bound, hi: &Bound) -> (out: Vec<
    (Vec<u8>, ValueSlot),
>)
    requires
        keys_up(shown(list@)),
    ensures
        keys_up(shown(out@)),
        forall|k: Seq<u8>| #[trigger]
            got(shown(out@), k) == if within(*lo, *hi, k) {
                got(shown(list@), k)
            } else {
                None
            },
{
    let ghost l = shown(list@);
    let mut out: Vec<(Vec<u8>, ValueSlot)> = Vec::new();
    let mut i: usize = 0;
    while i < list.len()
        invariant
            l == shown(list@),
            keys_up(l),
            i <= list@.len(),
            keys_up(shown(out@)),
            forall|a: int|
                0 <= a < out@.len() ==> within(*lo, *hi, (#[trigger] shown(out@)[a]).0) && exists|
                    j: int,
                |
                    0 <= j < i && #[trigger] l[j] == shown(out@)[a],
            forall|j: int|
                0 <= j < i && within(*lo, *hi, (#[trigger] l[j]).0) ==> knows(shown(out@), l[j].0),
        decreases list@.len() - i,
    {
        let ghost was = shown(out@);
        let ghost e = l[i as int];
        assert(e == (list@[i as int].0@, slot_of(list@[i as int].1)));
        if inside(list[i].0.as_slice(), lo, hi) {
            out.push((copy_bytes(list[i].0.as_slice()), copy_slot(&list[i].1)));
            let ghost now = shown(out@);
            proof {
                assert(now =~= was.push(e));
                assert forall|a: int, b: int| 0 <= a < b < now.len() implies lex_lt(
                    (#[trigger] now[a]).0,
                    (#[trigger] now[b]).0,
                ) by {
                    assert(now[a] == was[a]);
                    if b < was.len() {
                        assert(now[b] == was[b]);
                    } else {
                        let j = choose|j: int| 0 <= j < i && #[trigger] l[j] == was[a];
                        assert(lex_lt(l[j].0, l[i as int].0));
                    }
                }
                assert forall|a: int| 0 <= a < out@.len() implies within(
                    *lo,
                    *hi,
                    (#[trigger] now[a]).0,
                ) && exists|j: int| 0 <= j < i + 1 && #[trigger] l[j] == now[a] by {
                    if a < was.len() {
                        assert(now[a] == was[a]);
                        let j = choose|j: int| 0 <= j < i && #[trigger] l[j] == was[a];
                        assert(l[j] == now[a]);
                    } else {
                        assert(l[i as int] == now[a]);
                    }
                }
                assert forall|j: int|
                    0 <= j < i + 1 && within(*lo, *hi, (#[trigger] l[j]).0) implies knows(
                    now,
                    l[j].0,
                ) by {
                    if j < i {
                        let a = choose|a: int| 0 <= a < was.len() && (#[trigger] was[a]).0
                            == l[j].0;
                        assert(now[a].0 == l[j].0);
                    } else {
                        assert(now[was.len() as int].0 == l[j].0);
                    }
                }
            }
        }
        i += 1;
    }
    let ghost o = shown(out@);
    proof {
        assert forall|k: Seq<u8>| #[trigger]
            got(o, k) == if within(*lo, *hi, k) {
                got(l, k)
            } else {
                None
            } by {
            if knows(o, k) {
                let a = choose|a: int| 0 <= a < o.len() && (#[trigger] o[a]).0 == k;
                lemma_got(o, a);
                let j = choose|j: int| 0 <= j < i && #[trigger] l[j] == o[a];
                lemma_got(l, j);
            } else if within(*lo, *hi, k) && knows(l, k) {
                let j = choose|j: int| 0 <= j < l.len() && (#[trigger] l[j]).0 == k;
                assert(within(*lo, *hi, l[j].0));
            }
        }
    }
    out
}

/// Two lists as one; where both know a key, the first one counts.
#[verifier::rlimit(40)]
fn prefer(first: &Vec<(Vec<u8>, ValueSlot)>, second: &Vec<(Vec<u8>, ValueSlot)>) -> (out: Vec<
    (Vec<u8>, ValueSlot),
>)
    requires
        keys_up(shown(first@)),
        keys_up(shown(second@)),
    ensures
        keys_up(shown(out@)),
        forall|k: Seq<u8>| #[trigger]
            got(shown(out@), k) == if got(shown(first@), k) is Some {
                got(shown(first@), k)
            } else {
                got(shown(second@), k)
            },
{
    let ghost a = shown(first@);
    let ghost b = shown(second@);
    let mut out: Vec<(Vec<u8>, ValueSlot)> = Vec::new();
    assert(shown(out@) =~= Seq::empty());
    let mut i: usize = 0;
    let mut j: usize = 0;
    while i < first.len() || j < second.len()
        invariant
            a == shown(first@),
            b == shown(second@),
            keys_up(a),
            keys_up(b),
            i <= a.len(),
            j <= b.len(),
            mingled(a, b, i as int, j as int, shown(out@)),
        decreases (a.len() - i) + (b.len() - j),
    {
        let ghost was = shown(out@);
        let o: Order = if i >= first.len() {
            Order::Greater
        } else if j >= second.len() {
            Order::Less
        } else {
            order(first[i].0.as_slice(), second[j].0.as_slice())
        };
        proof {
            if i < a.len() {
                assert(a[i as int] == (first@[i as int].0@, slot_of(first@[i as int].1)));
            }
            if j < b.len() {
                assert(b[j as int] == (second@[j as int].0@, slot_of(second@[j as int].1)));
            }
        }
        if o == Order::Greater {
            out.push((copy_bytes(second[j].0.as_slice()), copy_slot(&second[j].1)));
            proof {
                assert(shown(out@) =~= was.push(b[j as int]));
                lemma_take_second(a, b, i as int, j as int, was);
            }
            j += 1;
        } else {
            let tied: bool = o == Order::Equal;
            out.push((copy_bytes(first[i].0.as_slice()), copy_slot(&first[i].1)));
            proof {
                assert(shown(out@) =~= was.push(a[i as int]));
                lemma_take_first(a, b, i as int, j as int, was, tied);
            }
            i += 1;
            if tied {
                j += 1;
            }
        }
    }
    proof {
        let l = shown(out@);
        assert forall|k: Seq<u8>| #[trigger]
            got(l, k) == if got(a, k) is Some {
                got(a, k)
            } else {
                got(b, k)
            } by {
            lemma_mingled(a, b, l, k);
        }
    }
    out
}

/// An entry is among the first of a list.
#[verifier::opaque]
spec fn drawn(a: Layer, n: int, e: (Seq<u8>, Says)) -> bool {
    exists|z: int| 0 <= z < n && #[trigger] a[z] == e
}

/// A key is among those of a list.
#[verifier::opaque]
spec fn keyed(l: Layer, k: Seq<u8>) -> bool {
    knows(l, k)
}

proof fn lemma_drawn(a: Layer, n: int, z: int)
    requires
        0 <= z < n,
    ensures
        drawn(a, n, a[z]),
{
    reveal(drawn);
}

proof fn lemma_drawn_more(a: Layer, n: int, b: Layer, m: int, e: (Seq<u8>, Says))
    requires
        drawn(a, n, e),
        n <= m,
        forall|z: int| 0 <= z < n ==> #[trigger] a[z] == b[z],
    ensures
        drawn(b, m, e),
{
    reveal(drawn);
    let z = choose|z: int| 0 <= z < n && #[trigger] a[z] == e;
    assert(b[z] == e);
}

proof fn lemma_keyed(l: Layer, e: (Seq<u8>, Says), k: Seq<u8>)
    ensures
        keyed(l, k) ==> keyed(l.push(e), k),
        keyed(l.push(e), e.0),
{
    reveal(keyed);
    let now = l.push(e);
    assert(now[l.len() as int] == e);
    if knows(l, k) {
        let x = choose|x: int| 0 <= x < l.len() && (#[trigger] l[x]).0 == k;
        assert(now[x].0 == k);
    }
}

/// `l` holds what comes first of two lists.
spec fn mingled(a: Layer, b: Layer, i: int, j: int, l: Layer) -> bool {
    &&& keys_up(l)
    &&& forall|x: int|
        0 <= x < l.len() ==> (i < a.len() ==> lex_lt((#[trigger] l[x]).0, a[i].0)) && (j < b.len()
            ==> lex_lt(l[x].0, b[j].0))
    &&& forall|x: int|
        0 <= x < l.len() ==> drawn(a, i, #[trigger] l[x]) || drawn(b, j, l[x])
    &&& forall|z: int| 0 <= z < i ==> drawn(l, l.len() as int, #[trigger] a[z])
    &&& forall|z: int| 0 <= z < j ==> keyed(l, (#[trigger] b[z]).0)
}

proof fn lemma_push_up(l: Layer, e: (Seq<u8>, Says))
    requires
        keys_up(l),
        forall|x: int| 0 <= x < l.len() ==> lex_lt((#[trigger] l[x]).0, e.0),
    ensures
        keys_up(l.push(e)),
{
    let now = l.push(e);
    assert forall|x: int, y: int| 0 <= x < y < now.len() implies lex_lt(
        (#[trigger] now[x]).0,
        (#[trigger] now[y]).0,
    ) by {
        assert(now[x] == l[x]);
        if y < l.len() {
            assert(now[y] == l[y]);
        }
    }
}

proof fn lemma_take_first(a: Layer, b: Layer, i: int, j: int, l: Layer, tied: bool)
    requires
        keys_up(a),
        keys_up(b),
        0 <= i < a.len(),
        0 <= j <= b.len(),
        mingled(a, b, i, j, l),
        tied ==> j < b.len() && a[i].0 == b[j].0,
        !tied && j < b.len() ==> lex_lt(a[i].0, b[j].0),
    ensures
        mingled(
            a,
            b,
            i + 1,
            if tied {
                j + 1
            } else {
                j
            },
            l.push(a[i]),
        ),
{
    let e = a[i];
    let now = l.push(e);
    let n = l.len() as int;
    let j2 = if tied {
        j + 1
    } else {
        j
    };
    lemma_push_up(l, e);
    assert(now[n] == e);
    if i + 1 < a.len() {
        assert(lex_lt(a[i].0, a[i + 1].0));
    }
    if tied && j2 < b.len() {
        assert(lex_lt(b[j].0, b[j2].0));
    }
    assert forall|x: int| 0 <= x < now.len() implies (i + 1 < a.len() ==> lex_lt(
        (#[trigger] now[x]).0,
        a[i + 1].0,
    )) && (j2 < b.len() ==> lex_lt(now[x].0, b[j2].0)) by {
        if x < n {
            assert(now[x] == l[x]);
            if i + 1 < a.len() {
                lemma_lex_transitive(l[x].0, a[i].0, a[i + 1].0);
            }
            if tied && j2 < b.len() {
                lemma_lex_transitive(l[x].0, b[j].0, b[j2].0);
            }
        }
    }
    assert forall|x: int| 0 <= x < now.len() implies drawn(a, i + 1, #[trigger] now[x]) || drawn(
        b,
        j2,
        now[x],
    ) by {
        if x < n {
            assert(now[x] == l[x]);
            if drawn(a, i, l[x]) {
                lemma_drawn_more(a, i, a, i + 1, l[x]);
            } else {
                lemma_drawn_more(b, j, b, j2, l[x]);
            }
        } else {
            lemma_drawn(a, i + 1, i);
        }
    }
    assert forall|z: int| 0 <= z < i + 1 implies drawn(now, n + 1, #[trigger] a[z]) by {
        if z < i {
            lemma_drawn_more(l, n, now, n + 1, a[z]);
        } else {
            lemma_drawn(now, n + 1, n);
        }
    }
    assert forall|z: int| 0 <= z < j2 implies keyed(now, (#[trigger] b[z]).0) by {
        lemma_keyed(l, e, b[z].0);
    }
}

proof fn lemma_take_second(a: Layer, b: Layer, i: int, j: int, l: Layer)
    requires
        keys_up(a),
        keys_up(b),
        0 <= i <= a.len(),
        0 <= j < b.len(),
        mingled(a, b, i, j, l),
        i < a.len() ==> lex_lt(b[j].0, a[i].0),
    ensures
        mingled(a, b, i, j + 1, l.push(b[j])),
{
    let e = b[j];
    let now = l.push(e);
    let n = l.len() as int;
    lemma_push_up(l, e);
    assert(now[n] == e);
    if j + 1 < b.len() {
        assert(lex_lt(b[j].0, b[j + 1].0));
    }
    assert forall|x: int| 0 <= x < now.len() implies (i < a.len() ==> lex_lt(
        (#[trigger] now[x]).0,
        a[i].0,
    )) && (j + 1 < b.len() ==> lex_lt(now[x].0, b[j + 1].0)) by {
        if x < n {
            assert(now[x] == l[x]);
            if j + 1 < b.len() {
                lemma_lex_transitive(l[x].0, b[j].0, b[j + 1].0);
            }
        }
    }
    assert forall|x: int| 0 <= x < now.len() implies drawn(a, i, #[trigger] now[x]) || drawn(
        b,
        j + 1,
        now[x],
    ) by {
        if x < n {
            assert(now[x] == l[x]);
            if !drawn(a, i, l[x]) {
                lemma_drawn_more(b, j, b, j + 1, l[x]);
            }
        } else {
            lemma_drawn(b, j + 1, j);
        }
    }
    assert forall|z: int| 0 <= z < i implies drawn(now, n + 1, #[trigger] a[z]) by {
        lemma_drawn_more(l, n, now, n + 1, a[z]);
    }
    assert forall|z: int| 0 <= z < j + 1 implies keyed(now, (#[trigger] b[z]).0) by {
        lemma_keyed(l, e, b[z].0);
    }
}

/// Two lists that were taken whole.
proof fn lemma_mingled(a: Layer, b: Layer, l: Layer, k: Seq<u8>)
    requires
        keys_up(a),
        keys_up(b),
        mingled(a, b, a.len() as int, b.len() as int, l),
    ensures
        got(l, k) == if got(a, k) is Some {
            got(a, k)
        } else {
            got(b, k)
        },
{
    if knows(a, k) {
        let x = choose|x: int| 0 <= x < a.len() && (#[trigger] a[x]).0 == k;
        lemma_got(a, x);
        assert(drawn(l, l.len() as int, a[x]));
        reveal(drawn);
        let y = choose|y: int| 0 <= y < l.len() && #[trigger] l[y] == a[x];
        lemma_got(l, y);
    } else if knows(l, k) {
        let y = choose|y: int| 0 <= y < l.len() && (#[trigger] l[y]).0 == k;
        lemma_got(l, y);
        assert(drawn(a, a.len() as int, l[y]) || drawn(b, b.len() as int, l[y]));
        reveal(drawn);
        if exists|z: int| 0 <= z < a.len() && #[trigger] a[z] == l[y] {
            assert(knows(a, k));
        }
        let z = choose|z: int| 0 <= z < b.len() && #[trigger] b[z] == l[y];
        lemma_got(b, z);
    } else if knows(b, k) {
        let z = choose|z: int| 0 <= z < b.len() && (#[trigger] b[z]).0 == k;
        assert(keyed(l, b[z].0));
        reveal(keyed);
    }
}

// ---- what the versions lay over the tree ------------------------------------------------

/// A collapsed list says what the snapshot sees.
pub proof fn lemma_views(m: Map<(Seq<u8>, u64), Says>, snapshot: u64, l: Layer)
    requires
        views(m, snapshot, l),
    ensures
        keys_up(l),
        forall|k: Seq<u8>| #[trigger] got(l, k) == seen(m, k, snapshot),
{
    assert forall|k: Seq<u8>| #[trigger] got(l, k) == seen(m, k, snapshot) by {
        if knows(l, k) {
            let i = choose|i: int| 0 <= i < l.len() && (#[trigger] l[i]).0 == k;
            lemma_got(l, i);
        } else if seen(m, k, snapshot) is Some {
            let i = choose|i: int| 0 <= i < l.len() && (#[trigger] l[i]).0 == k;
            assert(knows(l, k));
        }
    }
}

/// A list of writes says what they say.
proof fn lemma_own_list(m: Map<Seq<u8>, Says>, l: Layer)
    requires
        own_list(m, l),
    ensures
        keys_up(l),
        forall|k: Seq<u8>| #[trigger]
            got(l, k) == if m.contains_key(k) {
                Some(m[k])
            } else {
                None
            },
{
    assert forall|k: Seq<u8>| #[trigger]
        got(l, k) == if m.contains_key(k) {
            Some(m[k])
        } else {
            None
        } by {
        if knows(l, k) {
            let i = choose|i: int| 0 <= i < l.len() && (#[trigger] l[i]).0 == k;
            lemma_got(l, i);
        } else if m.contains_key(k) {
            let i = choose|i: int| 0 <= i < l.len() && (#[trigger] l[i]).0 == k;
            assert(knows(l, k));
        }
    }
}

impl VersionStore {
    /// The keys of a range of which a snapshot sees a version, with what it
    /// sees.
    pub fn overlay(&self, snapshot: u64, lo: &Bound, hi: &Bound) -> (out: Vec<(Vec<u8>, ValueSlot)>)
        requires
            self.wf(),
        ensures
            overlays(|k: Seq<u8>| seen(self@.versions, k, snapshot), *lo, *hi, shown(out@)),
    {
        let all = collapse(&self.entries, snapshot);
        proof {
            lemma_views(self@.versions, snapshot, shown(all@));
        }
        clip(all, lo, hi)
    }

    /// The keys of a range of which a transaction sees a version or a write of
    /// its own, with what it sees.
    pub fn txn_overlay(&self, id: u64, lo: &Bound, hi: &Bound) -> (r: Result<
        Vec<(Vec<u8>, ValueSlot)>,
    >)
        requires
            self.wf(),
        ensures
            match r {
                Ok(out) => self@.txns.contains_key(id) && overlays(
                    |k: Seq<u8>| sees(self@, id, k),
                    *lo,
                    *hi,
                    shown(out@),
                ),
                Err(e) => e == Error::TxnNotFound(id) && !self@.txns.contains_key(id),
            },
    {
        let (own, base) = self.layers(id)?;
        proof {
            lemma_views(self@.versions, self@.txns[id].snapshot, shown(base@));
            lemma_own_list(self@.txns[id].writes, shown(own@));
        }
        let all = prefer(&own, &base);
        Ok(clip(all, lo, hi))
    }
}

/// `tree` says of a key what it maps it to.
pub open spec fn held(tree: Seq<Entry>, k: Seq<u8>) -> Option<Seq<u8>> {
    if exists|i: int| 0 <= i < tree.len() && (#[trigger] tree[i]).0 == k {
        Some(tree[choose|i: int| 0 <= i < tree.len() && (#[trigger] tree[i]).0 == k].1)
    } else {
        None
    }
}

/// What pairs with a layer over them say of a key.
pub open spec fn covered(tree: Seq<Entry>, over: Layer, k: Seq<u8>) -> Option<Seq<u8>> {
    match got(over, k) {
        Some(s) => s,
        None => held(tree, k),
    }
}

/// A listed key has one value.
pub proof fn lemma_held(tree: Seq<Entry>, i: int)
    requires
        sorted(tree),
        0 <= i < tree.len(),
    ensures
        held(tree, tree[i].0) == Some(tree[i].1),
{
    let k = tree[i].0;
    let j = choose|j: int| 0 <= j < tree.len() && (#[trigger] tree[j]).0 == k;
    assert(tree[i].0 == k);
    lemma_lex_irreflexive(k);
    if i < j {
        assert(lex_lt(tree[i].0, tree[j].0));
    } else if j < i {
        assert(lex_lt(tree[j].0, tree[i].0));
    }
}

/// `k` comes before everything that is left of two lists.
spec fn passed(tree: Seq<Entry>, over: Layer, i: int, j: int, k: Seq<u8>) -> bool {
    (i < tree.len() ==> lex_lt(k, tree[i].0)) && (j < over.len() ==> lex_lt(k, over[j].0))
}

/// Whether a pair with this key is listed.
#[verifier::opaque]
pub open spec fn among(out: Seq<Entry>, k: Seq<u8>) -> bool {
    exists|x: int| 0 <= x < out.len() && (#[trigger] out[x]).0 == k
}

proof fn lemma_among_push(out: Seq<Entry>, e: Entry, k: Seq<u8>)
    ensures
        among(out.push(e), k) == (among(out, k) || k == e.0),
{
    reveal(among);
    let now = out.push(e);
    assert(now[out.len() as int] == e);
    if among(out, k) {
        let x = choose|x: int| 0 <= x < out.len() && (#[trigger] out[x]).0 == k;
        assert(now[x].0 == k);
    }
    if among(now, k) {
        let x = choose|x: int| 0 <= x < now.len() && (#[trigger] now[x]).0 == k;
        if x < out.len() {
            assert(out[x].0 == k);
        }
    }
}

/// What was taken comes before what is left.
spec fn taken(tree: Seq<Entry>, over: Layer, i: int, j: int) -> bool {
    &&& 0 <= i <= tree.len()
    &&& 0 <= j <= over.len()
    &&& forall|y: int| 0 <= y < i ==> passed(tree, over, i, j, (#[trigger] tree[y]).0)
    &&& forall|y: int| 0 <= y < j ==> passed(tree, over, i, j, (#[trigger] over[y]).0)
}

/// The pairs up to a point.
spec fn merging(tree: Seq<Entry>, over: Layer, i: int, j: int, out: Seq<Entry>) -> bool {
    &&& sorted(out)
    &&& taken(tree, over, i, j)
    &&& forall|x: int|
        0 <= x < out.len() ==> passed(tree, over, i, j, (#[trigger] out[x]).0) && covered(
            tree,
            over,
            out[x].0,
        ) == Some(out[x].1)
    &&& forall|k: Seq<u8>|
        passed(tree, over, i, j, k) && (#[trigger] covered(tree, over, k)) is Some ==> among(out, k)
}

proof fn lemma_sorted_push(out: Seq<Entry>, e: Entry)
    requires
        sorted(out),
        forall|x: int| 0 <= x < out.len() ==> lex_lt((#[trigger] out[x]).0, e.0),
    ensures
        sorted(out.push(e)),
{
    let now = out.push(e);
    assert forall|x: int, y: int| 0 <= x < y < now.len() implies lex_lt(
        #[trigger] now[x].0,
        #[trigger] now[y].0,
    ) by {
        assert(now[x] == out[x]);
        if y < out.len() {
            assert(now[y] == out[y]);
        }
    }
}

/// The next key of two lists is `next`, and moving on takes it from those
/// that have it.
spec fn moves(
    tree: Seq<Entry>,
    over: Layer,
    i: int,
    j: int,
    i2: int,
    j2: int,
    next: Seq<u8>,
) -> bool {
    &&& i2 == i || i2 == i + 1
    &&& j2 == j || j2 == j + 1
    &&& i2 <= tree.len()
    &&& j2 <= over.len()
    &&& i2 > i || j2 > j
    &&& i2 > i ==> tree[i].0 == next
    &&& j2 > j ==> over[j].0 == next
    &&& i2 == i && i < tree.len() ==> lex_lt(next, tree[i].0)
    &&& j2 == j && j < over.len() ==> lex_lt(next, over[j].0)
}

/// A passed key stays passed.
proof fn lemma_passed(
    tree: Seq<Entry>,
    over: Layer,
    i: int,
    j: int,
    i2: int,
    j2: int,
    next: Seq<u8>,
    k: Seq<u8>,
)
    requires
        sorted(tree),
        keys_up(over),
        taken(tree, over, i, j),
        moves(tree, over, i, j, i2, j2, next),
    ensures
        passed(tree, over, i2, j2, next),
        passed(tree, over, i, j, k) ==> passed(tree, over, i2, j2, k) && lex_lt(k, next),
{
    if i < i2 < tree.len() {
        assert(lex_lt(tree[i].0, tree[i2].0));
        if passed(tree, over, i, j, k) {
            lemma_lex_transitive(k, tree[i].0, tree[i2].0);
        }
    }
    if j < j2 < over.len() {
        assert(lex_lt(over[j].0, over[j2].0));
        if passed(tree, over, i, j, k) {
            lemma_lex_transitive(k, over[j].0, over[j2].0);
        }
    }
}

/// Only the next key is passed by moving on.
proof fn lemma_moved(
    tree: Seq<Entry>,
    over: Layer,
    i: int,
    j: int,
    i2: int,
    j2: int,
    next: Seq<u8>,
    k: Seq<u8>,
)
    requires
        sorted(tree),
        keys_up(over),
        taken(tree, over, i, j),
        moves(tree, over, i, j, i2, j2, next),
        passed(tree, over, i2, j2, k),
        covered(tree, over, k) is Some,
        k != next,
    ensures
        passed(tree, over, i, j, k),
{
    lemma_lex_irreflexive(k);
    if knows(over, k) {
        let y = choose|y: int| 0 <= y < over.len() && (#[trigger] over[y]).0 == k;
        if y > j2 {
            assert(lex_lt(over[j2].0, over[y].0));
            lemma_lex_asymmetric(k, over[j2].0);
        }
        assert(y < j);
    } else {
        let y = choose|y: int| 0 <= y < tree.len() && (#[trigger] tree[y]).0 == k;
        if y > i2 {
            assert(lex_lt(tree[i2].0, tree[y].0));
            lemma_lex_asymmetric(k, tree[i2].0);
        }
        assert(y < i);
    }
}

/// Moving on, with or without a pair for the next key.
proof fn lemma_merging(
    tree: Seq<Entry>,
    over: Layer,
    i: int,
    j: int,
    i2: int,
    j2: int,
    next: Seq<u8>,
    out: Seq<Entry>,
    now: Seq<Entry>,
)
    requires
        sorted(tree),
        keys_up(over),
        merging(tree, over, i, j, out),
        moves(tree, over, i, j, i2, j2, next),
        match covered(tree, over, next) {
            Some(v) => now == out.push((next, v)),
            None => now == out,
        },
    ensures
        merging(tree, over, i2, j2, now),
{
    lemma_passed(tree, over, i, j, i2, j2, next, next);
    assert forall|y: int| 0 <= y < i2 implies passed(tree, over, i2, j2, (#[trigger] tree[y]).0) by {
        lemma_passed(tree, over, i, j, i2, j2, next, tree[y].0);
    }
    assert forall|y: int| 0 <= y < j2 implies passed(tree, over, i2, j2, (#[trigger] over[y]).0) by {
        lemma_passed(tree, over, i, j, i2, j2, next, over[y].0);
    }
    assert forall|x: int| 0 <= x < out.len() implies lex_lt((#[trigger] out[x]).0, next) && passed(
        tree,
        over,
        i2,
        j2,
        out[x].0,
    ) by {
        lemma_passed(tree, over, i, j, i2, j2, next, out[x].0);
    }
    if let Some(v) = covered(tree, over, next) {
        lemma_sorted_push(out, (next, v));
        assert forall|x: int| 0 <= x < now.len() implies passed(
            tree,
            over,
            i2,
            j2,
            (#[trigger] now[x]).0,
        ) && covered(tree, over, now[x].0) == Some(now[x].1) by {
            if x < out.len() {
                assert(now[x] == out[x]);
            }
        }
    }
    assert forall|k: Seq<u8>|
        passed(tree, over, i2, j2, k) && (#[trigger] covered(tree, over, k)) is Some implies among(
        now,
        k,
    ) by {
        if k != next {
            lemma_moved(tree, over, i, j, i2, j2, next, k);
        }
        if let Some(v) = covered(tree, over, next) {
            lemma_among_push(out, (next, v), k);
        }
    }
}

/// `out` lists the first of the pairs that `f` says, at most `limit` of them,
/// in key order.
pub open spec fn picks(f: spec_fn(Seq<u8>) -> Option<Seq<u8>>, limit: int, out: Seq<Entry>) -> bool {
    &&& sorted(out)
    &&& out.len() <= limit
    &&& forall|x: int| 0 <= x < out.len() ==> f((#[trigger] out[x]).0) == Some(out[x].1)
    &&& forall|k: Seq<u8>, x: int|
        0 <= x < out.len() && lex_le(k, (#[trigger] out[x]).0) && (#[trigger] f(k)) is Some
            ==> among(out, k)
    &&& out.len() < limit ==> forall|k: Seq<u8>| (#[trigger] f(k)) is Some ==> among(out, k)
}

/// Pairs of the tree with a layer over them: an entry of the layer replaces
/// the tree's value for its key, and a tombstone hides it.
#[verifier::rlimit(40)]
pub fn merge_pairs(
    pairs_in: &Vec<(Vec<u8>, Vec<u8>)>,
    layer: &Vec<(Vec<u8>, ValueSlot)>,
    limit: usize,
) -> (out: Vec<(Vec<u8>, Vec<u8>)>)
    requires
        keys_up(shown(layer@)),
    ensures
        sorted(pairs(pairs_in@)) ==> picks(
            |k: Seq<u8>| covered(pairs(pairs_in@), shown(layer@), k),
            limit as int,
            pairs(out@),
        ),
        sorted(pairs(pairs_in@)) && pairs_in@.len() >= limit + layer@.len() ==> out@.len()
            == limit && forall|x: int|
            0 <= x < out@.len() ==> lex_le(
                (#[trigger] pairs(out@)[x]).0,
                pairs(pairs_in@).last().0,
            ),
{
    let ghost tree = pairs(pairs_in@);
    let ghost over = shown(layer@);
    let ghost ok = sorted(tree);
    let mut out: Vec<(Vec<u8>, Vec<u8>)> = Vec::new();
    let mut i: usize = 0;
    let mut j: usize = 0;
    proof {
        assert(pairs(out@) =~= Seq::empty());
        assert forall|k: Seq<u8>|
            ok && passed(tree, over, 0, 0, k) && (#[trigger] covered(tree, over, k)) is Some implies among(
            pairs(out@),
            k,
        ) by {
            lemma_first(tree, over, k);
        }
    }
    while out.len() < limit && (i < pairs_in.len() || j < layer.len())
        invariant
            tree == pairs(pairs_in@),
            over == shown(layer@),
            ok == sorted(tree),
            keys_up(over),
            i <= tree.len(),
            j <= over.len(),
            out@.len() <= limit,
            ok ==> merging(tree, over, i as int, j as int, pairs(out@)),
            out@.len() + j >= i,
            ok && tree.len() >= limit + over.len() ==> forall|x: int|
                0 <= x < out@.len() ==> lex_le((#[trigger] pairs(out@)[x]).0, tree.last().0),
        decreases (tree.len() - i) + (over.len() - j),
    {
        let ghost was = pairs(out@);
        let o: Order = if i >= pairs_in.len() {
            Order::Greater
        } else if j >= layer.len() {
            Order::Less
        } else {
            order(pairs_in[i].0.as_slice(), layer[j].0.as_slice())
        };
        proof {
            if ok && i < tree.len() {
                assert(tree[i as int] == (pairs_in@[i as int].0@, pairs_in@[i as int].1@));
                lemma_held(tree, i as int);
                assert(lex_le(tree[i as int].0, tree.last().0)) by {
                    if i < tree.len() - 1 {
                        assert(lex_lt(tree[i as int].0, tree[tree.len() - 1].0));
                    }
                }
            }
            if j < over.len() {
                assert(over[j as int] == (layer@[j as int].0@, slot_of(layer@[j as int].1)));
                lemma_got(over, j as int);
            }
        }
        if o == Order::Less {
            let ghost next = tree[i as int].0;
            out.push(
                (copy_bytes(pairs_in[i].0.as_slice()), copy_bytes(pairs_in[i].1.as_slice())),
            );
            proof {
                if ok {
                    assert(!knows(over, next)) by {
                        lemma_not_over(tree, over, i as int, j as int, next);
                    }
                    assert(pairs(out@) =~= was.push((next, tree[i as int].1)));
                    lemma_merging(
                        tree,
                        over,
                        i as int,
                        j as int,
                        i + 1,
                        j as int,
                        next,
                        was,
                        pairs(out@),
                    );
                }
                assert forall|x: int|
                    ok && tree.len() >= limit + over.len() && 0 <= x < out@.len() implies lex_le(
                    (#[trigger] pairs(out@)[x]).0,
                    tree.last().0,
                ) by {
                    assert(x == was.len() || pairs(out@)[x] == was[x]);
                }
            }
            i += 1;
        } else {
            let tied: bool = o == Order::Equal;
            let ghost next = over[j as int].0;
            let ghost i2: int = if tied {
                i + 1
            } else {
                i as int
            };
            match &layer[j].1 {
                Some(v) => {
                    out.push((copy_bytes(layer[j].0.as_slice()), copy_bytes(v.as_slice())));
                    assert(pairs(out@) =~= was.push((next, over[j as int].1->0)));
                },
                None => {},
            }
            proof {
                if ok {
                    lemma_merging(
                        tree,
                        over,
                        i as int,
                        j as int,
                        i2,
                        j + 1,
                        next,
                        was,
                        pairs(out@),
                    );
                }
                assert forall|x: int|
                    ok && tree.len() >= limit + over.len() && 0 <= x < out@.len() implies lex_le(
                    (#[trigger] pairs(out@)[x]).0,
                    tree.last().0,
                ) by {
                    assert(i < tree.len());
                    assert(x == was.len() || pairs(out@)[x] == was[x]);
                    if x == was.len() && !tied {
                        if tree[i as int].0 != tree.last().0 {
                            lemma_lex_transitive(next, tree[i as int].0, tree.last().0);
                        }
                    }
                }
            }
            if tied {
                i += 1;
            }
            j += 1;
        }
    }
    proof {
        let o = pairs(out@);
        let f = |k: Seq<u8>| covered(tree, over, k);
        assert forall|k: Seq<u8>, x: int|
            ok && 0 <= x < o.len() && lex_le(k, (#[trigger] o[x]).0) && (#[trigger] f(k)) is Some implies among(
            o,
            k,
        ) by {
            assert(passed(tree, over, i as int, j as int, o[x].0));
            if k != o[x].0 {
                if i < tree.len() {
                    lemma_lex_transitive(k, o[x].0, tree[i as int].0);
                }
                if j < over.len() {
                    lemma_lex_transitive(k, o[x].0, over[j as int].0);
                }
            }
            assert(covered(tree, over, k) is Some);
        }
        if ok && o.len() < limit {
            assert forall|k: Seq<u8>| (#[trigger] f(k)) is Some implies among(o, k) by {
                assert(covered(tree, over, k) is Some);
            }
        }
    }
    out
}

/// Nothing comes before two whole lists.
proof fn lemma_first(tree: Seq<Entry>, over: Layer, k: Seq<u8>)
    requires
        sorted(tree),
        keys_up(over),
        passed(tree, over, 0, 0, k),
    ensures
        covered(tree, over, k) is None,
{
    lemma_lex_irreflexive(k);
    if knows(over, k) {
        let y = choose|y: int| 0 <= y < over.len() && (#[trigger] over[y]).0 == k;
        if y > 0 {
            assert(lex_lt(over[0].0, over[y].0));
            lemma_lex_asymmetric(k, over[0].0);
        }
    } else if held(tree, k) is Some {
        let y = choose|y: int| 0 <= y < tree.len() && (#[trigger] tree[y]).0 == k;
        if y > 0 {
            assert(lex_lt(tree[0].0, tree[y].0));
            lemma_lex_asymmetric(k, tree[0].0);
        }
    }
}

/// A key that comes before what is left of the layer is not in it.
proof fn lemma_not_over(tree: Seq<Entry>, over: Layer, i: int, j: int, k: Seq<u8>)
    requires
        keys_up(over),
        taken(tree, over, i, j),
        i < tree.len(),
        k == tree[i].0,
        j < over.len() ==> lex_lt(k, over[j].0),
    ensures
        !knows(over, k),
{
    if knows(over, k) {
        let y = choose|y: int| 0 <= y < over.len() && (#[trigger] over[y]).0 == k;
        lemma_lex_irreflexive(k);
        if y > j {
            assert(lex_lt(over[j].0, over[y].0));
            lemma_lex_asymmetric(k, over[j].0);
        }
        assert(y < j);
        assert(passed(tree, over, i, j, over[y].0));
    }
}

} // verus!

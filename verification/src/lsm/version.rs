//! Versioned keys, and what a snapshot sees of them.

use crate::bytes::{
    lemma_lex_asymmetric, lemma_lex_irreflexive, lemma_lex_total, lemma_lex_transitive, lex_lt,
    order, Order,
};
use vstd::prelude::*;

verus! {

/// A versioned key: the user's bytes plus the sequence number that wrote them.
#[derive(Debug, PartialEq, Eq)]
pub struct InternalKey {
    /// The key as supplied by the caller.
    pub user_key: Vec<u8>,
    /// Monotonic sequence number of the write that produced this version.
    pub seqno: u64,
}

/// A key and the sequence number of one of its versions.
pub type Version = (Seq<u8>, u64);

impl View for InternalKey {
    type V = Version;

    open spec fn view(&self) -> Version {
        (self.user_key@, self.seqno)
    }
}

/// What a version says about a key: a value, or its removal.
///
/// `None` is a tombstone.
pub type ValueSlot = Option<Vec<u8>>;

/// A version with what it says.
pub type Item = (Version, Option<Seq<u8>>);

/// What a slot says.
pub open spec fn slot_of(v: ValueSlot) -> Option<Seq<u8>> {
    match v {
        Some(b) => Some(b@),
        None => None,
    }
}

/// The contents of a list of entries.
pub open spec fn items(v: Seq<(InternalKey, ValueSlot)>) -> Seq<Item> {
    Seq::new(v.len(), |i: int| (v[i].0@, slot_of(v[i].1)))
}

/// Keys ascend; among the versions of one key the newest comes first.
pub open spec fn version_lt(a: Version, b: Version) -> bool {
    lex_lt(a.0, b.0) || (a.0 == b.0 && a.1 > b.1)
}

/// Each version comes before those behind it.
pub open spec fn in_order(run: Seq<Item>) -> bool {
    forall|i: int, j: int|
        0 <= i < j < run.len() ==> version_lt((#[trigger] run[i]).0, (#[trigger] run[j]).0)
}

/// Whether a version is listed.
pub open spec fn lists(run: Seq<Item>, v: Version) -> bool {
    exists|i: int| 0 <= i < run.len() && (#[trigger] run[i]).0 == v
}

/// The versions of a list, as a map.
pub open spec fn versions(run: Seq<Item>) -> Map<Version, Option<Seq<u8>>> {
    Map::new(
        |v: Version| lists(run, v),
        |v: Version| run[choose|i: int| 0 <= i < run.len() && (#[trigger] run[i]).0 == v].1,
    )
}

/// `s` is the newest version of `key` that `snapshot` sees.
pub open spec fn is_newest(
    m: Map<Version, Option<Seq<u8>>>,
    key: Seq<u8>,
    snapshot: u64,
    s: u64,
) -> bool {
    &&& m.contains_key((key, s))
    &&& s <= snapshot
    &&& forall|t: u64| #[trigger] m.contains_key((key, t)) && t <= snapshot ==> t <= s
}

/// What a snapshot sees of a key: the newest version that is not newer than
/// the snapshot, if there is one.
pub open spec fn seen(
    m: Map<Version, Option<Seq<u8>>>,
    key: Seq<u8>,
    snapshot: u64,
) -> Option<Option<Seq<u8>>> {
    if exists|s: u64| is_newest(m, key, snapshot, s) {
        Some(m[(key, choose|s: u64| is_newest(m, key, snapshot, s))])
    } else {
        None
    }
}

/// Outcome of a point lookup.
#[derive(Debug, PartialEq, Eq)]
pub enum Lookup {
    /// A live value visible to the snapshot.
    Found(Vec<u8>),
    /// A tombstone visible to the snapshot: the key is deleted, and lower
    /// levels **must not** be consulted.
    Deleted,
    /// No version of this key exists here; fall through to the next level.
    Absent,
}

impl View for Lookup {
    type V = Option<Option<Seq<u8>>>;

    open spec fn view(&self) -> Option<Option<Seq<u8>>> {
        match *self {
            Lookup::Found(v) => Some(Some(v@)),
            Lookup::Deleted => Some(None),
            Lookup::Absent => None,
        }
    }
}

impl InternalKey {
    /// Creates an internal key.
    #[must_use]
    pub fn new(user_key: Vec<u8>, seqno: u64) -> (k: Self)
        ensures
            k.user_key == user_key,
            k.seqno == seqno,
    {
        InternalKey { user_key, seqno }
    }

    /// The smallest internal key for `user_key` (highest possible seqno).
    ///
    /// Used as the inclusive lower bound of a snapshot lookup.
    #[must_use]
    pub fn seek_max(user_key: Vec<u8>) -> (k: Self)
        ensures
            k.user_key == user_key,
            k.seqno == u64::MAX,
    {
        InternalKey { user_key, seqno: u64::MAX }
    }

    /// How two versions stand to each other.
    pub fn compare(&self, other: &InternalKey) -> (o: Order)
        ensures
            o == version_order(self@, other@),
    {
        order_versions(self.user_key.as_slice(), self.seqno, other.user_key.as_slice(), other.seqno)
    }
}

/// How two versions stand to each other.
pub open spec fn version_order(a: Version, b: Version) -> Order {
    if a == b {
        Order::Equal
    } else if version_lt(a, b) {
        Order::Less
    } else {
        Order::Greater
    }
}

/// How two versions stand to each other.
pub fn order_versions(a: &[u8], s: u64, b: &[u8], t: u64) -> (o: Order)
    ensures
        o == version_order((a@, s), (b@, t)),
        o == Order::Greater ==> version_lt((b@, t), (a@, s)),
{
    proof {
        lemma_lex_irreflexive(a@);
    }
    match order(a, b) {
        Order::Less => Order::Less,
        Order::Greater => {
            proof {
                lemma_lex_asymmetric(b@, a@);
            }
            Order::Greater
        },
        Order::Equal => if s > t {
            Order::Less
        } else if s == t {
            Order::Equal
        } else {
            Order::Greater
        },
    }
}

/// No version comes before itself.
pub proof fn lemma_version_irreflexive(a: Version)
    ensures
        !version_lt(a, a),
{
    lemma_lex_irreflexive(a.0);
}

/// The order of versions is transitive.
pub proof fn lemma_version_transitive(a: Version, b: Version, c: Version)
    requires
        version_lt(a, b),
        version_lt(b, c),
    ensures
        version_lt(a, c),
{
    if lex_lt(a.0, b.0) && lex_lt(b.0, c.0) {
        lemma_lex_transitive(a.0, b.0, c.0);
    }
}

/// Two versions are equal, or one comes before the other, not both.
pub proof fn lemma_version_total(a: Version, b: Version)
    ensures
        version_lt(a, b) || a == b || version_lt(b, a),
        version_lt(a, b) ==> !version_lt(b, a) && a != b,
{
    lemma_lex_total(a.0, b.0);
    lemma_lex_irreflexive(a.0);
    lemma_lex_irreflexive(b.0);
    if lex_lt(a.0, b.0) {
        lemma_lex_asymmetric(a.0, b.0);
    }
    if lex_lt(b.0, a.0) {
        lemma_lex_asymmetric(b.0, a.0);
    }
}

/// In order, a version stands at one place, and the map has it with what
/// stands there.
pub proof fn lemma_versions(run: Seq<Item>, i: int)
    requires
        in_order(run),
        0 <= i < run.len(),
    ensures
        versions(run).contains_key(run[i].0),
        versions(run)[run[i].0] == run[i].1,
{
    let v = run[i].0;
    assert(lists(run, v));
    let j = choose|j: int| 0 <= j < run.len() && (#[trigger] run[j]).0 == v;
    lemma_version_irreflexive(v);
    if j < i {
        assert(version_lt(run[j].0, run[i].0));
    }
    if i < j {
        assert(version_lt(run[i].0, run[j].0));
    }
}

/// A version that the map has stands somewhere in the run.
pub proof fn lemma_listed(run: Seq<Item>, v: Version) -> (i: int)
    requires
        versions(run).contains_key(v),
    ensures
        0 <= i < run.len(),
        run[i].0 == v,
{
    choose|i: int| 0 <= i < run.len() && (#[trigger] run[i]).0 == v
}

/// `n` of the versions come before `v`, and they are the first.
pub open spec fn ranks(run: Seq<Item>, v: Version, n: int) -> bool {
    &&& 0 <= n <= run.len()
    &&& forall|i: int| 0 <= i < n ==> version_lt((#[trigger] run[i]).0, v)
    &&& forall|i: int| n <= i < run.len() ==> !version_lt((#[trigger] run[i]).0, v)
}

/// What a snapshot sees is named by a newest version.
pub proof fn lemma_seen(m: Map<Version, Option<Seq<u8>>>, key: Seq<u8>, snapshot: u64, s: u64)
    requires
        is_newest(m, key, snapshot, s),
    ensures
        seen(m, key, snapshot) == Some(m[(key, s)]),
{
    let t = choose|t: u64| is_newest(m, key, snapshot, t);
    assert(m.contains_key((key, t)));
    assert(m.contains_key((key, s)));
    assert(s == t);
}

/// A run shows a snapshot what stands at the rank of the key and the snapshot.
pub proof fn lemma_run_seen(run: Seq<Item>, key: Seq<u8>, snapshot: u64, n: int)
    requires
        in_order(run),
        ranks(run, (key, snapshot), n),
    ensures
        seen(versions(run), key, snapshot) == if n < run.len() && run[n].0.0 == key {
            Some(run[n].1)
        } else {
            None
        },
{
    let m = versions(run);
    lemma_lex_irreflexive(key);
    if n < run.len() && run[n].0.0 == key {
        let s = run[n].0.1;
        lemma_versions(run, n);
        assert(!version_lt(run[n].0, (key, snapshot)));
        assert(s <= snapshot);
        assert forall|t: u64| #[trigger] m.contains_key((key, t)) && t <= snapshot implies t
            <= s by {
            let i = lemma_listed(run, (key, t));
            if i < n {
                assert(version_lt(run[i].0, (key, snapshot)));
            } else if i > n {
                assert(version_lt(run[n].0, run[i].0));
            }
        }
        lemma_seen(m, key, snapshot, s);
    } else {
        if exists|s: u64| is_newest(m, key, snapshot, s) {
            let s = choose|s: u64| is_newest(m, key, snapshot, s);
            let i = lemma_listed(run, (key, s));
            assert(!version_lt((key, s), (key, snapshot)));
            assert(i >= n);
            if i > n {
                assert(version_lt(run[n].0, run[i].0));
                lemma_version_total(run[n].0, (key, snapshot));
                assert(run[n].0 == (key, snapshot) || version_lt((key, snapshot), run[n].0));
                if version_lt((key, snapshot), run[n].0) {
                    // between two versions of the key only its versions stand
                    if lex_lt(key, run[n].0.0) {
                        if lex_lt(run[n].0.0, key) {
                            lemma_lex_asymmetric(key, run[n].0.0);
                        }
                    }
                }
                assert(false);
            }
        }
    }
}

/// The first version of its key that the snapshot sees.
pub open spec fn first_seen(run: Seq<Item>, j: int, snapshot: u64) -> bool {
    &&& run[j].0.1 <= snapshot
    &&& forall|i: int| 0 <= i < j && (#[trigger] run[i]).0.0 == run[j].0.0 ==> run[i].0.1 > snapshot
}

/// A snapshot sees of a key what the first version says that it sees.
pub proof fn lemma_first_seen(run: Seq<Item>, j: int, snapshot: u64)
    requires
        in_order(run),
        0 <= j < run.len(),
        first_seen(run, j, snapshot),
    ensures
        seen(versions(run), run[j].0.0, snapshot) == Some(run[j].1),
{
    let m = versions(run);
    let (k, s) = run[j].0;
    lemma_versions(run, j);
    assert forall|t: u64| #[trigger] m.contains_key((k, t)) && t <= snapshot implies t <= s by {
        let i = lemma_listed(run, (k, t));
        if i > j {
            assert(version_lt(run[j].0, run[i].0));
            lemma_lex_irreflexive(k);
        }
    }
    lemma_seen(m, k, snapshot, s);
}

/// A snapshot that sees no version of a key sees nothing of it.
pub proof fn lemma_unseen(run: Seq<Item>, key: Seq<u8>, snapshot: u64)
    requires
        forall|i: int|
            0 <= i < run.len() && (#[trigger] run[i]).0.0 == key ==> run[i].0.1 > snapshot,
    ensures
        seen(versions(run), key, snapshot) is None,
{
    let m = versions(run);
    if exists|s: u64| is_newest(m, key, snapshot, s) {
        let s = choose|s: u64| is_newest(m, key, snapshot, s);
        let i = lemma_listed(run, (key, s));
        assert(run[i].0.0 == key);
    }
}

} // verus!

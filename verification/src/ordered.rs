//! Byte strings kept in order: a set of them, and a map between them.

use crate::btree::scan::{listing, lower_ok, pairs, sorted, upper_ok, Bound};
use crate::bytes::{
    before, copy_bytes, lemma_lex_asymmetric, lemma_lex_irreflexive, lemma_lex_total,
    lemma_lex_transitive, lex_lt, same,
};
use vstd::prelude::*;

verus! {

/// The contents of a list of byte strings.
pub open spec fn byte_lists(v: Seq<Vec<u8>>) -> Seq<Seq<u8>> {
    Seq::new(v.len(), |i: int| v[i]@)
}

/// Each byte string comes before those behind it.
pub open spec fn ascending(s: Seq<Seq<u8>>) -> bool {
    forall|i: int, j: int| 0 <= i < j < s.len() ==> lex_lt(#[trigger] s[i], #[trigger] s[j])
}

/// `n` of the byte strings come before `k`, and they are the first.
pub open spec fn ranks(s: Seq<Seq<u8>>, k: Seq<u8>, n: int) -> bool {
    &&& 0 <= n <= s.len()
    &&& forall|i: int| 0 <= i < n ==> lex_lt(#[trigger] s[i], k)
    &&& forall|i: int| n <= i < s.len() ==> !lex_lt(#[trigger] s[i], k)
}

/// How many of the byte strings come before `k`.
pub fn seek(keys: &Vec<Vec<u8>>, k: &[u8]) -> (n: usize)
    requires
        ascending(byte_lists(keys@)),
    ensures
        ranks(byte_lists(keys@), k@, n as int),
{
    let ghost s = byte_lists(keys@);
    let mut lo: usize = 0;
    let mut hi: usize = keys.len();
    while lo < hi
        invariant
            s == byte_lists(keys@),
            ascending(s),
            0 <= lo <= hi <= s.len(),
            forall|i: int| 0 <= i < lo ==> lex_lt(#[trigger] s[i], k@),
            forall|i: int| hi <= i < s.len() ==> !lex_lt(#[trigger] s[i], k@),
        decreases hi - lo,
    {
        let mid: usize = lo + (hi - lo) / 2;
        assert(s[mid as int] == keys@[mid as int]@);
        if before(keys[mid].as_slice(), k) {
            assert forall|i: int| 0 <= i < mid + 1 implies lex_lt(#[trigger] s[i], k@) by {
                if i < mid {
                    lemma_lex_transitive(s[i], s[mid as int], k@);
                }
            }
            lo = mid + 1;
        } else {
            assert forall|i: int| mid <= i < s.len() implies !lex_lt(#[trigger] s[i], k@) by {
                if i > mid && lex_lt(s[i], k@) {
                    lemma_lex_transitive(s[mid as int], s[i], k@);
                }
            }
            hi = mid;
        }
    }
    lo
}

/// Among ascending byte strings `k` can only stand at its rank.
pub proof fn lemma_rank_is_place(s: Seq<Seq<u8>>, k: Seq<u8>, n: int)
    requires
        ascending(s),
        ranks(s, k, n),
    ensures
        s.contains(k) == (n < s.len() && s[n] == k),
{
    if s.contains(k) {
        let i = choose|i: int| 0 <= i < s.len() && s[i] == k;
        lemma_lex_irreflexive(k);
        assert(i >= n);
        if i > n {
            assert(lex_lt(s[n], s[i]));
        }
    }
}

/// Putting an absent byte string at its rank keeps the order.
pub proof fn lemma_insert_ascends(s: Seq<Seq<u8>>, k: Seq<u8>, n: int)
    requires
        ascending(s),
        ranks(s, k, n),
        !s.contains(k),
    ensures
        ascending(s.insert(n, k)),
        s.insert(n, k).to_set() == s.to_set().insert(k),
{
    let t = s.insert(n, k);
    assert forall|i: int, j: int| 0 <= i < j < t.len() implies lex_lt(
        #[trigger] t[i],
        #[trigger] t[j],
    ) by {
        if i == n {
            assert(t[j] == s[j - 1]);
            assert(!lex_lt(s[j - 1], k));
            lemma_lex_total(s[j - 1], k);
            assert(s.contains(s[j - 1]));
        } else if j == n {
            assert(t[i] == s[i]);
        } else {
            let a = if i < n {
                i
            } else {
                i - 1
            };
            let b = if j < n {
                j
            } else {
                j - 1
            };
            assert(t[i] == s[a] && t[j] == s[b]);
        }
    }
    assert forall|x: Seq<u8>| t.to_set().contains(x) == s.to_set().insert(k).contains(x) by {
        if t.contains(x) {
            let i = choose|i: int| 0 <= i < t.len() && t[i] == x;
            if i < n {
                assert(s[i] == x);
            } else if i > n {
                assert(s[i - 1] == x);
            }
        }
        if s.contains(x) {
            let i = choose|i: int| 0 <= i < s.len() && s[i] == x;
            if i < n {
                assert(t[i] == x);
            } else {
                assert(t[i + 1] == x);
            }
        }
        assert(t[n] == k);
    }
    assert(t.to_set() =~= s.to_set().insert(k));
}

/// Taking one away keeps the order.
pub proof fn lemma_remove_ascends(s: Seq<Seq<u8>>, n: int)
    requires
        ascending(s),
        0 <= n < s.len(),
    ensures
        ascending(s.remove(n)),
        s.remove(n).to_set() == s.to_set().remove(s[n]),
{
    let t = s.remove(n);
    assert forall|i: int, j: int| 0 <= i < j < t.len() implies lex_lt(
        #[trigger] t[i],
        #[trigger] t[j],
    ) by {
        let a = if i < n {
            i
        } else {
            i + 1
        };
        let b = if j < n {
            j
        } else {
            j + 1
        };
        assert(t[i] == s[a] && t[j] == s[b]);
    }
    assert forall|x: Seq<u8>| t.to_set().contains(x) == s.to_set().remove(s[n]).contains(x) by {
        if t.contains(x) {
            let i = choose|i: int| 0 <= i < t.len() && t[i] == x;
            let a = if i < n {
                i
            } else {
                i + 1
            };
            assert(s[a] == x);
            lemma_lex_irreflexive(x);
            if x == s[n] {
                if a < n {
                    assert(lex_lt(s[a], s[n]));
                } else {
                    assert(lex_lt(s[n], s[a]));
                }
            }
        }
        if s.contains(x) && x != s[n] {
            let i = choose|i: int| 0 <= i < s.len() && s[i] == x;
            if i < n {
                assert(t[i] == x);
            } else {
                assert(t[i - 1] == x);
            }
        }
    }
    assert(t.to_set() =~= s.to_set().remove(s[n]));
}

/// No byte string occurs twice among ascending ones.
pub proof fn lemma_ascending_distinct(s: Seq<Seq<u8>>)
    requires
        ascending(s),
    ensures
        s.no_duplicates(),
        s.to_set().finite(),
        s.to_set().len() == s.len(),
{
    assert forall|i: int, j: int| 0 <= i < s.len() && 0 <= j < s.len() && i != j implies s[i]
        != s[j] by {
        lemma_lex_irreflexive(s[i]);
        if i < j {
            assert(lex_lt(s[i], s[j]));
        } else {
            assert(lex_lt(s[j], s[i]));
        }
    }
    s.unique_seq_to_set();
    vstd::seq_lib::seq_to_set_is_finite(s);
}

/// A set has one ascending list.
pub proof fn law_a_set_has_one_ascending_list(a: Seq<Seq<u8>>, b: Seq<Seq<u8>>)
    requires
        ascending(a),
        ascending(b),
        a.to_set() == b.to_set(),
    ensures
        a == b,
    decreases a.len(),
{
    lemma_ascending_distinct(a);
    lemma_ascending_distinct(b);
    if a.len() > 0 {
        let (x, y) = (a.last(), b.last());
        assert(a.to_set().contains(y)) by {
            assert(b.to_set().contains(y));
        }
        assert(b.to_set().contains(x)) by {
            assert(a.to_set().contains(x));
        }
        let i = choose|i: int| 0 <= i < a.len() && a[i] == y;
        let j = choose|j: int| 0 <= j < b.len() && b[j] == x;
        if x != y {
            assert(lex_lt(a[i], a[a.len() - 1]));
            assert(lex_lt(b[j], b[b.len() - 1]));
            lemma_lex_asymmetric(x, y);
        }
        lemma_remove_ascends(a, a.len() - 1);
        lemma_remove_ascends(b, b.len() - 1);
        law_a_set_has_one_ascending_list(a.remove(a.len() - 1), b.remove(b.len() - 1));
        assert(a =~= a.remove(a.len() - 1).push(x));
        assert(b =~= b.remove(b.len() - 1).push(y));
    } else {
        assert(a =~= b);
    }
}

/// A set of byte strings, listed in order.
#[derive(Debug, PartialEq, Eq)]
pub struct ByteSet {
    /// The members, ascending.
    pub items: Vec<Vec<u8>>,
}

impl View for ByteSet {
    type V = Set<Seq<u8>>;

    open spec fn view(&self) -> Set<Seq<u8>> {
        byte_lists(self.items@).to_set()
    }
}

impl ByteSet {
    /// The members ascend.
    pub open spec fn wf(&self) -> bool {
        ascending(byte_lists(self.items@))
    }

    /// The empty set.
    pub fn new() -> (s: ByteSet)
        ensures
            s.wf(),
            s@ == Set::<Seq<u8>>::empty(),
            s.items@.len() == 0,
    {
        let s: ByteSet = ByteSet { items: Vec::new() };
        assert(s@ =~= Set::empty());
        s
    }

    /// How many members there are.
    pub fn len(&self) -> (n: usize)
        requires
            self.wf(),
        ensures
            n == self@.len(),
            self@.finite(),
    {
        proof {
            lemma_ascending_distinct(byte_lists(self.items@));
        }
        self.items.len()
    }

    /// Whether `k` is a member.
    pub fn contains(&self, k: &[u8]) -> (r: bool)
        requires
            self.wf(),
        ensures
            r == self@.contains(k@),
    {
        let n: usize = seek(&self.items, k);
        proof {
            lemma_rank_is_place(byte_lists(self.items@), k@, n as int);
        }
        n < self.items.len() && same(self.items[n].as_slice(), k)
    }

    /// Adds `k`; tells whether it was new.
    pub fn insert(&mut self, k: Vec<u8>) -> (added: bool)
        requires
            old(self).wf(),
        ensures
            final(self).wf(),
            final(self)@ == old(self)@.insert(k@),
            added == !old(self)@.contains(k@),
    {
        let ghost s = byte_lists(self.items@);
        let n: usize = seek(&self.items, k.as_slice());
        proof {
            lemma_rank_is_place(s, k@, n as int);
        }
        if n < self.items.len() && same(self.items[n].as_slice(), k.as_slice()) {
            assert(self@ =~= old(self)@.insert(k@));
            return false;
        }
        proof {
            lemma_insert_ascends(s, k@, n as int);
        }
        let ghost key = k@;
        self.items.insert(n, k);
        assert(byte_lists(self.items@) =~= s.insert(n as int, key));
        true
    }

    /// Adds every member of `other`.
    pub fn union(&mut self, other: ByteSet)
        requires
            old(self).wf(),
            other.wf(),
        ensures
            final(self).wf(),
            final(self)@ == old(self)@.union(other@),
    {
        let ghost all = byte_lists(other.items@);
        let mut i: usize = 0;
        assert(all.subrange(0, 0).to_set() =~= Set::empty());
        assert(self@ =~= old(self)@.union(all.subrange(0, 0).to_set()));
        while i < other.items.len()
            invariant
                self.wf(),
                i <= other.items@.len(),
                all == byte_lists(other.items@),
                self@ == old(self)@.union(all.subrange(0, i as int).to_set()),
            decreases other.items@.len() - i,
        {
            let ghost was = self@;
            self.insert(copy_bytes(other.items[i].as_slice()));
            proof {
                lemma_take_one_more(all, i as int);
            }
            assert(self@ =~= old(self)@.union(all.subrange(0, i + 1).to_set()));
            i += 1;
        }
        assert(all.subrange(0, i as int) =~= all);
    }

    /// The members that `keep` decides for: those in `other` where `inside`,
    /// those outside it where not.
    fn select(&self, other: &ByteSet, inside: bool) -> (r: ByteSet)
        requires
            self.wf(),
            other.wf(),
        ensures
            r.wf(),
            r@ == self@.filter(|k: Seq<u8>| other@.contains(k) == inside),
    {
        let ghost all = byte_lists(self.items@);
        let ghost keep = |k: Seq<u8>| other@.contains(k) == inside;
        let mut out: Vec<Vec<u8>> = Vec::new();
        let mut i: usize = 0;
        assert(all.subrange(0, 0).to_set().filter(keep) =~= Set::empty());
        assert(byte_lists(out@).to_set() =~= Set::empty());
        while i < self.items.len()
            invariant
                self.wf(),
                other.wf(),
                i <= self.items@.len(),
                all == byte_lists(self.items@),
                keep == (|k: Seq<u8>| other@.contains(k) == inside),
                ascending(byte_lists(out@)),
                byte_lists(out@).to_set() == all.subrange(0, i as int).to_set().filter(keep),
            decreases self.items@.len() - i,
        {
            let ghost was = byte_lists(out@);
            proof {
                lemma_take_one_more(all, i as int);
            }
            assert(all[i as int] == self.items@[i as int]@);
            if other.contains(self.items[i].as_slice()) == inside {
                let ghost k = self.items@[i as int]@;
                out.push(copy_bytes(self.items[i].as_slice()));
                assert(byte_lists(out@) =~= was.push(k));
                assert(ascending(was.push(k))) by {
                    assert forall|a: int| 0 <= a < was.len() implies lex_lt(#[trigger] was[a], k) by {
                        assert(was.to_set().contains(was[a]));
                        let b = choose|b: int|
                            0 <= b < i && all.subrange(0, i as int)[b] == was[a];
                        assert(lex_lt(all[b], all[i as int]));
                    }
                }
                proof {
                    lemma_push_to_set(was, k);
                }
            }
            assert(byte_lists(out@).to_set() =~= all.subrange(0, i + 1).to_set().filter(keep));
            i += 1;
        }
        assert(all.subrange(0, i as int) =~= all);
        ByteSet { items: out }
    }

    /// The members that `other` has too.
    pub fn intersection(&self, other: &ByteSet) -> (r: ByteSet)
        requires
            self.wf(),
            other.wf(),
        ensures
            r.wf(),
            r@ == self@.intersect(other@),
    {
        let r: ByteSet = self.select(other, true);
        assert(r@ =~= self@.intersect(other@));
        r
    }

    /// The members that `other` lacks.
    pub fn difference(&self, other: &ByteSet) -> (r: ByteSet)
        requires
            self.wf(),
            other.wf(),
        ensures
            r.wf(),
            r@ == self@.difference(other@),
    {
        let r: ByteSet = self.select(other, false);
        assert(r@ =~= self@.difference(other@));
        r
    }

    /// Another copy of the set.
    pub fn copy(&self) -> (r: ByteSet)
        requires
            self.wf(),
        ensures
            r.wf(),
            r@ == self@,
    {
        let none: ByteSet = ByteSet::new();
        let r: ByteSet = self.difference(&none);
        assert(r@ =~= self@);
        r
    }
}

proof fn lemma_take_one_more(s: Seq<Seq<u8>>, i: int)
    requires
        0 <= i < s.len(),
    ensures
        s.subrange(0, i + 1).to_set() == s.subrange(0, i).to_set().insert(s[i]),
{
    assert(s.subrange(0, i + 1) =~= s.subrange(0, i).push(s[i]));
    lemma_push_to_set(s.subrange(0, i), s[i]);
}

/// What a list holds with one more at its end.
pub proof fn lemma_push_to_set(s: Seq<Seq<u8>>, k: Seq<u8>)
    ensures
        s.push(k).to_set() == s.to_set().insert(k),
{
    let t = s.push(k);
    assert forall|x: Seq<u8>| t.to_set().contains(x) == s.to_set().insert(k).contains(x) by {
        if s.contains(x) {
            let i = choose|i: int| 0 <= i < s.len() && s[i] == x;
            assert(t[i] == x);
        }
        assert(t[s.len() as int] == k);
    }
    assert(t.to_set() =~= s.to_set().insert(k));
}


/// The part of a map whose keys lie in a range.
pub open spec fn bounded(m: Map<Seq<u8>, Seq<u8>>, lo: Bound, hi: Bound) -> Map<
    Seq<u8>,
    Seq<u8>,
> {
    m.restrict(Set::new(|k: Seq<u8>| lower_ok(lo, k) && upper_ok(hi, k)))
}

/// A map between byte strings, listed in key order.
#[derive(Debug, PartialEq, Eq)]
pub struct Store {
    /// The keys, ascending.
    pub keys: Vec<Vec<u8>>,
    /// The value of each key.
    pub values: Vec<Vec<u8>>,
}

impl View for Store {
    type V = Map<Seq<u8>, Seq<u8>>;

    open spec fn view(&self) -> Map<Seq<u8>, Seq<u8>> {
        let ks = byte_lists(self.keys@);
        let vs = byte_lists(self.values@);
        Map::new(|k: Seq<u8>| ks.contains(k), |k: Seq<u8>| vs[ks.index_of(k)])
    }
}

pub proof fn lemma_index_of(s: Seq<Seq<u8>>, n: int)
    requires
        ascending(s),
        0 <= n < s.len(),
    ensures
        s.index_of(s[n]) == n,
        s.contains(s[n]),
{
    lemma_ascending_distinct(s);
    let i = s.index_of(s[n]);
    assert(s.contains(s[n]));
    assert(0 <= i < s.len() && s[i] == s[n]);
}

impl Store {
    /// The keys ascend and each has a value.
    pub open spec fn wf(&self) -> bool {
        &&& ascending(byte_lists(self.keys@))
        &&& self.values@.len() == self.keys@.len()
    }

    /// The empty map.
    pub fn new() -> (s: Store)
        ensures
            s.wf(),
            s@ == Map::<Seq<u8>, Seq<u8>>::empty(),
    {
        let s: Store = Store { keys: Vec::new(), values: Vec::new() };
        assert(s@ =~= Map::empty());
        s
    }

    /// The value of `k`.
    pub fn get(&self, k: &[u8]) -> (r: Option<Vec<u8>>)
        requires
            self.wf(),
        ensures
            match r {
                Some(v) => self@.contains_key(k@) && self@[k@] == v@,
                None => !self@.contains_key(k@),
            },
    {
        let n: usize = seek(&self.keys, k);
        let ghost ks = byte_lists(self.keys@);
        proof {
            lemma_rank_is_place(ks, k@, n as int);
        }
        if n < self.keys.len() && same(self.keys[n].as_slice(), k) {
            proof {
                lemma_index_of(ks, n as int);
            }
            Some(copy_bytes(self.values[n].as_slice()))
        } else {
            None
        }
    }

    /// Whether `k` has a value.
    pub fn contains_key(&self, k: &[u8]) -> (r: bool)
        requires
            self.wf(),
        ensures
            r == self@.contains_key(k@),
    {
        let n: usize = seek(&self.keys, k);
        proof {
            lemma_rank_is_place(byte_lists(self.keys@), k@, n as int);
        }
        n < self.keys.len() && same(self.keys[n].as_slice(), k)
    }

    /// Gives `k` the value `v`.
    pub fn insert(&mut self, k: Vec<u8>, v: Vec<u8>)
        requires
            old(self).wf(),
        ensures
            final(self).wf(),
            final(self)@ == old(self)@.insert(k@, v@),
    {
        let ghost ks = byte_lists(self.keys@);
        let ghost vs = byte_lists(self.values@);
        let n: usize = seek(&self.keys, k.as_slice());
        let ghost (key, value) = (k@, v@);
        proof {
            lemma_rank_is_place(ks, k@, n as int);
        }
        if n < self.keys.len() && same(self.keys[n].as_slice(), k.as_slice()) {
            self.values.set(n, v);
            let ghost us = byte_lists(self.values@);
            assert(us =~= vs.update(n as int, value));
            proof {
                lemma_index_of(ks, n as int);
                assert forall|x: Seq<u8>| ks.contains(x) implies us[ks.index_of(x)]
                    == #[trigger] old(self)@.insert(key, value)[x] by {
                    let i = ks.index_of(x);
                    assert(ks[i] == x);
                }
            }
            assert(self@ =~= old(self)@.insert(key, value));
        } else {
            proof {
                lemma_insert_ascends(ks, k@, n as int);
            }
            self.keys.insert(n, k);
            self.values.insert(n, v);
            let ghost js = byte_lists(self.keys@);
            let ghost us = byte_lists(self.values@);
            assert(js =~= ks.insert(n as int, key));
            assert(us =~= vs.insert(n as int, value));
            proof {
                assert forall|x: Seq<u8>| js.contains(x) == (ks.contains(x) || x == key) by {
                    assert(js.to_set().contains(x) == ks.to_set().insert(key).contains(x));
                }
                assert forall|x: Seq<u8>| js.contains(x) implies us[js.index_of(x)]
                    == #[trigger] old(self)@.insert(key, value)[x] by {
                    if x == key {
                        lemma_index_of(js, n as int);
                    } else {
                        let i = ks.index_of(x);
                        assert(ks.contains(x));
                        assert(ks[i] == x);
                        let j = if i < n {
                            i
                        } else {
                            i + 1
                        };
                        assert(js[j] == x);
                        lemma_index_of(js, j);
                    }
                }
            }
            assert(self@ =~= old(self)@.insert(key, value));
        }
    }

    /// Takes `k` away; tells whether it was there.
    pub fn remove(&mut self, k: &[u8]) -> (found: bool)
        requires
            old(self).wf(),
        ensures
            final(self).wf(),
            final(self)@ == old(self)@.remove(k@),
            found == old(self)@.contains_key(k@),
    {
        let ghost ks = byte_lists(self.keys@);
        let ghost vs = byte_lists(self.values@);
        let n: usize = seek(&self.keys, k);
        proof {
            lemma_rank_is_place(ks, k@, n as int);
        }
        if n < self.keys.len() && same(self.keys[n].as_slice(), k) {
            proof {
                lemma_remove_ascends(ks, n as int);
            }
            self.keys.remove(n);
            self.values.remove(n);
            let ghost js = byte_lists(self.keys@);
            let ghost us = byte_lists(self.values@);
            assert(js =~= ks.remove(n as int));
            assert(us =~= vs.remove(n as int));
            proof {
                assert forall|x: Seq<u8>| js.contains(x) == (ks.contains(x) && x != k@) by {
                    assert(js.to_set().contains(x) == ks.to_set().remove(k@).contains(x));
                }
                assert forall|x: Seq<u8>| js.contains(x) implies us[js.index_of(x)]
                    == #[trigger] old(self)@.remove(k@)[x] by {
                    assert(ks.contains(x));
                    let i = ks.index_of(x);
                    assert(ks[i] == x);
                    let j = if i < n {
                        i
                    } else {
                        i - 1
                    };
                    assert(js[j] == x);
                    lemma_index_of(js, j);
                }
            }
            assert(self@ =~= old(self)@.remove(k@));
            true
        } else {
            assert(self@ =~= old(self)@.remove(k@));
            false
        }
    }

    /// The keys and values of a range, in key order.
    pub fn range(&self, lo: &Bound, hi: &Bound) -> (out: Vec<(Vec<u8>, Vec<u8>)>)
        requires
            self.wf(),
        ensures
            listing(bounded(self@, *lo, *hi), pairs(out@)),
    {
        let ghost ks = byte_lists(self.keys@);
        let ghost vs = byte_lists(self.values@);
        let ghost m = bounded(self@, *lo, *hi);
        let mut i: usize = match lo {
            Bound::Unbounded => 0,
            Bound::Included(b) => seek(&self.keys, b.as_slice()),
            Bound::Excluded(b) => seek(&self.keys, b.as_slice()),
        };
        assert forall|j: int| 0 <= j < i implies !lower_ok(*lo, #[trigger] ks[j]) by {
            match lo {
                Bound::Unbounded => {},
                Bound::Included(b) => {
                    lemma_lex_asymmetric(ks[j], b@);
                },
                Bound::Excluded(b) => {
                    lemma_lex_asymmetric(ks[j], b@);
                },
            }
        }
        let mut out: Vec<(Vec<u8>, Vec<u8>)> = Vec::new();
        while i < self.keys.len()
            invariant
                self.wf(),
                ks == byte_lists(self.keys@),
                vs == byte_lists(self.values@),
                m == bounded(self@, *lo, *hi),
                i <= self.keys@.len(),
                sorted(pairs(out@)),
                forall|j: int|
                    0 <= j < out@.len() ==> m.contains_key((#[trigger] pairs(out@)[j]).0)
                        && m[pairs(out@)[j].0] == pairs(out@)[j].1,
                forall|j: int, a: int|
                    0 <= j < out@.len() && i <= a < ks.len() ==> lex_lt(
                        (#[trigger] pairs(out@)[j]).0,
                        #[trigger] ks[a],
                    ),
                forall|a: int|
                    0 <= a < i && lower_ok(*lo, ks[a]) && upper_ok(*hi, ks[a])
                        ==> exists|j: int| 0 <= j < out@.len() && (#[trigger] pairs(out@)[j]).0 == #[trigger] ks[a],
            decreases self.keys@.len() - i,
        {
            assert(ks[i as int] == self.keys@[i as int]@);
            let ghost was = pairs(out@);
            proof {
                lemma_index_of(ks, i as int);
            }
            let inside: bool = self.below(i, hi) && self.above(i, lo);
            if inside {
                out.push(
                    (
                        copy_bytes(self.keys[i].as_slice()),
                        copy_bytes(self.values[i].as_slice()),
                    ),
                );
                assert(pairs(out@) =~= was.push((ks[i as int], vs[i as int])));
            }
            proof {
                let now = pairs(out@);
                assert forall|a: int|
                    0 <= a < i + 1 && lower_ok(*lo, ks[a]) && upper_ok(
                        *hi,
                        ks[a],
                    ) implies exists|j: int|
                    0 <= j < out@.len() && (#[trigger] now[j]).0 == #[trigger] ks[a] by {
                    if a < i {
                        let j = choose|j: int|
                            0 <= j < was.len() && (#[trigger] was[j]).0 == ks[a];
                        assert(now[j] == was[j]);
                    } else {
                        assert(now[was.len() as int].0 == ks[a]);
                    }
                }
                assert forall|j: int| 0 <= j < now.len() implies m.contains_key(
                    (#[trigger] now[j]).0,
                ) && m[now[j].0] == now[j].1 by {
                    if j < was.len() {
                        assert(now[j] == was[j]);
                    }
                }
                assert forall|j: int, a: int|
                    0 <= j < now.len() && i + 1 <= a < ks.len() implies lex_lt(
                    (#[trigger] now[j]).0,
                    #[trigger] ks[a],
                ) by {
                    if j < was.len() {
                        assert(now[j] == was[j]);
                    }
                }
                assert forall|a: int, b: int| 0 <= a < b < now.len() implies lex_lt(
                    #[trigger] now[a].0,
                    #[trigger] now[b].0,
                ) by {
                    assert(now[a] == was[a]);
                    if b < was.len() {
                        assert(now[b] == was[b]);
                    }
                }
            }
            i += 1;
        }
        proof {
            let now = pairs(out@);
            assert forall|k: Seq<u8>| #[trigger] m.contains_key(k) implies exists|j: int|
                0 <= j < now.len() && (#[trigger] now[j]).0 == k by {
                let a = ks.index_of(k);
                assert(ks.contains(k));
                assert(ks[a] == k);
                let j = choose|j: int| 0 <= j < now.len() && (#[trigger] now[j]).0 == ks[a];
                assert(now[j].0 == k);
            }
        }
        out
    }

    fn above(&self, i: usize, lo: &Bound) -> (r: bool)
        requires
            i < self.keys@.len(),
        ensures
            r == lower_ok(*lo, self.keys@[i as int]@),
    {
        match lo {
            Bound::Unbounded => true,
            Bound::Included(b) => {
                proof {
                    lemma_below_or_same(b@, self.keys@[i as int]@);
                }
                !before(self.keys[i].as_slice(), b.as_slice())
            },
            Bound::Excluded(b) => before(b.as_slice(), self.keys[i].as_slice()),
        }
    }

    fn below(&self, i: usize, hi: &Bound) -> (r: bool)
        requires
            i < self.keys@.len(),
        ensures
            r == upper_ok(*hi, self.keys@[i as int]@),
    {
        match hi {
            Bound::Unbounded => true,
            Bound::Included(b) => {
                proof {
                    lemma_below_or_same(self.keys@[i as int]@, b@);
                }
                !before(b.as_slice(), self.keys[i].as_slice())
            },
            Bound::Excluded(b) => before(self.keys[i].as_slice(), b.as_slice()),
        }
    }

    /// Another copy of the map.
    pub fn copy(&self) -> (r: Store)
        requires
            self.wf(),
        ensures
            r.wf(),
            r@ == self@,
    {
        let mut r: Store = Store { keys: Vec::new(), values: Vec::new() };
        let mut i: usize = 0;
        while i < self.keys.len()
            invariant
                self.wf(),
                i <= self.keys@.len(),
                r.keys@.len() == i,
                r.values@.len() == i,
                byte_lists(r.keys@) == byte_lists(self.keys@).subrange(0, i as int),
                byte_lists(r.values@) == byte_lists(self.values@).subrange(0, i as int),
            decreases self.keys@.len() - i,
        {
            r.keys.push(copy_bytes(self.keys[i].as_slice()));
            r.values.push(copy_bytes(self.values[i].as_slice()));
            i += 1;
            assert(byte_lists(r.keys@) =~= byte_lists(self.keys@).subrange(0, i as int));
            assert(byte_lists(r.values@) =~= byte_lists(self.values@).subrange(0, i as int));
        }
        assert(byte_lists(r.keys@) =~= byte_lists(self.keys@));
        assert(byte_lists(r.values@) =~= byte_lists(self.values@));
        r
    }
}

proof fn lemma_below_or_same(a: Seq<u8>, b: Seq<u8>)
    ensures
        !lex_lt(b, a) == (a == b || lex_lt(a, b)),
{
    lemma_lex_total(a, b);
    lemma_lex_irreflexive(a);
    if lex_lt(a, b) {
        lemma_lex_asymmetric(a, b);
    }
}

} // verus!

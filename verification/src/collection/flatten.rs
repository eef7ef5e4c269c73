//! What a document's metadata contributes to the index.

use crate::bytes::{
    copy_bytes, lemma_lex_total, lemma_lex_transitive, lex_lt, order,
    push_bytes, Order,
};
use crate::collection::filter::{
    contains_byte, field_ok, present_at, reaches, scalar_of, segments, validate_field,
};
use crate::collection::scalar::{encoding, fits_index, Datum, Scalar};
use crate::error::Error;
use crate::json::{
    distinct_keys, lemma_position, lemma_position_unique, position, tree, utf8, Json, Tree,
};
use crate::ordered::ByteSet;
use vstd::prelude::*;
use vstd::utf8::*;

verus! {

/// What the index takes note of while metadata is walked.
pub enum Event {
    /// The path leads to a value other than an array.
    Present(Seq<u8>),
    /// The path leads to this indexable scalar.
    Value(Seq<u8>, Datum),
}

/// A path one step longer.
pub open spec fn join(path: Seq<u8>, key: Seq<u8>) -> Seq<u8> {
    if path.len() == 0 {
        key
    } else {
        path + seq![0x2Eu8] + key
    }
}

/// Whether a name can be a metadata key: a field name without dots.
pub open spec fn key_ok(key: Seq<u8>) -> bool {
    field_ok(key) && !key.contains(0x2E)
}

/// Whether the index accepts metadata: every key can be one, and every number
/// below the top is finite.
pub open spec fn acceptable(t: Tree, path: Seq<u8>) -> bool
    decreases t,
{
    match t {
        Tree::Object(members) => forall|i: int|
            0 <= i < members.len() ==> key_ok((#[trigger] members[i]).0) && acceptable(
                members[i].1,
                join(path, members[i].0),
            ),
        Tree::List(items) => forall|i: int|
            0 <= i < items.len() ==> acceptable(#[trigger] items[i], path),
        _ => path.len() > 0 ==> scalar_of(t) is Some,
    }
}

/// The events of a value at `path`, in order.
pub open spec fn events(t: Tree, path: Seq<u8>) -> Seq<Event>
    decreases t,
{
    let here = if path.len() > 0 && !(t is List) {
        seq![Event::Present(path)]
    } else {
        Seq::empty()
    };
    match t {
        Tree::Object(members) => here + member_events(members, path),
        Tree::List(items) => here + item_events(items, path),
        _ => match scalar_of(t) {
            Some(d) => if path.len() > 0 && fits_index(d) {
                here.push(Event::Value(path, d))
            } else {
                here
            },
            None => here,
        },
    }
}

/// The events of an object's members, in order.
pub open spec fn member_events(members: Seq<(Seq<u8>, Tree)>, path: Seq<u8>) -> Seq<Event>
    decreases members,
{
    if members.len() == 0 {
        Seq::empty()
    } else {
        let last = members[members.len() - 1];
        member_events(members.subrange(0, members.len() - 1), path) + events(
            last.1,
            join(path, last.0),
        )
    }
}

/// The events of an array's elements, in order.
pub open spec fn item_events(items: Seq<Tree>, path: Seq<u8>) -> Seq<Event>
    decreases items,
{
    if items.len() == 0 {
        Seq::empty()
    } else {
        item_events(items.subrange(0, items.len() - 1), path) + events(
            items[items.len() - 1],
            path,
        )
    }
}

/// The scalars among the events, in order.
pub open spec fn values_of(es: Seq<Event>) -> Seq<(Seq<u8>, Datum)>
    decreases es.len(),
{
    if es.len() == 0 {
        Seq::empty()
    } else {
        match es.last() {
            Event::Value(p, d) => values_of(es.drop_last()).push((p, d)),
            _ => values_of(es.drop_last()),
        }
    }
}

/// The paths among the events.
pub open spec fn paths_of(es: Seq<Event>) -> Set<Seq<u8>>
    decreases es.len(),
{
    if es.len() == 0 {
        Set::empty()
    } else {
        match es.last() {
            Event::Present(p) => paths_of(es.drop_last()).insert(p),
            _ => paths_of(es.drop_last()),
        }
    }
}

/// How many entries the events make: each scalar, and each path once.
pub open spec fn entries_of(es: Seq<Event>) -> nat {
    values_of(es).len() + paths_of(es).len()
}

pub(crate) proof fn lemma_values_of_concat(a: Seq<Event>, b: Seq<Event>)
    ensures
        values_of(a + b) == values_of(a) + values_of(b),
    decreases b.len(),
{
    if b.len() == 0 {
        assert(a + b =~= a);
        assert(values_of(a) + values_of(b) =~= values_of(a));
    } else {
        lemma_values_of_concat(a, b.drop_last());
        assert((a + b).drop_last() =~= a + b.drop_last());
        assert((a + b).last() == b.last());
        assert(values_of(a + b) =~= values_of(a) + values_of(b));
    }
}

pub(crate) proof fn lemma_paths_of_concat(a: Seq<Event>, b: Seq<Event>)
    ensures
        paths_of(a + b) == paths_of(a).union(paths_of(b)),
        paths_of(a).finite(),
        paths_of(b).finite(),
    decreases a.len() + b.len(),
{
    if b.len() == 0 {
        assert(a + b =~= a);
        assert(paths_of(a) =~= paths_of(a).union(paths_of(b)));
        if a.len() > 0 {
            lemma_paths_of_concat(a.drop_last(), b);
        }
    } else {
        lemma_paths_of_concat(a, b.drop_last());
        assert((a + b).drop_last() =~= a + b.drop_last());
        assert((a + b).last() == b.last());
        assert(paths_of(a + b) =~= paths_of(a).union(paths_of(b)));
    }
}

/// More events make no fewer entries.
proof fn lemma_entries_grow(a: Seq<Event>, b: Seq<Event>)
    ensures
        entries_of(a) <= entries_of(a + b),
{
    lemma_values_of_concat(a, b);
    lemma_paths_of_concat(a, b);
    vstd::set_lib::lemma_len_subset(paths_of(a), paths_of(a + b));
}

/// What the members behind the first `n` add.
proof fn lemma_member_events_split(members: Seq<(Seq<u8>, Tree)>, path: Seq<u8>, n: int) -> (rest:
    Seq<Event>)
    requires
        0 <= n <= members.len(),
    ensures
        member_events(members, path) == member_events(members.subrange(0, n), path) + rest,
    decreases members.len() - n,
{
    if n == members.len() {
        assert(members.subrange(0, n) =~= members);
        assert(member_events(members, path) + Seq::<Event>::empty() =~= member_events(
            members,
            path,
        ));
        Seq::empty()
    } else {
        let more = members.subrange(0, n + 1);
        assert(more.subrange(0, more.len() - 1) =~= members.subrange(0, n));
        let tail = lemma_member_events_split(members, path, n + 1);
        let step = events(members[n].1, join(path, members[n].0));
        assert(member_events(more, path) == member_events(members.subrange(0, n), path) + step);
        assert(member_events(members, path) =~= member_events(members.subrange(0, n), path) + (step
            + tail));
        step + tail
    }
}

/// What the elements behind the first `n` add.
proof fn lemma_item_events_split(items: Seq<Tree>, path: Seq<u8>, n: int) -> (rest: Seq<Event>)
    requires
        0 <= n <= items.len(),
    ensures
        item_events(items, path) == item_events(items.subrange(0, n), path) + rest,
    decreases items.len() - n,
{
    if n == items.len() {
        assert(items.subrange(0, n) =~= items);
        assert(item_events(items, path) + Seq::<Event>::empty() =~= item_events(items, path));
        Seq::empty()
    } else {
        let more = items.subrange(0, n + 1);
        assert(more.subrange(0, more.len() - 1) =~= items.subrange(0, n));
        let tail = lemma_item_events_split(items, path, n + 1);
        let step = events(items[n], path);
        assert(item_events(more, path) == item_events(items.subrange(0, n), path) + step);
        assert(item_events(items, path) =~= item_events(items.subrange(0, n), path) + (step
            + tail));
        step + tail
    }
}

// ---- the walk ---------------------------------------------------------------

/// The contents of a list of scalars with their paths.
pub open spec fn placed(v: Seq<(Vec<u8>, Scalar)>) -> Seq<(Seq<u8>, Datum)> {
    Seq::new(v.len(), |i: int| (v[i].0@, v[i].1@))
}

/// What the walk has gathered so far.
struct Walk {
    values: Vec<(Vec<u8>, Scalar)>,
    present: ByteSet,
}

impl Walk {
    spec fn gathered(&self, es: Seq<Event>) -> bool {
        &&& self.present.wf()
        &&& placed(self.values@) == values_of(es)
        &&& self.present@ == paths_of(es)
    }

    /// Notes that `path` is present.
    fn note(&mut self, path: &Vec<u8>, Ghost(es): Ghost<Seq<Event>>)
        requires
            old(self).gathered(es),
        ensures
            final(self).gathered(es.push(Event::Present(path@))),
    {
        let ghost more = es.push(Event::Present(path@));
        assert(more.drop_last() =~= es);
        self.present.insert(copy_bytes(path.as_slice()));
    }

    /// Takes the events of `value` at `path`; `es` are those before it.
    #[verifier::rlimit(60)]
    #[verifier::spinoff_prover]
    fn walk(
        &mut self,
        value: &Json,
        path: &Vec<u8>,
        limit: usize,
        Ghost(es): Ghost<Seq<Event>>,
    ) -> (r: Result<(), Error>)
        requires
            old(self).gathered(es),
        ensures
            match r {
                Ok(_) => {
                    &&& final(self).gathered(es + events(value@, path@))
                    &&& acceptable(value@, path@)
                    &&& entries_of(es + events(value@, path@)) <= limit
                },
                Err(e) => e is InvalidArgument && (!acceptable(value@, path@) || entries_of(
                    es + events(value@, path@),
                ) > limit),
            },
        decreases *value,
    {
        let ghost all = events(value@, path@);
        let ghost here: Seq<Event> = if path@.len() > 0 && !(value@ is List) {
            seq![Event::Present(path@)]
        } else {
            Seq::empty()
        };
        match value {
            Json::Object(members) => {
                let ghost ms = value@->Object_0;
                if path.len() > 0 {
                    self.note(path, Ghost(es));
                    assert(es.push(Event::Present(path@)) =~= es + here);
                } else {
                    assert(es + here =~= es);
                }
                let mut i: usize = 0;
                assert(ms.subrange(0, 0) =~= Seq::empty());
                assert(es + here + member_events(ms.subrange(0, 0), path@) =~= es + here);
                while i < members.len()
                    invariant
                        i <= members@.len(),
                        *value == Json::Object(*members),
                        value@ == Tree::Object(ms),
                        ms.len() == members@.len(),
                        forall|j: int|
                            0 <= j < ms.len() ==> #[trigger] ms[j] == (
                                utf8(members@[j].0),
                                tree(members@[j].1),
                            ),
                        all == events(value@, path@),
                        all == here + member_events(ms, path@),
                        self.gathered(es + here + member_events(ms.subrange(0, i as int), path@)),
                        forall|j: int|
                            0 <= j < i ==> key_ok((#[trigger] ms[j]).0) && acceptable(
                                ms[j].1,
                                join(path@, ms[j].0),
                            ),
                    decreases members@.len() - i,
                {
                    let ghost before = member_events(ms.subrange(0, i as int), path@);
                    let ghost after = member_events(ms.subrange(0, i + 1), path@);
                    let ghost step = events(ms[i as int].1, join(path@, ms[i as int].0));
                    assert(ms[i as int].0 == utf8(members@[i as int].0));
                    proof {
                        let more = ms.subrange(0, i + 1);
                        assert(more.subrange(0, more.len() - 1) =~= ms.subrange(0, i as int));
                        assert(after == before + step);
                    }
                    let name: &str = members[i].0.as_str();
                    if validate_field(name).is_err() {
                        assert(!key_ok(ms[i as int].0));
                        proof {
                            lemma_not_acceptable(ms, i as int, path@);
                        }
                        return Err(Error::invalid("metadata field name is not valid"));
                    }
                    if contains_byte(name.as_bytes(), 0x2E) {
                        assert(!key_ok(ms[i as int].0));
                        proof {
                            lemma_not_acceptable(ms, i as int, path@);
                        }
                        return Err(Error::invalid("metadata key must not contain `.`"));
                    }
                    let mut longer: Vec<u8> = copy_bytes(path.as_slice());
                    if path.len() > 0 {
                        longer.push(0x2E);
                    }
                    push_bytes(&mut longer, name.as_bytes());
                    assert(longer@ =~= join(path@, ms[i as int].0));
                    match self.walk(&members[i].1, &longer, limit, Ghost(es + here + before)) {
                        Ok(_) => {},
                        Err(e) => {
                            proof {
                                if !acceptable(ms[i as int].1, longer@) {
                                    lemma_not_acceptable(ms, i as int, path@);
                                } else {
                                    let rest = lemma_member_events_split(ms, path@, i + 1);
                                    lemma_entries_grow(es + here + before + step, rest);
                                    assert(es + here + before + step + rest =~= es + all);
                                }
                            }
                            return Err(e);
                        },
                    }
                    assert(es + here + before + step =~= es + here + after);
                    i += 1;
                }
                assert(ms.subrange(0, i as int) =~= ms);
                assert(es + here + member_events(ms, path@) =~= es + all);
            },
            Json::List(items) => {
                let ghost ts = value@->List_0;
                let mut i: usize = 0;
                assert(ts.subrange(0, 0) =~= Seq::empty());
                assert(es + item_events(ts.subrange(0, 0), path@) =~= es);
                assert(all =~= item_events(ts, path@));
                while i < items.len()
                    invariant
                        i <= items@.len(),
                        *value == Json::List(*items),
                        value@ == Tree::List(ts),
                        ts.len() == items@.len(),
                        forall|j: int| 0 <= j < ts.len() ==> #[trigger] ts[j] == tree(items@[j]),
                        all == events(value@, path@),
                        all == item_events(ts, path@),
                        self.gathered(es + item_events(ts.subrange(0, i as int), path@)),
                        forall|j: int| 0 <= j < i ==> acceptable(#[trigger] ts[j], path@),
                    decreases items@.len() - i,
                {
                    let ghost before = item_events(ts.subrange(0, i as int), path@);
                    let ghost step = events(ts[i as int], path@);
                    assert(ts[i as int] == items@[i as int]@);
                    proof {
                        let more = ts.subrange(0, i + 1);
                        assert(more.subrange(0, more.len() - 1) =~= ts.subrange(0, i as int));
                        assert(item_events(more, path@) == before + step);
                    }
                    match self.walk(&items[i], path, limit, Ghost(es + before)) {
                        Ok(_) => {},
                        Err(e) => {
                            proof {
                                if !acceptable(ts[i as int], path@) {
                                    let t = Tree::List(ts);
                                    assert(t->List_0[i as int] == ts[i as int]);
                                    assert(!acceptable(t, path@));
                                } else {
                                    let rest = lemma_item_events_split(ts, path@, i + 1);
                                    lemma_entries_grow(es + before + step, rest);
                                    assert(es + before + step + rest =~= es + all);
                                }
                            }
                            return Err(e);
                        },
                    }
                    assert(es + before + step =~= es + item_events(
                        ts.subrange(0, i + 1),
                        path@,
                    ));
                    i += 1;
                }
                assert(ts.subrange(0, i as int) =~= ts);
            },
            _ => {
                if path.len() > 0 {
                    self.note(path, Ghost(es));
                    assert(es.push(Event::Present(path@)) =~= es + here);
                    match Scalar::from_json(value) {
                        Ok(s) => {
                            if s.indexable() {
                                let ghost prior = placed(self.values@);
                                let ghost d = s@;
                                self.values.push((copy_bytes(path.as_slice()), s));
                                assert(placed(self.values@) =~= prior.push((path@, d)));
                                assert((es + all).drop_last() =~= es + here);
                            } else {
                                assert(all =~= here);
                            }
                        },
                        Err(e) => {
                            return Err(e);
                        },
                    }
                } else {
                    assert(es + all =~= es);
                }
            },
        }
        assert(self.gathered(es + all));
        let n: usize = self.present.len();
        let m: usize = self.values.len();
        assert(entries_of(es + all) == n + m);
        if m > limit || n > limit - m {
            return Err(Error::invalid("metadata has too many indexed entries"));
        }
        Ok(())
    }
}

proof fn lemma_not_acceptable(ms: Seq<(Seq<u8>, Tree)>, i: int, path: Seq<u8>)
    requires
        0 <= i < ms.len(),
        !key_ok(ms[i].0) || !acceptable(ms[i].1, join(path, ms[i].0)),
    ensures
        !acceptable(Tree::Object(ms), path),
{
    let t = Tree::Object(ms);
    assert(t->Object_0[i] == ms[i]);
}


// ---- the index entries ------------------------------------------------------

/// Where a scalar stands in the index: its path and its encoding.
pub open spec fn place(v: (Seq<u8>, Datum)) -> (Seq<u8>, Seq<u8>) {
    (v.0, encoding(v.1))
}

/// By path, then by encoding.
pub open spec fn place_lt(a: (Seq<u8>, Seq<u8>), b: (Seq<u8>, Seq<u8>)) -> bool {
    lex_lt(a.0, b.0) || (a.0 == b.0 && lex_lt(a.1, b.1))
}

/// Each scalar stands before those behind it.
pub open spec fn in_place_order(vs: Seq<(Seq<u8>, Datum)>) -> bool {
    forall|i: int, j: int|
        0 <= i < j < vs.len() ==> place_lt(place(#[trigger] vs[i]), place(#[trigger] vs[j]))
}

/// Whether a scalar of that place is listed.
pub open spec fn has_place(vs: Seq<(Seq<u8>, Datum)>, p: (Seq<u8>, Seq<u8>)) -> bool {
    exists|i: int| 0 <= i < vs.len() && place(#[trigger] vs[i]) == p
}

/// What a document's metadata contributes to the index.
#[derive(Debug, PartialEq, Eq)]
pub struct Flattened {
    /// `(dot.path, scalar)` for every indexable scalar, deduplicated, in path
    /// order. Arrays contribute each element under the array's own path.
    pub values: Vec<(Vec<u8>, Scalar)>,
    /// Every path at which the field counts as present for `$exists` — the
    /// same rule as the in-memory check: the path reaches a non-array value.
    pub present: ByteSet,
}

/// `f` holds what `t` contributes: the scalars' places, each once and in
/// order, and the present paths.
pub open spec fn contributes(f: Flattened, t: Tree) -> bool {
    let all = values_of(events(t, Seq::empty()));
    &&& f.present.wf()
    &&& f.present@ == paths_of(events(t, Seq::empty()))
    &&& in_place_order(placed(f.values@))
    &&& forall|i: int| 0 <= i < f.values@.len() ==> all.contains(#[trigger] placed(f.values@)[i])
    &&& forall|p: (Seq<u8>, Seq<u8>)| #[trigger]
        has_place(placed(f.values@), p) == has_place(all, p)
}

/// Whether metadata can be indexed within `limit` entries.
pub open spec fn can_index(t: Tree, limit: int) -> bool {
    acceptable(t, Seq::empty()) && entries_of(events(t, Seq::empty())) <= limit
}

/// Flattens metadata for indexing; at most `limit` entries (values plus
/// presence paths).
pub fn flatten(metadata: &Json, limit: usize) -> (r: Result<Flattened, Error>)
    ensures
        match r {
            Ok(f) => can_index(metadata@, limit as int) && contributes(f, metadata@),
            Err(e) => e is InvalidArgument && !can_index(metadata@, limit as int),
        },
{
    let mut walk: Walk = Walk { values: Vec::new(), present: ByteSet::new() };
    let path: Vec<u8> = Vec::new();
    let ghost none: Seq<Event> = Seq::empty();
    assert(placed(walk.values@) =~= values_of(none));
    assert(path@ =~= Seq::empty());
    match walk.walk(metadata, &path, limit, Ghost(none)) {
        Ok(_) => {},
        Err(e) => {
            assert(none + events(metadata@, path@) =~= events(metadata@, path@));
            return Err(e);
        },
    }
    assert(none + events(metadata@, path@) =~= events(metadata@, path@));
    let values: Vec<(Vec<u8>, Scalar)> = in_order(walk.values);
    Ok(Flattened { values, present: walk.present })
}

/// Lists scalars by path and encoding, each place once.
fn in_order(raw: Vec<(Vec<u8>, Scalar)>) -> (out: Vec<(Vec<u8>, Scalar)>)
    ensures
        in_place_order(placed(out@)),
        forall|i: int|
            0 <= i < out@.len() ==> placed(raw@).contains(#[trigger] placed(out@)[i]),
        forall|p: (Seq<u8>, Seq<u8>)| #[trigger]
            has_place(placed(out@), p) == has_place(placed(raw@), p),
{
    let mut out: Vec<(Vec<u8>, Scalar)> = Vec::new();
    let ghost all = placed(raw@);
    let mut i: usize = 0;
    while i < raw.len()
        invariant
            i <= raw@.len(),
            all == placed(raw@),
            in_place_order(placed(out@)),
            forall|j: int| 0 <= j < out@.len() ==> all.contains(#[trigger] placed(out@)[j]),
            forall|p: (Seq<u8>, Seq<u8>)| #[trigger]
                has_place(placed(out@), p) == has_place(all.subrange(0, i as int), p),
        decreases raw@.len() - i,
    {
        let ghost was = placed(out@);
        let ghost v = all[i as int];
        let path: Vec<u8> = copy_bytes(raw[i].0.as_slice());
        let scalar: Scalar = raw[i].1.copy();
        add_in_order(&mut out, path, scalar);
        let ghost now = placed(out@);
        proof {
            let before = all.subrange(0, i as int);
            let after = all.subrange(0, i + 1);
            assert forall|p: (Seq<u8>, Seq<u8>)| #[trigger]
                has_place(now, p) == has_place(after, p) by {
                assert(has_place(was, p) == has_place(before, p));
                assert(has_place(now, p) == (has_place(was, p) || p == place(v)));
                if has_place(before, p) {
                    let j = choose|j: int| 0 <= j < before.len() && place(#[trigger] before[j]) == p;
                    assert(after[j] == before[j]);
                }
                if has_place(after, p) {
                    let j = choose|j: int| 0 <= j < after.len() && place(#[trigger] after[j]) == p;
                    if j < i {
                        assert(before[j] == after[j]);
                    }
                }
                assert(after[i as int] == v);
            }
            assert forall|j: int| 0 <= j < now.len() implies all.contains(#[trigger] now[j]) by {
                if was.contains(now[j]) {
                    let k = choose|k: int| 0 <= k < was.len() && was[k] == now[j];
                    assert(all.contains(was[k]));
                } else {
                    assert(now[j] == v);
                    assert(all.contains(v));
                }
            }
        }
        i += 1;
    }
    assert(all.subrange(0, i as int) =~= all);
    out
}

/// Puts a scalar at its place, unless the place is taken.
fn add_in_order(out: &mut Vec<(Vec<u8>, Scalar)>, path: Vec<u8>, scalar: Scalar)
    requires
        in_place_order(placed(old(out)@)),
    ensures
        in_place_order(placed(final(out)@)),
        forall|i: int|
            0 <= i < final(out)@.len() ==> placed(old(out)@).contains(
                #[trigger] placed(final(out)@)[i],
            ) || placed(final(out)@)[i] == (path@, scalar@),
        forall|p: (Seq<u8>, Seq<u8>)| #[trigger]
            has_place(placed(final(out)@), p) == (has_place(placed(old(out)@), p) || p == place(
                (path@, scalar@),
            )),
{
    let ghost was = placed(out@);
    let ghost v = (path@, scalar@);
    let code: Vec<u8> = scalar.encode();
    let mut n: usize = 0;
    while n < out.len()
        invariant
            n <= out@.len(),
            was == placed(out@),
            was == placed(old(out)@),
            in_place_order(was),
            v == (path@, scalar@),
            code@ == encoding(scalar@),
            forall|j: int| 0 <= j < n ==> place_lt(place(#[trigger] was[j]), place(v)),
        ensures
            n < out@.len() ==> place_lt(place(v), place(was[n as int])),
        decreases out@.len() - n,
    {
        assert(was[n as int] == (out@[n as int].0@, out@[n as int].1@));
        let o: Order = match order(out[n].0.as_slice(), path.as_slice()) {
            Order::Equal => order(out[n].1.encode().as_slice(), code.as_slice()),
            other => other,
        };
        proof {
            lemma_lex_total(was[n as int].0, v.0);
            lemma_lex_total(encoding(was[n as int].1), encoding(v.1));
        }
        match o {
            Order::Equal => {
                assert(place(was[n as int]) == place(v));
                proof {
                    assert forall|p: (Seq<u8>, Seq<u8>)| #[trigger]
                        has_place(was, p) == (has_place(was, p) || p == place(v)) by {}
                    assert forall|j: int| 0 <= j < was.len() implies was.contains(
                        #[trigger] was[j],
                    ) by {}
                }
                return ;
            },
            Order::Greater => {
                break ;
            },
            Order::Less => {},
        }
        n += 1;
    }
    out.insert(n, (path, scalar));
    let ghost now = placed(out@);
    assert(now =~= was.insert(n as int, v));
    proof {
        assert forall|i: int, j: int| 0 <= i < j < now.len() implies place_lt(
            place(#[trigger] now[i]),
            place(#[trigger] now[j]),
        ) by {
            let a = if i < n {
                i
            } else {
                i - 1
            };
            let b = if j < n {
                j
            } else {
                j - 1
            };
            if i == n {
                assert(now[j] == was[b]);
                if b > n {
                    lemma_place_transitive(place(v), place(was[n as int]), place(was[b]));
                }
            } else if j == n {
                assert(now[i] == was[i]);
            } else {
                assert(now[i] == was[a] && now[j] == was[b]);
            }
        }
        assert forall|i: int| 0 <= i < now.len() implies was.contains(#[trigger] now[i]) || now[i]
            == v by {
            if i < n {
                assert(now[i] == was[i]);
            } else if i > n {
                assert(now[i] == was[i - 1]);
            }
        }
        assert forall|p: (Seq<u8>, Seq<u8>)| #[trigger]
            has_place(now, p) == (has_place(was, p) || p == place(v)) by {
            if has_place(was, p) {
                let j = choose|j: int| 0 <= j < was.len() && place(#[trigger] was[j]) == p;
                if j < n {
                    assert(now[j] == was[j]);
                } else {
                    assert(now[j + 1] == was[j]);
                }
            }
            assert(now[n as int] == v);
            if has_place(now, p) {
                let j = choose|j: int| 0 <= j < now.len() && place(#[trigger] now[j]) == p;
                if j < n {
                    assert(now[j] == was[j]);
                } else if j > n {
                    assert(now[j] == was[j - 1]);
                }
            }
        }
    }
}

proof fn lemma_place_transitive(
    a: (Seq<u8>, Seq<u8>),
    b: (Seq<u8>, Seq<u8>),
    c: (Seq<u8>, Seq<u8>),
)
    requires
        place_lt(a, b),
        place_lt(b, c),
    ensures
        place_lt(a, c),
{
    if lex_lt(a.0, b.0) && lex_lt(b.0, c.0) {
        lemma_lex_transitive(a.0, b.0, c.0);
    } else if a.0 == b.0 && b.0 == c.0 && lex_lt(a.1, b.1) && lex_lt(b.1, c.1) {
        lemma_lex_transitive(a.1, b.1, c.1);
    }
}

// ---- agreement with the filters ---------------------------------------------

/// The path whose parts these are.
pub open spec fn joined(parts: Seq<Seq<u8>>) -> Seq<u8>
    decreases parts.len(),
{
    if parts.len() == 0 {
        Seq::empty()
    } else if parts.len() == 1 {
        parts[0]
    } else {
        joined(parts.drop_last()) + seq![0x2Eu8] + parts.last()
    }
}

/// Every part can be a metadata key.
pub open spec fn clean(parts: Seq<Seq<u8>>) -> bool {
    forall|i: int| 0 <= i < parts.len() ==> key_ok(#[trigger] parts[i])
}

/// `q` is the path through `parts` and then `rest`.
pub open spec fn leads(parts: Seq<Seq<u8>>, rest: Seq<Seq<u8>>, q: Seq<u8>) -> bool {
    clean(rest) && q == joined(parts + rest) && parts.len() + rest.len() > 0
}

/// From a value that stands at `parts`, the path `q` leads to a present value.
spec fn sees(t: Tree, parts: Seq<Seq<u8>>, q: Seq<u8>) -> bool {
    exists|rest: Seq<Seq<u8>>| #[trigger] leads(parts, rest, q) && present_at(t, rest)
}

/// From a value that stands at `parts`, the path `q` leads to the scalar `d`.
spec fn finds(t: Tree, parts: Seq<Seq<u8>>, q: Seq<u8>, d: Datum) -> bool {
    exists|rest: Seq<Seq<u8>>| #[trigger] leads(parts, rest, q) && reaches(t, rest, d)
}

proof fn lemma_joined_segments(q: Seq<u8>)
    ensures
        joined(segments(q)) == q,
        segments(q).len() > 0,
    decreases q.len(),
{
    if q.len() > 0 {
        let before = segments(q.drop_last());
        lemma_joined_segments(q.drop_last());
        if q.last() == 0x2E {
            let s = before.push(Seq::empty());
            assert(s.drop_last() =~= before);
            assert(joined(s) =~= q.drop_last() + seq![0x2Eu8]);
            assert(q =~= q.drop_last() + seq![0x2Eu8]);
        } else {
            let s = before.drop_last().push(before.last().push(q.last()));
            assert(s.drop_last() =~= before.drop_last());
            assert(joined(s) =~= joined(before).push(q.last()));
            assert(q =~= q.drop_last().push(q.last()));
        }
    } else {
        assert(q =~= Seq::empty());
    }
}

/// A dot and a key without dots add one part.
proof fn lemma_segments_append(p: Seq<u8>, k: Seq<u8>)
    requires
        !k.contains(0x2E),
    ensures
        segments(p + seq![0x2Eu8] + k) == segments(p).push(k),
    decreases k.len(),
{
    let q = p + seq![0x2Eu8] + k;
    if k.len() == 0 {
        assert(q.drop_last() =~= p);
        assert(k =~= Seq::empty());
    } else {
        let j = k.drop_last();
        assert(!j.contains(0x2E)) by {
            if j.contains(0x2E) {
                let i = choose|i: int| 0 <= i < j.len() && j[i] == 0x2E;
                assert(k[i] == 0x2E);
            }
        }
        assert(k.last() != 0x2E) by {
            assert(k[k.len() - 1] == k.last());
        }
        lemma_segments_append(p, j);
        assert(q.drop_last() =~= p + seq![0x2Eu8] + j);
        let before = segments(p).push(j);
        assert(before.drop_last() =~= segments(p));
        assert(j.push(k.last()) =~= k);
    }
}

/// A key without dots is its own only part.
pub(crate) proof fn lemma_segments_single(k: Seq<u8>)
    requires
        !k.contains(0x2E),
    ensures
        segments(k) == seq![k],
    decreases k.len(),
{
    if k.len() == 0 {
        assert(k =~= Seq::empty());
    } else {
        let j = k.drop_last();
        assert(!j.contains(0x2E)) by {
            if j.contains(0x2E) {
                let i = choose|i: int| 0 <= i < j.len() && j[i] == 0x2E;
                assert(k[i] == 0x2E);
            }
        }
        assert(k.last() != 0x2E) by {
            assert(k[k.len() - 1] == k.last());
        }
        lemma_segments_single(j);
        assert(j.push(k.last()) =~= k);
        assert(segments(k) =~= seq![k]);
    }
}

proof fn lemma_segments_joined(parts: Seq<Seq<u8>>)
    requires
        clean(parts),
        parts.len() > 0,
    ensures
        segments(joined(parts)) == parts,
    decreases parts.len(),
{
    assert(key_ok(parts[parts.len() - 1]));
    if parts.len() == 1 {
        lemma_segments_single(parts[0]);
        assert(parts =~= seq![parts[0]]);
    } else {
        assert(clean(parts.drop_last()));
        lemma_segments_joined(parts.drop_last());
        lemma_segments_append(joined(parts.drop_last()), parts.last());
        assert(parts =~= parts.drop_last().push(parts.last()));
    }
}

proof fn lemma_joined_push(parts: Seq<Seq<u8>>, k: Seq<u8>)
    requires
        clean(parts),
        key_ok(k),
    ensures
        joined(parts.push(k)) == join(joined(parts), k),
        clean(parts.push(k)),
        joined(parts).len() > 0 <==> parts.len() > 0,
{
    let more = parts.push(k);
    assert(more.drop_last() =~= parts);
    if parts.len() > 0 {
        assert(key_ok(parts[0]));
        assert(key_ok(parts[parts.len() - 1]));
        if parts.len() > 1 {
            assert(joined(parts).len() >= parts.last().len());
        }
    }
}

proof fn lemma_joined_nonempty(parts: Seq<Seq<u8>>)
    requires
        clean(parts),
    ensures
        joined(parts).len() > 0 <==> parts.len() > 0,
{
    if parts.len() > 0 {
        assert(key_ok(parts[0]));
        assert(key_ok(parts[parts.len() - 1]));
    }
}

proof fn lemma_present_clean(t: Tree, path: Seq<u8>, rest: Seq<Seq<u8>>)
    requires
        acceptable(t, path),
        present_at(t, rest),
    ensures
        clean(rest),
    decreases t,
{
    match t {
        Tree::List(items) => {
            let i = choose|i: int| 0 <= i < items.len() && present_at(#[trigger] items[i], rest);
            lemma_present_clean(items[i], path, rest);
        },
        Tree::Object(members) => {
            if rest.len() > 0 {
                let i = position(members, rest[0]);
                lemma_position(members, rest[0]);
                assert(key_ok(members[i].0));
                lemma_present_clean(members[i].1, join(path, members[i].0), rest.skip(1));
                assert forall|j: int| 0 <= j < rest.len() implies key_ok(#[trigger] rest[j]) by {
                    if j > 0 {
                        assert(rest.skip(1)[j - 1] == rest[j]);
                    }
                }
            }
        },
        _ => {},
    }
}

proof fn lemma_reach_clean(t: Tree, path: Seq<u8>, rest: Seq<Seq<u8>>, d: Datum)
    requires
        acceptable(t, path),
        reaches(t, rest, d),
    ensures
        clean(rest),
    decreases t,
{
    match t {
        Tree::List(items) => {
            let i = choose|i: int| 0 <= i < items.len() && reaches(#[trigger] items[i], rest, d);
            lemma_reach_clean(items[i], path, rest, d);
        },
        Tree::Object(members) => {
            let i = position(members, rest[0]);
            lemma_position(members, rest[0]);
            assert(key_ok(members[i].0));
            lemma_reach_clean(members[i].1, join(path, members[i].0), rest.skip(1), d);
            assert forall|j: int| 0 <= j < rest.len() implies key_ok(#[trigger] rest[j]) by {
                if j > 0 {
                    assert(rest.skip(1)[j - 1] == rest[j]);
                }
            }
        },
        _ => {},
    }
}

/// Some member sees the path.
spec fn members_see(
    members: Seq<(Seq<u8>, Tree)>,
    parts: Seq<Seq<u8>>,
    q: Seq<u8>,
) -> bool {
    exists|i: int|
        0 <= i < members.len() && sees((#[trigger] members[i]).1, parts.push(members[i].0), q)
}

/// Some member finds the scalar.
spec fn members_find(
    members: Seq<(Seq<u8>, Tree)>,
    parts: Seq<Seq<u8>>,
    q: Seq<u8>,
    d: Datum,
) -> bool {
    exists|i: int|
        0 <= i < members.len() && finds((#[trigger] members[i]).1, parts.push(members[i].0), q, d)
}

/// Some element sees the path.
spec fn items_see(items: Seq<Tree>, parts: Seq<Seq<u8>>, q: Seq<u8>) -> bool {
    exists|i: int| 0 <= i < items.len() && sees(#[trigger] items[i], parts, q)
}

/// Some element finds the scalar.
spec fn items_find(items: Seq<Tree>, parts: Seq<Seq<u8>>, q: Seq<u8>, d: Datum) -> bool {
    exists|i: int| 0 <= i < items.len() && finds(#[trigger] items[i], parts, q, d)
}

proof fn lemma_object_sees(
    members: Seq<(Seq<u8>, Tree)>,
    path: Seq<u8>,
    parts: Seq<Seq<u8>>,
    q: Seq<u8>,
)
    requires
        distinct_keys(Tree::Object(members)),
        acceptable(Tree::Object(members), path),
        clean(parts),
    ensures
        sees(Tree::Object(members), parts, q) == (members_see(members, parts, q) || (parts.len() > 0
            && q == joined(parts))),
{
    let t = Tree::Object(members);
    if members_see(members, parts, q) {
        let i = choose|i: int|
            0 <= i < members.len() && sees((#[trigger] members[i]).1, parts.push(members[i].0), q);
        let k = members[i].0;
        let tail = choose|tail: Seq<Seq<u8>>| #[trigger]
            leads(parts.push(k), tail, q) && present_at(members[i].1, tail);
        let rest = seq![k] + tail;
        assert(t->Object_0[i] == members[i]);
        assert(key_ok(k));
        lemma_position_unique(members, i);
        assert(rest.skip(1) =~= tail);
        assert(parts + rest =~= parts.push(k) + tail);
        assert forall|j: int| 0 <= j < rest.len() implies key_ok(#[trigger] rest[j]) by {
            if j > 0 {
                assert(rest[j] == tail[j - 1]);
            }
        }
        assert(leads(parts, rest, q));
        assert(present_at(t, rest));
    }
    if parts.len() > 0 && q == joined(parts) {
        let rest = Seq::<Seq<u8>>::empty();
        assert(parts + rest =~= parts);
        assert(leads(parts, rest, q));
        assert(present_at(t, rest));
    }
    if sees(t, parts, q) {
        let rest = choose|rest: Seq<Seq<u8>>| #[trigger]
            leads(parts, rest, q) && present_at(t, rest);
        if rest.len() == 0 {
            assert(parts + rest =~= parts);
        } else {
            let i = position(members, rest[0]);
            lemma_position(members, rest[0]);
            let tail = rest.skip(1);
            assert(present_at(members[i].1, tail));
            assert(parts.push(members[i].0) + tail =~= parts + rest);
            assert(clean(tail)) by {
                assert forall|j: int| 0 <= j < tail.len() implies key_ok(#[trigger] tail[j]) by {
                    assert(tail[j] == rest[j + 1]);
                }
            }
            assert(leads(parts.push(members[i].0), tail, q));
            assert(sees(members[i].1, parts.push(members[i].0), q));
        }
    }
}

proof fn lemma_object_finds(
    members: Seq<(Seq<u8>, Tree)>,
    path: Seq<u8>,
    parts: Seq<Seq<u8>>,
    q: Seq<u8>,
    d: Datum,
)
    requires
        distinct_keys(Tree::Object(members)),
        acceptable(Tree::Object(members), path),
        clean(parts),
    ensures
        finds(Tree::Object(members), parts, q, d) == members_find(members, parts, q, d),
{
    let t = Tree::Object(members);
    if members_find(members, parts, q, d) {
        let i = choose|i: int|
            0 <= i < members.len() && finds(
                (#[trigger] members[i]).1,
                parts.push(members[i].0),
                q,
                d,
            );
        let k = members[i].0;
        let tail = choose|tail: Seq<Seq<u8>>| #[trigger]
            leads(parts.push(k), tail, q) && reaches(members[i].1, tail, d);
        let rest = seq![k] + tail;
        assert(t->Object_0[i] == members[i]);
        assert(key_ok(k));
        lemma_position_unique(members, i);
        assert(rest.skip(1) =~= tail);
        assert(parts + rest =~= parts.push(k) + tail);
        assert forall|j: int| 0 <= j < rest.len() implies key_ok(#[trigger] rest[j]) by {
            if j > 0 {
                assert(rest[j] == tail[j - 1]);
            }
        }
        assert(leads(parts, rest, q));
        assert(reaches(t, rest, d));
    }
    if finds(t, parts, q, d) {
        let rest = choose|rest: Seq<Seq<u8>>| #[trigger]
            leads(parts, rest, q) && reaches(t, rest, d);
        let i = position(members, rest[0]);
        lemma_position(members, rest[0]);
        let tail = rest.skip(1);
        assert(reaches(members[i].1, tail, d));
        assert(parts.push(members[i].0) + tail =~= parts + rest);
        assert(clean(tail)) by {
            assert forall|j: int| 0 <= j < tail.len() implies key_ok(#[trigger] tail[j]) by {
                assert(tail[j] == rest[j + 1]);
            }
        }
        assert(leads(parts.push(members[i].0), tail, q));
        assert(finds(members[i].1, parts.push(members[i].0), q, d));
    }
}

proof fn lemma_list_sees(items: Seq<Tree>, parts: Seq<Seq<u8>>, q: Seq<u8>, d: Datum)
    ensures
        sees(Tree::List(items), parts, q) == items_see(items, parts, q),
        finds(Tree::List(items), parts, q, d) == items_find(items, parts, q, d),
{
    let t = Tree::List(items);
    if items_see(items, parts, q) {
        let i = choose|i: int| 0 <= i < items.len() && sees(#[trigger] items[i], parts, q);
        let rest = choose|rest: Seq<Seq<u8>>| #[trigger]
            leads(parts, rest, q) && present_at(items[i], rest);
        assert(t->List_0[i] == items[i]);
        assert(present_at(t, rest));
    }
    if sees(t, parts, q) {
        let rest = choose|rest: Seq<Seq<u8>>| #[trigger]
            leads(parts, rest, q) && present_at(t, rest);
        let i = choose|i: int| 0 <= i < items.len() && present_at(#[trigger] items[i], rest);
        assert(sees(items[i], parts, q));
    }
    if items_find(items, parts, q, d) {
        let i = choose|i: int| 0 <= i < items.len() && finds(#[trigger] items[i], parts, q, d);
        let rest = choose|rest: Seq<Seq<u8>>| #[trigger]
            leads(parts, rest, q) && reaches(items[i], rest, d);
        assert(t->List_0[i] == items[i]);
        assert(reaches(t, rest, d));
    }
    if finds(t, parts, q, d) {
        let rest = choose|rest: Seq<Seq<u8>>| #[trigger]
            leads(parts, rest, q) && reaches(t, rest, d);
        let i = choose|i: int| 0 <= i < items.len() && reaches(#[trigger] items[i], rest, d);
        assert(finds(items[i], parts, q, d));
    }
}

proof fn lemma_scalar_sees(t: Tree, parts: Seq<Seq<u8>>, q: Seq<u8>, d: Datum)
    requires
        !(t is List),
        !(t is Object),
    ensures
        sees(t, parts, q) == (parts.len() > 0 && q == joined(parts)),
        finds(t, parts, q, d) == (parts.len() > 0 && q == joined(parts) && scalar_of(t) == Some(d)
            && fits_index(d)),
{
    let none = Seq::<Seq<u8>>::empty();
    assert(parts + none =~= parts);
    if parts.len() > 0 && q == joined(parts) {
        assert(leads(parts, none, q));
        assert(present_at(t, none));
    }
    if sees(t, parts, q) {
        let rest = choose|rest: Seq<Seq<u8>>| #[trigger]
            leads(parts, rest, q) && present_at(t, rest);
        assert(rest =~= none);
    }
    if finds(t, parts, q, d) {
        let rest = choose|rest: Seq<Seq<u8>>| #[trigger]
            leads(parts, rest, q) && reaches(t, rest, d);
        assert(rest =~= none);
    }
    if parts.len() > 0 && q == joined(parts) && scalar_of(t) == Some(d) && fits_index(d) {
        assert(reaches(t, none, d));
    }
}

proof fn lemma_contains_concat(
    a: Seq<(Seq<u8>, Datum)>,
    b: Seq<(Seq<u8>, Datum)>,
    x: (Seq<u8>, Datum),
)
    ensures
        (a + b).contains(x) == (a.contains(x) || b.contains(x)),
{
    let c = a + b;
    if a.contains(x) {
        let i = choose|i: int| 0 <= i < a.len() && a[i] == x;
        assert(c[i] == x);
    }
    if b.contains(x) {
        let i = choose|i: int| 0 <= i < b.len() && b[i] == x;
        assert(c[a.len() + i] == x);
    }
    if c.contains(x) {
        let i = choose|i: int| 0 <= i < c.len() && c[i] == x;
        if i < a.len() {
            assert(a[i] == x);
        } else {
            assert(b[i - a.len()] == x);
        }
    }
}

/// The events say exactly what filters see and find.
proof fn lemma_events_agree(t: Tree, parts: Seq<Seq<u8>>, q: Seq<u8>, d: Datum)
    requires
        acceptable(t, joined(parts)),
        distinct_keys(t),
        clean(parts),
    ensures
        paths_of(events(t, joined(parts))).contains(q) == sees(t, parts, q),
        values_of(events(t, joined(parts))).contains((q, d)) == finds(t, parts, q, d),
    decreases t,
{
    let path = joined(parts);
    lemma_joined_nonempty(parts);
    let here = if path.len() > 0 && !(t is List) {
        seq![Event::Present(path)]
    } else {
        Seq::empty()
    };
    assert(paths_of(here).contains(q) == (parts.len() > 0 && !(t is List) && q == path)) by {
        reveal_with_fuel(paths_of, 2);
        assert(here.len() == 1 ==> here.drop_last() =~= Seq::empty());
    }
    assert(values_of(here) =~= Seq::empty()) by {
        reveal_with_fuel(values_of, 2);
        assert(here.len() == 1 ==> here.drop_last() =~= Seq::empty());
    }
    match t {
        Tree::Object(members) => {
            assert forall|i: int| 0 <= i < members.len() implies key_ok((#[trigger] members[i]).0)
                && acceptable(members[i].1, join(path, members[i].0)) && distinct_keys(
                members[i].1,
            ) by {
                assert(t->Object_0[i] == members[i]);
            }
            lemma_members_agree(members, parts, q, d);
            lemma_object_sees(members, path, parts, q);
            lemma_object_finds(members, path, parts, q, d);
            lemma_paths_of_concat(here, member_events(members, path));
            lemma_values_of_concat(here, member_events(members, path));
            lemma_contains_concat(
                values_of(here),
                values_of(member_events(members, path)),
                (q, d),
            );
        },
        Tree::List(items) => {
            assert forall|i: int| 0 <= i < items.len() implies acceptable(#[trigger] items[i], path)
                && distinct_keys(items[i]) by {
                assert(t->List_0[i] == items[i]);
            }
            lemma_items_agree(items, parts, q, d);
            lemma_list_sees(items, parts, q, d);
            assert(here + item_events(items, path) =~= item_events(items, path));
        },
        _ => {
            lemma_scalar_sees(t, parts, q, d);
            let all = events(t, path);
            if path.len() > 0 && fits_index(scalar_of(t)->0) {
                assert(all.drop_last() =~= here);
                assert(values_of(all) =~= seq![(path, scalar_of(t)->0)]);
                assert(values_of(all).contains((q, d)) == (values_of(all)[0] == (q, d)));
            }
        },
    }
}

proof fn lemma_members_agree(
    members: Seq<(Seq<u8>, Tree)>,
    parts: Seq<Seq<u8>>,
    q: Seq<u8>,
    d: Datum,
)
    requires
        forall|i: int|
            0 <= i < members.len() ==> key_ok((#[trigger] members[i]).0) && acceptable(
                members[i].1,
                join(joined(parts), members[i].0),
            ) && distinct_keys(members[i].1),
        clean(parts),
    ensures
        paths_of(member_events(members, joined(parts))).contains(q) == members_see(
            members,
            parts,
            q,
        ),
        values_of(member_events(members, joined(parts))).contains((q, d)) == members_find(
            members,
            parts,
            q,
            d,
        ),
    decreases members,
{
    let path = joined(parts);
    if members.len() > 0 {
        let n = members.len() - 1;
        let front = members.subrange(0, n);
        let last = members[n];
        assert forall|i: int| 0 <= i < front.len() implies key_ok((#[trigger] front[i]).0)
            && acceptable(front[i].1, join(path, front[i].0)) && distinct_keys(front[i].1) by {
            assert(front[i] == members[i]);
        }
        lemma_members_agree(front, parts, q, d);
        lemma_joined_push(parts, last.0);
        lemma_events_agree(last.1, parts.push(last.0), q, d);
        let (a, b) = (member_events(front, path), events(last.1, join(path, last.0)));
        lemma_paths_of_concat(a, b);
        lemma_values_of_concat(a, b);
        lemma_contains_concat(values_of(a), values_of(b), (q, d));
        if members_see(front, parts, q) {
            let i = choose|i: int|
                0 <= i < front.len() && sees((#[trigger] front[i]).1, parts.push(front[i].0), q);
            assert(members[i] == front[i]);
        }
        if members_see(members, parts, q) {
            let i = choose|i: int|
                0 <= i < members.len() && sees(
                    (#[trigger] members[i]).1,
                    parts.push(members[i].0),
                    q,
                );
            if i < n {
                assert(members[i] == front[i]);
            }
        }
        if members_find(front, parts, q, d) {
            let i = choose|i: int|
                0 <= i < front.len() && finds(
                    (#[trigger] front[i]).1,
                    parts.push(front[i].0),
                    q,
                    d,
                );
            assert(members[i] == front[i]);
        }
        if members_find(members, parts, q, d) {
            let i = choose|i: int|
                0 <= i < members.len() && finds(
                    (#[trigger] members[i]).1,
                    parts.push(members[i].0),
                    q,
                    d,
                );
            if i < n {
                assert(members[i] == front[i]);
            }
        }
    }
}

proof fn lemma_items_agree(items: Seq<Tree>, parts: Seq<Seq<u8>>, q: Seq<u8>, d: Datum)
    requires
        forall|i: int|
            0 <= i < items.len() ==> acceptable(#[trigger] items[i], joined(parts))
                && distinct_keys(items[i]),
        clean(parts),
    ensures
        paths_of(item_events(items, joined(parts))).contains(q) == items_see(items, parts, q),
        values_of(item_events(items, joined(parts))).contains((q, d)) == items_find(
            items,
            parts,
            q,
            d,
        ),
    decreases items,
{
    let path = joined(parts);
    if items.len() > 0 {
        let n = items.len() - 1;
        let front = items.subrange(0, n);
        let last = items[n];
        assert forall|i: int| 0 <= i < front.len() implies acceptable(#[trigger] front[i], path)
            && distinct_keys(front[i]) by {
            assert(front[i] == items[i]);
        }
        lemma_items_agree(front, parts, q, d);
        lemma_events_agree(last, parts, q, d);
        let (a, b) = (item_events(front, path), events(last, path));
        lemma_paths_of_concat(a, b);
        lemma_values_of_concat(a, b);
        lemma_contains_concat(values_of(a), values_of(b), (q, d));
        if items_see(front, parts, q) {
            let i = choose|i: int| 0 <= i < front.len() && sees(#[trigger] front[i], parts, q);
            assert(items[i] == front[i]);
        }
        if items_see(items, parts, q) {
            let i = choose|i: int| 0 <= i < items.len() && sees(#[trigger] items[i], parts, q);
            if i < n {
                assert(items[i] == front[i]);
            }
        }
        if items_find(front, parts, q, d) {
            let i = choose|i: int| 0 <= i < front.len() && finds(#[trigger] front[i], parts, q, d);
            assert(items[i] == front[i]);
        }
        if items_find(items, parts, q, d) {
            let i = choose|i: int| 0 <= i < items.len() && finds(#[trigger] items[i], parts, q, d);
            if i < n {
                assert(items[i] == front[i]);
            }
        }
    }
}

/// The presence index agrees with the in-memory check: a path is noted as
/// present exactly where `$exists` sees the field.
pub proof fn law_presence_agrees_with_exists(t: Tree, field: Seq<u8>)
    requires
        acceptable(t, Seq::empty()),
        distinct_keys(t),
    ensures
        paths_of(events(t, Seq::empty())).contains(field) == present_at(t, segments(field)),
{
    let none = Seq::<Seq<u8>>::empty();
    lemma_events_agree(t, none, field, Datum::Null);
    lemma_joined_segments(field);
    let parts = segments(field);
    assert(none + parts =~= parts);
    if present_at(t, parts) {
        lemma_present_clean(t, Seq::empty(), parts);
        assert(leads(none, parts, field));
    }
    if sees(t, none, field) {
        let rest = choose|rest: Seq<Seq<u8>>| #[trigger]
            leads(none, rest, field) && present_at(t, rest);
        assert(none + rest =~= rest);
        lemma_segments_joined(rest);
    }
}

/// The value index agrees with the in-memory check: a scalar is noted at a
/// path exactly where comparisons with the field meet it.
pub proof fn law_values_agree_with_comparisons(t: Tree, field: Seq<u8>, d: Datum)
    requires
        acceptable(t, Seq::empty()),
        distinct_keys(t),
    ensures
        values_of(events(t, Seq::empty())).contains((field, d)) == reaches(
            t,
            segments(field),
            d,
        ),
{
    let none = Seq::<Seq<u8>>::empty();
    lemma_events_agree(t, none, field, d);
    lemma_joined_segments(field);
    let parts = segments(field);
    assert(none + parts =~= parts);
    if reaches(t, parts, d) {
        lemma_reach_clean(t, Seq::empty(), parts, d);
        assert(leads(none, parts, field));
    }
    if finds(t, none, field, d) {
        let rest = choose|rest: Seq<Seq<u8>>| #[trigger]
            leads(none, rest, field) && reaches(t, rest, d);
        assert(none + rest =~= rest);
        lemma_segments_joined(rest);
    }
}


/// Every path that is noted is made of metadata keys, and so holds no NUL.
pub proof fn lemma_event_paths(t: Tree, p: Seq<u8>)
    requires
        acceptable(t, Seq::empty()),
        distinct_keys(t),
    ensures
        paths_of(events(t, Seq::empty())).contains(p) ==> !p.contains(0) && p.len() > 0,
        forall|d: Datum|
            #[trigger] values_of(events(t, Seq::empty())).contains((p, d)) ==> !p.contains(0)
                && p.len() > 0,
{
    let none = Seq::<Seq<u8>>::empty();
    lemma_events_agree(t, none, p, Datum::Null);
    if sees(t, none, p) {
        let rest = choose|rest: Seq<Seq<u8>>| #[trigger]
            leads(none, rest, p) && present_at(t, rest);
        assert(none + rest =~= rest);
        lemma_joined_no_nul(rest);
        lemma_joined_nonempty(rest);
    }
    assert forall|d: Datum| #[trigger]
        values_of(events(t, Seq::empty())).contains((p, d)) implies !p.contains(0) && p.len()
        > 0 by {
        lemma_events_agree(t, none, p, d);
        let rest = choose|rest: Seq<Seq<u8>>| #[trigger]
            leads(none, rest, p) && reaches(t, rest, d);
        assert(none + rest =~= rest);
        lemma_joined_no_nul(rest);
        lemma_joined_nonempty(rest);
    }
}

proof fn lemma_joined_no_nul(parts: Seq<Seq<u8>>)
    requires
        clean(parts),
    ensures
        !joined(parts).contains(0),
    decreases parts.len(),
{
    if parts.len() > 0 {
        assert(key_ok(parts[parts.len() - 1]));
        if parts.len() > 1 {
            let front = parts.drop_last();
            assert(clean(front));
            lemma_joined_no_nul(front);
            let q = joined(parts);
            if q.contains(0) {
                let i = choose|i: int| 0 <= i < q.len() && q[i] == 0;
                let n = joined(front).len();
                if i < n {
                    assert(joined(front)[i] == 0);
                } else if i > n {
                    assert(parts.last()[i - n - 1] == 0);
                }
            }
        } else {
            assert(key_ok(parts[0]));
        }
    }
}

} // verus!

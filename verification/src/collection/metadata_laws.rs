//! Which metadata can be indexed, and how many entries it makes.

use crate::collection::filter::scalar_of;
use crate::collection::flatten::{
    acceptable, can_index, events, item_events, join, key_ok, lemma_paths_of_concat,
    lemma_values_of_concat, member_events, paths_of, values_of, Event,
};
use crate::collection::scalar::fits_index;
use crate::json::{Number, Tree};
use vstd::prelude::*;

verus! {

/// Keys have one to 256 bytes, none of them NUL or a dot.
pub proof fn law_keys_are_limited(key: Seq<u8>)
    ensures
        key_ok(key) <==> 1 <= key.len() <= 256 && forall|i: int|
            0 <= i < key.len() ==> #[trigger] key[i] != 0 && key[i] != 0x2E,
{
    if key_ok(key) {
        assert forall|i: int| 0 <= i < key.len() implies #[trigger] key[i] != 0 && key[i]
            != 0x2E by {
            assert(key.contains(key[i]));
        }
    }
}

/// The bits are those of a number that is neither infinite nor undefined: the
/// exponent is not all ones.
pub open spec fn numeric(n: Number) -> bool {
    n.bits / 0x10_0000_0000_0000 % 0x800 != 0x7FF
}

/// Metadata is accepted member by member and element by element: each key must
/// be one, and each number a finite one; nothing else is refused.
pub proof fn law_metadata_is_accepted_piece_by_piece(
    members: Seq<(Seq<u8>, Tree)>,
    items: Seq<Tree>,
    n: Number,
    b: bool,
    s: Seq<u8>,
    path: Seq<u8>,
)
    requires
        path.len() > 0,
    ensures
        acceptable(Tree::Object(members), path) <==> forall|i: int|
            0 <= i < members.len() ==> key_ok((#[trigger] members[i]).0) && acceptable(
                members[i].1,
                path + seq![0x2Eu8] + members[i].0,
            ),
        acceptable(Tree::Object(members), Seq::empty()) <==> forall|i: int|
            0 <= i < members.len() ==> key_ok((#[trigger] members[i]).0) && acceptable(
                members[i].1,
                members[i].0,
            ),
        acceptable(Tree::List(items), path) <==> forall|i: int|
            0 <= i < items.len() ==> acceptable(#[trigger] items[i], path),
        acceptable(Tree::Number(n), path) <==> numeric(n),
        acceptable(Tree::Bool(b), path),
        acceptable(Tree::Text(s), path),
        acceptable(Tree::Null, path),
{
    let empty = Seq::<u8>::empty();
    let t = Tree::List(items);
    if acceptable(t, path) {
        assert forall|i: int| 0 <= i < items.len() implies acceptable(
            #[trigger] items[i],
            path,
        ) by {
            assert(t->List_0[i] == items[i]);
        }
    }
    lemma_object(members, path);
    lemma_object(members, empty);
    assert(n.bits / 0x10_0000_0000_0000 % 0x800 != 0x7FF <==> n.bits % 0x8000_0000_0000_0000
        < 0x7FF0_0000_0000_0000) by {
        let x = n.bits;
        assert(x / 0x10_0000_0000_0000 % 0x800 != 0x7FF <==> x % 0x8000_0000_0000_0000
            < 0x7FF0_0000_0000_0000) by (bit_vector);
    }
}

proof fn lemma_object(members: Seq<(Seq<u8>, Tree)>, path: Seq<u8>)
    ensures
        acceptable(Tree::Object(members), path) <==> forall|i: int|
            0 <= i < members.len() ==> key_ok((#[trigger] members[i]).0) && acceptable(
                members[i].1,
                join(path, members[i].0),
            ),
{
    let t = Tree::Object(members);
    if acceptable(t, path) {
        assert forall|i: int| 0 <= i < members.len() implies key_ok((#[trigger] members[i]).0)
            && acceptable(members[i].1, join(path, members[i].0)) by {
            assert(t->Object_0[i] == members[i]);
        }
    }
}

/// The values of a scalar that fits the index are itself, at its path.
proof fn lemma_scalar_entries(t: Tree, path: Seq<u8>)
    requires
        path.len() > 0,
        scalar_of(t) is Some,
        fits_index(scalar_of(t)->0),
    ensures
        values_of(events(t, path)).len() == 1,
        paths_of(events(t, path)) == set![path],
{
    let es = events(t, path);
    let (p, v) = (Event::Present(path), Event::Value(path, scalar_of(t)->0));
    assert(es =~= seq![p, v]);
    assert(es.drop_last() =~= seq![p]);
    assert(seq![p].drop_last() =~= Seq::<Event>::empty());
    reveal_with_fuel(values_of, 3);
    reveal_with_fuel(paths_of, 3);
    assert(paths_of(es) =~= set![path]);
}

proof fn lemma_item_entries(items: Seq<Tree>, path: Seq<u8>)
    requires
        path.len() > 0,
        forall|i: int|
            0 <= i < items.len() ==> scalar_of(#[trigger] items[i]) is Some && fits_index(
                scalar_of(items[i])->0,
            ),
    ensures
        values_of(item_events(items, path)).len() == items.len(),
        items.len() > 0 ==> paths_of(item_events(items, path)) == set![path],
        items.len() == 0 ==> paths_of(item_events(items, path)) == Set::<Seq<u8>>::empty(),
    decreases items.len(),
{
    if items.len() > 0 {
        let less = items.subrange(0, items.len() - 1);
        let last = items[items.len() - 1];
        assert forall|i: int| 0 <= i < less.len() implies scalar_of(#[trigger] less[i]) is Some
            && fits_index(scalar_of(less[i])->0) by {
            assert(less[i] == items[i]);
        }
        lemma_item_entries(less, path);
        lemma_scalar_entries(last, path);
        lemma_values_of_concat(item_events(less, path), events(last, path));
        lemma_paths_of_concat(item_events(less, path), events(last, path));
        assert(paths_of(item_events(items, path)) =~= set![path]);
    }
}

/// A field with so many scalars in an array makes an entry for each and one for
/// its presence; so a field with one scalar makes two. An empty array makes
/// none.
pub proof fn law_entries_are_counted(key: Seq<u8>, items: Seq<Tree>, t: Tree, limit: int)
    requires
        key_ok(key),
        scalar_of(t) is Some,
        fits_index(scalar_of(t)->0),
        forall|i: int|
            0 <= i < items.len() ==> scalar_of(#[trigger] items[i]) is Some && fits_index(
                scalar_of(items[i])->0,
            ),
    ensures
        can_index(Tree::Object(seq![(key, t)]), limit) <==> limit >= 2,
        can_index(Tree::Object(seq![(key, Tree::List(items))]), limit) <==> limit >= if items.len()
            == 0 {
            0
        } else {
            items.len() + 1
        },
{
    let empty = Seq::<u8>::empty();
    let (one, many) = (seq![(key, t)], seq![(key, Tree::List(items))]);
    lemma_single(key, t);
    lemma_single(key, Tree::List(items));
    lemma_scalar_entries(t, key);
    lemma_item_entries(items, key);
    assert(events(Tree::List(items), key) =~= item_events(items, key));
    assert(one[0] == (key, t));
    assert(many[0] == (key, Tree::List(items)));
    lemma_object(one, empty);
    lemma_object(many, empty);
    assert(acceptable(t, key));
    assert forall|i: int| 0 <= i < items.len() implies acceptable(#[trigger] items[i], key) by {}
    assert(acceptable(Tree::List(items), key));
}

proof fn lemma_single(key: Seq<u8>, t: Tree)
    ensures
        events(Tree::Object(seq![(key, t)]), Seq::empty()) == events(t, key),
{
    let members = seq![(key, t)];
    let empty = Seq::<u8>::empty();
    assert(members.subrange(0, 0) =~= Seq::<(Seq<u8>, Tree)>::empty());
    assert(member_events(members.subrange(0, 0), empty) =~= Seq::<Event>::empty());
    assert(member_events(members, empty) =~= events(t, key));
    assert(events(Tree::Object(members), empty) =~= events(t, key));
}

} // verus!

//! JSON values as the library reads them.
//!
//! A number is kept as the bit pattern of its double-precision value, next to
//! the integer it was written as, so that nothing here computes with floating
//! point.

use crate::bytes::{lex_lt, same};
use bincode::deserialize;
use serde_json::Value;
use vstd::prelude::*;
use vstd::utf8::*;

verus! {

/// The UTF-8 bytes of a string.
pub open spec fn utf8(s: String) -> Seq<u8> {
    encode_utf8(s@)
}

/// A JSON number.
#[derive(Debug, Clone, Copy, PartialEq, Eq, Structural)]
pub struct Number {
    /// The bits of the nearest double-precision value.
    pub bits: u64,
    /// The number itself, where it is a non-negative integer of 64 bits.
    pub unsigned: Option<u64>,
    /// The number itself, where it is a signed integer of 64 bits.
    pub signed: Option<i64>,
}

/// A JSON value. The members of an object stand in the order in which they
/// are visited.
#[derive(Debug, PartialEq, Eq)]
pub enum Json {
    /// `null`.
    Null,
    /// `true` or `false`.
    Bool(bool),
    /// A number.
    Number(Number),
    /// A string.
    Text(String),
    /// An array.
    List(Vec<Json>),
    /// An object.
    Object(Vec<(String, Json)>),
}

/// What a [`Json`] value stands for; text is a sequence of UTF-8 bytes.
pub enum Tree {
    /// `null`.
    Null,
    /// `true` or `false`.
    Bool(bool),
    /// A number.
    Number(Number),
    /// A string.
    Text(Seq<u8>),
    /// An array.
    List(Seq<Tree>),
    /// An object.
    Object(Seq<(Seq<u8>, Tree)>),
}

/// The tree of a value.
pub open spec fn tree(j: Json) -> Tree
    decreases j,
{
    match j {
        Json::Null => Tree::Null,
        Json::Bool(b) => Tree::Bool(b),
        Json::Number(n) => Tree::Number(n),
        Json::Text(s) => Tree::Text(utf8(s)),
        Json::List(items) => Tree::List(
            Seq::new(
                items@.len(),
                |i: int|
                    if 0 <= i < items@.len() {
                        tree(items@[i])
                    } else {
                        Tree::Null
                    },
            ),
        ),
        Json::Object(members) => Tree::Object(
            Seq::new(
                members@.len(),
                |i: int|
                    if 0 <= i < members@.len() {
                        (utf8(members@[i].0), tree(members@[i].1))
                    } else {
                        (Seq::empty(), Tree::Null)
                    },
            ),
        ),
    }
}

impl View for Json {
    type V = Tree;

    open spec fn view(&self) -> Tree {
        tree(*self)
    }
}

/// Whether no object inside names a member twice.
pub open spec fn distinct_keys(t: Tree) -> bool
    decreases t,
{
    match t {
        Tree::List(items) => forall|i: int| 0 <= i < items.len() ==> distinct_keys(#[trigger] items[i]),
        Tree::Object(members) => {
            &&& forall|i: int, j: int|
                0 <= i < j < members.len() ==> (#[trigger] members[i]).0 != (#[trigger] members[j]).0
            &&& forall|i: int| 0 <= i < members.len() ==> distinct_keys((#[trigger] members[i]).1)
        },
        _ => true,
    }
}

/// Where the first member of that name stands; the number of members where
/// there is none.
pub open spec fn position(members: Seq<(Seq<u8>, Tree)>, key: Seq<u8>) -> int
    decreases members.len(),
{
    if members.len() == 0 {
        0
    } else if members[0].0 == key {
        0
    } else {
        1 + position(members.skip(1), key)
    }
}

/// The position is that of the name's first occurrence.
pub proof fn lemma_position(members: Seq<(Seq<u8>, Tree)>, key: Seq<u8>)
    ensures
        0 <= position(members, key) <= members.len(),
        forall|i: int| 0 <= i < position(members, key) ==> (#[trigger] members[i]).0 != key,
        position(members, key) < members.len() ==> members[position(members, key)].0 == key,
    decreases members.len(),
{
    if members.len() > 0 && members[0].0 != key {
        let rest = members.skip(1);
        lemma_position(rest, key);
        assert forall|i: int| 0 <= i < position(members, key) implies (#[trigger] members[i]).0
            != key by {
            if i > 0 {
                assert(rest[i - 1] == members[i]);
            }
        }
    }
}

/// Where names are distinct, each is found where it stands.
pub proof fn lemma_position_unique(members: Seq<(Seq<u8>, Tree)>, i: int)
    requires
        0 <= i < members.len(),
        forall|a: int, b: int|
            0 <= a < b < members.len() ==> (#[trigger] members[a]).0 != (#[trigger] members[b]).0,
    ensures
        position(members, members[i].0) == i,
{
    lemma_position(members, members[i].0);
}

/// Whether a number is one that JSON can hold: an integer with the value that is
/// nearest to it, or a finite value that is written with a point or an exponent.
pub open spec fn genuine_number(n: Number) -> bool {
    match (n.unsigned, n.signed) {
        (Some(u), s) => n.bits == integer_bits(u as int) && s == if u <= i64::MAX {
            Some(u as i64)
        } else {
            None
        },
        (None, Some(i)) => i < 0 && n.bits == integer_bits(i as int),
        (None, None) => n.bits % 0x8000_0000_0000_0000 < 0x7FF0_0000_0000_0000,
    }
}

/// Whether a tree is one that a JSON text can denote: its numbers are genuine,
/// and the members of each object stand in the order of their names.
pub open spec fn genuine(t: Tree) -> bool
    decreases t,
{
    match t {
        Tree::Number(n) => genuine_number(n),
        Tree::List(items) => forall|i: int| 0 <= i < items.len() ==> genuine(#[trigger] items[i]),
        Tree::Object(members) => {
            &&& forall|i: int, j: int|
                0 <= i < j < members.len() ==> lex_lt(
                    (#[trigger] members[i]).0,
                    (#[trigger] members[j]).0,
                )
            &&& forall|i: int| 0 <= i < members.len() ==> genuine((#[trigger] members[i]).1)
        },
        _ => true,
    }
}

/// Whether all numbers of a tree are integers.
pub open spec fn whole(t: Tree) -> bool
    decreases t,
{
    match t {
        Tree::Number(n) => n.unsigned is Some || n.signed is Some,
        Tree::List(items) => forall|i: int| 0 <= i < items.len() ==> whole(#[trigger] items[i]),
        Tree::Object(members) => forall|i: int|
            0 <= i < members.len() ==> whole((#[trigger] members[i]).1),
        _ => true,
    }
}

/// Whether arrays and objects are nested at most `n` deep.
pub open spec fn shallow(t: Tree, n: nat) -> bool
    decreases t,
{
    match t {
        Tree::List(items) => n > 0 && forall|i: int|
            0 <= i < items.len() ==> shallow(#[trigger] items[i], (n - 1) as nat),
        Tree::Object(members) => n > 0 && forall|i: int|
            0 <= i < members.len() ==> shallow((#[trigger] members[i]).1, (n - 1) as nat),
        _ => true,
    }
}

/// Whether a tree is read back from its text: a genuine one whose numbers are
/// integers and that is not nested too deep to be read.
pub open spec fn comes_back(t: Tree) -> bool {
    genuine(t) && whole(t) && shallow(t, MAX_NESTING as nat)
}

/// How deep `serde_json` reads nested arrays and objects.
pub const MAX_NESTING: usize = 127;

/// A tree is no deeper than a greater number.
pub proof fn lemma_shallow(t: Tree, n: nat, m: nat)
    requires
        shallow(t, n),
        n <= m,
    ensures
        shallow(t, m),
    decreases t,
{
    match t {
        Tree::List(items) => {
            assert forall|i: int| 0 <= i < items.len() implies shallow(
                #[trigger] items[i],
                (m - 1) as nat,
            ) by {
                lemma_shallow(items[i], (n - 1) as nat, (m - 1) as nat);
            }
        },
        Tree::Object(members) => {
            assert forall|i: int| 0 <= i < members.len() implies shallow(
                (#[trigger] members[i]).1,
                (m - 1) as nat,
            ) by {
                lemma_shallow(members[i].1, (n - 1) as nat, (m - 1) as nat);
            }
        },
        _ => {},
    }
}

/// `serde_json`'s in-memory value.
#[verifier::external_type_specification]
#[verifier::external_body]
pub struct ExValue(serde_json::Value);

/// The tree that a `serde_json::Value` holds.
pub uninterp spec fn value_tree(v: serde_json::Value) -> Tree;

/// The bits of the double-precision value that `serde_json` gives an integer.
pub uninterp spec fn integer_bits(n: int) -> u64;

/// The JSON text that `serde_json` writes for a value with that tree.
pub uninterp spec fn tree_text(t: Tree) -> Seq<char>;

/// The tree of the value that `serde_json` holds for a tree.
pub uninterp spec fn held(t: Tree) -> Tree;

/// The compact JSON text of a tree.
pub open spec fn compact(t: Tree) -> Seq<char> {
    tree_text(held(t))
}

/// The tree that a JSON text denotes, if it is one.
pub uninterp spec fn json_tree(text: Seq<u8>) -> Option<Tree>;

/// Calls `serde_json::from_str`, which reads one JSON document and fails on
/// anything that is not one. It refuses values that are nested deeper than its
/// recursion limit.
#[verifier::external_body]
fn value_from_str(text: &str) -> (r: Option<Value>)
    ensures
        match r {
            Some(v) => json_tree(encode_utf8(text@)) == Some(value_tree(v)) && shallow(
                value_tree(v),
                MAX_NESTING as nat,
            ),
            None => json_tree(encode_utf8(text@)) is None,
        },
{
    serde_json::from_str(text).ok()
}

/// Takes a `serde_json::Value` apart: every variant becomes the one of the
/// same kind, a number through `Number::as_f64`, which is finite and for an
/// integer the nearest value, and `Number::as_u64` and `Number::as_i64`, an
/// object through the iterator of `serde_json::Map`, which holds each name
/// once and goes through them in order.
#[verifier::external_body]
fn from_value(v: Value) -> (j: Json)
    ensures
        j@ == value_tree(v),
        distinct_keys(j@),
        genuine(j@),
        match j {
            Json::Number(n) => n.unsigned is Some ==> n.bits == integer_bits(
                n.unsigned->0 as int,
            ),
            _ => true,
        },
{
    match v {
        Value::Null => Json::Null,
        Value::Bool(b) => Json::Bool(b),
        Value::Number(n) => Json::Number(Number {
            bits: n.as_f64().map_or(u64::MAX, |f| f.to_bits()),
            unsigned: n.as_u64(),
            signed: n.as_i64(),
        }),
        Value::String(s) => Json::Text(s),
        Value::Array(items) => Json::List(items.into_iter().map(from_value).collect()),
        Value::Object(map) => Json::Object(
            map.into_iter().map(|(k, v)| (k, from_value(v))).collect(),
        ),
    }
}

/// Puts a `serde_json::Value` together: every variant becomes the one of the
/// same kind. An integer is that integer. Another number is the value of its
/// bits, which `serde_json::Number::from_f64` takes if it is finite. What comes
/// out depends on the tree alone; where that is genuine, it is the same tree.
#[verifier::external_body]
fn to_value(j: &Json) -> (v: Value)
    ensures
        value_tree(v) == held(j@),
        genuine(j@) ==> value_tree(v) == j@,
{
    match j {
        Json::Null => Value::Null,
        Json::Bool(b) => Value::Bool(*b),
        Json::Number(Number { unsigned: Some(u), .. }) => (*u).into(),
        Json::Number(Number { signed: Some(i), .. }) => (*i).into(),
        Json::Number(n) => deserialize(&n.bits.to_le_bytes()).ok().and_then(
            serde_json::Number::from_f64,
        ).into(),
        Json::Text(s) => Value::String(s.clone()),
        Json::List(items) => items.iter().map(to_value).collect(),
        Json::Object(members) => members.iter().map(|m| (m.0.clone(), to_value(&m.1))).collect(),
    }
}

/// Calls `serde_json::Value::to_string`, which writes a value as compact JSON
/// text. The text of a value whose numbers are integers is read back as that
/// value, if it is not nested too deep to be read. Of other numbers, which may be
/// read back as a neighbouring value, nothing is said.
#[verifier::external_body]
fn value_text(v: &Value) -> (s: String)
    ensures
        s@ == tree_text(value_tree(*v)),
        s@.len() > 0,
        comes_back(value_tree(*v)) ==> json_tree(encode_utf8(s@)) == Some(value_tree(*v)),
{
    v.to_string()
}

/// Writes a value as compact JSON text.
pub fn json_text(j: &Json) -> (s: String)
    ensures
        s@ == compact(j@),
        s@.len() > 0,
        comes_back(j@) ==> json_tree(encode_utf8(s@)) == Some(j@),
{
    value_text(&to_value(j))
}

/// Finds the first member of that name.
pub fn find_member(members: &Vec<(String, Json)>, key: &[u8]) -> (r: usize)
    ensures
        r == position(tree(Json::Object(*members))->Object_0, key@),
        r <= members@.len(),
{
    let ghost all = tree(Json::Object(*members))->Object_0;
    let mut i: usize = 0;
    assert(all.skip(0) =~= all);
    while i < members.len()
        invariant
            i <= members@.len(),
            all == tree(Json::Object(*members))->Object_0,
            position(all, key@) == i + position(all.skip(i as int), key@),
        decreases members@.len() - i,
    {
        assert(all.skip(i as int)[0] == all[i as int]);
        if same(members[i].0.as_str().as_bytes(), key) {
            return i;
        }
        assert(all.skip(i as int).skip(1) =~= all.skip(i + 1));
        i += 1;
    }
    i
}

impl Json {
    /// Parses a JSON text; `None` where it is not one.
    pub fn from_text(text: &str) -> (r: Option<Json>)
        ensures
            match r {
                Some(j) => json_tree(encode_utf8(text@)) == Some(j@) && distinct_keys(j@) && genuine(
                    j@,
                ) && shallow(j@, MAX_NESTING as nat),
                None => json_tree(encode_utf8(text@)) is None,
            },
    {
        match value_from_str(text) {
            Some(v) => Some(from_value(v)),
            None => None,
        }
    }
}

} // verus!

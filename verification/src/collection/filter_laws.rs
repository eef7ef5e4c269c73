//! What filters mean, told by the documents that they match.

use crate::bytes::{lex_lt, order_of, Order};
use crate::collection::filter::{
    clause, clauses, field_query, has_any, has_equal, has_in_range, holds, is_operator,
    operand, operands, operator_queries, operator_query, parsed, part_list, parts, present_at,
    range_op, reaches, scalar_of, segments, Query,
};
use crate::collection::flatten::lemma_segments_single;
use crate::collection::scalar::{compared, Datum};
use crate::json::{lemma_position, lemma_position_unique, position, Tree};
use vstd::prelude::*;
use vstd::utf8::*;

verus! {

// ---- names ----------------------------------------------------------------------------------

/// A text that starts with `$` starts with that byte.
proof fn lemma_dollar(s: Seq<char>)
    requires
        s.len() > 0,
        s[0] == '$',
    ensures
        is_operator(encode_utf8(s)),
{
    let u = '$' as u32;
    assert(u == 0x24);
    assert((0x24u32 & 0x7F) as u8 == 0x24u8) by (bit_vector);
    assert(encode_scalar(u) =~= seq![0x24u8]);
    let rest = encode_utf8(s.drop_first());
    assert(encode_utf8(s) == encode_scalar(u) + rest);
    assert(encode_utf8(s)[0] == encode_scalar(u)[0]);
}

/// The names of the operators differ.
#[verifier::spinoff_prover]
proof fn lemma_names()
    ensures
        is_operator(encode_utf8("$and"@)),
        is_operator(encode_utf8("$or"@)),
        is_operator(encode_utf8("$not"@)),
        is_operator(encode_utf8("$eq"@)),
        is_operator(encode_utf8("$ne"@)),
        is_operator(encode_utf8("$gt"@)),
        is_operator(encode_utf8("$gte"@)),
        is_operator(encode_utf8("$lt"@)),
        is_operator(encode_utf8("$lte"@)),
        is_operator(encode_utf8("$in"@)),
        is_operator(encode_utf8("$nin"@)),
        is_operator(encode_utf8("$exists"@)),
        encode_utf8("$and"@) != encode_utf8("$or"@),
        encode_utf8("$and"@) != encode_utf8("$not"@),
        encode_utf8("$and"@) != encode_utf8("$eq"@),
        encode_utf8("$and"@) != encode_utf8("$ne"@),
        encode_utf8("$and"@) != encode_utf8("$gt"@),
        encode_utf8("$and"@) != encode_utf8("$gte"@),
        encode_utf8("$and"@) != encode_utf8("$lt"@),
        encode_utf8("$and"@) != encode_utf8("$lte"@),
        encode_utf8("$and"@) != encode_utf8("$in"@),
        encode_utf8("$and"@) != encode_utf8("$nin"@),
        encode_utf8("$and"@) != encode_utf8("$exists"@),
        encode_utf8("$or"@) != encode_utf8("$not"@),
        encode_utf8("$or"@) != encode_utf8("$eq"@),
        encode_utf8("$or"@) != encode_utf8("$ne"@),
        encode_utf8("$or"@) != encode_utf8("$gt"@),
        encode_utf8("$or"@) != encode_utf8("$gte"@),
        encode_utf8("$or"@) != encode_utf8("$lt"@),
        encode_utf8("$or"@) != encode_utf8("$lte"@),
        encode_utf8("$or"@) != encode_utf8("$in"@),
        encode_utf8("$or"@) != encode_utf8("$nin"@),
        encode_utf8("$or"@) != encode_utf8("$exists"@),
        encode_utf8("$not"@) != encode_utf8("$eq"@),
        encode_utf8("$not"@) != encode_utf8("$ne"@),
        encode_utf8("$not"@) != encode_utf8("$gt"@),
        encode_utf8("$not"@) != encode_utf8("$gte"@),
        encode_utf8("$not"@) != encode_utf8("$lt"@),
        encode_utf8("$not"@) != encode_utf8("$lte"@),
        encode_utf8("$not"@) != encode_utf8("$in"@),
        encode_utf8("$not"@) != encode_utf8("$nin"@),
        encode_utf8("$not"@) != encode_utf8("$exists"@),
        encode_utf8("$eq"@) != encode_utf8("$ne"@),
        encode_utf8("$eq"@) != encode_utf8("$gt"@),
        encode_utf8("$eq"@) != encode_utf8("$gte"@),
        encode_utf8("$eq"@) != encode_utf8("$lt"@),
        encode_utf8("$eq"@) != encode_utf8("$lte"@),
        encode_utf8("$eq"@) != encode_utf8("$in"@),
        encode_utf8("$eq"@) != encode_utf8("$nin"@),
        encode_utf8("$eq"@) != encode_utf8("$exists"@),
        encode_utf8("$ne"@) != encode_utf8("$gt"@),
        encode_utf8("$ne"@) != encode_utf8("$gte"@),
        encode_utf8("$ne"@) != encode_utf8("$lt"@),
        encode_utf8("$ne"@) != encode_utf8("$lte"@),
        encode_utf8("$ne"@) != encode_utf8("$in"@),
        encode_utf8("$ne"@) != encode_utf8("$nin"@),
        encode_utf8("$ne"@) != encode_utf8("$exists"@),
        encode_utf8("$gt"@) != encode_utf8("$gte"@),
        encode_utf8("$gt"@) != encode_utf8("$lt"@),
        encode_utf8("$gt"@) != encode_utf8("$lte"@),
        encode_utf8("$gt"@) != encode_utf8("$in"@),
        encode_utf8("$gt"@) != encode_utf8("$nin"@),
        encode_utf8("$gt"@) != encode_utf8("$exists"@),
        encode_utf8("$gte"@) != encode_utf8("$lt"@),
        encode_utf8("$gte"@) != encode_utf8("$lte"@),
        encode_utf8("$gte"@) != encode_utf8("$in"@),
        encode_utf8("$gte"@) != encode_utf8("$nin"@),
        encode_utf8("$gte"@) != encode_utf8("$exists"@),
        encode_utf8("$lt"@) != encode_utf8("$lte"@),
        encode_utf8("$lt"@) != encode_utf8("$in"@),
        encode_utf8("$lt"@) != encode_utf8("$nin"@),
        encode_utf8("$lt"@) != encode_utf8("$exists"@),
        encode_utf8("$lte"@) != encode_utf8("$in"@),
        encode_utf8("$lte"@) != encode_utf8("$nin"@),
        encode_utf8("$lte"@) != encode_utf8("$exists"@),
        encode_utf8("$in"@) != encode_utf8("$nin"@),
        encode_utf8("$in"@) != encode_utf8("$exists"@),
        encode_utf8("$nin"@) != encode_utf8("$exists"@),
{
    reveal_strlit("$and");
    reveal_strlit("$or");
    reveal_strlit("$not");
    reveal_strlit("$eq");
    reveal_strlit("$ne");
    reveal_strlit("$gt");
    reveal_strlit("$gte");
    reveal_strlit("$lt");
    reveal_strlit("$lte");
    reveal_strlit("$in");
    reveal_strlit("$nin");
    reveal_strlit("$exists");
    assert("$and"@[1] == 'a' && "$and"@[2] == 'n');
    assert("$or"@[1] == 'o' && "$or"@[2] == 'r');
    assert("$not"@[1] == 'n' && "$not"@[2] == 'o');
    assert("$eq"@[1] == 'e' && "$eq"@[2] == 'q');
    assert("$ne"@[1] == 'n' && "$ne"@[2] == 'e');
    assert("$gt"@[1] == 'g' && "$gt"@[2] == 't');
    assert("$gte"@[1] == 'g' && "$gte"@[2] == 't');
    assert("$lt"@[1] == 'l' && "$lt"@[2] == 't');
    assert("$lte"@[1] == 'l' && "$lte"@[2] == 't');
    assert("$in"@[1] == 'i' && "$in"@[2] == 'n');
    assert("$nin"@[1] == 'n' && "$nin"@[2] == 'i');
    assert("$exists"@[1] == 'e' && "$exists"@[2] == 'x');
    encode_utf8_decode_utf8("$and"@);
    encode_utf8_decode_utf8("$or"@);
    encode_utf8_decode_utf8("$not"@);
    encode_utf8_decode_utf8("$eq"@);
    encode_utf8_decode_utf8("$ne"@);
    encode_utf8_decode_utf8("$gt"@);
    encode_utf8_decode_utf8("$gte"@);
    encode_utf8_decode_utf8("$lt"@);
    encode_utf8_decode_utf8("$lte"@);
    encode_utf8_decode_utf8("$in"@);
    encode_utf8_decode_utf8("$nin"@);
    encode_utf8_decode_utf8("$exists"@);
    lemma_dollar("$and"@);
    lemma_dollar("$or"@);
    lemma_dollar("$not"@);
    lemma_dollar("$eq"@);
    lemma_dollar("$ne"@);
    lemma_dollar("$gt"@);
    lemma_dollar("$gte"@);
    lemma_dollar("$lt"@);
    lemma_dollar("$lte"@);
    lemma_dollar("$in"@);
    lemma_dollar("$nin"@);
    lemma_dollar("$exists"@);
}

// ---- filter documents -----------------------------------------------------------------------

/// A document with one member.
pub open spec fn one(name: Seq<u8>, t: Tree) -> Tree {
    Tree::Object(seq![(name, t)])
}

/// One operator on a field.
pub open spec fn on(field: Seq<u8>, op: Seq<u8>, arg: Tree) -> Tree {
    one(field, one(op, arg))
}

/// The filter document is accepted.
pub open spec fn taken(t: Tree, depth: nat) -> bool {
    parsed(t, depth) is Some
}

/// The filter document is accepted, and the metadata matches it.
pub open spec fn hits(t: Tree, depth: nat, m: Tree) -> bool {
    taken(t, depth) && holds(parsed(t, depth)->0, m)
}

proof fn lemma_clauses(ms: Seq<(Seq<u8>, Tree)>, depth: nat)
    ensures
        clauses(ms, depth) is Some <==> forall|i: int|
            0 <= i < ms.len() ==> (#[trigger] clause(ms[i], depth)) is Some,
        clauses(ms, depth) is Some ==> clauses(ms, depth)->0.len() == ms.len() && forall|i: int|
            0 <= i < ms.len() ==> Some(#[trigger] (clauses(ms, depth)->0)[i]) == clause(
                ms[i],
                depth,
            ),
    decreases ms.len(),
{
    if ms.len() > 0 {
        let less = ms.subrange(0, ms.len() - 1);
        lemma_clauses(less, depth);
        assert forall|i: int| 0 <= i < less.len() implies less[i] == ms[i] by {}
        if clauses(ms, depth) is Some {
            assert forall|i: int| 0 <= i < ms.len() implies (#[trigger] clause(
                ms[i],
                depth,
            )) is Some by {
                if i < less.len() {
                    assert(clause(less[i], depth) is Some);
                }
            }
            let qs = clauses(less, depth)->0;
            assert forall|i: int| 0 <= i < ms.len() implies Some(
                #[trigger] (clauses(ms, depth)->0)[i],
            ) == clause(ms[i], depth) by {
                if i < less.len() {
                    assert(Some(qs[i]) == clause(less[i], depth));
                }
            }
        } else if clauses(less, depth) is None {
            let i = choose|i: int|
                0 <= i < less.len() && (#[trigger] clause(less[i], depth)) is None;
            assert(clause(ms[i], depth) is None);
        } else {
            assert(clause(ms[ms.len() - 1], depth) is None);
        }
    }
}

proof fn lemma_part_list(items: Seq<Tree>, depth: nat)
    ensures
        part_list(items, depth) is Some <==> forall|i: int|
            0 <= i < items.len() ==> (#[trigger] parsed(items[i], depth)) is Some,
        part_list(items, depth) is Some ==> part_list(items, depth)->0.len() == items.len()
            && forall|i: int|
            0 <= i < items.len() ==> Some(#[trigger] (part_list(items, depth)->0)[i]) == parsed(
                items[i],
                depth,
            ),
    decreases items.len(),
{
    if items.len() > 0 {
        let less = items.subrange(0, items.len() - 1);
        lemma_part_list(less, depth);
        assert forall|i: int| 0 <= i < less.len() implies less[i] == items[i] by {}
        if part_list(items, depth) is Some {
            assert forall|i: int| 0 <= i < items.len() implies (#[trigger] parsed(
                items[i],
                depth,
            )) is Some by {
                if i < less.len() {
                    assert(parsed(less[i], depth) is Some);
                }
            }
            let qs = part_list(less, depth)->0;
            assert forall|i: int| 0 <= i < items.len() implies Some(
                #[trigger] (part_list(items, depth)->0)[i],
            ) == parsed(items[i], depth) by {
                if i < less.len() {
                    assert(Some(qs[i]) == parsed(less[i], depth));
                }
            }
        } else if part_list(less, depth) is None {
            let i = choose|i: int|
                0 <= i < less.len() && (#[trigger] parsed(less[i], depth)) is None;
            assert(parsed(items[i], depth) is None);
        } else {
            assert(parsed(items[items.len() - 1], depth) is None);
        }
    }
}

/// A document with one member says what the member says.
proof fn lemma_one(name: Seq<u8>, t: Tree, depth: nat)
    requires
        depth <= 64,
    ensures
        parsed(one(name, t), depth) == clause((name, t), depth),
{
    let ms = seq![(name, t)];
    assert(ms.subrange(0, 0) =~= Seq::empty());
    assert(ms.subrange(0, ms.len() - 1) =~= Seq::empty());
    assert(clauses(Seq::empty(), depth) == Some(Seq::<Query>::empty()));
    assert(ms[0] == (name, t));
    match clause((name, t), depth) {
        Some(q) => {
            assert(clauses(ms, depth) == Some(Seq::<Query>::empty().push(q)));
        },
        None => {},
    }
}

/// The members of a filter document are ANDed: it is accepted if each member
/// is on its own, and matched by what matches each on its own. Nothing but an
/// object is a filter, and none nested more than 64 levels deep.
pub proof fn law_members_are_anded(ms: Seq<(Seq<u8>, Tree)>, depth: nat, m: Tree)
    ensures
        depth <= 64 ==> (taken(Tree::Object(ms), depth) <==> forall|i: int|
            0 <= i < ms.len() ==> taken(one((#[trigger] ms[i]).0, ms[i].1), depth)),
        depth > 64 ==> !taken(Tree::Object(ms), depth),
        taken(Tree::Object(ms), depth) ==> (hits(Tree::Object(ms), depth, m) <==> forall|i: int|
            0 <= i < ms.len() ==> hits(one((#[trigger] ms[i]).0, ms[i].1), depth, m)),
        !(m is Object) ==> !taken(m, depth),
{
    if depth <= 64 {
        lemma_clauses(ms, depth);
        assert forall|i: int| 0 <= i < ms.len() implies parsed(
            one((#[trigger] ms[i]).0, ms[i].1),
            depth,
        ) == clause(ms[i], depth) by {
            lemma_one(ms[i].0, ms[i].1, depth);
            assert(ms[i] == (ms[i].0, ms[i].1));
        }
        if clauses(ms, depth) is Some {
            let qs = clauses(ms, depth)->0;
            assert forall|i: int| 0 <= i < ms.len() implies hits(
                one((#[trigger] ms[i]).0, ms[i].1),
                depth,
                m,
            ) == holds(qs[i], m) by {
                assert(Some(qs[i]) == clause(ms[i], depth));
            }
            if qs.len() > 1 {
                let q = Query::And(qs);
                if holds(q, m) {
                    assert forall|i: int| 0 <= i < ms.len() implies hits(
                        one((#[trigger] ms[i]).0, ms[i].1),
                        depth,
                        m,
                    ) by {
                        assert(holds(q->And_0[i], m));
                    }
                }
                if forall|i: int|
                    0 <= i < ms.len() ==> hits(one((#[trigger] ms[i]).0, ms[i].1), depth, m) {
                    assert forall|i: int| 0 <= i < qs.len() implies holds(#[trigger] qs[i], m) by {
                        assert(hits(one(ms[i].0, ms[i].1), depth, m));
                    }
                }
            } else if qs.len() == 1 {
                assert(hits(one(ms[0].0, ms[0].1), depth, m) == holds(qs[0], m));
            }
        } else {
            let i = choose|i: int| 0 <= i < ms.len() && (#[trigger] clause(ms[i], depth)) is None;
            assert(!taken(one(ms[i].0, ms[i].1), depth));
        }
    }
}

/// `$and` is matched by what matches every filter of its list, and `$or` by what
/// matches some of them. The list must not be empty, and every filter in it must
/// be one.
pub proof fn law_and_needs_all_and_or_needs_one(items: Seq<Tree>, depth: nat, m: Tree)
    requires
        depth <= 64,
    ensures
        ({
            let and = one(encode_utf8("$and"@), Tree::List(items));
            let or = one(encode_utf8("$or"@), Tree::List(items));
            let fine = items.len() > 0 && forall|i: int|
                0 <= i < items.len() ==> taken(#[trigger] items[i], depth + 1);
            &&& taken(and, depth) <==> fine
            &&& taken(or, depth) <==> fine
            &&& fine ==> (hits(and, depth, m) <==> forall|i: int|
                0 <= i < items.len() ==> hits(#[trigger] items[i], depth + 1, m))
            &&& fine ==> (hits(or, depth, m) <==> exists|i: int|
                0 <= i < items.len() && hits(#[trigger] items[i], depth + 1, m))
        }),
{
    let (a, o) = (encode_utf8("$and"@), encode_utf8("$or"@));
    let list = Tree::List(items);
    lemma_names();
    lemma_one(a, list, depth);
    lemma_one(o, list, depth);
    lemma_part_list(items, depth + 1);
    let fine = items.len() > 0 && forall|i: int|
        0 <= i < items.len() ==> taken(#[trigger] items[i], depth + 1);
    if fine {
        assert forall|i: int| 0 <= i < items.len() implies (#[trigger] parsed(
            items[i],
            depth + 1,
        )) is Some by {
            assert(taken(items[i], depth + 1));
        }
        let qs = part_list(items, depth + 1)->0;
        assert(parts(list, depth + 1) == Some(qs));
        assert forall|i: int| 0 <= i < items.len() implies hits(#[trigger] items[i], depth + 1, m)
            == holds(qs[i], m) by {
            assert(Some(qs[i]) == parsed(items[i], depth + 1));
        }
        let (x, y) = (Query::And(qs), Query::Or(qs));
        assert(parsed(one(a, list), depth) == Some(x));
        assert(parsed(one(o, list), depth) == Some(y));
        if holds(x, m) {
            assert forall|i: int| 0 <= i < items.len() implies hits(
                #[trigger] items[i],
                depth + 1,
                m,
            ) by {
                assert(holds(x->And_0[i], m));
            }
        }
        if forall|i: int| 0 <= i < items.len() ==> hits(#[trigger] items[i], depth + 1, m) {
            assert forall|i: int| 0 <= i < qs.len() implies holds(#[trigger] qs[i], m) by {
                assert(hits(items[i], depth + 1, m));
            }
        }
        if holds(y, m) {
            let i = choose|i: int| 0 <= i < y->Or_0.len() && holds(#[trigger] y->Or_0[i], m);
            assert(hits(items[i], depth + 1, m));
        }
        if exists|i: int| 0 <= i < items.len() && hits(#[trigger] items[i], depth + 1, m) {
            let i = choose|i: int| 0 <= i < items.len() && hits(#[trigger] items[i], depth + 1, m);
            assert(holds(y->Or_0[i], m));
        }
    } else if items.len() > 0 {
        let i = choose|i: int| 0 <= i < items.len() && !taken(#[trigger] items[i], depth + 1);
        assert(parsed(items[i], depth + 1) is None);
        assert(parts(list, depth + 1) is None);
    }
}

/// `$not` is matched by exactly what does not match its filter.
pub proof fn law_not_is_the_opposite(t: Tree, depth: nat, m: Tree)
    requires
        depth <= 64,
    ensures
        taken(one(encode_utf8("$not"@), t), depth) <==> taken(t, depth + 1),
        taken(t, depth + 1) ==> hits(one(encode_utf8("$not"@), t), depth, m) == !hits(
            t,
            depth + 1,
            m,
        ),
{
    lemma_names();
    lemma_one(encode_utf8("$not"@), t, depth);
    if taken(t, depth + 1) {
        let q = Query::Not(Box::new(parsed(t, depth + 1)->0));
        assert(parsed(one(encode_utf8("$not"@), t), depth) == Some(q));
    }
}

// ---- operators ------------------------------------------------------------------------------

/// A field that a filter may name: 1 to 256 bytes without NUL, and no operator.
pub open spec fn plain(field: Seq<u8>) -> bool {
    1 <= field.len() <= 256 && !field.contains(0) && field[0] != 0x24
}

/// A value that a filter may compare with: `null`, a boolean, a finite number or
/// a string of at most 512 bytes.
pub open spec fn comparable(v: Tree) -> bool {
    match v {
        Tree::Null => true,
        Tree::Bool(_) => true,
        Tree::Number(n) => n.bits % 0x8000_0000_0000_0000 < 0x7FF0_0000_0000_0000,
        Tree::Text(s) => s.len() <= 512,
        _ => false,
    }
}

proof fn lemma_comparable(v: Tree)
    ensures
        operand(v) is Some <==> comparable(v),
        comparable(v) ==> operand(v) == scalar_of(v),
        comparable(v) ==> !(v is List) && !(v is Object),
{
}

proof fn lemma_on(field: Seq<u8>, op: Seq<u8>, arg: Tree, depth: nat)
    requires
        depth <= 64,
        plain(field),
        is_operator(op),
    ensures
        parsed(on(field, op, arg), depth) == operator_query(field, op, arg),
{
    lemma_names();
    lemma_one(field, one(op, arg), depth);
    let ops = seq![(op, arg)];
    assert(ops.drop_last() =~= Seq::empty());
    assert(ops.last() == (op, arg));
    assert(operator_queries(field, ops.drop_last()) == Some(Seq::<Query>::empty()));
    match operator_query(field, op, arg) {
        Some(q) => {
            assert(operator_queries(field, ops) == Some(Seq::<Query>::empty().push(q)));
        },
        None => {},
    }
    assert(clause((field, one(op, arg)), depth) == field_query(field, one(op, arg)));
}

proof fn lemma_operands(items: Seq<Tree>)
    ensures
        operands(items) is Some <==> forall|i: int|
            0 <= i < items.len() ==> comparable(#[trigger] items[i]),
        operands(items) is Some ==> operands(items)->0.len() == items.len() && forall|i: int|
            0 <= i < items.len() ==> Some(#[trigger] (operands(items)->0)[i]) == scalar_of(items[i]),
    decreases items.len(),
{
    if items.len() > 0 {
        let less = items.drop_last();
        lemma_operands(less);
        lemma_comparable(items.last());
        assert(items.last() == items[items.len() - 1]);
        if operands(items) is Some {
            assert forall|i: int| 0 <= i < items.len() implies comparable(#[trigger] items[i]) by {
                if i < less.len() {
                    assert(less[i] == items[i]);
                }
            }
            let ds = operands(less)->0;
            assert forall|i: int| 0 <= i < items.len() implies Some(
                #[trigger] (operands(items)->0)[i],
            ) == scalar_of(items[i]) by {
                if i < less.len() {
                    assert(less[i] == items[i]);
                    assert(Some(ds[i]) == scalar_of(less[i]));
                }
            }
        } else if operands(less) is None {
            let i = choose|i: int| 0 <= i < less.len() && !comparable(#[trigger] less[i]);
            assert(items[i] == less[i]);
        }
    }
}

/// What is no operator is refused where one is due, and so is an operator whose
/// argument is of the wrong kind: lists take lists, `$exists` takes a boolean.
/// A field without a proper name is refused too, as is an object that is not
/// made of operators.
pub proof fn law_strange_operators_are_refused(
    field: Seq<u8>,
    name: Seq<u8>,
    t: Tree,
    depth: nat,
)
    requires
        depth <= 64,
        plain(field),
        name.len() > 0,
    ensures
        name[0] == 0x24 && name != encode_utf8("$and"@) && name != encode_utf8("$or"@) && name
            != encode_utf8("$not"@) ==> !taken(one(name, t), depth),
        name != encode_utf8("$eq"@) && name != encode_utf8("$ne"@) && name != encode_utf8("$gt"@)
            && name != encode_utf8("$gte"@) && name != encode_utf8("$lt"@) && name != encode_utf8(
            "$lte"@,
        ) && name != encode_utf8("$in"@) && name != encode_utf8("$nin"@) && name != encode_utf8(
            "$exists"@,
        ) ==> !taken(on(field, name, t), depth),
        !(t is List) ==> !taken(on(field, encode_utf8("$in"@), t), depth),
        !(t is List) ==> !taken(on(field, encode_utf8("$nin"@), t), depth),
        !(t is Bool) ==> !taken(on(field, encode_utf8("$exists"@), t), depth),
        !(t is List) ==> !taken(one(encode_utf8("$and"@), t), depth),
        !(t is List) ==> !taken(one(encode_utf8("$or"@), t), depth),
        name[0] != 0x24 && (name.len() > 256 || name.contains(0)) ==> !taken(one(name, t), depth),
        !taken(one(Seq::empty(), t), depth),
        !taken(one(field, Tree::Object(Seq::empty())), depth),
{
    lemma_names();
    lemma_one(name, t, depth);
    lemma_one(encode_utf8("$and"@), t, depth);
    lemma_one(encode_utf8("$or"@), t, depth);
    lemma_one(Seq::empty(), t, depth);
    lemma_one(field, Tree::Object(Seq::empty()), depth);
    lemma_on(field, encode_utf8("$in"@), t, depth);
    lemma_on(field, encode_utf8("$nin"@), t, depth);
    lemma_on(field, encode_utf8("$exists"@), t, depth);
    if name[0] == 0x24 {
        lemma_on(field, name, t, depth);
    } else {
        let ops = seq![(name, t)];
        lemma_one(field, Tree::Object(ops), depth);
        assert(ops[0].0 == name);
        assert(!is_operator(ops[0].0));
        assert(clause((field, Tree::Object(ops)), depth) == field_query(field, Tree::Object(ops)));
    }
}

/// Several operators on one field are ANDed.
pub proof fn law_operators_are_anded(
    field: Seq<u8>,
    ops: Seq<(Seq<u8>, Tree)>,
    depth: nat,
    m: Tree,
)
    requires
        depth <= 64,
        plain(field),
        forall|i: int|
            0 <= i < ops.len() ==> (#[trigger] ops[i]).0.len() > 0 && ops[i].0[0] == 0x24,
    ensures
        taken(one(field, Tree::Object(ops)), depth) <==> ops.len() > 0 && forall|i: int|
            0 <= i < ops.len() ==> taken(on(field, (#[trigger] ops[i]).0, ops[i].1), depth),
        taken(one(field, Tree::Object(ops)), depth) ==> (hits(
            one(field, Tree::Object(ops)),
            depth,
            m,
        ) <==> forall|i: int|
            0 <= i < ops.len() ==> hits(on(field, (#[trigger] ops[i]).0, ops[i].1), depth, m)),
{
    lemma_names();
    let t = Tree::Object(ops);
    lemma_one(field, t, depth);
    assert(clause((field, t), depth) == field_query(field, t));
    assert forall|i: int| 0 <= i < ops.len() implies is_operator((#[trigger] ops[i]).0) by {}
    assert forall|i: int| 0 <= i < ops.len() implies parsed(
        on(field, (#[trigger] ops[i]).0, ops[i].1),
        depth,
    ) == operator_query(field, ops[i].0, ops[i].1) by {
        lemma_on(field, ops[i].0, ops[i].1, depth);
    }
    lemma_operator_queries(field, ops);
    if ops.len() > 0 {
        if operator_queries(field, ops) is Some {
            let qs = operator_queries(field, ops)->0;
            assert forall|i: int| 0 <= i < ops.len() implies hits(
                on(field, (#[trigger] ops[i]).0, ops[i].1),
                depth,
                m,
            ) == holds(qs[i], m) by {
                assert(Some(qs[i]) == operator_query(field, ops[i].0, ops[i].1));
            }
            if qs.len() > 1 {
                let q = Query::And(qs);
                if holds(q, m) {
                    assert forall|i: int| 0 <= i < ops.len() implies hits(
                        on(field, (#[trigger] ops[i]).0, ops[i].1),
                        depth,
                        m,
                    ) by {
                        assert(holds(q->And_0[i], m));
                    }
                }
                if forall|i: int|
                    0 <= i < ops.len() ==> hits(
                        on(field, (#[trigger] ops[i]).0, ops[i].1),
                        depth,
                        m,
                    ) {
                    assert forall|i: int| 0 <= i < qs.len() implies holds(#[trigger] qs[i], m) by {
                        assert(hits(on(field, ops[i].0, ops[i].1), depth, m));
                    }
                }
            } else {
                assert(hits(on(field, ops[0].0, ops[0].1), depth, m) == holds(qs[0], m));
            }
        } else {
            let i = choose|i: int|
                0 <= i < ops.len() && operator_query(
                    field,
                    (#[trigger] ops[i]).0,
                    ops[i].1,
                ) is None;
            assert(!taken(on(field, ops[i].0, ops[i].1), depth));
        }
    }
}

proof fn lemma_operator_queries(field: Seq<u8>, ops: Seq<(Seq<u8>, Tree)>)
    ensures
        operator_queries(field, ops) is Some <==> forall|i: int|
            0 <= i < ops.len() ==> operator_query(field, (#[trigger] ops[i]).0, ops[i].1) is Some,
        operator_queries(field, ops) is Some ==> operator_queries(field, ops)->0.len() == ops.len()
            && forall|i: int|
            0 <= i < ops.len() ==> Some(#[trigger] (operator_queries(field, ops)->0)[i])
                == operator_query(field, ops[i].0, ops[i].1),
    decreases ops.len(),
{
    if ops.len() > 0 {
        let less = ops.drop_last();
        lemma_operator_queries(field, less);
        assert(ops.last() == ops[ops.len() - 1]);
        if operator_queries(field, ops) is Some {
            assert forall|i: int| 0 <= i < ops.len() implies operator_query(
                field,
                (#[trigger] ops[i]).0,
                ops[i].1,
            ) is Some by {
                if i < less.len() {
                    assert(less[i] == ops[i]);
                }
            }
            let qs = operator_queries(field, less)->0;
            assert forall|i: int| 0 <= i < ops.len() implies Some(
                #[trigger] (operator_queries(field, ops)->0)[i],
            ) == operator_query(field, ops[i].0, ops[i].1) by {
                if i < less.len() {
                    assert(less[i] == ops[i]);
                    assert(Some(qs[i]) == operator_query(field, less[i].0, less[i].1));
                }
            }
        } else if operator_queries(field, less) is None {
            let i = choose|i: int|
                0 <= i < less.len() && operator_query(
                    field,
                    (#[trigger] less[i]).0,
                    less[i].1,
                ) is None;
            assert(ops[i] == less[i]);
        }
    }
}

/// A bare value means equality, `$ne` is the opposite of `$eq`, `$in` is matched
/// by what equals one of its values, `$nin` is its opposite, and the two kinds of
/// `$exists` are opposites. What each accepts is told by its argument alone.
pub proof fn law_operators_relate(
    field: Seq<u8>,
    v: Tree,
    items: Seq<Tree>,
    depth: nat,
    m: Tree,
)
    requires
        depth <= 64,
        plain(field),
    ensures
        ({
            let eq = on(field, encode_utf8("$eq"@), v);
            let ne = on(field, encode_utf8("$ne"@), v);
            let list = Tree::List(items);
            let any = on(field, encode_utf8("$in"@), list);
            let none = on(field, encode_utf8("$nin"@), list);
            let all_fine = forall|i: int| 0 <= i < items.len() ==> comparable(#[trigger] items[i]);
            let yes = on(field, encode_utf8("$exists"@), Tree::Bool(true));
            let no = on(field, encode_utf8("$exists"@), Tree::Bool(false));
            &&& taken(eq, depth) <==> comparable(v)
            &&& taken(ne, depth) <==> comparable(v)
            &&& !(v is Object) ==> (taken(one(field, v), depth) <==> comparable(v))
            &&& comparable(v) ==> hits(one(field, v), depth, m) == hits(eq, depth, m)
            &&& comparable(v) ==> hits(ne, depth, m) == !hits(eq, depth, m)
            &&& taken(any, depth) <==> all_fine
            &&& taken(none, depth) <==> all_fine
            &&& all_fine ==> (hits(any, depth, m) <==> exists|i: int|
                0 <= i < items.len() && hits(
                    on(field, encode_utf8("$eq"@), #[trigger] items[i]),
                    depth,
                    m,
                ))
            &&& all_fine ==> hits(none, depth, m) == !hits(any, depth, m)
            &&& taken(yes, depth) && taken(no, depth)
            &&& hits(no, depth, m) == !hits(yes, depth, m)
        }),
{
    lemma_names();
    let (eq, ne) = (encode_utf8("$eq"@), encode_utf8("$ne"@));
    let (within, without) = (encode_utf8("$in"@), encode_utf8("$nin"@));
    let exists_ = encode_utf8("$exists"@);
    let list = Tree::List(items);
    lemma_on(field, eq, v, depth);
    lemma_on(field, ne, v, depth);
    lemma_on(field, within, list, depth);
    lemma_on(field, without, list, depth);
    lemma_on(field, exists_, Tree::Bool(true), depth);
    lemma_on(field, exists_, Tree::Bool(false), depth);
    lemma_comparable(v);
    lemma_operands(items);
    lemma_one(field, v, depth);
    assert(clause((field, v), depth) == field_query(field, v));
    let all_fine = forall|i: int| 0 <= i < items.len() ==> comparable(#[trigger] items[i]);
    if all_fine {
        let ds = operands(items)->0;
        assert forall|i: int| 0 <= i < items.len() implies hits(
            on(field, eq, #[trigger] items[i]),
            depth,
            m,
        ) == has_equal(m, field, ds[i]) by {
            lemma_on(field, eq, items[i], depth);
            lemma_comparable(items[i]);
            assert(Some(ds[i]) == scalar_of(items[i]));
        }
        if has_any(m, field, ds) {
            let i = choose|i: int| 0 <= i < ds.len() && has_equal(m, field, #[trigger] ds[i]);
            assert(hits(on(field, eq, items[i]), depth, m));
        }
        if exists|i: int|
            0 <= i < items.len() && hits(on(field, eq, #[trigger] items[i]), depth, m) {
            let i = choose|i: int|
                0 <= i < items.len() && hits(on(field, eq, #[trigger] items[i]), depth, m);
            assert(has_equal(m, field, ds[i]));
        }
    }
}

/// `$gte` is matched by what is greater or equal, `$lte` by what is less or
/// equal. Ranges take numbers and strings alone.
pub proof fn law_ranges_relate(field: Seq<u8>, v: Tree, depth: nat, m: Tree)
    requires
        depth <= 64,
        plain(field),
    ensures
        ({
            let eq = on(field, encode_utf8("$eq"@), v);
            let gt = on(field, encode_utf8("$gt"@), v);
            let gte = on(field, encode_utf8("$gte"@), v);
            let lt = on(field, encode_utf8("$lt"@), v);
            let lte = on(field, encode_utf8("$lte"@), v);
            let fine = comparable(v) && (v is Number || v is Text);
            &&& taken(gt, depth) <==> fine
            &&& taken(gte, depth) <==> fine
            &&& taken(lt, depth) <==> fine
            &&& taken(lte, depth) <==> fine
            &&& fine ==> hits(gte, depth, m) == (hits(gt, depth, m) || hits(eq, depth, m))
            &&& fine ==> hits(lte, depth, m) == (hits(lt, depth, m) || hits(eq, depth, m))
        }),
{
    lemma_names();
    let (eq, gt, gte) = (encode_utf8("$eq"@), encode_utf8("$gt"@), encode_utf8("$gte"@));
    let (lt, lte) = (encode_utf8("$lt"@), encode_utf8("$lte"@));
    lemma_on(field, eq, v, depth);
    lemma_on(field, gt, v, depth);
    lemma_on(field, gte, v, depth);
    lemma_on(field, lt, v, depth);
    lemma_on(field, lte, v, depth);
    lemma_comparable(v);
    if comparable(v) && (v is Number || v is Text) {
        let d = operand(v)->0;
        let p = segments(field);
        assert(has_in_range(m, field, crate::collection::filter::RangeOp::Gte, d) == (has_in_range(
            m,
            field,
            crate::collection::filter::RangeOp::Gt,
            d,
        ) || has_equal(m, field, d)));
        assert(has_in_range(m, field, crate::collection::filter::RangeOp::Lte, d) == (has_in_range(
            m,
            field,
            crate::collection::filter::RangeOp::Lt,
            d,
        ) || has_equal(m, field, d)));
    }
}

// ---- values ---------------------------------------------------------------------------------

/// The parts of a path that begins with a part of its own.
proof fn lemma_first_part(a: Seq<u8>, rest: Seq<u8>)
    requires
        !a.contains(0x2E),
    ensures
        segments(a + seq![0x2Eu8] + rest) == seq![a] + segments(rest),
        segments(rest).len() > 0,
    decreases rest.len(),
{
    let p = a + seq![0x2Eu8] + rest;
    if rest.len() == 0 {
        lemma_segments_single(a);
        assert(p.drop_last() =~= a);
        assert(segments(p) =~= seq![a] + segments(rest));
    } else {
        let less = rest.drop_last();
        lemma_first_part(a, less);
        assert(p.drop_last() =~= a + seq![0x2Eu8] + less);
        assert(p.last() == rest.last());
        let before = segments(less);
        let all = seq![a] + before;
        assert(all.last() == before.last());
        assert(all.drop_last() =~= seq![a] + before.drop_last());
        assert(segments(p) =~= seq![a] + segments(rest));
    }
}

/// `field` is `a`, or leads on from it.
pub open spec fn begins_with(field: Seq<u8>, a: Seq<u8>) -> bool {
    field == a || exists|rest: Seq<u8>| field == #[trigger] (a + seq![0x2Eu8] + rest)
}

proof fn lemma_begins(field: Seq<u8>, a: Seq<u8>)
    requires
        !a.contains(0x2E),
        begins_with(field, a),
    ensures
        segments(field).len() > 0,
        segments(field)[0] == a,
{
    if field == a {
        lemma_segments_single(a);
    } else {
        let rest = choose|rest: Seq<u8>| field == #[trigger] (a + seq![0x2Eu8] + rest);
        lemma_first_part(a, rest);
    }
}

/// No two members share a name.
pub open spec fn names_differ(ms: Seq<(Seq<u8>, Tree)>) -> bool {
    forall|i: int, j: int|
        0 <= i < j < ms.len() ==> (#[trigger] ms[i]).0 != (#[trigger] ms[j]).0
}

/// One of the comparisons from which the others follow.
pub open spec fn compares(op: Seq<u8>) -> bool {
    op == encode_utf8("$eq"@) || op == encode_utf8("$gt"@) || op == encode_utf8("$lt"@)
}

/// How a scalar must stand to the argument.
spec fn wanted(op: Seq<u8>) -> Order {
    if op == encode_utf8("$eq"@) {
        Order::Equal
    } else if op == encode_utf8("$gt"@) {
        Order::Greater
    } else {
        Order::Less
    }
}

proof fn lemma_seeks(field: Seq<u8>, op: Seq<u8>, v: Tree, depth: nat, m: Tree)
    requires
        depth <= 64,
        plain(field),
        compares(op),
        taken(on(field, op, v), depth),
    ensures
        comparable(v),
        hits(on(field, op, v), depth, m) <==> exists|d: Datum| #[trigger]
            reaches(m, segments(field), d) && compared(d, scalar_of(v)->0) == Some(wanted(op)),
{
    lemma_names();
    lemma_on(field, op, v, depth);
    lemma_comparable(v);
    let d0 = scalar_of(v)->0;
    if op == encode_utf8("$eq"@) {
        assert(parsed(on(field, op, v), depth) == Some(Query::Eq(field, d0)));
    } else if op == encode_utf8("$gt"@) {
        assert(range_op(op) == Some(crate::collection::filter::RangeOp::Gt));
    } else {
        assert(range_op(op) == Some(crate::collection::filter::RangeOp::Lt));
    }
}

proof fn lemma_exists(field: Seq<u8>, depth: nat, m: Tree)
    requires
        depth <= 64,
        plain(field),
    ensures
        hits(on(field, encode_utf8("$exists"@), Tree::Bool(true)), depth, m) == present_at(
            m,
            segments(field),
        ),
{
    lemma_names();
    lemma_on(field, encode_utf8("$exists"@), Tree::Bool(true), depth);
}

/// The field is present.
pub open spec fn finds(field: Seq<u8>, depth: nat, m: Tree) -> bool {
    hits(on(field, encode_utf8("$exists"@), Tree::Bool(true)), depth, m)
}

/// The number with the first bits is above that with the second: by magnitude
/// among those not below zero, the other way round below zero, and nothing
/// between the two zeros.
pub open spec fn above(a: u64, b: u64) -> bool {
    let half = 0x8000_0000_0000_0000int;
    if a < half && b < half {
        a > b
    } else if a >= half && b >= half {
        a < b
    } else {
        a < half && (a > 0 || b > half)
    }
}

/// The scalars are equal: of one type, and the same; zero has two signs.
pub open spec fn equal(x: Tree, v: Tree) -> bool {
    match (x, v) {
        (Tree::Null, Tree::Null) => true,
        (Tree::Bool(a), Tree::Bool(b)) => a == b,
        (Tree::Text(a), Tree::Text(b)) => a == b,
        (Tree::Number(a), Tree::Number(b)) => a.bits == b.bits || (a.bits
            % 0x8000_0000_0000_0000 == 0 && b.bits % 0x8000_0000_0000_0000 == 0),
        _ => false,
    }
}

/// The first scalar is greater: numbers by value, strings by their bytes, and
/// nothing else.
pub open spec fn greater(x: Tree, v: Tree) -> bool {
    match (x, v) {
        (Tree::Text(a), Tree::Text(b)) => lex_lt(b, a),
        (Tree::Number(a), Tree::Number(b)) => above(a.bits, b.bits),
        _ => false,
    }
}

proof fn lemma_compared(x: Tree, v: Tree)
    requires
        comparable(x),
        comparable(v),
    ensures
        ({
            let c = compared(scalar_of(x)->0, scalar_of(v)->0);
            &&& (c == Some(Order::Equal)) == equal(x, v)
            &&& v is Number || v is Text ==> (c == Some(Order::Greater)) == greater(x, v)
            &&& v is Number || v is Text ==> (c == Some(Order::Less)) == greater(v, x)
        }),
{
    match (x, v) {
        (Tree::Text(a), Tree::Text(b)) => {
            crate::bytes::lemma_lex_total(a, b);
            crate::bytes::lemma_lex_irreflexive(a);
            if lex_lt(a, b) {
                crate::bytes::lemma_lex_asymmetric(a, b);
            }
            if lex_lt(b, a) {
                crate::bytes::lemma_lex_asymmetric(b, a);
            }
            assert(order_of(a, b) == order_of(a, b));
        },
        _ => {},
    }
}

/// A field that holds a scalar matches a comparison if the scalar does: `$eq` if
/// they are equal, `$gt` if it is greater, `$lt` if it is less. The field is
/// present, whatever it holds. A string of more than 512 bytes is not compared.
pub proof fn law_scalars_are_compared(
    ms: Seq<(Seq<u8>, Tree)>,
    i: int,
    v: Tree,
    depth: nat,
)
    requires
        depth <= 64,
        0 <= i < ms.len(),
        names_differ(ms),
        plain(ms[i].0),
        !ms[i].0.contains(0x2E),
        comparable(ms[i].1) || ms[i].1 is Text,
        comparable(v),
    ensures
        ({
            let (field, x) = ms[i];
            let m = Tree::Object(ms);
            &&& finds(field, depth, m)
            &&& hits(one(field, v), depth, m) == (comparable(x) && equal(x, v))
            &&& v is Number || v is Text ==> hits(on(field, encode_utf8("$gt"@), v), depth, m) == (
            comparable(x) && greater(x, v))
            &&& v is Number || v is Text ==> hits(on(field, encode_utf8("$lt"@), v), depth, m) == (
            comparable(x) && greater(v, x))
        }),
{
    let (field, x) = ms[i];
    let m = Tree::Object(ms);
    lemma_scalar_reached(ms, i);
    lemma_exists(field, depth, m);
    assert(taken(on(field, encode_utf8("$eq"@), v), depth) && hits(one(field, v), depth, m) == hits(
        on(field, encode_utf8("$eq"@), v),
        depth,
        m,
    )) by {
        law_operators_relate(field, v, Seq::empty(), depth, m);
    }
    lemma_scalar_sought(ms, i, encode_utf8("$eq"@), v, depth);
    if v is Number || v is Text {
        assert(taken(on(field, encode_utf8("$gt"@), v), depth) && taken(
            on(field, encode_utf8("$lt"@), v),
            depth,
        )) by {
            law_ranges_relate(field, v, depth, m);
        }
        lemma_scalar_sought(ms, i, encode_utf8("$gt"@), v, depth);
        lemma_scalar_sought(ms, i, encode_utf8("$lt"@), v, depth);
    }
    assert(wanted(encode_utf8("$gt"@)) == Order::Greater && wanted(encode_utf8("$lt"@))
        == Order::Less) by {
        lemma_names();
    }
    if comparable(x) {
        lemma_compared(x, v);
    }
}

/// A plain field reaches the scalar that it holds, if that is short.
proof fn lemma_scalar_reached(ms: Seq<(Seq<u8>, Tree)>, i: int)
    requires
        0 <= i < ms.len(),
        names_differ(ms),
        !ms[i].0.contains(0x2E),
        comparable(ms[i].1) || ms[i].1 is Text,
    ensures
        present_at(Tree::Object(ms), segments(ms[i].0)),
        forall|d: Datum| #[trigger]
            reaches(Tree::Object(ms), segments(ms[i].0), d) == (comparable(ms[i].1) && scalar_of(
                ms[i].1,
            ) == Some(d)),
{
    let (field, x) = ms[i];
    let m = Tree::Object(ms);
    lemma_segments_single(field);
    lemma_position_unique(ms, i);
    let p = segments(field);
    let none = Seq::<Seq<u8>>::empty();
    assert(p.skip(1) =~= none);
    assert(present_at(m, p) == present_at(x, none));
    assert forall|d: Datum| #[trigger] reaches(m, p, d) == (comparable(x) && scalar_of(x) == Some(
        d,
    )) by {
        assert(reaches(m, p, d) == reaches(x, none, d));
    }
}

proof fn lemma_scalar_sought(
    ms: Seq<(Seq<u8>, Tree)>,
    i: int,
    op: Seq<u8>,
    v: Tree,
    depth: nat,
)
    requires
        depth <= 64,
        0 <= i < ms.len(),
        names_differ(ms),
        plain(ms[i].0),
        !ms[i].0.contains(0x2E),
        comparable(ms[i].1) || ms[i].1 is Text,
        compares(op),
        taken(on(ms[i].0, op, v), depth),
    ensures
        hits(on(ms[i].0, op, v), depth, Tree::Object(ms)) == (comparable(ms[i].1) && compared(
            scalar_of(ms[i].1)->0,
            scalar_of(v)->0,
        ) == Some(wanted(op))),
{
    let (field, x) = ms[i];
    let m = Tree::Object(ms);
    lemma_scalar_reached(ms, i);
    lemma_seeks(field, op, v, depth, m);
    if comparable(x) {
        assert(reaches(m, segments(field), scalar_of(x)->0));
    }
}

/// A field that is not there matches no comparison and is not present.
pub proof fn law_missing_fields_match_nothing(
    ms: Seq<(Seq<u8>, Tree)>,
    field: Seq<u8>,
    a: Seq<u8>,
    op: Seq<u8>,
    v: Tree,
    depth: nat,
)
    requires
        depth <= 64,
        plain(field),
        !a.contains(0x2E),
        begins_with(field, a),
        forall|i: int| 0 <= i < ms.len() ==> (#[trigger] ms[i]).0 != a,
        compares(op),
    ensures
        !hits(on(field, op, v), depth, Tree::Object(ms)),
        !finds(field, depth, Tree::Object(ms)),
{
    let m = Tree::Object(ms);
    lemma_begins(field, a);
    lemma_position(ms, a);
    lemma_exists(field, depth, m);
    let p = segments(field);
    assert(position(ms, p[0]) == ms.len());
    if taken(on(field, op, v), depth) {
        lemma_seeks(field, op, v, depth, m);
        assert forall|d: Datum| !#[trigger] reaches(m, p, d) by {}
    }
}

/// An array offers each of its elements: a field matches a comparison, or is
/// present, if it would with one of them in place of the array.
pub proof fn law_arrays_offer_their_elements(
    ms: Seq<(Seq<u8>, Tree)>,
    i: int,
    items: Seq<Tree>,
    field: Seq<u8>,
    op: Seq<u8>,
    v: Tree,
    depth: nat,
)
    requires
        depth <= 64,
        plain(field),
        0 <= i < ms.len(),
        names_differ(ms),
        ms[i].1 == Tree::List(items),
        !ms[i].0.contains(0x2E),
        begins_with(field, ms[i].0),
        compares(op),
    ensures
        hits(on(field, op, v), depth, Tree::Object(ms)) <==> exists|j: int|
            0 <= j < items.len() && hits(
                on(field, op, v),
                depth,
                Tree::Object(ms.update(i, (ms[i].0, #[trigger] items[j]))),
            ),
        finds(field, depth, Tree::Object(ms)) <==> exists|j: int|
            0 <= j < items.len() && finds(
                field,
                depth,
                Tree::Object(ms.update(i, (ms[i].0, #[trigger] items[j]))),
            ),
{
    let a = ms[i].0;
    let m = Tree::Object(ms);
    let p = segments(field);
    let rest = p.skip(1);
    lemma_begins(field, a);
    lemma_position_unique(ms, i);
    lemma_exists(field, depth, m);
    let t = on(field, op, v);
    let list = Tree::List(items);
    assert forall|j: int| 0 <= j < items.len() implies {
        let n = Tree::Object(ms.update(i, (a, #[trigger] items[j])));
        &&& finds(field, depth, n) == present_at(items[j], rest)
        &&& taken(t, depth) ==> (hits(t, depth, n) <==> exists|d: Datum| #[trigger]
            reaches(items[j], rest, d) && compared(d, scalar_of(v)->0) == Some(wanted(op)))
    } by {
        let ns = ms.update(i, (a, items[j]));
        let n = Tree::Object(ns);
        assert forall|x: int, y: int| 0 <= x < y < ns.len() implies (#[trigger] ns[x]).0 != (
        #[trigger] ns[y]).0 by {
            assert(ms[x].0 != ms[y].0);
        }
        assert(ns[i] == (a, items[j]));
        lemma_position_unique(ns, i);
        lemma_exists(field, depth, n);
        if taken(t, depth) {
            lemma_seeks(field, op, v, depth, n);
            assert forall|d: Datum| #[trigger] reaches(n, p, d) == reaches(items[j], rest, d) by {}
            if hits(t, depth, n) {
                let d = choose|d: Datum| #[trigger]
                    reaches(n, p, d) && compared(d, scalar_of(v)->0) == Some(wanted(op));
                assert(reaches(items[j], rest, d));
            }
            if exists|d: Datum| #[trigger]
                reaches(items[j], rest, d) && compared(d, scalar_of(v)->0) == Some(wanted(op)) {
                let d = choose|d: Datum| #[trigger]
                    reaches(items[j], rest, d) && compared(d, scalar_of(v)->0) == Some(wanted(op));
                assert(reaches(n, p, d));
            }
        }
    }
    assert(present_at(m, p) == present_at(list, rest));
    if present_at(list, rest) {
        let j = choose|j: int|
            0 <= j < list->List_0.len() && present_at(#[trigger] list->List_0[j], rest);
        assert(items[j] == list->List_0[j]);
        assert(finds(field, depth, Tree::Object(ms.update(i, (a, items[j])))));
    }
    if exists|j: int|
        0 <= j < items.len() && finds(
            field,
            depth,
            Tree::Object(ms.update(i, (a, #[trigger] items[j]))),
        ) {
        let j = choose|j: int|
            0 <= j < items.len() && finds(
                field,
                depth,
                Tree::Object(ms.update(i, (a, #[trigger] items[j]))),
            );
        assert(present_at(list->List_0[j], rest));
    }
    if taken(t, depth) {
        lemma_seeks(field, op, v, depth, m);
        if hits(t, depth, m) {
            let d = choose|d: Datum| #[trigger]
                reaches(m, p, d) && compared(d, scalar_of(v)->0) == Some(wanted(op));
            assert(reaches(list, rest, d));
            let j = choose|j: int|
                0 <= j < list->List_0.len() && reaches(#[trigger] list->List_0[j], rest, d);
            assert(reaches(items[j], rest, d));
            assert(hits(t, depth, Tree::Object(ms.update(i, (a, items[j])))));
        }
        if exists|j: int|
            0 <= j < items.len() && hits(
                t,
                depth,
                Tree::Object(ms.update(i, (a, #[trigger] items[j]))),
            ) {
            let j = choose|j: int|
                0 <= j < items.len() && hits(
                    t,
                    depth,
                    Tree::Object(ms.update(i, (a, #[trigger] items[j]))),
                );
            let d = choose|d: Datum| #[trigger]
                reaches(items[j], rest, d) && compared(d, scalar_of(v)->0) == Some(wanted(op));
            assert(reaches(list->List_0[j], rest, d));
            assert(reaches(list, rest, d));
            assert(reaches(m, p, d));
        }
    }
}

/// A dot leads into an object: `a.rest` matches what `rest` matches in the object
/// that stands under `a`, and nothing where a scalar stands there. A field that
/// holds an object itself is present and matches no comparison.
pub proof fn law_dots_lead_into_objects(
    ms: Seq<(Seq<u8>, Tree)>,
    i: int,
    rest: Seq<u8>,
    op: Seq<u8>,
    v: Tree,
    depth: nat,
)
    requires
        depth <= 64,
        0 <= i < ms.len(),
        names_differ(ms),
        !(ms[i].1 is List),
        !ms[i].0.contains(0x2E),
        plain(ms[i].0),
        plain(rest),
        ms[i].0.len() + 1 + rest.len() <= 256,
        compares(op),
    ensures
        ({
            let (a, x) = ms[i];
            let field = a + seq![0x2Eu8] + rest;
            let m = Tree::Object(ms);
            &&& x is Object ==> hits(on(field, op, v), depth, m) == hits(on(rest, op, v), depth, x)
            &&& x is Object ==> finds(field, depth, m) == finds(rest, depth, x)
            &&& !(x is Object) ==> !hits(on(field, op, v), depth, m) && !finds(field, depth, m)
            &&& x is Object ==> !hits(on(a, op, v), depth, m) && finds(a, depth, m)
        }),
{
    let (a, x) = ms[i];
    let field = a + seq![0x2Eu8] + rest;
    let m = Tree::Object(ms);
    assert(field[0] == a[0]);
    assert(!field.contains(0)) by {
        if field.contains(0) {
            let j = choose|j: int| 0 <= j < field.len() && field[j] == 0;
            if j < a.len() {
                assert(a[j] == 0);
            } else if j > a.len() {
                assert(rest[j - a.len() - 1] == 0);
            }
        }
    }
    lemma_first_part(a, rest);
    lemma_segments_single(a);
    lemma_position_unique(ms, i);
    let p = segments(field);
    let q = segments(rest);
    assert(p.skip(1) =~= q);
    assert(p[0] == a);
    assert(segments(a).skip(1) =~= Seq::empty());
    lemma_exists(field, depth, m);
    lemma_exists(rest, depth, x);
    lemma_exists(a, depth, m);
    assert forall|d: Datum| #[trigger] reaches(m, p, d) == reaches(x, q, d) by {}
    let none = Seq::<Seq<u8>>::empty();
    assert forall|d: Datum| #[trigger] reaches(m, segments(a), d) == reaches(x, none, d) by {}
    assert(present_at(m, p) == present_at(x, q));
    assert(present_at(m, segments(a)) == present_at(x, none));
    if x is Object {
        assert forall|d: Datum| !#[trigger] reaches(x, none, d) by {}
        assert(present_at(x, none));
    } else {
        assert forall|d: Datum| !#[trigger] reaches(x, q, d) by {}
        assert(!present_at(x, q));
    }
    lemma_names();
    lemma_on(field, op, v, depth);
    lemma_on(rest, op, v, depth);
    lemma_on(a, op, v, depth);
    assert(taken(on(field, op, v), depth) == taken(on(rest, op, v), depth));
    assert(taken(on(field, op, v), depth) == taken(on(a, op, v), depth));
    if taken(on(field, op, v), depth) {
        lemma_seeks(field, op, v, depth, m);
        lemma_seeks(rest, op, v, depth, x);
        lemma_seeks(a, op, v, depth, m);
        let d0 = scalar_of(v)->0;
        if hits(on(field, op, v), depth, m) {
            let d = choose|d: Datum| #[trigger]
                reaches(m, p, d) && compared(d, d0) == Some(wanted(op));
            assert(reaches(x, q, d));
        }
        if x is Object && hits(on(rest, op, v), depth, x) {
            let d = choose|d: Datum| #[trigger]
                reaches(x, q, d) && compared(d, d0) == Some(wanted(op));
            assert(reaches(m, p, d));
        }
    }
}

} // verus!

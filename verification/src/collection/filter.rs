//! Metadata filters: a MongoDB-style query language over document metadata.
//!
//! ```json
//! {
//!   "category": "news",
//!   "year": { "$gte": 2020, "$lt": 2025 },
//!   "tags": { "$in": ["ai", "rust"] },
//!   "$or": [ { "lang": "en" }, { "lang": "fr" } ],
//!   "draft": { "$exists": false }
//! }
//! ```
//!
//! * A bare value means equality; several keys in one object are ANDed.
//! * Operators: `$eq $ne $gt $gte $lt $lte $in $nin $exists`, and the logical
//!   `$and $or $not`.
//! * Nested objects are addressed with dot paths (`"author.name"`).
//! * An array field matches when **any** element matches, as in MongoDB:
//!   `{"tags": "ai"}` matches `{"tags": ["ai", "ml"]}`.
//! * `$ne` / `$nin` also match documents that lack the field.
//! * Ranges compare numbers with numbers and strings with strings; a range
//!   never matches a value of another type.
//! * Strings longer than [`MAX_INDEXED_STRING`] bytes are stored and returned
//!   but not indexed, so comparisons never match them (`$exists` still sees
//!   the field), and filter strings are limited to the same length.
//! * Metadata keys may not contain `.` (it separates path segments) or NUL.

use crate::bytes::{same, Order};
use crate::collection::scalar::{compared, fits_index, is_finite, Datum, Scalar};
use crate::collection::text::{blank, is_blank};
use crate::error::Error;
use crate::json::{find_member, json_tree, position, tree, utf8, Json, Tree};
use crate::ordered::byte_lists;
use vstd::prelude::*;
use vstd::utf8::*;

pub use crate::collection::scalar::MAX_INDEXED_STRING;

verus! {

/// A comparison operator on one field.
#[derive(Debug, Clone, Copy, PartialEq, Eq, Structural)]
pub enum RangeOp {
    /// `$gt`
    Gt,
    /// `$gte`
    Gte,
    /// `$lt`
    Lt,
    /// `$lte`
    Lte,
}

/// A parsed filter.
#[derive(Debug, PartialEq, Eq)]
pub enum Filter {
    /// Matches everything.
    All,
    /// `field == value` (any element, for arrays).
    Eq(String, Scalar),
    /// `field != value`, including documents without the field.
    Ne(String, Scalar),
    /// `field op value` for numbers or strings.
    Range(String, RangeOp, Scalar),
    /// `field` equals one of the values.
    In(String, Vec<Scalar>),
    /// `field` equals none of the values (or is missing).
    Nin(String, Vec<Scalar>),
    /// `field` is present (`true`) or absent (`false`).
    Exists(String, bool),
    /// Every sub-filter matches.
    And(Vec<Filter>),
    /// Some sub-filter matches.
    Or(Vec<Filter>),
    /// The sub-filter does not match.
    Not(Box<Filter>),
}

/// What a [`Filter`] stands for; a field is a sequence of UTF-8 bytes.
pub enum Query {
    /// Matches everything.
    All,
    /// Some scalar of the field equals the value.
    Eq(Seq<u8>, Datum),
    /// No scalar of the field equals the value.
    Ne(Seq<u8>, Datum),
    /// Some scalar of the field lies in the range.
    Range(Seq<u8>, RangeOp, Datum),
    /// Some scalar of the field equals one of the values.
    In(Seq<u8>, Seq<Datum>),
    /// No scalar of the field equals one of the values.
    Nin(Seq<u8>, Seq<Datum>),
    /// The field is present, or absent.
    Exists(Seq<u8>, bool),
    /// All of them.
    And(Seq<Query>),
    /// One of them.
    Or(Seq<Query>),
    /// Not this one.
    Not(Box<Query>),
}

/// The data of a list of scalars.
pub open spec fn data(scalars: Seq<Scalar>) -> Seq<Datum> {
    Seq::new(scalars.len(), |i: int| scalars[i]@)
}

/// The query of a filter.
pub open spec fn query(f: Filter) -> Query
    decreases f,
{
    match f {
        Filter::All => Query::All,
        Filter::Eq(field, v) => Query::Eq(utf8(field), v@),
        Filter::Ne(field, v) => Query::Ne(utf8(field), v@),
        Filter::Range(field, op, v) => Query::Range(utf8(field), op, v@),
        Filter::In(field, vs) => Query::In(utf8(field), data(vs@)),
        Filter::Nin(field, vs) => Query::Nin(utf8(field), data(vs@)),
        Filter::Exists(field, want) => Query::Exists(utf8(field), want),
        Filter::And(fs) => Query::And(
            Seq::new(
                fs@.len(),
                |i: int|
                    if 0 <= i < fs@.len() {
                        query(fs@[i])
                    } else {
                        Query::All
                    },
            ),
        ),
        Filter::Or(fs) => Query::Or(
            Seq::new(
                fs@.len(),
                |i: int|
                    if 0 <= i < fs@.len() {
                        query(fs@[i])
                    } else {
                        Query::All
                    },
            ),
        ),
        Filter::Not(g) => Query::Not(Box::new(query(*g))),
    }
}

impl View for Filter {
    type V = Query;

    open spec fn view(&self) -> Query {
        query(*self)
    }
}

/// The queries of a list of filters.
pub open spec fn queries(fs: Seq<Filter>) -> Seq<Query> {
    Seq::new(fs.len(), |i: int| fs[i]@)
}

// ---- paths ------------------------------------------------------------------

/// The parts of a path between its dots.
pub open spec fn segments(path: Seq<u8>) -> Seq<Seq<u8>>
    decreases path.len(),
{
    if path.len() == 0 {
        seq![Seq::empty()]
    } else {
        let before = segments(path.drop_last());
        if path.last() == 0x2E {
            before.push(Seq::empty())
        } else {
            before.drop_last().push(before.last().push(path.last()))
        }
    }
}

/// The scalar that a value is, if it is one.
pub open spec fn scalar_of(t: Tree) -> Option<Datum> {
    match t {
        Tree::Null => Some(Datum::Null),
        Tree::Bool(b) => Some(Datum::Bool(b)),
        Tree::Number(n) => if is_finite(n.bits) {
            Some(Datum::Number(n.bits))
        } else {
            None
        },
        Tree::Text(s) => Some(Datum::Text(s)),
        _ => None,
    }
}

/// Whether an indexable scalar `d` stands at `path`: arrays offer each
/// element, objects the member that the path names next.
pub open spec fn reaches(t: Tree, path: Seq<Seq<u8>>, d: Datum) -> bool
    decreases t,
{
    match t {
        Tree::List(items) => exists|i: int|
            0 <= i < items.len() && reaches(#[trigger] items[i], path, d),
        Tree::Object(members) => {
            path.len() > 0 && {
                let i = position(members, path[0]);
                0 <= i < members.len() && reaches(members[i].1, path.skip(1), d)
            }
        },
        _ => path.len() == 0 && scalar_of(t) == Some(d) && fits_index(d),
    }
}

/// Whether `path` leads to a value other than an array.
pub open spec fn present_at(t: Tree, path: Seq<Seq<u8>>) -> bool
    decreases t,
{
    match t {
        Tree::List(items) => exists|i: int|
            0 <= i < items.len() && present_at(#[trigger] items[i], path),
        Tree::Object(members) => {
            path.len() == 0 || {
                let i = position(members, path[0]);
                0 <= i < members.len() && present_at(members[i].1, path.skip(1))
            }
        },
        _ => path.len() == 0,
    }
}

// ---- meaning ----------------------------------------------------------------

/// Whether a comparison's outcome satisfies the operator.
pub open spec fn in_range(op: RangeOp, c: Option<Order>) -> bool {
    match op {
        RangeOp::Gt => c == Some(Order::Greater),
        RangeOp::Gte => c == Some(Order::Greater) || c == Some(Order::Equal),
        RangeOp::Lt => c == Some(Order::Less),
        RangeOp::Lte => c == Some(Order::Less) || c == Some(Order::Equal),
    }
}

/// Whether some scalar of the field equals `v`.
pub open spec fn has_equal(t: Tree, field: Seq<u8>, v: Datum) -> bool {
    exists|d: Datum|
        #[trigger] reaches(t, segments(field), d) && compared(d, v) == Some(Order::Equal)
}

/// Whether some scalar of the field lies in the range.
pub open spec fn has_in_range(t: Tree, field: Seq<u8>, op: RangeOp, v: Datum) -> bool {
    exists|d: Datum| #[trigger] reaches(t, segments(field), d) && in_range(op, compared(d, v))
}

/// Whether some scalar of the field equals one of the values.
pub open spec fn has_any(t: Tree, field: Seq<u8>, vs: Seq<Datum>) -> bool {
    exists|i: int| 0 <= i < vs.len() && has_equal(t, field, #[trigger] vs[i])
}

/// Whether metadata satisfies a query.
pub open spec fn holds(q: Query, t: Tree) -> bool
    decreases q,
{
    match q {
        Query::All => true,
        Query::Eq(field, v) => has_equal(t, field, v),
        Query::Ne(field, v) => !has_equal(t, field, v),
        Query::Range(field, op, v) => has_in_range(t, field, op, v),
        Query::In(field, vs) => has_any(t, field, vs),
        Query::Nin(field, vs) => !has_any(t, field, vs),
        Query::Exists(field, want) => present_at(t, segments(field)) == want,
        Query::And(qs) => forall|i: int| 0 <= i < qs.len() ==> holds(#[trigger] qs[i], t),
        Query::Or(qs) => exists|i: int| 0 <= i < qs.len() && holds(#[trigger] qs[i], t),
        Query::Not(p) => !holds(*p, t),
    }
}

proof fn lemma_present_in_list(items: Seq<Tree>, i: int, path: Seq<Seq<u8>>)
    requires
        0 <= i < items.len(),
        present_at(items[i], path),
    ensures
        present_at(Tree::List(items), path),
{
    let t = Tree::List(items);
    assert(t->List_0[i] == items[i]);
}

proof fn lemma_and_fails(qs: Seq<Query>, i: int, t: Tree)
    requires
        0 <= i < qs.len(),
        !holds(qs[i], t),
    ensures
        !holds(Query::And(qs), t),
{
    let q = Query::And(qs);
    assert(q->And_0[i] == qs[i]);
}

proof fn lemma_or_holds(qs: Seq<Query>, i: int, t: Tree)
    requires
        0 <= i < qs.len(),
        holds(qs[i], t),
    ensures
        holds(Query::Or(qs), t),
{
    let q = Query::Or(qs);
    assert(q->Or_0[i] == qs[i]);
}

// ---- grammar ----------------------------------------------------------------

/// Whether a field name has 1 to 256 bytes and no NUL.
pub open spec fn field_ok(field: Seq<u8>) -> bool {
    1 <= field.len() <= 256 && !field.contains(0)
}

/// Whether a name starts with `$`.
pub open spec fn is_operator(name: Seq<u8>) -> bool {
    name.len() > 0 && name[0] == 0x24
}

/// The scalar of a value that a filter may compare against.
pub open spec fn operand(t: Tree) -> Option<Datum> {
    match scalar_of(t) {
        Some(d) => if fits_index(d) {
            Some(d)
        } else {
            None
        },
        None => None,
    }
}

/// The operands of a list of values; `None` where one is not an operand.
pub open spec fn operands(items: Seq<Tree>) -> Option<Seq<Datum>>
    decreases items.len(),
{
    if items.len() == 0 {
        Some(Seq::empty())
    } else {
        match (operands(items.drop_last()), operand(items.last())) {
            (Some(ds), Some(d)) => Some(ds.push(d)),
            _ => None,
        }
    }
}

/// The operand of a range.
pub open spec fn range_operand(t: Tree) -> Option<Datum> {
    match operand(t) {
        Some(d) => if d is Number || d is Text {
            Some(d)
        } else {
            None
        },
        None => None,
    }
}

/// The operator that a range's name stands for.
pub open spec fn range_op(name: Seq<u8>) -> Option<RangeOp> {
    if name == encode_utf8("$gt"@) {
        Some(RangeOp::Gt)
    } else if name == encode_utf8("$gte"@) {
        Some(RangeOp::Gte)
    } else if name == encode_utf8("$lt"@) {
        Some(RangeOp::Lt)
    } else if name == encode_utf8("$lte"@) {
        Some(RangeOp::Lte)
    } else {
        None
    }
}

/// The query of one operator on a field.
pub open spec fn operator_query(field: Seq<u8>, name: Seq<u8>, arg: Tree) -> Option<Query> {
    if name == encode_utf8("$eq"@) {
        match operand(arg) {
            Some(d) => Some(Query::Eq(field, d)),
            None => None,
        }
    } else if name == encode_utf8("$ne"@) {
        match operand(arg) {
            Some(d) => Some(Query::Ne(field, d)),
            None => None,
        }
    } else if range_op(name) is Some {
        match range_operand(arg) {
            Some(d) => Some(Query::Range(field, range_op(name)->0, d)),
            None => None,
        }
    } else if name == encode_utf8("$in"@) {
        match arg {
            Tree::List(items) => match operands(items) {
                Some(ds) => Some(Query::In(field, ds)),
                None => None,
            },
            _ => None,
        }
    } else if name == encode_utf8("$nin"@) {
        match arg {
            Tree::List(items) => match operands(items) {
                Some(ds) => Some(Query::Nin(field, ds)),
                None => None,
            },
            _ => None,
        }
    } else if name == encode_utf8("$exists"@) {
        match arg {
            Tree::Bool(b) => Some(Query::Exists(field, b)),
            _ => None,
        }
    } else {
        None
    }
}

/// The queries of a field's operators, in order.
pub open spec fn operator_queries(
    field: Seq<u8>,
    ops: Seq<(Seq<u8>, Tree)>,
) -> Option<Seq<Query>>
    decreases ops.len(),
{
    if ops.len() == 0 {
        Some(Seq::empty())
    } else {
        match (
            operator_queries(field, ops.drop_last()),
            operator_query(field, ops.last().0, ops.last().1),
        ) {
            (Some(qs), Some(q)) => Some(qs.push(q)),
            _ => None,
        }
    }
}

/// One query stands for itself; several must all hold, and none at all always
/// hold.
pub open spec fn grouped(qs: Seq<Query>) -> Query {
    if qs.len() == 0 {
        Query::All
    } else if qs.len() == 1 {
        qs[0]
    } else {
        Query::And(qs)
    }
}

/// The query that a filter document states about one field: a bare scalar is
/// equality, an object holds operators, and nothing else is accepted.
pub open spec fn field_query(field: Seq<u8>, t: Tree) -> Option<Query> {
    if !field_ok(field) {
        None
    } else {
        match t {
            Tree::Object(ops) => if ops.len() > 0 && (forall|i: int|
                0 <= i < ops.len() ==> is_operator((#[trigger] ops[i]).0)) {
                match operator_queries(field, ops) {
                    Some(qs) => Some(grouped(qs)),
                    None => None,
                }
            } else {
                None
            },
            _ => match operand(t) {
                Some(d) => Some(Query::Eq(field, d)),
                None => None,
            },
        }
    }
}

/// Levels of `$and`, `$or` and `$not` that a filter may nest.
pub const MAX_FILTER_DEPTH: usize = 64;

/// The query of a filter document `depth` levels down.
pub open spec fn parsed(t: Tree, depth: nat) -> Option<Query>
    decreases t,
{
    if depth > MAX_FILTER_DEPTH {
        None
    } else {
        match t {
            Tree::Object(members) => match clauses(members, depth) {
                Some(qs) => Some(grouped(qs)),
                None => None,
            },
            _ => None,
        }
    }
}

/// The queries of a filter document's members, in order.
pub open spec fn clauses(members: Seq<(Seq<u8>, Tree)>, depth: nat) -> Option<Seq<Query>>
    decreases members,
{
    if members.len() == 0 {
        Some(Seq::empty())
    } else {
        match (
            clauses(members.subrange(0, members.len() - 1), depth),
            clause(members[members.len() - 1], depth),
        ) {
            (Some(qs), Some(q)) => Some(qs.push(q)),
            _ => None,
        }
    }
}

/// The query of one member.
pub open spec fn clause(member: (Seq<u8>, Tree), depth: nat) -> Option<Query>
    decreases member,
{
    let (name, t) = member;
    if name == encode_utf8("$and"@) {
        match parts(t, depth + 1) {
            Some(qs) => Some(Query::And(qs)),
            None => None,
        }
    } else if name == encode_utf8("$or"@) {
        match parts(t, depth + 1) {
            Some(qs) => Some(Query::Or(qs)),
            None => None,
        }
    } else if name == encode_utf8("$not"@) {
        match parsed(t, depth + 1) {
            Some(q) => Some(Query::Not(Box::new(q))),
            None => None,
        }
    } else if is_operator(name) {
        None
    } else {
        field_query(name, t)
    }
}

/// The queries of a non-empty array of filter documents.
pub open spec fn parts(t: Tree, depth: nat) -> Option<Seq<Query>>
    decreases t,
{
    match t {
        Tree::List(items) => if items.len() > 0 {
            part_list(items, depth)
        } else {
            None
        },
        _ => None,
    }
}

/// The queries of an array's filter documents, in order.
pub open spec fn part_list(items: Seq<Tree>, depth: nat) -> Option<Seq<Query>>
    decreases items,
{
    if items.len() == 0 {
        Some(Seq::empty())
    } else {
        match (
            part_list(items.subrange(0, items.len() - 1), depth),
            parsed(items[items.len() - 1], depth),
        ) {
            (Some(qs), Some(q)) => Some(qs.push(q)),
            _ => None,
        }
    }
}


// ---- parsing ----------------------------------------------------------------

proof fn lemma_operands_prefix(items: Seq<Tree>, n: int)
    requires
        0 <= n <= items.len(),
        operands(items.subrange(0, n)) is None,
    ensures
        operands(items) is None,
    decreases items.len() - n,
{
    if n == items.len() {
        assert(items.subrange(0, n) =~= items);
    } else {
        let more = items.subrange(0, n + 1);
        assert(more.drop_last() =~= items.subrange(0, n));
        lemma_operands_prefix(items, n + 1);
    }
}

proof fn lemma_operators_prefix(field: Seq<u8>, items: Seq<(Seq<u8>, Tree)>, n: int)
    requires
        0 <= n <= items.len(),
        operator_queries(field, items.subrange(0, n)) is None,
    ensures
        operator_queries(field, items) is None,
    decreases items.len() - n,
{
    if n == items.len() {
        assert(items.subrange(0, n) =~= items);
    } else {
        let more = items.subrange(0, n + 1);
        assert(more.drop_last() =~= items.subrange(0, n));
        lemma_operators_prefix(field, items, n + 1);
    }
}

proof fn lemma_clauses_prefix(items: Seq<(Seq<u8>, Tree)>, n: int, depth: nat)
    requires
        0 <= n <= items.len(),
        clauses(items.subrange(0, n), depth) is None,
    ensures
        clauses(items, depth) is None,
    decreases items.len() - n,
{
    if n == items.len() {
        assert(items.subrange(0, n) =~= items);
    } else {
        let more = items.subrange(0, n + 1);
        assert(more.subrange(0, more.len() - 1) =~= items.subrange(0, n));
        lemma_clauses_prefix(items, n + 1, depth);
    }
}

proof fn lemma_parts_prefix(items: Seq<Tree>, n: int, depth: nat)
    requires
        0 <= n <= items.len(),
        part_list(items.subrange(0, n), depth) is None,
    ensures
        part_list(items, depth) is None,
    decreases items.len() - n,
{
    if n == items.len() {
        assert(items.subrange(0, n) =~= items);
    } else {
        let more = items.subrange(0, n + 1);
        assert(more.subrange(0, more.len() - 1) =~= items.subrange(0, n));
        lemma_parts_prefix(items, n + 1, depth);
    }
}

/// Field names may not be empty or contain NUL (the index separator).
pub fn validate_field(field: &str) -> (r: Result<(), Error>)
    ensures
        match r {
            Ok(()) => field_ok(encode_utf8(field@)),
            Err(e) => e is InvalidArgument && !field_ok(encode_utf8(field@)),
        },
{
    let bytes: &[u8] = field.as_bytes();
    if bytes.len() == 0 || bytes.len() > 256 || contains_byte(bytes, 0) {
        return Err(Error::invalid("metadata field name must be 1..=256 bytes without NUL"));
    }
    Ok(())
}

/// Whether `b` occurs.
pub(crate) fn contains_byte(bytes: &[u8], b: u8) -> (r: bool)
    ensures
        r == bytes@.contains(b),
{
    let mut i: usize = 0;
    while i < bytes.len()
        invariant
            i <= bytes@.len(),
            forall|j: int| 0 <= j < i ==> bytes@[j] != b,
        decreases bytes@.len() - i,
    {
        if bytes[i] == b {
            return true;
        }
        i += 1;
    }
    false
}

/// Whether a name starts with `$`.
fn starts_with_dollar(name: &str) -> (r: bool)
    ensures
        r == is_operator(encode_utf8(name@)),
{
    let bytes: &[u8] = name.as_bytes();
    bytes.len() > 0 && bytes[0] == 0x24
}

/// Whether two strings are the same.
pub(crate) fn is_text(a: &str, b: &str) -> (r: bool)
    ensures
        r == (encode_utf8(a@) == encode_utf8(b@)),
{
    same(a.as_bytes(), b.as_bytes())
}

impl Scalar {
    /// The scalar that a value is.
    pub fn from_json(v: &Json) -> (r: Result<Scalar, Error>)
        ensures
            match r {
                Ok(s) => scalar_of(v@) == Some(s@),
                Err(e) => e is InvalidArgument && scalar_of(v@) is None,
            },
    {
        match v {
            Json::Null => Ok(Scalar::Null),
            Json::Bool(b) => Ok(Scalar::Bool(*b)),
            Json::Number(n) => if n.bits % 0x8000_0000_0000_0000 < 0x7FF0_0000_0000_0000 {
                Ok(Scalar::Number(n.bits))
            } else {
                Err(Error::invalid("number out of range"))
            },
            Json::Text(s) => Ok(Scalar::Str(s.clone())),
            _ => Err(Error::invalid("expected a scalar (null, boolean, number or string)")),
        }
    }

    /// A scalar used as a filter operand.
    pub fn operand(v: &Json) -> (r: Result<Scalar, Error>)
        ensures
            match r {
                Ok(s) => operand(v@) == Some(s@),
                Err(e) => e is InvalidArgument && operand(v@) is None,
            },
    {
        let s: Scalar = Self::from_json(v)?;
        if !s.indexable() {
            return Err(Error::invalid("filter strings are limited to 512 bytes"));
        }
        Ok(s)
    }
}

/// The operands of an array.
fn operand_list(v: &Json) -> (r: Result<Vec<Scalar>, Error>)
    ensures
        match r {
            Ok(vs) => v@ is List && operands(v@->List_0) == Some(data(vs@)),
            Err(e) => e is InvalidArgument && (v@ is List ==> operands(v@->List_0) is None),
        },
{
    match v {
        Json::List(items) => {
            let ghost all = v@->List_0;
            let mut out: Vec<Scalar> = Vec::new();
            let mut i: usize = 0;
            assert(all.subrange(0, 0) =~= Seq::empty());
            assert(data(out@) =~= Seq::empty());
            while i < items.len()
                invariant
                    i <= items@.len(),
                    items@.len() == all.len(),
                    v@ == Tree::List(all),
                    forall|j: int| 0 <= j < all.len() ==> #[trigger] all[j] == tree(items@[j]),
                    operands(all.subrange(0, i as int)) == Some(data(out@)),
                decreases items@.len() - i,
            {
                let ghost more = all.subrange(0, i + 1);
                assert(more.drop_last() =~= all.subrange(0, i as int));
                assert(more.last() == items@[i as int]@);
                match Scalar::operand(&items[i]) {
                    Ok(s) => {
                        let ghost prior = out@;
                        out.push(s);
                        assert(data(out@) =~= data(prior).push(s@));
                    },
                    Err(e) => {
                        proof {
                            lemma_operands_prefix(all, i + 1);
                        }
                        return Err(e);
                    },
                }
                i += 1;
            }
            assert(all.subrange(0, i as int) =~= all);
            Ok(out)
        },
        _ => Err(Error::invalid("the operator takes an array")),
    }
}

/// The operator that a range's name stands for.
fn range_of(name: &str) -> (r: Option<RangeOp>)
    ensures
        r == range_op(encode_utf8(name@)),
{
    if is_text(name, "$gt") {
        Some(RangeOp::Gt)
    } else if is_text(name, "$gte") {
        Some(RangeOp::Gte)
    } else if is_text(name, "$lt") {
        Some(RangeOp::Lt)
    } else if is_text(name, "$lte") {
        Some(RangeOp::Lte)
    } else {
        None
    }
}

/// One query stands for itself; of several all must hold.
fn group(parts: Vec<Filter>) -> (f: Filter)
    ensures
        f@ == grouped(queries(parts@)),
{
    let mut parts = parts;
    if parts.len() == 0 {
        return Filter::All;
    }
    if parts.len() == 1 {
        let f: Filter = parts.swap_remove(0);
        return f;
    }
    let f: Filter = Filter::And(parts);
    assert(f@->And_0 =~= queries(parts@));
    f
}

impl Filter {
    /// Parses a filter document (see the module docs).
    pub fn parse(value: &Json) -> (r: Result<Filter, Error>)
        ensures
            match r {
                Ok(f) => parsed(value@, 0) == Some(f@),
                Err(e) => e is InvalidArgument && parsed(value@, 0) is None,
            },
    {
        Self::parse_at(value, 0)
    }

    /// Parses a filter from JSON text; an empty or `{}` document matches all.
    pub fn parse_str(text: &str) -> (r: Result<Filter, Error>)
        ensures
            match r {
                Ok(f) => if blank(text@) {
                    f@ == Query::All
                } else {
                    json_tree(encode_utf8(text@)) is Some && parsed(
                        json_tree(encode_utf8(text@))->0,
                        0,
                    ) == Some(f@)
                },
                Err(e) => e is InvalidArgument && !blank(text@) && (json_tree(
                    encode_utf8(text@),
                ) is Some ==> parsed(json_tree(encode_utf8(text@))->0, 0) is None),
            },
    {
        if is_blank(text) {
            return Ok(Filter::All);
        }
        match Json::from_text(text) {
            Some(value) => Self::parse(&value),
            None => Err(Error::invalid("filter is not valid JSON")),
        }
    }

    #[verifier::rlimit(40)]
    #[verifier::spinoff_prover]
    fn parse_at(value: &Json, depth: usize) -> (r: Result<Filter, Error>)
        requires
            depth <= MAX_FILTER_DEPTH + 1,
        ensures
            match r {
                Ok(f) => parsed(value@, depth as nat) == Some(f@),
                Err(e) => e is InvalidArgument && parsed(value@, depth as nat) is None,
            },
        decreases *value,
    {
        if depth > MAX_FILTER_DEPTH {
            return Err(Error::invalid("filter is nested too deeply"));
        }
        match value {
            Json::Object(members) => {
                let ghost all = value@->Object_0;
                let mut out: Vec<Filter> = Vec::new();
                let mut i: usize = 0;
                assert(all.subrange(0, 0) =~= Seq::empty());
                assert(queries(out@) =~= Seq::empty());
                while i < members.len()
                    invariant
                        i <= members@.len(),
                        depth <= MAX_FILTER_DEPTH,
                        *value == Json::Object(*members),
                        members@.len() == all.len(),
                        value@ == Tree::Object(all),
                        forall|j: int|
                            0 <= j < all.len() ==> #[trigger] all[j] == (
                                utf8(members@[j].0),
                                tree(members@[j].1),
                            ),
                        clauses(all.subrange(0, i as int), depth as nat) == Some(queries(out@)),
                    decreases members@.len() - i,
                {
                    let ghost more = all.subrange(0, i + 1);
                    assert(more.subrange(0, more.len() - 1) =~= all.subrange(0, i as int));
                    assert(more[more.len() - 1] == all[i as int]);
                    let name: &str = members[i].0.as_str();
                    let v: &Json = &members[i].1;
                    let one: Result<Filter, Error> = if is_text(name, "$and") {
                        match Self::parse_list(v, depth + 1) {
                            Ok(fs) => {
                                let f: Filter = Filter::And(fs);
                                assert(f@->And_0 =~= queries(fs@));
                                Ok(f)
                            },
                            Err(e) => Err(e),
                        }
                    } else if is_text(name, "$or") {
                        match Self::parse_list(v, depth + 1) {
                            Ok(fs) => {
                                let f: Filter = Filter::Or(fs);
                                assert(f@->Or_0 =~= queries(fs@));
                                Ok(f)
                            },
                            Err(e) => Err(e),
                        }
                    } else if is_text(name, "$not") {
                        match Self::parse_at(v, depth + 1) {
                            Ok(f) => Ok(Filter::Not(Box::new(f))),
                            Err(e) => Err(e),
                        }
                    } else if starts_with_dollar(name) {
                        Err(Error::invalid("unknown top-level operator"))
                    } else {
                        Self::parse_field(&members[i].0, v)
                    };
                    match one {
                        Ok(f) => {
                            let ghost prior = out@;
                            out.push(f);
                            assert(queries(out@) =~= queries(prior).push(f@));
                        },
                        Err(e) => {
                            proof {
                                lemma_clauses_prefix(all, i + 1, depth as nat);
                            }
                            return Err(e);
                        },
                    }
                    i += 1;
                }
                assert(all.subrange(0, i as int) =~= all);
                Ok(group(out))
            },
            _ => Err(Error::invalid("a filter must be a JSON object")),
        }
    }

    /// Parses a non-empty array of filter documents.
    fn parse_list(value: &Json, depth: usize) -> (r: Result<Vec<Filter>, Error>)
        requires
            depth <= MAX_FILTER_DEPTH + 1,
        ensures
            match r {
                Ok(fs) => parts(value@, depth as nat) == Some(queries(fs@)),
                Err(e) => e is InvalidArgument && parts(value@, depth as nat) is None,
            },
        decreases *value,
    {
        match value {
            Json::List(items) => {
                if items.len() == 0 {
                    return Err(Error::invalid("the operator needs at least one filter"));
                }
                let ghost all = value@->List_0;
                let mut out: Vec<Filter> = Vec::new();
                let mut i: usize = 0;
                assert(all.subrange(0, 0) =~= Seq::empty());
                assert(queries(out@) =~= Seq::empty());
                while i < items.len()
                    invariant
                        i <= items@.len(),
                        depth <= MAX_FILTER_DEPTH + 1,
                        *value == Json::List(*items),
                        items@.len() == all.len(),
                        all.len() > 0,
                        value@ == Tree::List(all),
                        forall|j: int| 0 <= j < all.len() ==> #[trigger] all[j] == tree(items@[j]),
                        part_list(all.subrange(0, i as int), depth as nat) == Some(queries(out@)),
                    decreases items@.len() - i,
                {
                    let ghost more = all.subrange(0, i + 1);
                    assert(more.subrange(0, more.len() - 1) =~= all.subrange(0, i as int));
                    assert(more[more.len() - 1] == items@[i as int]@);
                    match Self::parse_at(&items[i], depth) {
                        Ok(f) => {
                            let ghost prior = out@;
                            out.push(f);
                            assert(queries(out@) =~= queries(prior).push(f@));
                        },
                        Err(e) => {
                            proof {
                                lemma_parts_prefix(all, i + 1, depth as nat);
                            }
                            return Err(e);
                        },
                    }
                    i += 1;
                }
                assert(all.subrange(0, i as int) =~= all);
                Ok(out)
            },
            _ => Err(Error::invalid("the operator takes an array of filters")),
        }
    }

    fn parse_field(field: &String, v: &Json) -> (r: Result<Filter, Error>)
        ensures
            match r {
                Ok(f) => field_query(utf8(*field), v@) == Some(f@),
                Err(e) => e is InvalidArgument && field_query(utf8(*field), v@) is None,
            },
    {
        match validate_field(field.as_str()) {
            Ok(_) => {},
            Err(e) => {
                return Err(e);
            },
        }
        match v {
            Json::Object(ops) => Self::parse_operators(field, v, ops),
            Json::List(_) => Err(
                Error::invalid("use {\"$in\": [...]} to match one of several values"),
            ),
            _ => match Scalar::operand(v) {
                Ok(s) => Ok(Filter::Eq(field.clone(), s)),
                Err(e) => Err(e),
            },
        }
    }

    /// Parses the operators of one field.
    fn parse_operators(field: &String, v: &Json, ops: &Vec<(String, Json)>) -> (r: Result<
        Filter,
        Error,
    >)
        requires
            *v == Json::Object(*ops),
            field_ok(utf8(*field)),
        ensures
            match r {
                Ok(f) => field_query(utf8(*field), v@) == Some(f@),
                Err(e) => e is InvalidArgument && field_query(utf8(*field), v@) is None,
            },
    {
        let ghost all = v@->Object_0;
        let ghost name = utf8(*field);
        if ops.len() == 0 {
            return Err(Error::invalid("match nested values with a dot path"));
        }
        let mut i: usize = 0;
        while i < ops.len()
            invariant
                i <= ops@.len(),
                ops@.len() == all.len(),
                v@ == Tree::Object(all),
                name == utf8(*field),
                forall|j: int|
                    0 <= j < all.len() ==> #[trigger] all[j] == (utf8(ops@[j].0), tree(ops@[j].1)),
                forall|j: int| 0 <= j < i ==> is_operator((#[trigger] all[j]).0),
            decreases ops@.len() - i,
        {
            if !starts_with_dollar(ops[i].0.as_str()) {
                assert(!is_operator(all[i as int].0));
                return Err(Error::invalid("match nested values with a dot path"));
            }
            i += 1;
        }
        let mut out: Vec<Filter> = Vec::new();
        i = 0;
        assert(all.subrange(0, 0) =~= Seq::empty());
        assert(queries(out@) =~= Seq::empty());
        while i < ops.len()
            invariant
                i <= ops@.len(),
                ops@.len() == all.len(),
                all.len() > 0,
                v@ == Tree::Object(all),
                name == utf8(*field),
                forall|j: int|
                    0 <= j < all.len() ==> #[trigger] all[j] == (utf8(ops@[j].0), tree(ops@[j].1)),
                operator_queries(name, all.subrange(0, i as int)) == Some(queries(out@)),
            decreases ops@.len() - i,
        {
            let ghost more = all.subrange(0, i + 1);
            assert(more.drop_last() =~= all.subrange(0, i as int));
            assert(more.last() == all[i as int]);
            match Self::parse_operator(field, ops[i].0.as_str(), &ops[i].1) {
                Ok(f) => {
                    let ghost prior = out@;
                    out.push(f);
                    assert(queries(out@) =~= queries(prior).push(f@));
                },
                Err(e) => {
                    proof {
                        lemma_operators_prefix(name, all, i + 1);
                    }
                    return Err(e);
                },
            }
            i += 1;
        }
        assert(all.subrange(0, i as int) =~= all);
        Ok(group(out))
    }

    /// Parses one operator of one field.
    fn parse_operator(field: &String, name: &str, arg: &Json) -> (r: Result<Filter, Error>)
        ensures
            match r {
                Ok(f) => operator_query(utf8(*field), encode_utf8(name@), arg@) == Some(f@),
                Err(e) => e is InvalidArgument && operator_query(
                    utf8(*field),
                    encode_utf8(name@),
                    arg@,
                ) is None,
            },
    {
        if is_text(name, "$eq") {
            match Scalar::operand(arg) {
                Ok(s) => Ok(Filter::Eq(field.clone(), s)),
                Err(e) => Err(e),
            }
        } else if is_text(name, "$ne") {
            match Scalar::operand(arg) {
                Ok(s) => Ok(Filter::Ne(field.clone(), s)),
                Err(e) => Err(e),
            }
        } else if let Some(op) = range_of(name) {
            match Scalar::operand(arg) {
                Ok(s) => match s {
                    Scalar::Number(_) | Scalar::Str(_) => Ok(Filter::Range(field.clone(), op, s)),
                    _ => Err(Error::invalid("a range compares numbers or strings")),
                },
                Err(e) => Err(e),
            }
        } else if is_text(name, "$in") {
            match operand_list(arg) {
                Ok(vs) => Ok(Filter::In(field.clone(), vs)),
                Err(e) => Err(e),
            }
        } else if is_text(name, "$nin") {
            match operand_list(arg) {
                Ok(vs) => Ok(Filter::Nin(field.clone(), vs)),
                Err(e) => Err(e),
            }
        } else if is_text(name, "$exists") {
            match arg {
                Json::Bool(b) => Ok(Filter::Exists(field.clone(), *b)),
                _ => Err(Error::invalid("`$exists` takes true or false")),
            }
        } else {
            Err(Error::invalid("unknown operator"))
        }
    }
}


// ---- matching ---------------------------------------------------------------

/// Splits a path at its dots.
pub(crate) fn split_path(path: &[u8]) -> (r: Vec<Vec<u8>>)
    ensures
        byte_lists(r@) == segments(path@),
{
    let mut out: Vec<Vec<u8>> = Vec::new();
    let mut word: Vec<u8> = Vec::new();
    let mut i: usize = 0;
    assert(path@.subrange(0, 0) =~= Seq::empty());
    assert(byte_lists(out@).push(word@) =~= seq![Seq::<u8>::empty()]);
    while i < path.len()
        invariant
            i <= path@.len(),
            segments(path@.subrange(0, i as int)) == byte_lists(out@).push(word@),
        decreases path@.len() - i,
    {
        let b: u8 = path[i];
        let ghost more = path@.subrange(0, i + 1);
        let ghost done = byte_lists(out@);
        let ghost so_far = word@;
        assert(more.drop_last() =~= path@.subrange(0, i as int));
        if b == 0x2E {
            out.push(word);
            word = Vec::new();
            assert(byte_lists(out@) =~= done.push(so_far));
            assert(word@ =~= Seq::empty());
        } else {
            word.push(b);
            assert(done.push(so_far).drop_last() =~= done);
        }
        i += 1;
    }
    assert(path@.subrange(0, i as int) =~= path@);
    let ghost done = byte_lists(out@);
    let ghost so_far = word@;
    out.push(word);
    assert(byte_lists(out@) =~= done.push(so_far));
    out
}

/// Every scalar reachable at `path` (arrays contribute each element).
fn values_at(metadata: &Json, path: &str) -> (out: Vec<Scalar>)
    ensures
        forall|d: Datum|
            #![trigger data(out@).contains(d)]
            #![trigger reaches(metadata@, segments(encode_utf8(path@)), d)]
            data(out@).contains(d) == reaches(metadata@, segments(encode_utf8(path@)), d),
{
    let segs: Vec<Vec<u8>> = split_path(path.as_bytes());
    let mut out: Vec<Scalar> = Vec::new();
    collect_at(metadata, &segs, 0, &mut out);
    assert(byte_lists(segs@).skip(0) =~= byte_lists(segs@));
    out
}

fn collect_at(value: &Json, path: &Vec<Vec<u8>>, from: usize, out: &mut Vec<Scalar>)
    requires
        from <= path@.len(),
    ensures
        forall|d: Datum|
            #![trigger data(final(out)@).contains(d)]
            data(final(out)@).contains(d) == (data(old(out)@).contains(d) || reaches(
                value@,
                byte_lists(path@).skip(from as int),
                d,
            )),
    decreases *value,
{
    let ghost rest = byte_lists(path@).skip(from as int);
    let ghost start = data(out@);
    match value {
        Json::List(items) => {
            let ghost all = value@->List_0;
            let mut i: usize = 0;
            while i < items.len()
                invariant
                    i <= items@.len(),
                    from <= path@.len(),
                    rest == byte_lists(path@).skip(from as int),
                    start == data(old(out)@),
                    *value == Json::List(*items),
                    value@ == Tree::List(all),
                    items@.len() == all.len(),
                    forall|j: int| 0 <= j < all.len() ==> #[trigger] all[j] == tree(items@[j]),
                    forall|d: Datum|
                        #![trigger data(out@).contains(d)]
                        data(out@).contains(d) == (start.contains(d) || exists|j: int|
                            0 <= j < i && reaches(#[trigger] all[j], rest, d)),
                decreases items@.len() - i,
            {
                let ghost prior = data(out@);
                collect_at(&items[i], path, from, out);
                assert(all[i as int] == items@[i as int]@);
                assert forall|d: Datum| #[trigger] data(out@).contains(d) == (start.contains(d)
                    || exists|j: int| 0 <= j < i + 1 && reaches(#[trigger] all[j], rest, d)) by {
                    assert(prior.contains(d) == (start.contains(d) || exists|j: int|
                        0 <= j < i && reaches(#[trigger] all[j], rest, d)));
                    if reaches(all[i as int], rest, d) {
                        assert(data(out@).contains(d));
                    }
                }
                i += 1;
            }
        },
        Json::Object(members) => {
            if from < path.len() {
                let ghost all = value@->Object_0;
                let at: usize = find_member(members, path[from].as_slice());
                assert(rest[0] == path@[from as int]@);
                assert(rest.skip(1) =~= byte_lists(path@).skip(from + 1));
                if at < members.len() {
                    assert(all[at as int].1 == members@[at as int].1@);
                    collect_at(&members[at].1, path, from + 1, out);
                }
            }
        },
        _ => {
            if from == path.len() {
                match Scalar::from_json(value) {
                    Ok(s) => {
                        if s.indexable() {
                            out.push(s);
                            assert(data(out@) =~= start.push(s@));
                            assert forall|d: Datum| #[trigger]
                                data(out@).contains(d) == (start.contains(d) || d == s@) by {
                                if start.contains(d) {
                                    let j = choose|j: int| 0 <= j < start.len() && start[j] == d;
                                    assert(start.push(s@)[j] == d);
                                }
                                if d == s@ {
                                    assert(start.push(s@)[start.len() as int] == d);
                                }
                            }
                        }
                    },
                    Err(_) => {},
                }
            }
        },
    }
}

/// Whether `path` leads to a value other than an array.
fn field_present(metadata: &Json, path: &str) -> (r: bool)
    ensures
        r == present_at(metadata@, segments(encode_utf8(path@))),
{
    let segs: Vec<Vec<u8>> = split_path(path.as_bytes());
    assert(byte_lists(segs@).skip(0) =~= byte_lists(segs@));
    leads_to(metadata, &segs, 0)
}

fn leads_to(value: &Json, path: &Vec<Vec<u8>>, from: usize) -> (r: bool)
    requires
        from <= path@.len(),
    ensures
        r == present_at(value@, byte_lists(path@).skip(from as int)),
    decreases *value,
{
    let ghost rest = byte_lists(path@).skip(from as int);
    match value {
        Json::List(items) => {
            let ghost all = value@->List_0;
            let mut i: usize = 0;
            while i < items.len()
                invariant
                    i <= items@.len(),
                    from <= path@.len(),
                    rest == byte_lists(path@).skip(from as int),
                    *value == Json::List(*items),
                    value@ == Tree::List(all),
                    items@.len() == all.len(),
                    forall|j: int| 0 <= j < all.len() ==> #[trigger] all[j] == tree(items@[j]),
                    forall|j: int| 0 <= j < i ==> !present_at(#[trigger] all[j], rest),
                decreases items@.len() - i,
            {
                assert(all[i as int] == items@[i as int]@);
                if leads_to(&items[i], path, from) {
                    assert(present_at(all[i as int], rest));
                    proof {
                        lemma_present_in_list(all, i as int, rest);
                    }
                    return true;
                }
                i += 1;
            }
            false
        },
        Json::Object(members) => {
            if from < path.len() {
                let ghost all = value@->Object_0;
                let at: usize = find_member(members, path[from].as_slice());
                assert(rest[0] == path@[from as int]@);
                assert(rest.skip(1) =~= byte_lists(path@).skip(from + 1));
                if at < members.len() {
                    assert(all[at as int].1 == members@[at as int].1@);
                    leads_to(&members[at].1, path, from + 1)
                } else {
                    false
                }
            } else {
                true
            }
        },
        _ => from == path.len(),
    }
}

/// Whether one of the scalars equals `v`.
fn any_equal(have: &Vec<Scalar>, v: &Scalar) -> (r: bool)
    ensures
        r == exists|d: Datum|
            #[trigger] data(have@).contains(d) && compared(d, v@) == Some(Order::Equal),
{
    let mut i: usize = 0;
    while i < have.len()
        invariant
            i <= have@.len(),
            forall|j: int|
                0 <= j < i ==> compared(#[trigger] data(have@)[j], v@) != Some(Order::Equal),
        decreases have@.len() - i,
    {
        assert(data(have@)[i as int] == have@[i as int]@);
        if have[i].compare(v) == Some(Order::Equal) {
            assert(data(have@).contains(have@[i as int]@));
            return true;
        }
        i += 1;
    }
    false
}

/// Whether a comparison's outcome satisfies the operator.
fn satisfies(op: RangeOp, c: Option<Order>) -> (r: bool)
    ensures
        r == in_range(op, c),
{
    match (op, c) {
        (RangeOp::Gt, Some(Order::Greater)) => true,
        (RangeOp::Gte, Some(Order::Greater)) => true,
        (RangeOp::Gte, Some(Order::Equal)) => true,
        (RangeOp::Lt, Some(Order::Less)) => true,
        (RangeOp::Lte, Some(Order::Less)) => true,
        (RangeOp::Lte, Some(Order::Equal)) => true,
        _ => false,
    }
}

fn matches_equal(metadata: &Json, field: &String, v: &Scalar) -> (r: bool)
    ensures
        r == has_equal(metadata@, utf8(*field), v@),
{
    let have: Vec<Scalar> = values_at(metadata, field.as_str());
    let r: bool = any_equal(&have, v);
    let ghost path = segments(utf8(*field));
    proof {
        if r {
            let d = choose|d: Datum| #[trigger]
                data(have@).contains(d) && compared(d, v@) == Some(Order::Equal);
            assert(reaches(metadata@, path, d));
        }
        if has_equal(metadata@, utf8(*field), v@) {
            let d = choose|d: Datum| #[trigger]
                reaches(metadata@, path, d) && compared(d, v@) == Some(Order::Equal);
            assert(data(have@).contains(d));
        }
    }
    r
}

fn matches_range(metadata: &Json, field: &String, op: RangeOp, v: &Scalar) -> (r: bool)
    ensures
        r == has_in_range(metadata@, utf8(*field), op, v@),
{
    let have: Vec<Scalar> = values_at(metadata, field.as_str());
    let ghost path = segments(utf8(*field));
    let mut i: usize = 0;
    while i < have.len()
        invariant
            i <= have@.len(),
            path == segments(utf8(*field)),
            forall|d: Datum|
                #![trigger data(have@).contains(d)]
                #![trigger reaches(metadata@, path, d)]
                data(have@).contains(d) == reaches(metadata@, path, d),
            forall|j: int|
                0 <= j < i ==> !in_range(op, compared(#[trigger] data(have@)[j], v@)),
        decreases have@.len() - i,
    {
        assert(data(have@)[i as int] == have@[i as int]@);
        if satisfies(op, have[i].compare(v)) {
            assert(data(have@).contains(have@[i as int]@));
            assert(reaches(metadata@, path, have@[i as int]@));
            return true;
        }
        i += 1;
    }
    false
}

fn matches_any(metadata: &Json, field: &String, vs: &Vec<Scalar>) -> (r: bool)
    ensures
        r == has_any(metadata@, utf8(*field), data(vs@)),
{
    let mut i: usize = 0;
    while i < vs.len()
        invariant
            i <= vs@.len(),
            forall|j: int|
                0 <= j < i ==> !has_equal(metadata@, utf8(*field), #[trigger] data(vs@)[j]),
        decreases vs@.len() - i,
    {
        assert(data(vs@)[i as int] == vs@[i as int]@);
        if matches_equal(metadata, field, &vs[i]) {
            return true;
        }
        i += 1;
    }
    false
}

impl Filter {
    /// Evaluates the filter against a document's metadata, in memory.
    ///
    /// This is the reference semantics; the index-backed evaluation in the
    /// collection must agree with it.
    #[must_use]
    pub fn matches(&self, metadata: &Json) -> (r: bool)
        ensures
            r == holds(self@, metadata@),
        decreases *self,
    {
        match self {
            Filter::All => true,
            Filter::Eq(field, v) => matches_equal(metadata, field, v),
            Filter::Ne(field, v) => !matches_equal(metadata, field, v),
            Filter::Range(field, op, v) => matches_range(metadata, field, *op, v),
            Filter::In(field, vs) => matches_any(metadata, field, vs),
            Filter::Nin(field, vs) => !matches_any(metadata, field, vs),
            Filter::Exists(field, want) => field_present(metadata, field.as_str()) == *want,
            Filter::And(fs) => {
                let ghost all = self@->And_0;
                let mut i: usize = 0;
                while i < fs.len()
                    invariant
                        i <= fs@.len(),
                        *self == Filter::And(*fs),
                        self@ == Query::And(all),
                        fs@.len() == all.len(),
                        forall|j: int| 0 <= j < all.len() ==> #[trigger] all[j] == query(fs@[j]),
                        forall|j: int| 0 <= j < i ==> holds(#[trigger] all[j], metadata@),
                    decreases fs@.len() - i,
                {
                    assert(all[i as int] == fs@[i as int]@);
                    if !fs[i].matches(metadata) {
                        proof {
                            lemma_and_fails(all, i as int, metadata@);
                        }
                        return false;
                    }
                    i += 1;
                }
                true
            },
            Filter::Or(fs) => {
                let ghost all = self@->Or_0;
                let mut i: usize = 0;
                while i < fs.len()
                    invariant
                        i <= fs@.len(),
                        *self == Filter::Or(*fs),
                        self@ == Query::Or(all),
                        fs@.len() == all.len(),
                        forall|j: int| 0 <= j < all.len() ==> #[trigger] all[j] == query(fs@[j]),
                        forall|j: int| 0 <= j < i ==> !holds(#[trigger] all[j], metadata@),
                    decreases fs@.len() - i,
                {
                    assert(all[i as int] == fs@[i as int]@);
                    if fs[i].matches(metadata) {
                        proof {
                            lemma_or_holds(all, i as int, metadata@);
                        }
                        return true;
                    }
                    i += 1;
                }
                false
            },
            Filter::Not(f) => !f.matches(metadata),
        }
    }
}

} // verus!

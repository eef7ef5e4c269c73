//! The scalars that filters compare, and their index encoding.

use crate::bytes::{lemma_lex_irreflexive, lemma_lex_total, lex_lt, order, order_of, Order};
use crate::json::utf8;
use vstd::prelude::*;

verus! {

/// Longest string value that is indexed (and that a filter may compare
/// against), in bytes.
pub const MAX_INDEXED_STRING: usize = 512;

/// A scalar a filter compares against.
#[derive(Debug, PartialEq, Eq)]
pub enum Scalar {
    /// JSON `null`.
    Null,
    /// A boolean.
    Bool(bool),
    /// Any JSON number, as the bits of its double-precision value.
    Number(u64),
    /// A string.
    Str(String),
}

/// What a [`Scalar`] stands for.
pub enum Datum {
    /// JSON `null`.
    Null,
    /// A boolean.
    Bool(bool),
    /// The bits of a double-precision number.
    Number(u64),
    /// The UTF-8 bytes of a string.
    Text(Seq<u8>),
}

impl View for Scalar {
    type V = Datum;

    open spec fn view(&self) -> Datum {
        match *self {
            Scalar::Null => Datum::Null,
            Scalar::Bool(b) => Datum::Bool(b),
            Scalar::Number(n) => Datum::Number(n),
            Scalar::Str(s) => Datum::Text(utf8(s)),
        }
    }
}

/// Whether the bits are those of no number.
pub open spec fn is_nan(bits: u64) -> bool {
    bits % 0x8000_0000_0000_0000 > 0x7FF0_0000_0000_0000
}

/// Whether the bits are those of a finite number.
pub open spec fn is_finite(bits: u64) -> bool {
    bits % 0x8000_0000_0000_0000 < 0x7FF0_0000_0000_0000
}

/// Where a number stands among all numbers: its magnitude bits, negated below
/// zero, so that both zeros stand at the same place.
pub open spec fn rank(bits: u64) -> int {
    if bits < 0x8000_0000_0000_0000 {
        bits as int
    } else {
        0x8000_0000_0000_0000 - bits
    }
}

/// How two scalars of one type stand to each other; `None` across types and
/// for what is no number.
pub open spec fn compared(a: Datum, b: Datum) -> Option<Order> {
    match (a, b) {
        (Datum::Number(x), Datum::Number(y)) => if is_nan(x) || is_nan(y) {
            None
        } else if rank(x) < rank(y) {
            Some(Order::Less)
        } else if rank(x) == rank(y) {
            Some(Order::Equal)
        } else {
            Some(Order::Greater)
        },
        (Datum::Text(x), Datum::Text(y)) => Some(order_of(x, y)),
        (Datum::Bool(x), Datum::Bool(y)) => if x == y {
            Some(Order::Equal)
        } else if y {
            Some(Order::Less)
        } else {
            Some(Order::Greater)
        },
        (Datum::Null, Datum::Null) => Some(Order::Equal),
        _ => None,
    }
}

/// The low `n` bytes of `v`, high byte first.
pub open spec fn big_endian(v: nat, n: nat) -> Seq<u8>
    decreases n,
{
    if n == 0 {
        Seq::empty()
    } else {
        big_endian(v / 0x100, (n - 1) as nat).push((v % 0x100) as u8)
    }
}

/// A number whose order among unsigned integers is the order of the doubles.
pub open spec fn sortable(bits: u64) -> nat {
    if rank(bits) >= 0 {
        (rank(bits) + 0x8000_0000_0000_0000) as nat
    } else {
        (rank(bits) + 0x7FFF_FFFF_FFFF_FFFF) as nat
    }
}

/// Every zero byte followed by `0xFF`.
pub open spec fn escaped(s: Seq<u8>) -> Seq<u8>
    decreases s.len(),
{
    if s.len() == 0 {
        Seq::empty()
    } else if s[0] == 0 {
        seq![0u8, 0xFFu8] + escaped(s.skip(1))
    } else {
        seq![s[0]] + escaped(s.skip(1))
    }
}

/// The tag byte of a scalar's type.
pub open spec fn tag_of(d: Datum) -> u8 {
    match d {
        Datum::Null => 1,
        Datum::Bool(_) => 2,
        Datum::Number(_) => 3,
        Datum::Text(_) => 4,
    }
}

/// The index encoding: the type's tag, then eight ordered bytes for a number
/// or the escaped bytes and an end mark for a string.
pub open spec fn encoding(d: Datum) -> Seq<u8> {
    match d {
        Datum::Null => seq![1u8],
        Datum::Bool(b) => seq![2u8, if b {
            1u8
        } else {
            0u8
        }],
        Datum::Number(n) => seq![3u8] + big_endian(sortable(n), 8),
        Datum::Text(s) => seq![4u8] + escaped(s) + seq![0u8, 1u8],
    }
}

/// Whether a scalar is short enough for the index.
pub open spec fn fits_index(d: Datum) -> bool {
    d is Text ==> d->Text_0.len() <= MAX_INDEXED_STRING
}

/// `x` and `y` differ before either ends, and `x` has the lower byte there.
pub open spec fn apart(x: Seq<u8>, y: Seq<u8>) -> bool
    decreases x.len(),
{
    x.len() > 0 && y.len() > 0 && (x[0] < y[0] || (x[0] == y[0] && apart(x.skip(1), y.skip(1))))
}

/// What is apart stays so, and in order, whatever follows.
pub proof fn lemma_apart_extends(x: Seq<u8>, y: Seq<u8>, p: Seq<u8>, q: Seq<u8>)
    requires
        apart(x, y),
    ensures
        apart(x + p, y + q),
        lex_lt(x + p, y + q),
    decreases x.len(),
{
    if x[0] == y[0] {
        lemma_apart_extends(x.skip(1), y.skip(1), p, q);
        assert((x + p).skip(1) =~= x.skip(1) + p);
        assert((y + q).skip(1) =~= y.skip(1) + q);
    }
}

/// A common beginning keeps what follows apart.
pub proof fn lemma_apart_prefixed(c: Seq<u8>, x: Seq<u8>, y: Seq<u8>)
    requires
        apart(x, y),
    ensures
        apart(c + x, c + y),
    decreases c.len(),
{
    if c.len() == 0 {
        assert(c + x =~= x);
        assert(c + y =~= y);
    } else {
        lemma_apart_prefixed(c.skip(1), x, y);
        assert((c + x).skip(1) =~= c.skip(1) + x);
        assert((c + y).skip(1) =~= c.skip(1) + y);
    }
}

proof fn lemma_big_endian_len(v: nat, n: nat)
    ensures
        big_endian(v, n).len() == n,
    decreases n,
{
    if n > 0 {
        lemma_big_endian_len(v / 0x100, (n - 1) as nat);
    }
}

/// 256 to the power of `n`.
spec fn power(n: nat) -> nat
    decreases n,
{
    if n == 0 {
        1
    } else {
        0x100 * power((n - 1) as nat)
    }
}

proof fn lemma_big_endian_order(a: nat, b: nat, n: nat)
    requires
        a < b < power(n),
    ensures
        apart(big_endian(a, n), big_endian(b, n)),
    decreases n,
{
    if n > 0 {
        let m = (n - 1) as nat;
        let (x, y) = (big_endian(a / 0x100, m), big_endian(b / 0x100, m));
        let (p, q) = (seq![(a % 0x100) as u8], seq![(b % 0x100) as u8]);
        assert(big_endian(a, n) =~= x + p);
        assert(big_endian(b, n) =~= y + q);
        if a / 0x100 == b / 0x100 {
            assert(apart(p, q));
            lemma_apart_prefixed(x, p, q);
        } else {
            assert(a / 0x100 < b / 0x100);
            assert(b / 0x100 < power(m));
            lemma_big_endian_order(a / 0x100, b / 0x100, m);
            lemma_apart_extends(x, y, p, q);
        }
    }
}

proof fn lemma_escaped_order(a: Seq<u8>, b: Seq<u8>)
    requires
        lex_lt(a, b),
    ensures
        apart(escaped(a) + seq![0u8, 1u8], escaped(b) + seq![0u8, 1u8]),
    decreases a.len(),
{
    let end = seq![0u8, 1u8];
    if a.len() == 0 {
        let (x, y) = (escaped(a) + end, escaped(b) + end);
        assert(x =~= end);
        if b[0] == 0 {
            assert(y[0] == 0 && y[1] == 0xFF);
            assert(apart(x.skip(1), y.skip(1)));
        } else {
            assert(y[0] == b[0]);
        }
    } else if a[0] == b[0] {
        lemma_escaped_order(a.skip(1), b.skip(1));
        let c = if a[0] == 0 {
            seq![0u8, 0xFFu8]
        } else {
            seq![a[0]]
        };
        lemma_apart_prefixed(c, escaped(a.skip(1)) + end, escaped(b.skip(1)) + end);
        assert(escaped(a) + end =~= c + (escaped(a.skip(1)) + end));
        assert(escaped(b) + end =~= c + (escaped(b.skip(1)) + end));
    } else {
        assert((escaped(a) + end)[0] == a[0]);
        assert((escaped(b) + end)[0] == b[0]);
    }
}

/// Byte order is value order within a type: where `a` comes before `b`, the
/// encoding of `a` comes before that of `b` whatever follows each, and so
/// neither begins with the other.
pub proof fn law_encoding_keeps_order(a: Datum, b: Datum, p: Seq<u8>, q: Seq<u8>)
    requires
        compared(a, b) == Some(Order::Less),
    ensures
        apart(encoding(a), encoding(b)),
        lex_lt(encoding(a) + p, encoding(b) + q),
{
    match (a, b) {
        (Datum::Number(x), Datum::Number(y)) => {
            assert(power(8) == 0x1_0000_0000_0000_0000) by {
                reveal_with_fuel(power, 9);
            }
            lemma_big_endian_order(sortable(x), sortable(y), 8);
            lemma_apart_prefixed(
                seq![3u8],
                big_endian(sortable(x), 8),
                big_endian(sortable(y), 8),
            );
        },
        (Datum::Text(x), Datum::Text(y)) => {
            lemma_escaped_order(x, y);
            let end = seq![0u8, 1u8];
            lemma_apart_prefixed(seq![4u8], escaped(x) + end, escaped(y) + end);
            assert(encoding(a) =~= seq![4u8] + (escaped(x) + end));
            assert(encoding(b) =~= seq![4u8] + (escaped(y) + end));
        },
        _ => {
            assert(encoding(a).skip(1) =~= seq![0u8]);
            assert(encoding(b).skip(1) =~= seq![1u8]);
            assert(apart(encoding(a).skip(1), encoding(b).skip(1)));
        },
    }
    lemma_apart_extends(encoding(a), encoding(b), p, q);
}

/// Scalars that are equal have one encoding.
pub proof fn law_equal_scalars_share_an_encoding(a: Datum, b: Datum)
    requires
        compared(a, b) == Some(Order::Equal),
    ensures
        encoding(a) == encoding(b),
{
    match (a, b) {
        (Datum::Number(x), Datum::Number(y)) => {
            assert(sortable(x) == sortable(y));
        },
        _ => {},
    }
}

/// An encoding ends by itself: what follows it in a key is never taken for a
/// part of it.
pub proof fn law_encoding_is_self_delimiting(a: Datum, b: Datum, p: Seq<u8>, q: Seq<u8>)
    requires
        encoding(a) + p == encoding(b) + q,
        a is Number ==> !is_nan(a->Number_0),
        b is Number ==> !is_nan(b->Number_0),
    ensures
        compared(a, b) == Some(Order::Equal),
        encoding(a) == encoding(b),
        p == q,
{
    let (x, y) = (encoding(a) + p, encoding(b) + q);
    assert(x[0] == tag_of(a)) by {
        lemma_big_endian_len(
            if a is Number {
                sortable(a->Number_0)
            } else {
                0
            },
            8,
        );
    }
    assert(y[0] == tag_of(b));
    assert(compared(a, b) is Some);
    if compared(a, b) == Some(Order::Less) {
        law_encoding_keeps_order(a, b, p, q);
        lemma_lex_irreflexive(x);
    }
    if compared(a, b) == Some(Order::Greater) {
        assert(compared(b, a) == Some(Order::Less)) by {
            match (a, b) {
                (Datum::Text(s), Datum::Text(t)) => {
                    lemma_lex_total(s, t);
                },
                _ => {},
            }
        }
        law_encoding_keeps_order(b, a, q, p);
        lemma_lex_irreflexive(x);
    }
    law_equal_scalars_share_an_encoding(a, b);
    assert(p =~= x.skip(encoding(a).len() as int));
    assert(q =~= y.skip(encoding(b).len() as int));
}

/// Appends the eight bytes of `v`, high byte first.
fn push_big_endian(out: &mut Vec<u8>, v: u64)
    ensures
        final(out)@ == old(out)@ + big_endian(v as nat, 8),
{
    let ghost start = out@;
    let bytes: [u64; 8] = [
        v / 0x100_0000_0000_0000,
        v / 0x1_0000_0000_0000,
        v / 0x100_0000_0000,
        v / 0x1_0000_0000,
        v / 0x100_0000,
        v / 0x1_0000,
        v / 0x100,
        v,
    ];
    let mut i: usize = 0;
    while i < 8
        invariant
            i <= 8,
            bytes@ == seq![
                (v / 0x100_0000_0000_0000) as u64,
                (v / 0x1_0000_0000_0000) as u64,
                (v / 0x100_0000_0000) as u64,
                (v / 0x1_0000_0000) as u64,
                (v / 0x100_0000) as u64,
                (v / 0x1_0000) as u64,
                (v / 0x100) as u64,
                v,
            ],
            i > 0 ==> out@ == start + big_endian(bytes@[i - 1] as nat, i as nat),
            i == 0 ==> out@ == start,
        decreases 8 - i,
    {
        let b: u8 = (bytes[i] % 0x100) as u8;
        out.push(b);
        proof {
            if i == 0 {
                assert(big_endian(bytes@[0] as nat, 1) =~= seq![b]) by {
                    reveal_with_fuel(big_endian, 2);
                }
                assert(out@ =~= start + seq![b]);
            } else {
                assert(bytes@[i as int] / 0x100 == bytes@[i - 1]);
                let v: nat = bytes@[i as int] as nat;
                assert(big_endian(v, (i + 1) as nat) == big_endian(v / 0x100, i as nat).push(b));
                assert(out@ =~= start + big_endian(v, (i + 1) as nat));
            }
        }
        i += 1;
    }
}

impl Scalar {
    /// Another copy of the scalar.
    pub fn copy(&self) -> (s: Scalar)
        ensures
            s@ == self@,
    {
        match self {
            Scalar::Null => Scalar::Null,
            Scalar::Bool(b) => Scalar::Bool(*b),
            Scalar::Number(n) => Scalar::Number(*n),
            Scalar::Str(s) => Scalar::Str(s.clone()),
        }
    }

    /// Compares two scalars of the same type; `None` across types.
    pub fn compare(&self, other: &Scalar) -> (r: Option<Order>)
        ensures
            r == compared(self@, other@),
    {
        match (self, other) {
            (Scalar::Number(a), Scalar::Number(b)) => compare_numbers(*a, *b),
            (Scalar::Str(a), Scalar::Str(b)) => Some(
                order(a.as_str().as_bytes(), b.as_str().as_bytes()),
            ),
            (Scalar::Bool(a), Scalar::Bool(b)) => if *a == *b {
                Some(Order::Equal)
            } else if *b {
                Some(Order::Less)
            } else {
                Some(Order::Greater)
            },
            (Scalar::Null, Scalar::Null) => Some(Order::Equal),
            _ => None,
        }
    }

    /// Order-preserving, self-delimiting byte encoding for index keys.
    ///
    /// Each encoding carries a type tag and ends unambiguously (numbers are
    /// fixed width; strings escape `0x00` and end with `0x00 0x01`), so the
    /// id appended after it can never be mistaken for part of the value, and
    /// byte order equals value order within a type.
    #[must_use]
    pub fn encode(&self) -> (out: Vec<u8>)
        ensures
            out@ == encoding(self@),
    {
        let mut out: Vec<u8> = Vec::new();
        match self {
            Scalar::Null => {
                out.push(0x01);
            },
            Scalar::Bool(b) => {
                out.push(0x02);
                out.push(if *b {
                    1
                } else {
                    0
                });
            },
            Scalar::Number(n) => {
                let ordered: u64 = if *n < 0x8000_0000_0000_0000 {
                    *n + 0x8000_0000_0000_0000
                } else if *n == 0x8000_0000_0000_0000 {
                    0x8000_0000_0000_0000
                } else {
                    0xFFFF_FFFF_FFFF_FFFF - *n
                };
                assert(ordered == sortable(*n));
                out.push(0x03);
                push_big_endian(&mut out, ordered);
                assert(out@ =~= seq![3u8] + big_endian(sortable(*n), 8));
            },
            Scalar::Str(s) => {
                let bytes: &[u8] = s.as_str().as_bytes();
                out.push(0x04);
                let mut i: usize = 0;
                assert(bytes@.skip(0) =~= bytes@);
                while i < bytes.len()
                    invariant
                        i <= bytes@.len(),
                        out@ + escaped(bytes@.skip(i as int)) == seq![4u8] + escaped(bytes@),
                    decreases bytes@.len() - i,
                {
                    let b: u8 = bytes[i];
                    let ghost prior = out@;
                    let ghost rest = bytes@.skip(i as int);
                    out.push(b);
                    if b == 0 {
                        out.push(0xFF);
                    }
                    assert(rest.skip(1) =~= bytes@.skip(i + 1));
                    assert(out@ + escaped(rest.skip(1)) =~= prior + escaped(rest));
                    i += 1;
                }
                assert(bytes@.skip(i as int) =~= Seq::empty());
                assert(out@ =~= seq![4u8] + escaped(bytes@));
                out.push(0x00);
                out.push(0x01);
            },
        }
        assert(out@ =~= encoding(self@));
        out
    }

    /// Tag byte shared by every encoding of this scalar's type.
    #[must_use]
    pub fn type_tag(&self) -> (t: u8)
        ensures
            t == tag_of(self@),
    {
        match self {
            Scalar::Null => 0x01,
            Scalar::Bool(_) => 0x02,
            Scalar::Number(_) => 0x03,
            Scalar::Str(_) => 0x04,
        }
    }

    /// Whether this value can be indexed (long strings are not).
    #[must_use]
    pub fn indexable(&self) -> (r: bool)
        ensures
            r == fits_index(self@),
    {
        match self {
            Scalar::Str(s) => s.as_str().as_bytes().len() <= MAX_INDEXED_STRING,
            _ => true,
        }
    }
}

fn compare_numbers(a: u64, b: u64) -> (r: Option<Order>)
    ensures
        r == compared(Datum::Number(a), Datum::Number(b)),
{
    let half: u64 = 0x8000_0000_0000_0000;
    if a % half > 0x7FF0_0000_0000_0000 || b % half > 0x7FF0_0000_0000_0000 {
        return None;
    }
    if a % half == 0 && b % half == 0 {
        Some(Order::Equal)
    } else if a < half && b < half {
        Some(
            if a < b {
                Order::Less
            } else if a == b {
                Order::Equal
            } else {
                Order::Greater
            },
        )
    } else if a >= half && b >= half {
        Some(
            if a > b {
                Order::Less
            } else if a == b {
                Order::Equal
            } else {
                Order::Greater
            },
        )
    } else if a >= half {
        Some(Order::Less)
    } else {
        Some(Order::Greater)
    }
}

} // verus!

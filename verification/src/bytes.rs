//! Little-endian fields in byte strings, and the order of byte strings.

use vstd::prelude::*;

verus! {

/// The sixteen-bit little-endian field at `off`.
pub open spec fn u16_at(b: Seq<u8>, off: int) -> u16 {
    (b[off] + 0x100 * b[off + 1]) as u16
}

/// The thirty-two-bit little-endian field at `off`.
pub open spec fn u32_at(b: Seq<u8>, off: int) -> u32 {
    (b[off] + 0x100 * b[off + 1] + 0x1_0000 * b[off + 2] + 0x100_0000 * b[off + 3]) as u32
}

/// The sixty-four-bit little-endian field at `off`.
pub open spec fn u64_at(b: Seq<u8>, off: int) -> u64 {
    (u32_at(b, off) + 0x1_0000_0000 * u32_at(b, off + 4)) as u64
}

/// The two bytes of `v`, low byte first.
pub open spec fn le16(v: u16) -> Seq<u8> {
    seq![(v % 0x100) as u8, (v / 0x100) as u8]
}

/// The four bytes of `v`, low byte first.
pub open spec fn le32(v: u32) -> Seq<u8> {
    seq![
        (v % 0x100) as u8,
        (v / 0x100 % 0x100) as u8,
        (v / 0x1_0000 % 0x100) as u8,
        (v / 0x100_0000) as u8,
    ]
}

/// The eight bytes of `v`, low byte first.
pub open spec fn le64(v: u64) -> Seq<u8> {
    le32((v % 0x1_0000_0000) as u32) + le32((v / 0x1_0000_0000) as u32)
}

/// `b` with `data` written over the bytes from `off` on.
pub open spec fn write_at(b: Seq<u8>, off: int, data: Seq<u8>) -> Seq<u8> {
    Seq::new(
        b.len(),
        |i: int|
            if off <= i < off + data.len() {
                data[i - off]
            } else {
                b[i]
            },
    )
}

/// What was written with `le16` is read back by `u16_at`.
pub proof fn lemma_u16_roundtrip(b: Seq<u8>, off: int, v: u16)
    requires
        0 <= off,
        off + 2 <= b.len(),
        b.subrange(off, off + 2) == le16(v),
    ensures
        u16_at(b, off) == v,
{
    let s = b.subrange(off, off + 2);
    assert(s[0] == b[off] && s[1] == b[off + 1]);
}

/// What was written with `le32` is read back by `u32_at`.
pub proof fn lemma_u32_roundtrip(b: Seq<u8>, off: int, v: u32)
    requires
        0 <= off,
        off + 4 <= b.len(),
        b.subrange(off, off + 4) == le32(v),
    ensures
        u32_at(b, off) == v,
{
    let s = b.subrange(off, off + 4);
    assert(s[0] == b[off] && s[1] == b[off + 1] && s[2] == b[off + 2] && s[3] == b[off + 3]);
}

/// What was written with `le64` is read back by `u64_at`.
pub proof fn lemma_u64_roundtrip(b: Seq<u8>, off: int, v: u64)
    requires
        0 <= off,
        off + 8 <= b.len(),
        b.subrange(off, off + 8) == le64(v),
    ensures
        u64_at(b, off) == v,
{
    let lo = (v % 0x1_0000_0000) as u32;
    let hi = (v / 0x1_0000_0000) as u32;
    let s = b.subrange(off, off + 8);
    assert(b.subrange(off, off + 4) =~= s.subrange(0, 4));
    assert(b.subrange(off + 4, off + 8) =~= s.subrange(4, 8));
    assert(s.subrange(0, 4) =~= le32(lo));
    assert(s.subrange(4, 8) =~= le32(hi));
    lemma_u32_roundtrip(b, off, lo);
    lemma_u32_roundtrip(b, off + 4, hi);
}

/// Four bytes are those of the field that they hold.
pub proof fn lemma_u32_bytes(b: Seq<u8>, off: int)
    requires
        0 <= off,
        off + 4 <= b.len(),
    ensures
        b.subrange(off, off + 4) == le32(u32_at(b, off)),
{
    let v = u32_at(b, off);
    let (p, q, r, s) = (b[off] as int, b[off + 1] as int, b[off + 2] as int, b[off + 3] as int);
    assert(v == p + 0x100 * q + 0x1_0000 * r + 0x100_0000 * s);
    assert(v % 0x100 == p);
    assert(v / 0x100 % 0x100 == q);
    assert(v / 0x1_0000 % 0x100 == r);
    assert(v / 0x100_0000 == s);
    assert(b.subrange(off, off + 4) =~= le32(v));
}

/// Eight bytes are those of the field that they hold.
pub proof fn lemma_u64_bytes(b: Seq<u8>, off: int)
    requires
        0 <= off,
        off + 8 <= b.len(),
    ensures
        b.subrange(off, off + 8) == le64(u64_at(b, off)),
{
    lemma_u32_bytes(b, off);
    lemma_u32_bytes(b, off + 4);
    let v = u64_at(b, off);
    let (lo, hi) = (u32_at(b, off), u32_at(b, off + 4));
    assert(v == lo + 0x1_0000_0000 * hi);
    assert(v % 0x1_0000_0000 == lo);
    assert(v / 0x1_0000_0000 == hi);
    assert(b.subrange(off, off + 8) =~= b.subrange(off, off + 4) + b.subrange(off + 4, off + 8));
}

/// The bytes of a string, behind their number.
pub open spec fn sized(s: Seq<u8>) -> Seq<u8> {
    le64(s.len() as u64) + s
}

/// `b` starts with `p`.
pub open spec fn begins(b: Seq<u8>, p: Seq<u8>) -> bool {
    exists|rest: Seq<u8>| b == #[trigger] (p + rest)
}

/// What comes first in a sized string is its length.
pub proof fn lemma_sized(a: Seq<u8>, x: Seq<u8>, b: Seq<u8>, y: Seq<u8>)
    requires
        a.len() <= u64::MAX,
        b.len() <= u64::MAX,
        sized(a) + x == sized(b) + y,
    ensures
        a == b,
        x == y,
{
    let (s, t) = (sized(a) + x, sized(b) + y);
    assert(s.subrange(0, 8) =~= le64(a.len() as u64));
    assert(t.subrange(0, 8) =~= le64(b.len() as u64));
    lemma_u64_roundtrip(s, 0, a.len() as u64);
    lemma_u64_roundtrip(t, 0, b.len() as u64);
    assert(a.len() == b.len());
    assert(a =~= s.subrange(8, 8 + a.len() as int));
    assert(b =~= t.subrange(8, 8 + b.len() as int));
    assert(x =~= s.skip(8 + a.len() as int));
    assert(y =~= t.skip(8 + b.len() as int));
}

/// Reads a sixteen-bit field.
pub fn get_u16(b: &[u8], off: usize) -> (v: u16)
    requires
        off + 2 <= b@.len(),
    ensures
        v == u16_at(b@, off as int),
{
    b[off] as u16 + 0x100 * (b[off + 1] as u16)
}

/// Reads a thirty-two-bit field.
pub fn get_u32(b: &[u8], off: usize) -> (v: u32)
    requires
        off + 4 <= b@.len(),
    ensures
        v == u32_at(b@, off as int),
{
    b[off] as u32 + 0x100 * (b[off + 1] as u32) + 0x1_0000 * (b[off + 2] as u32) + 0x100_0000 * (
    b[off + 3] as u32)
}

/// Reads a sixty-four-bit field.
pub fn get_u64(b: &[u8], off: usize) -> (v: u64)
    requires
        off + 8 <= b@.len(),
    ensures
        v == u64_at(b@, off as int),
{
    let n: usize = b.len();
    assert(off + 8 <= n);
    get_u32(b, off) as u64 + 0x1_0000_0000 * (get_u32(b, off + 4) as u64)
}

/// Appends a sixteen-bit field.
pub fn push_u16(out: &mut Vec<u8>, v: u16)
    ensures
        final(out)@ == old(out)@ + le16(v),
{
    out.push((v % 0x100) as u8);
    out.push((v / 0x100) as u8);
    assert(out@ =~= old(out)@ + le16(v));
}

/// Appends a thirty-two-bit field.
pub fn push_u32(out: &mut Vec<u8>, v: u32)
    ensures
        final(out)@ == old(out)@ + le32(v),
{
    out.push((v % 0x100) as u8);
    out.push((v / 0x100 % 0x100) as u8);
    out.push((v / 0x1_0000 % 0x100) as u8);
    out.push((v / 0x100_0000) as u8);
    assert(out@ =~= old(out)@ + le32(v));
}

/// Appends a sixty-four-bit field.
pub fn push_u64(out: &mut Vec<u8>, v: u64)
    ensures
        final(out)@ == old(out)@ + le64(v),
{
    push_u32(out, (v % 0x1_0000_0000) as u32);
    push_u32(out, (v / 0x1_0000_0000) as u32);
    assert(out@ =~= old(out)@ + le64(v));
}

/// Appends `data`.
pub fn push_bytes(out: &mut Vec<u8>, data: &[u8])
    ensures
        final(out)@ == old(out)@ + data@,
{
    let mut i: usize = 0;
    while i < data.len()
        invariant
            i <= data@.len(),
            out@ == old(out)@ + data@.subrange(0, i as int),
        decreases data@.len() - i,
    {
        out.push(data[i]);
        i += 1;
        assert(out@ =~= old(out)@ + data@.subrange(0, i as int));
    }
    assert(data@.subrange(0, i as int) =~= data@);
}

/// Copies the bytes from `start` to `end`.
pub fn copy_range(b: &[u8], start: usize, end: usize) -> (v: Vec<u8>)
    requires
        start <= end <= b@.len(),
    ensures
        v@ == b@.subrange(start as int, end as int),
{
    let mut v: Vec<u8> = Vec::new();
    let mut i: usize = start;
    while i < end
        invariant
            start <= i <= end <= b@.len(),
            v@ == b@.subrange(start as int, i as int),
        decreases end - i,
    {
        v.push(b[i]);
        i += 1;
        assert(v@ =~= b@.subrange(start as int, i as int));
    }
    v
}

/// Copies a whole byte string.
pub fn copy_bytes(b: &[u8]) -> (v: Vec<u8>)
    ensures
        v@ == b@,
{
    let v: Vec<u8> = copy_range(b, 0, b.len());
    assert(v@ =~= b@);
    v
}

/// Byte strings are ordered by their first differing byte; a proper prefix
/// comes before what extends it.
pub open spec fn lex_lt(a: Seq<u8>, b: Seq<u8>) -> bool
    decreases a.len(),
{
    if b.len() == 0 {
        false
    } else if a.len() == 0 {
        true
    } else if a[0] != b[0] {
        a[0] < b[0]
    } else {
        lex_lt(a.skip(1), b.skip(1))
    }
}

/// `a` comes before `b` or is `b`.
pub open spec fn lex_le(a: Seq<u8>, b: Seq<u8>) -> bool {
    a == b || lex_lt(a, b)
}

/// No byte string comes before itself.
pub proof fn lemma_lex_irreflexive(a: Seq<u8>)
    ensures
        !lex_lt(a, a),
    decreases a.len(),
{
    if a.len() > 0 {
        lemma_lex_irreflexive(a.skip(1));
    }
}

/// The order is transitive.
pub proof fn lemma_lex_transitive(a: Seq<u8>, b: Seq<u8>, c: Seq<u8>)
    requires
        lex_lt(a, b),
        lex_lt(b, c),
    ensures
        lex_lt(a, c),
    decreases a.len(),
{
    if a.len() > 0 && a[0] == b[0] && b[0] == c[0] {
        lemma_lex_transitive(a.skip(1), b.skip(1), c.skip(1));
    }
}

/// Two byte strings are equal, or one comes before the other.
pub proof fn lemma_lex_total(a: Seq<u8>, b: Seq<u8>)
    ensures
        lex_lt(a, b) || a == b || lex_lt(b, a),
    decreases a.len(),
{
    if a.len() > 0 && b.len() > 0 && a[0] == b[0] {
        lemma_lex_total(a.skip(1), b.skip(1));
        if a.skip(1) == b.skip(1) {
            assert(a =~= seq![a[0]] + a.skip(1));
            assert(b =~= seq![b[0]] + b.skip(1));
        }
    } else if a.len() == 0 && b.len() == 0 {
        assert(a =~= b);
    }
}

/// The order never holds both ways.
pub proof fn lemma_lex_asymmetric(a: Seq<u8>, b: Seq<u8>)
    requires
        lex_lt(a, b),
    ensures
        !lex_lt(b, a),
        a != b,
{
    lemma_lex_irreflexive(a);
    if lex_lt(b, a) {
        lemma_lex_transitive(a, b, a);
    }
}

/// A common prefix does not affect the order.
pub proof fn lemma_lex_common_prefix(p: Seq<u8>, a: Seq<u8>, b: Seq<u8>)
    ensures
        lex_lt(p + a, p + b) == lex_lt(a, b),
    decreases p.len(),
{
    if p.len() == 0 {
        assert(p + a =~= a);
        assert(p + b =~= b);
    } else {
        lemma_lex_common_prefix(p.skip(1), a, b);
        assert((p + a).skip(1) =~= p.skip(1) + a);
        assert((p + b).skip(1) =~= p.skip(1) + b);
    }
}

/// The three ways in which two byte strings can stand to each other.
#[derive(Debug, Clone, Copy, PartialEq, Eq, Structural)]
pub enum Order {
    /// The first comes before the second.
    Less,
    /// They are the same.
    Equal,
    /// The second comes before the first.
    Greater,
}

/// How `a` stands to `b`.
pub open spec fn order_of(a: Seq<u8>, b: Seq<u8>) -> Order {
    if a == b {
        Order::Equal
    } else if lex_lt(a, b) {
        Order::Less
    } else {
        Order::Greater
    }
}

/// Compares two byte strings.
pub fn order(a: &[u8], b: &[u8]) -> (o: Order)
    ensures
        o == order_of(a@, b@),
        o == Order::Greater ==> lex_lt(b@, a@),
{
    let mut i: usize = 0;
    let n: usize = if a.len() < b.len() {
        a.len()
    } else {
        b.len()
    };
    proof {
        lemma_lex_total(a@, b@);
        assert(a@.skip(0) =~= a@);
        assert(b@.skip(0) =~= b@);
    }
    while i < n
        invariant
            i <= n,
            n <= a@.len(),
            n <= b@.len(),
            n == a@.len() || n == b@.len(),
            a@.subrange(0, i as int) == b@.subrange(0, i as int),
            lex_lt(a@, b@) == lex_lt(a@.skip(i as int), b@.skip(i as int)),
            lex_lt(a@, b@) || a@ == b@ || lex_lt(b@, a@),
        decreases n - i,
    {
        let x: u8 = a[i];
        let y: u8 = b[i];
        if x < y {
            return Order::Less;
        }
        if y < x {
            return Order::Greater;
        }
        assert(a@.skip(i as int).skip(1) =~= a@.skip(i + 1));
        assert(b@.skip(i as int).skip(1) =~= b@.skip(i + 1));
        assert(a@.subrange(0, i + 1) =~= a@.subrange(0, i as int).push(x));
        assert(b@.subrange(0, i + 1) =~= b@.subrange(0, i as int).push(y));
        i += 1;
    }
    if a.len() < b.len() {
        Order::Less
    } else if b.len() < a.len() {
        Order::Greater
    } else {
        assert(a@ =~= a@.subrange(0, i as int));
        assert(b@ =~= b@.subrange(0, i as int));
        proof {
            lemma_lex_irreflexive(a@);
        }
        Order::Equal
    }
}

/// Whether two byte strings are the same.
pub fn same(a: &[u8], b: &[u8]) -> (r: bool)
    ensures
        r == (a@ == b@),
{
    order(a, b) == Order::Equal
}

/// Whether `a` comes before `b`.
pub fn before(a: &[u8], b: &[u8]) -> (r: bool)
    ensures
        r == lex_lt(a@, b@),
{
    proof {
        lemma_lex_irreflexive(a@);
        if lex_lt(b@, a@) {
            lemma_lex_asymmetric(b@, a@);
        }
    }
    order(a, b) == Order::Less
}

} // verus!

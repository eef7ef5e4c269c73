//! What crosses the C boundary, told byte by byte and character by character.

use crate::audit::{faults, faulty};
use crate::bytes::{
    le32, lemma_lex_asymmetric, lemma_lex_irreflexive, lemma_u32_roundtrip, lex_lt,
};
use crate::error::{decimal, description, status_code, status_of, Error};
use crate::interface::{
    attributes_text, change_at, escaped, escapes, fills, floats_at, latency_named, lower_end,
    pair_bytes, pairs_bytes, quoted, settings, short_text, span_text, spans_text, Change, Latency,
    MAX_PATH_LEN, MAX_SEARCH_K,
};
use crate::btree::scan::Entry;
use crate::collection::mirror::MAX_ID_LEN;
use crate::observability::tracing::SpanRecord;
use crate::page::{type_of, PageType};
use crate::pager::PagerState;
use vstd::prelude::*;
use vstd::utf8::*;

verus! {

// ---- parts of texts -------------------------------------------------------------------------

/// The text holds the part somewhere.
pub open spec fn has_part(t: Seq<char>, p: Seq<char>) -> bool {
    exists|i: int| 0 <= i && i + p.len() <= t.len() && #[trigger] t.subrange(i, i + p.len()) == p
}

/// The second text begins with the first.
pub open spec fn extends(t: Seq<char>, u: Seq<char>) -> bool {
    t.len() <= u.len() && u.subrange(0, t.len() as int) == t
}

pub(crate) proof fn lemma_extends(t: Seq<char>, p: Seq<char>)
    ensures
        extends(t, t + p),
        has_part(t + p, p),
{
    assert((t + p).subrange(0, t.len() as int) =~= t);
    let i = t.len() as int;
    assert((t + p).subrange(i, i + p.len()) =~= p);
}

pub(crate) proof fn lemma_extends_on(t: Seq<char>, u: Seq<char>, w: Seq<char>)
    requires
        extends(t, u),
        extends(u, w),
    ensures
        extends(t, w),
{
    assert(w.subrange(0, t.len() as int) =~= u.subrange(0, t.len() as int));
}

pub(crate) proof fn lemma_part_stays(t: Seq<char>, u: Seq<char>, p: Seq<char>)
    requires
        has_part(t, p),
        extends(t, u),
    ensures
        has_part(u, p),
{
    let i = choose|i: int|
        0 <= i && i + p.len() <= t.len() && #[trigger] t.subrange(i, i + p.len()) == p;
    let n = t.len() as int;
    let (x, y) = (u.subrange(i, i + p.len()), t.subrange(i, i + p.len()));
    assert forall|j: int| 0 <= j < p.len() implies #[trigger] x[j] == y[j] by {
        assert(u.subrange(0, n)[i + j] == t[i + j]);
    }
    assert(x =~= y);
}

/// Two pieces that are appended one after the other are a part.
pub(crate) proof fn lemma_two(t: Seq<char>, a: Seq<char>, b: Seq<char>)
    ensures
        extends(t, t + a + b),
        has_part(t + a + b, a + b),
{
    assert(t + a + b =~= t + (a + b));
    lemma_extends(t, a + b);
}

// ---- statuses -------------------------------------------------------------------------------

/// Each kind of failure crosses the C boundary as its own stable number; what
/// cannot be decoded counts as corruption, and a closed handle as a bad
/// argument.
pub proof fn law_errors_have_their_numbers(e: Error)
    ensures
        status_code(status_of(e)) == match e {
            Error::InvalidArgument(_) => -2int,
            Error::Closed => -2,
            Error::NotFound => -3,
            Error::Corruption(_) => -4,
            Error::Serialization(_) => -4,
            Error::Io(_) => -5,
            Error::Conflict => -6,
            Error::TxnNotFound(_) => -8,
            Error::Full(_) => -9,
            Error::Aborted => -10,
            Error::Busy(_) => -11,
        },
{
}

/// A description tells the message that the error carries, and the transaction.
pub proof fn law_descriptions_carry_their_message(e: Error)
    ensures
        match e {
            Error::Io(m) => has_part(description(e), m@),
            Error::Corruption(m) => has_part(description(e), m@),
            Error::InvalidArgument(m) => has_part(description(e), m@),
            Error::TxnNotFound(id) => has_part(description(e), decimal(id as nat)),
            Error::Full(m) => has_part(description(e), m@),
            Error::Serialization(m) => has_part(description(e), m@),
            Error::Busy(m) => has_part(description(e), m@),
            _ => true,
        },
{
    match e {
        Error::Io(m) => lemma_extends("io error: "@, m@),
        Error::Corruption(m) => lemma_extends("corruption detected: "@, m@),
        Error::InvalidArgument(m) => lemma_extends("invalid argument: "@, m@),
        Error::TxnNotFound(id) => lemma_extends(
            "unknown or finished transaction "@,
            decimal(id as nat),
        ),
        Error::Full(m) => lemma_extends("capacity exceeded: "@, m@),
        Error::Serialization(m) => lemma_extends("serialization failure: "@, m@),
        Error::Busy(m) => lemma_extends("database is busy: "@, m@),
        _ => {},
    }
}

/// The number that decimal digits write.
pub open spec fn number_of(s: Seq<char>) -> int
    decreases s.len(),
{
    if s.len() == 0 {
        0
    } else {
        number_of(s.drop_last()) * 10 + (s.last() as u32 - 48)
    }
}

/// A number is written in decimal digits that say it, without leading zeros.
pub proof fn law_decimals_are_read_back(n: nat)
    ensures
        number_of(decimal(n)) == n,
        decimal(n).len() > 0,
        forall|i: int| 0 <= i < decimal(n).len() ==> 48 <= (#[trigger] decimal(n)[i]) as u32 <= 57,
        n > 0 ==> decimal(n)[0] as u32 != 48,
    decreases n,
{
    let last = (48 + n % 10) as char;
    assert(last as u32 == 48 + n % 10);
    let d = decimal(n);
    if n < 10 {
        assert(d.drop_last() =~= Seq::empty());
        assert(number_of(d.drop_last()) == 0);
        assert(d.last() == last);
    } else {
        law_decimals_are_read_back(n / 10);
        let front = decimal(n / 10);
        assert(d.drop_last() =~= front);
        assert(d.last() == last);
        assert forall|i: int| 0 <= i < d.len() implies 48 <= (#[trigger] d[i]) as u32 <= 57 by {
            if i < front.len() {
                assert(d[i] == front[i]);
            }
        }
        assert(d[0] == front[0]);
    }
}

// ---- latencies ------------------------------------------------------------------------------

/// The names of the operations differ.
#[verifier::spinoff_prover]
proof fn lemma_latency_names()
    ensures
        encode_utf8("read"@) != encode_utf8("get"@),
        encode_utf8("read"@) != encode_utf8("write"@),
        encode_utf8("read"@) != encode_utf8("insert"@),
        encode_utf8("read"@) != encode_utf8("put"@),
        encode_utf8("read"@) != encode_utf8("delete"@),
        encode_utf8("read"@) != encode_utf8("scan"@),
        encode_utf8("read"@) != encode_utf8("commit"@),
        encode_utf8("read"@) != encode_utf8("checkpoint"@),
        encode_utf8("get"@) != encode_utf8("write"@),
        encode_utf8("get"@) != encode_utf8("insert"@),
        encode_utf8("get"@) != encode_utf8("put"@),
        encode_utf8("get"@) != encode_utf8("delete"@),
        encode_utf8("get"@) != encode_utf8("scan"@),
        encode_utf8("get"@) != encode_utf8("commit"@),
        encode_utf8("get"@) != encode_utf8("checkpoint"@),
        encode_utf8("write"@) != encode_utf8("insert"@),
        encode_utf8("write"@) != encode_utf8("put"@),
        encode_utf8("write"@) != encode_utf8("delete"@),
        encode_utf8("write"@) != encode_utf8("scan"@),
        encode_utf8("write"@) != encode_utf8("commit"@),
        encode_utf8("write"@) != encode_utf8("checkpoint"@),
        encode_utf8("insert"@) != encode_utf8("put"@),
        encode_utf8("insert"@) != encode_utf8("delete"@),
        encode_utf8("insert"@) != encode_utf8("scan"@),
        encode_utf8("insert"@) != encode_utf8("commit"@),
        encode_utf8("insert"@) != encode_utf8("checkpoint"@),
        encode_utf8("put"@) != encode_utf8("delete"@),
        encode_utf8("put"@) != encode_utf8("scan"@),
        encode_utf8("put"@) != encode_utf8("commit"@),
        encode_utf8("put"@) != encode_utf8("checkpoint"@),
        encode_utf8("delete"@) != encode_utf8("scan"@),
        encode_utf8("delete"@) != encode_utf8("commit"@),
        encode_utf8("delete"@) != encode_utf8("checkpoint"@),
        encode_utf8("scan"@) != encode_utf8("commit"@),
        encode_utf8("scan"@) != encode_utf8("checkpoint"@),
        encode_utf8("commit"@) != encode_utf8("checkpoint"@),
{
    reveal_strlit("read");
    reveal_strlit("get");
    reveal_strlit("write");
    reveal_strlit("insert");
    reveal_strlit("put");
    reveal_strlit("delete");
    reveal_strlit("scan");
    reveal_strlit("commit");
    reveal_strlit("checkpoint");
    assert("read"@[0] == 'r' && "read"@[1] == 'e' && "read"@[2] == 'a' && "read"@[3] == 'd');
    assert("get"@[0] == 'g' && "get"@[1] == 'e' && "get"@[2] == 't');
    assert("write"@[0] == 'w' && "write"@[1] == 'r' && "write"@[2] == 'i' && "write"@[3] == 't');
    assert("insert"@[0] == 'i' && "insert"@[1] == 'n' && "insert"@[2] == 's' && "insert"@[3] == 'e');
    assert("put"@[0] == 'p' && "put"@[1] == 'u' && "put"@[2] == 't');
    assert("delete"@[0] == 'd' && "delete"@[1] == 'e' && "delete"@[2] == 'l' && "delete"@[3] == 'e');
    assert("scan"@[0] == 's' && "scan"@[1] == 'c' && "scan"@[2] == 'a' && "scan"@[3] == 'n');
    assert("commit"@[0] == 'c' && "commit"@[1] == 'o' && "commit"@[2] == 'm' && "commit"@[3] == 'm');
    assert("checkpoint"@[0] == 'c' && "checkpoint"@[1] == 'h' && "checkpoint"@[2] == 'e' && "checkpoint"@[3] == 'c');
    encode_utf8_decode_utf8("read"@);
    encode_utf8_decode_utf8("get"@);
    encode_utf8_decode_utf8("write"@);
    encode_utf8_decode_utf8("insert"@);
    encode_utf8_decode_utf8("put"@);
    encode_utf8_decode_utf8("delete"@);
    encode_utf8_decode_utf8("scan"@);
    encode_utf8_decode_utf8("commit"@);
    encode_utf8_decode_utf8("checkpoint"@);
}

/// Each operation is measured under its own heading, and other names under none.
pub proof fn law_operations_have_their_headings(op: Seq<u8>)
    ensures
        latency_named(op) == Some(Latency::Read) <==> op == encode_utf8("read"@) || op == encode_utf8("get"@),
        latency_named(op) == Some(Latency::Write) <==> op == encode_utf8("write"@) || op == encode_utf8("insert"@) || op == encode_utf8("put"@) || op == encode_utf8("delete"@),
        latency_named(op) == Some(Latency::Scan) <==> op == encode_utf8("scan"@),
        latency_named(op) == Some(Latency::Commit) <==> op == encode_utf8("commit"@),
        latency_named(op) == Some(Latency::Checkpoint) <==> op == encode_utf8("checkpoint"@),
{
    lemma_latency_names();
}

// ---- batches and scans ----------------------------------------------------------------------

/// A length as four bytes, low byte first.
pub open spec fn four(n: int) -> Seq<u8> {
    seq![
        (n % 256) as u8,
        (n / 256 % 256) as u8,
        (n / 65536 % 256) as u8,
        (n / 16777216 % 256) as u8,
    ]
}

proof fn lemma_four(n: int)
    requires
        0 <= n <= u32::MAX,
    ensures
        four(n) == le32(n as u32),
{
    assert(four(n) =~= le32(n as u32));
}

/// A record of a batch begins with its code, 1 for a put, 2 for a delete and 3
/// for a delete of what may be absent. Then come the length of the key in four
/// bytes, low byte first, the key, and for a put the length of the value and the
/// value. Nothing else is a record.
pub proof fn law_batch_records(k: Seq<u8>, v: Seq<u8>, rest: Seq<u8>)
    requires
        1 <= k.len() <= 1024 * 1024,
        v.len() <= 10 * 1024 * 1024,
    ensures
        change_at(seq![1u8] + four(k.len() as int) + k + four(v.len() as int) + v + rest) == Some(
            (Change::Put(k, v), (9 + k.len() + v.len()) as int),
        ),
        change_at(seq![2u8] + four(k.len() as int) + k + rest) == Some(
            (Change::Delete(k), (5 + k.len()) as int),
        ),
        change_at(seq![3u8] + four(k.len() as int) + k + rest) == Some(
            (Change::DeleteIfExists(k), (5 + k.len()) as int),
        ),
        rest.len() > 0 && rest[0] != 1 && rest[0] != 2 && rest[0] != 3 ==> change_at(rest) is None,
{
    let (n, m) = (k.len() as int, v.len() as int);
    lemma_four(n);
    lemma_four(m);
    let p = seq![1u8] + four(n) + k + four(m) + v + rest;
    assert(p.subrange(1, 5) =~= le32(n as u32));
    lemma_u32_roundtrip(p, 1, n as u32);
    assert(p.subrange(5 + n, 9 + n) =~= le32(m as u32));
    lemma_u32_roundtrip(p, 5 + n, m as u32);
    assert(p.subrange(5, 5 + n) =~= k);
    assert(p.subrange(9 + n, 9 + n + m) =~= v);
    let d = seq![2u8] + four(n) + k + rest;
    assert(d.subrange(1, 5) =~= le32(n as u32));
    lemma_u32_roundtrip(d, 1, n as u32);
    assert(d.subrange(5, 5 + n) =~= k);
    let x = seq![3u8] + four(n) + k + rest;
    assert(x.subrange(1, 5) =~= le32(n as u32));
    lemma_u32_roundtrip(x, 1, n as u32);
    assert(x.subrange(5, 5 + n) =~= k);
}

/// A scan hands out its pairs one after the other: the length of each key in four
/// bytes, low byte first, the key, the length of the value, and the value.
pub proof fn law_scan_buffers(a: Seq<Entry>, e: Entry)
    requires
        e.0.len() <= u32::MAX,
        e.1.len() <= u32::MAX,
    ensures
        pairs_bytes(a.push(e)) == pairs_bytes(a) + (four(e.0.len() as int) + e.0 + four(
            e.1.len() as int,
        ) + e.1),
        pairs_bytes(Seq::empty()) == Seq::<u8>::empty(),
{
    lemma_four(e.0.len() as int);
    lemma_four(e.1.len() as int);
    assert(a.push(e).drop_last() =~= a);
    assert(pair_bytes(e) =~= four(e.0.len() as int) + e.0 + four(e.1.len() as int) + e.1);
}

/// A buffer is full when it holds as many pairs or bytes as are asked for; nought
/// asks for no end.
pub proof fn law_buffers_fill_up(l: Seq<Entry>, n: int, limit: u64, max_bytes: u64)
    requires
        0 < n <= l.len(),
    ensures
        !fills(l, n, 0, 0),
        limit > 0 && n >= limit ==> fills(l, n, limit, max_bytes),
        limit > 0 && n < limit ==> !fills(l, n, limit, 0),
        max_bytes > 0 ==> fills(l, n, 0, max_bytes) == (pairs_bytes(l.take(n)).len() >= max_bytes),
{
}

// ---- text -----------------------------------------------------------------------------------

/// A text is quoted character by character. Quotes, backslashes, line ends and
/// tabs take a backslash, other control characters their number in four
/// hexadecimal digits, and everything else stands for itself. So no control
/// character is left inside.
pub proof fn law_quoting(a: Seq<char>, c: char, i: int)
    ensures
        quoted(a) == seq!['"'] + escapes(a) + seq!['"'],
        escapes(a.push(c)) == escapes(a) + escaped(c),
        escapes(Seq::empty()) == Seq::<char>::empty(),
        (c as u32) >= 32 && c != '"' && c != '\\' ==> escaped(c) == seq![c],
        c == '"' || c == '\\' ==> escaped(c) == seq!['\\', c],
        c == '\n' ==> escaped(c) == seq!['\\', 'n'],
        c == '\r' ==> escaped(c) == seq!['\\', 'r'],
        c == '\t' ==> escaped(c) == seq!['\\', 't'],
        0 <= i < escaped(c).len() ==> (escaped(c)[i] as u32) >= 32,
        (c as u32) < 32 && escaped(c).len() == 6 ==> {
            let h = |d: char| if (d as u32) < 58 {
                d as u32 - 48
            } else {
                d as u32 - 87
            };
            escaped(c)[0] == '\\' && escaped(c)[1] == 'u' && escaped(c)[2] == '0' && escaped(c)[3]
                == '0' && 16 * h(escaped(c)[4]) + h(escaped(c)[5]) == c as u32
        },
        (c as u32) < 32 ==> escaped(c).len() >= 2 && escaped(c)[0] == '\\',
{
    assert(a.push(c).drop_last() =~= a);
    let u = c as u32;
    if u < 32 {
        let (x, y) = (u / 16, u % 16);
        assert(crate::interface::hex(x as int) as u32 == 48 + x);
        assert(y < 10 ==> crate::interface::hex(y as int) as u32 == 48 + y);
        assert(y >= 10 ==> crate::interface::hex(y as int) as u32 == 87 + y);
    }
}

/// A span tells its name, its trace, its own id, that of its parent if it has
/// one, how many microseconds it took as far as sixty-four bits reach, whether it
/// failed, and its attributes.
#[verifier::spinoff_prover]
pub proof fn law_spans_tell_their_parts(r: SpanRecord)
    ensures
        has_part(span_text(r), "{\"name\":"@ + quoted(r.name@)),
        has_part(span_text(r), ",\"trace_id\":"@ + decimal(r.trace_id as nat)),
        has_part(span_text(r), ",\"span_id\":"@ + decimal(r.span_id as nat)),
        match r.parent_id {
            Some(p) => has_part(span_text(r), ",\"parent_id\":"@ + decimal(p as nat)),
            None => has_part(span_text(r), ",\"parent_id\":"@ + "null"@),
        },
        r.duration <= u64::MAX ==> has_part(
            span_text(r),
            ",\"duration_us\":"@ + decimal(r.duration as nat),
        ),
        r.error ==> has_part(span_text(r), ",\"error\":"@ + "true"@),
        !r.error ==> has_part(span_text(r), ",\"error\":"@ + "false"@),
        has_part(span_text(r), ",\"attributes\":"@ + attributes_text(r.attributes@)),
{
    let e = if r.error {
        "true"@
    } else {
        "false"@
    };
    let p0 = "{\"name\":"@;
    let p1 = quoted(r.name@);
    let p2 = ",\"trace_id\":"@;
    let p3 = decimal(r.trace_id as nat);
    let p4 = ",\"span_id\":"@;
    let p5 = decimal(r.span_id as nat);
    let p6 = ",\"parent_id\":"@;
    let p7 = crate::interface::number_or_null(r.parent_id);
    let p8 = ",\"duration_us\":"@;
    let p9 = decimal(crate::interface::micros_of(r));
    let p10 = ",\"error\":"@;
    let p11 = e;
    let p12 = ",\"attributes\":"@;
    let p13 = attributes_text(r.attributes@);
    let p14 = "}}"@;
    let t = Seq::<char>::empty();
    let t0 = p0;
    let t1 = t0 + p1;
    let t2 = t1 + p2;
    let t3 = t2 + p3;
    let t4 = t3 + p4;
    let t5 = t4 + p5;
    let t6 = t5 + p6;
    let t7 = t6 + p7;
    let t8 = t7 + p8;
    let t9 = t8 + p9;
    let t10 = t9 + p10;
    let t11 = t10 + p11;
    let t12 = t11 + p12;
    let t13 = t12 + p13;
    let t14 = t13 + p14;
    assert(span_text(r) == t14);
    assert(t + p0 + p1 =~= t1);
    lemma_two(t, p0, p1);
    lemma_two(t1, p2, p3);
    lemma_two(t3, p4, p5);
    lemma_two(t5, p6, p7);
    lemma_two(t7, p8, p9);
    lemma_two(t9, p10, p11);
    lemma_two(t11, p12, p13);
    lemma_extends(t13, p14);
    lemma_extends_on(t11, t13, t14);
    lemma_extends_on(t9, t11, t14);
    lemma_extends_on(t7, t9, t14);
    lemma_extends_on(t5, t7, t14);
    lemma_extends_on(t3, t5, t14);
    lemma_extends_on(t1, t3, t14);
    lemma_part_stays(t1, t14, p0 + p1);
    lemma_part_stays(t3, t14, p2 + p3);
    lemma_part_stays(t5, t14, p4 + p5);
    lemma_part_stays(t7, t14, p6 + p7);
    lemma_part_stays(t9, t14, p8 + p9);
    lemma_part_stays(t11, t14, p10 + p11);
    lemma_part_stays(t13, t14, p12 + p13);
}

/// The spans of a list stand in it one after the other, parted by commas.
pub proof fn law_span_lists(l: Seq<SpanRecord>, r: SpanRecord)
    ensures
        has_part(spans_text(l.push(r)), span_text(r)),
        extends(spans_text(l), spans_text(l.push(r))),
        l.len() > 0 ==> spans_text(l.push(r)) == spans_text(l) + ","@ + span_text(r),
        spans_text(Seq::empty()) == "["@,
{
    assert(l.push(r).drop_last() =~= l);
    let front = spans_text(l);
    if l.len() > 0 {
        lemma_extends(front, ","@);
        lemma_extends(front + ","@, span_text(r));
        lemma_extends_on(front, front + ","@, front + ","@ + span_text(r));
    } else {
        lemma_extends(front, span_text(r));
    }
}

/// The attributes of a span stand in it with their names, one after the other,
/// parted by commas.
#[verifier::spinoff_prover]
pub proof fn law_attribute_lists(l: Seq<(String, String)>, a: (String, String))
    ensures
        has_part(attributes_text(l.push(a)), quoted(a.0@) + ":"@ + quoted(a.1@)),
        extends(attributes_text(l), attributes_text(l.push(a))),
        l.len() > 0 ==> attributes_text(l.push(a)) == attributes_text(l) + ","@ + quoted(a.0@) + ":"@
            + quoted(a.1@),
{
    assert(l.push(a).drop_last() =~= l);
    let front = attributes_text(l);
    let (x, y, z) = (quoted(a.0@), ":"@, quoted(a.1@));
    let one = x + y + z;
    if l.len() > 0 {
        lemma_extends(front, ","@);
        lemma_extends(front + ","@, one);
        lemma_extends_on(front, front + ","@, front + ","@ + one);
        lemma_three(front + ","@, x, y, z);
    } else {
        lemma_extends(front, one);
        lemma_three(front, x, y, z);
    }
}

proof fn lemma_three(t: Seq<char>, x: Seq<char>, y: Seq<char>, z: Seq<char>)
    ensures
        t + x + y + z == t + (x + y + z),
{
    assert(t + x + y + z =~= t + (x + y + z));
}

// ---- raw arguments --------------------------------------------------------------------------

/// What is not said about an engine is its default: commits are synced, the
/// cache holds 1024 pages, a checkpoint is due after four times 2^20 bytes of
/// log, and nothing is traced. What is said is taken, within 2^20 pages and
/// from 4096 bytes on.
pub proof fn law_settings_are_what_is_said(
    sync_on_commit: i32,
    cache_pages: u64,
    checkpoint_bytes: u64,
    tracing: i32,
)
    ensures
        settings(-1i32, 0, 0, 0) == Some((true, 1024int, 4 * 1024 * 1024int, false)),
        settings(sync_on_commit, cache_pages, checkpoint_bytes, tracing) is None <==> sync_on_commit
            < -1 || sync_on_commit > 1,
        settings(sync_on_commit, cache_pages, checkpoint_bytes, tracing) matches Some(
            (synced, pages, bytes, traced),
        ) ==> {
            &&& sync_on_commit == 0 <==> !synced
            &&& 1 <= pages <= 1024 * 1024
            &&& 1 <= cache_pages <= 1024 * 1024 ==> pages == cache_pages
            &&& cache_pages > 1024 * 1024 ==> pages == 1024 * 1024
            &&& bytes >= 4096
            &&& checkpoint_bytes >= 4096 ==> bytes == checkpoint_bytes
            &&& 0 < checkpoint_bytes < 4096 ==> bytes == 4096
            &&& tracing == 0 <==> !traced
        },
{
}

/// Mode 0 leaves a range open, mode 1 takes the key in, mode 2 leaves it out;
/// keys beyond it are inside, keys before it are not. Other modes, and keys of
/// more than 2^20 bytes, name no bound.
pub proof fn law_modes_name_bounds(key: Seq<u8>, mode: i32, k: Seq<u8>)
    ensures
        lower_end(key, 0, k) == Some(true),
        mode < 0 || mode > 2 ==> lower_end(key, mode, k) is None,
        mode == 1 || mode == 2 ==> (lower_end(key, mode, k) is None <==> key.len() > 1024 * 1024),
        key.len() <= 1024 * 1024 ==> {
            &&& lower_end(key, 1, key) == Some(true)
            &&& lower_end(key, 2, key) == Some(false)
            &&& lex_lt(key, k) ==> lower_end(key, 1, k) == Some(true) && lower_end(key, 2, k)
                == Some(true)
            &&& lex_lt(k, key) ==> lower_end(key, 1, k) == Some(false) && lower_end(key, 2, k)
                == Some(false)
        },
{
    lemma_lex_irreflexive(key);
    if lex_lt(k, key) {
        lemma_lex_asymmetric(k, key);
    }
}

/// Ids have one to 128 bytes of text, paths one to 4096; a search asks for up
/// to 4096 neighbours; single-precision numbers lie at addresses that are not
/// null and are whole numbers of four bytes.
pub proof fn law_arguments_are_limited(b: Seq<u8>, k: usize, address: usize, len: usize)
    ensures
        short_text(b, MAX_ID_LEN as int) <==> 1 <= b.len() <= 128 && valid_utf8(b),
        short_text(b, MAX_PATH_LEN as int) <==> 1 <= b.len() <= 4096 && valid_utf8(b),
        k <= MAX_SEARCH_K <==> k <= 4096,
        !floats_at(0, len),
        floats_at(address, len) ==> address % 4 == 0 && address + 4 * len <= usize::MAX,
        address > 0 && address % 4 == 0 && address + 4 * len <= usize::MAX ==> floats_at(
            address,
            len,
        ),
{
}

// ---- audits ---------------------------------------------------------------------------------

/// An audit names exactly the allocated pages that cannot be read or are of no
/// known kind, and the first page if it is not the meta page, each once and in
/// order.
pub proof fn law_audits_name_the_faulty_pages(s: PagerState, n: nat, id: u32)
    requires
        n <= u32::MAX,
    ensures
        faults(s, n).contains(id) <==> id < n && (!s.pages.contains_key(id) || match type_of(
            s.pages[id],
        ) {
            Some(k) => id == 0 && k != PageType::Meta,
            None => true,
        }),
        forall|i: int, j: int|
            0 <= i < j < faults(s, n).len() ==> (#[trigger] faults(s, n)[i]) < (#[trigger] faults(
                s,
                n,
            )[j]),
        forall|i: int| 0 <= i < faults(s, n).len() ==> (#[trigger] faults(s, n)[i]) < n,
    decreases n,
{
    if n > 0 {
        let p = (n - 1) as u32;
        law_audits_name_the_faulty_pages(s, (n - 1) as nat, id);
        let less = faults(s, (n - 1) as nat);
        let now = faults(s, n);
        if less.contains(id) {
            let i = choose|i: int| 0 <= i < less.len() && less[i] == id;
            assert(now[i] == id);
        }
        if now.contains(id) && id != p {
            let i = choose|i: int| 0 <= i < now.len() && now[i] == id;
            assert(less[i] == id);
        }
        if faulty(s, p) {
            assert(now[less.len() as int] == p);
            assert forall|i: int, j: int| 0 <= i < j < now.len() implies (#[trigger] now[i]) < (
            #[trigger] now[j]) by {
                if j == less.len() {
                    assert(less[i] < n - 1);
                }
            }
        } else if now.contains(p) {
            let i = choose|i: int| 0 <= i < now.len() && now[i] == p;
            assert(less[i] < n - 1);
        }
    }
}

} // verus!

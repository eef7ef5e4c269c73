//! The plain-value side of the C interface: options, batches, scan buffers,
//! reports and the text of recorded spans.

use crate::btree::check::TreeReport;
use crate::btree::scan::{lower_ok, pairs, Bound, Entry};
use crate::bytes::{
    copy_bytes, copy_range, get_u32, le32, lemma_u32_roundtrip, lex_le, lex_lt, push_bytes,
    push_u32, u32_at,
};
use crate::collection::filter::is_text;
use crate::collection::mirror::MAX_ID_LEN;
use crate::collection::text::{chars_of, string_of};
use crate::database::batch::BatchOp;
use crate::database::{
    validate_key_len, validate_value_len, Options, Stats, MAX_KEY_LEN, MAX_VALUE_LEN,
};
use crate::error::{decimal, decimal_string, Error, Result};
use crate::json::utf8;
use crate::observability::tracing::SpanRecord;
use crate::pager::DEFAULT_CACHE_PAGES;
use vstd::prelude::*;
use vstd::utf8::{encode_utf8, valid_utf8};

verus! {

// ---- raw arguments ----------------------------------------------------------------------

/// Largest number of neighbours that one vector search may ask for.
pub const MAX_SEARCH_K: usize = 4096;

/// Longest path, in bytes.
pub const MAX_PATH_LEN: usize = 4096;

/// So many single-precision numbers may lie at an address: it is not null, it
/// is aligned, and they end within the address space.
pub open spec fn floats_at(address: usize, len: usize) -> bool {
    address != 0 && address % 4 == 0 && address + 4 * len <= usize::MAX
}

/// Checks where single-precision numbers are said to lie, before any is read;
/// gives how many bytes they take.
pub fn float_extent(address: usize, len: usize, max: usize) -> (r: Result<usize>)
    ensures
        match r {
            Ok(n) => 0 < len <= max && floats_at(address, len) && n == 4 * len,
            Err(e) => e is InvalidArgument && !(0 < len <= max && floats_at(address, len)),
        },
{
    if len == 0 {
        return Err(Error::invalid("vector length must be greater than zero"));
    }
    if len > max {
        return Err(Error::invalid("vector length exceeds the limit"));
    }
    if address == 0 {
        return Err(Error::invalid("null vector pointer"));
    }
    if address % 4 != 0 {
        return Err(Error::invalid("vector pointer is not 4-byte aligned"));
    }
    if len > (usize::MAX - address) / 4 {
        return Err(Error::invalid("vector pointer + length overflows the address space"));
    }
    Ok(4 * len)
}

/// Checks how many neighbours a vector search asks for.
pub fn check_k(k: usize) -> (r: Result<()>)
    ensures
        match r {
            Ok(_) => 0 < k <= MAX_SEARCH_K,
            Err(e) => e is InvalidArgument && !(0 < k <= MAX_SEARCH_K),
        },
{
    if k == 0 {
        return Err(Error::invalid("k must be greater than zero"));
    }
    if k > MAX_SEARCH_K {
        return Err(Error::invalid("k exceeds the limit of 4096"));
    }
    Ok(())
}

/// Bytes that are text of a length from one to a limit.
pub open spec fn short_text(b: Seq<u8>, max: int) -> bool {
    0 < b.len() <= max && valid_utf8(b)
}

/// Calls `String::from_utf8`, which gives the string of these bytes, or nothing
/// where they are not UTF-8.
#[verifier::external_body]
fn string_from_utf8(b: &[u8]) -> (r: Option<String>)
    ensures
        match r {
            Some(s) => utf8(s) == b@,
            None => !valid_utf8(b@),
        },
{
    String::from_utf8(b.to_vec()).ok()
}

/// Reads a text argument.
fn text_of(bytes: &[u8], max: usize) -> (r: Result<String>)
    ensures
        match r {
            Ok(s) => short_text(bytes@, max as int) && utf8(s) == bytes@,
            Err(e) => e is InvalidArgument && !short_text(bytes@, max as int),
        },
{
    if bytes.len() == 0 {
        return Err(Error::invalid("a text argument is empty"));
    }
    if bytes.len() > max {
        return Err(Error::invalid("a text argument is too long"));
    }
    match string_from_utf8(bytes) {
        Some(s) => {
            proof {
                vstd::utf8::encode_utf8_valid_utf8(s@);
            }
            Ok(s)
        },
        None => Err(Error::invalid("a text argument is not valid UTF-8")),
    }
}

/// Reads the id of a vector.
pub fn id_arg(bytes: &[u8]) -> (r: Result<String>)
    ensures
        match r {
            Ok(s) => short_text(bytes@, MAX_ID_LEN as int) && utf8(s) == bytes@,
            Err(e) => e is InvalidArgument && !short_text(bytes@, MAX_ID_LEN as int),
        },
{
    text_of(bytes, MAX_ID_LEN)
}

/// Reads a path.
pub fn path_arg(bytes: &[u8]) -> (r: Result<String>)
    ensures
        match r {
            Ok(s) => short_text(bytes@, MAX_PATH_LEN as int) && utf8(s) == bytes@,
            Err(e) => e is InvalidArgument && !short_text(bytes@, MAX_PATH_LEN as int),
        },
{
    text_of(bytes, MAX_PATH_LEN)
}

// ---- options ----------------------------------------------------------------------------

/// The engine options that some numbers stand for, if they stand for any.
pub open spec fn settings(
    sync_on_commit: i32,
    cache_pages: u64,
    checkpoint_bytes: u64,
    tracing: i32,
) -> Option<(bool, int, int, bool)> {
    if -1 <= sync_on_commit <= 1 {
        Some(
            (
                sync_on_commit != 0,
                if cache_pages == 0 {
                    DEFAULT_CACHE_PAGES as int
                } else if cache_pages > 0x10_0000 {
                    0x10_0000
                } else {
                    cache_pages as int
                },
                if checkpoint_bytes == 0 {
                    0x40_0000int
                } else if checkpoint_bytes < 4096 {
                    4096
                } else {
                    checkpoint_bytes as int
                },
                tracing != 0,
            ),
        )
    } else {
        None
    }
}

/// Engine options by number; zero means the engine's default, and minus one
/// the default for `sync_on_commit`.
pub fn options_of(sync_on_commit: i32, cache_pages: u64, checkpoint_bytes: u64, tracing: i32) -> (r:
    Result<Options>)
    ensures
        match r {
            Ok(o) => {
                &&& -1 <= sync_on_commit <= 1
                &&& o.sync_on_commit == (sync_on_commit != 0)
                &&& o.cache_pages == if cache_pages == 0 {
                    DEFAULT_CACHE_PAGES as int
                } else if cache_pages > 0x10_0000 {
                    0x10_0000
                } else {
                    cache_pages as int
                }
                &&& o.checkpoint_bytes == if checkpoint_bytes == 0 {
                    0x40_0000int
                } else if checkpoint_bytes < 4096 {
                    4096
                } else {
                    checkpoint_bytes as int
                }
                &&& o.tracing == (tracing != 0)
            },
            Err(e) => e is InvalidArgument && !(-1 <= sync_on_commit <= 1),
        },
        r is Err <==> settings(sync_on_commit, cache_pages, checkpoint_bytes, tracing) is None,
        r matches Ok(o) ==> settings(sync_on_commit, cache_pages, checkpoint_bytes, tracing)
            == Some(
            (o.sync_on_commit, o.cache_pages as int, o.checkpoint_bytes as int, o.tracing),
        ),
{
    let mut o: Options = Options::default();
    if cache_pages > 0 {
        o.cache_pages = if cache_pages > 0x10_0000 {
            0x10_0000
        } else {
            cache_pages as usize
        };
    }
    if checkpoint_bytes > 0 {
        o.checkpoint_bytes = if checkpoint_bytes < 4096 {
            4096
        } else {
            checkpoint_bytes
        };
    }
    if sync_on_commit < -1 || sync_on_commit > 1 {
        return Err(Error::invalid("sync_on_commit must be -1, 0 or 1"));
    }
    o.sync_on_commit = sync_on_commit != 0;
    o.tracing = tracing != 0;
    Ok(o)
}

/// Whether a key is inside the lower end that a mode and a key name, if they
/// name one.
pub open spec fn lower_end(key: Seq<u8>, mode: i32, k: Seq<u8>) -> Option<bool> {
    if mode == 0 {
        Some(true)
    } else if mode < 0 || mode > 2 || key.len() > MAX_KEY_LEN {
        None
    } else if mode == 1 {
        Some(lex_le(key, k))
    } else {
        Some(lex_lt(key, k))
    }
}

/// A scan bound by mode: 0 unbounded, 1 inclusive, 2 exclusive.
pub fn bound_arg(key: &[u8], mode: i32) -> (r: Result<Bound>)
    ensures
        match r {
            Ok(Bound::Unbounded) => mode == 0,
            Ok(Bound::Included(k)) => mode == 1 && k@ == key@ && key@.len() <= MAX_KEY_LEN,
            Ok(Bound::Excluded(k)) => mode == 2 && k@ == key@ && key@.len() <= MAX_KEY_LEN,
            Err(e) => e is InvalidArgument && (mode < 0 || mode > 2 || mode > 0 && key@.len()
                > MAX_KEY_LEN),
        },
        forall|k: Seq<u8>| #[trigger]
            lower_end(key@, mode, k) == match r {
                Ok(b) => Some(lower_ok(b, k)),
                Err(_) => None,
            },
{
    if mode == 0 {
        return Ok(Bound::Unbounded);
    }
    if mode != 1 && mode != 2 {
        return Err(
            Error::invalid("bound mode must be 0 (unbounded), 1 (inclusive) or 2 (exclusive)"),
        );
    }
    if key.len() > MAX_KEY_LEN {
        return Err(Error::invalid("bound is longer than 1 MiB"));
    }
    let k: Vec<u8> = copy_bytes(key);
    if mode == 1 {
        Ok(Bound::Included(k))
    } else {
        Ok(Bound::Excluded(k))
    }
}

// ---- batches ----------------------------------------------------------------------------

/// Operation code of a put.
pub const BATCH_PUT: u8 = 1;

/// Operation code of a delete.
pub const BATCH_DELETE: u8 = 2;

/// Operation code of a delete of a key that may be absent.
pub const BATCH_DELETE_IF_EXISTS: u8 = 3;

/// One step of a batch.
pub enum Change {
    /// A key gets a value.
    Put(Seq<u8>, Seq<u8>),
    /// A key goes.
    Delete(Seq<u8>),
    /// A key goes if it is there.
    DeleteIfExists(Seq<u8>),
}

impl View for BatchOp {
    type V = Change;

    open spec fn view(&self) -> Change {
        match *self {
            BatchOp::Put(k, v) => Change::Put(k@, v@),
            BatchOp::Delete(k) => Change::Delete(k@),
            BatchOp::DeleteIfExists(k) => Change::DeleteIfExists(k@),
        }
    }
}

/// The steps of a list.
pub open spec fn changes(ops: Seq<BatchOp>) -> Seq<Change> {
    Seq::new(ops.len(), |i: int| ops[i]@)
}

/// A length-prefixed byte string.
pub open spec fn prefixed(s: Seq<u8>) -> Seq<u8> {
    le32(s.len() as u32) + s
}

/// A step as bytes: its code, its key and, for a put, its value.
pub open spec fn change_bytes(c: Change) -> Seq<u8> {
    match c {
        Change::Put(k, v) => seq![BATCH_PUT] + (prefixed(k) + prefixed(v)),
        Change::Delete(k) => seq![BATCH_DELETE] + prefixed(k),
        Change::DeleteIfExists(k) => seq![BATCH_DELETE_IF_EXISTS] + prefixed(k),
    }
}

/// A batch as bytes.
pub open spec fn batch_bytes(l: Seq<Change>) -> Seq<u8>
    decreases l.len(),
{
    if l.len() == 0 {
        Seq::empty()
    } else {
        change_bytes(l[0]) + batch_bytes(l.skip(1))
    }
}

/// The key of a step may be named, and its value stored.
pub open spec fn allowed(c: Change) -> bool {
    match c {
        Change::Put(k, v) => 0 < k.len() <= MAX_KEY_LEN && v.len() <= MAX_VALUE_LEN,
        Change::Delete(k) => 0 < k.len() <= MAX_KEY_LEN,
        Change::DeleteIfExists(k) => 0 < k.len() <= MAX_KEY_LEN,
    }
}

/// The step that some bytes begin with, and its length.
pub open spec fn change_at(b: Seq<u8>) -> Option<(Change, int)> {
    let n = u32_at(b, 1) as int;
    let m = u32_at(b, 5 + n) as int;
    if b.len() < 5 || !(0 < n <= MAX_KEY_LEN) || b.len() < 5 + n {
        None
    } else if b[0] == BATCH_PUT {
        if b.len() < 9 + n || m > MAX_VALUE_LEN || b.len() < 9 + n + m {
            None
        } else {
            Some((Change::Put(b.subrange(5, 5 + n), b.subrange(9 + n, 9 + n + m)), 9 + n + m))
        }
    } else if b[0] == BATCH_DELETE {
        Some((Change::Delete(b.subrange(5, 5 + n)), 5 + n))
    } else if b[0] == BATCH_DELETE_IF_EXISTS {
        Some((Change::DeleteIfExists(b.subrange(5, 5 + n)), 5 + n))
    } else {
        None
    }
}

/// The steps that some bytes hold, if they hold nothing else.
pub open spec fn batch_of(b: Seq<u8>) -> Option<Seq<Change>>
    decreases b.len(),
{
    if b.len() == 0 {
        Some(Seq::empty())
    } else {
        match change_at(b) {
            Some((c, n)) => if 0 < n <= b.len() {
                match batch_of(b.skip(n)) {
                    Some(rest) => Some(seq![c] + rest),
                    None => None,
                }
            } else {
                None
            },
            None => None,
        }
    }
}

/// Reads the step that starts at `pos`.
fn parse_change(bytes: &[u8], pos: usize) -> (r: Result<(BatchOp, usize)>)
    requires
        pos < bytes@.len(),
    ensures
        match r {
            Ok((op, n)) => change_at(bytes@.skip(pos as int)) == Some((op@, n - pos)) && pos < n
                <= bytes@.len(),
            Err(e) => e is InvalidArgument && change_at(bytes@.skip(pos as int)) is None,
        },
{
    let ghost b = bytes@.skip(pos as int);
    if bytes.len() - pos < 5 {
        return Err(Error::invalid("write batch truncated in a key length"));
    }
    let code: u8 = bytes[pos];
    let n: usize = get_u32(bytes, pos + 1) as usize;
    assert(n == u32_at(b, 1));
    validate_key_len(n)?;
    if bytes.len() - pos - 5 < n {
        return Err(Error::invalid("write batch truncated in a key"));
    }
    let end: usize = pos + 5 + n;
    let key: Vec<u8> = copy_range(bytes, pos + 5, end);
    assert(key@ =~= b.subrange(5, 5 + n));
    if code == BATCH_PUT {
        if bytes.len() - end < 4 {
            return Err(Error::invalid("write batch truncated in a value length"));
        }
        let m: usize = get_u32(bytes, end) as usize;
        assert(m == u32_at(b, 5 + n));
        validate_value_len(m)?;
        if bytes.len() - end - 4 < m {
            return Err(Error::invalid("write batch truncated in a value"));
        }
        let value: Vec<u8> = copy_range(bytes, end + 4, end + 4 + m);
        assert(value@ =~= b.subrange(9 + n, 9 + n + m));
        Ok((BatchOp::Put(key, value), end + 4 + m))
    } else if code == BATCH_DELETE {
        Ok((BatchOp::Delete(key), end))
    } else if code == BATCH_DELETE_IF_EXISTS {
        Ok((BatchOp::DeleteIfExists(key), end))
    } else {
        Err(Error::invalid("unknown write batch op"))
    }
}

/// Reads a batch of writes: repeated records of an operation code, a
/// length-prefixed key and, for a put, a length-prefixed value.
pub fn parse_batch(bytes: &[u8]) -> (r: Result<Vec<BatchOp>>)
    ensures
        match r {
            Ok(ops) => batch_of(bytes@) == Some(changes(ops@)),
            Err(e) => e is InvalidArgument && batch_of(bytes@) is None,
        },
{
    let mut ops: Vec<BatchOp> = Vec::new();
    let mut pos: usize = 0;
    proof {
        assert(bytes@.skip(0) =~= bytes@);
        assert(changes(ops@) =~= Seq::empty());
        assert(batch_of(bytes@) is Some ==> Seq::empty() + batch_of(bytes@)->0 =~= batch_of(
            bytes@,
        )->0);
    }
    while pos < bytes.len()
        invariant
            pos <= bytes@.len(),
            match batch_of(bytes@.skip(pos as int)) {
                Some(rest) => batch_of(bytes@) == Some(changes(ops@) + rest),
                None => batch_of(bytes@) is None,
            },
        decreases bytes@.len() - pos,
    {
        let ghost was = changes(ops@);
        let (op, end) = parse_change(bytes, pos)?;
        let ghost c = op@;
        ops.push(op);
        proof {
            let b = bytes@.skip(pos as int);
            assert(b.skip(end - pos) =~= bytes@.skip(end as int));
            assert(changes(ops@) =~= was.push(c));
            if let Some(rest) = batch_of(bytes@.skip(end as int)) {
                assert(was + (seq![c] + rest) =~= changes(ops@) + rest);
            }
        }
        pos = end;
    }
    assert(bytes@.skip(pos as int) =~= Seq::empty());
    assert(changes(ops@) + Seq::<Change>::empty() =~= changes(ops@));
    Ok(ops)
}

/// A length-prefixed byte string at the front of some bytes.
proof fn lemma_prefixed(b: Seq<u8>, at: int, s: Seq<u8>, rest: Seq<u8>)
    requires
        0 <= at <= b.len(),
        s.len() <= u32::MAX,
        b.skip(at) == prefixed(s) + rest,
    ensures
        b.len() == at + 4 + s.len() + rest.len(),
        u32_at(b, at) == s.len(),
        b.subrange(at + 4, at + 4 + s.len()) == s,
        b.skip(at + 4 + s.len()) == rest,
{
    let t = b.skip(at);
    assert(t.len() == b.len() - at);
    let n = 4int + s.len();
    assert(b.subrange(at, at + 4) =~= t.subrange(0, 4));
    assert(t.subrange(0, 4) =~= le32(s.len() as u32));
    lemma_u32_roundtrip(b, at, s.len() as u32);
    assert(b.subrange(at + 4, at + 4 + s.len()) =~= t.subrange(4, n));
    assert(t.subrange(4, n) =~= s);
    assert(b.skip(at + 4 + s.len()) =~= t.skip(n));
    assert(t.skip(n) =~= rest);
}

/// The bytes of a step are read as that step.
proof fn lemma_change(c: Change, rest: Seq<u8>)
    requires
        allowed(c),
    ensures
        change_at(change_bytes(c) + rest) == Some((c, change_bytes(c).len() as int)),
        (change_bytes(c) + rest).skip(change_bytes(c).len() as int) =~= rest,
{
    let b = change_bytes(c) + rest;
    match c {
        Change::Put(k, v) => {
            assert(b.skip(1) =~= prefixed(k) + (prefixed(v) + rest));
            lemma_prefixed(b, 1, k, prefixed(v) + rest);
            lemma_prefixed(b, 5int + k.len(), v, rest);
        },
        Change::Delete(k) => {
            assert(b.skip(1) =~= prefixed(k) + rest);
            lemma_prefixed(b, 1, k, rest);
        },
        Change::DeleteIfExists(k) => {
            assert(b.skip(1) =~= prefixed(k) + rest);
            lemma_prefixed(b, 1, k, rest);
        },
    }
}

/// A batch that was written down is read back.
pub proof fn law_batches_are_read_back(l: Seq<Change>)
    requires
        forall|i: int| 0 <= i < l.len() ==> allowed(#[trigger] l[i]),
    ensures
        batch_of(batch_bytes(l)) == Some(l),
    decreases l.len(),
{
    if l.len() > 0 {
        let rest = l.skip(1);
        assert forall|i: int| 0 <= i < rest.len() implies allowed(#[trigger] rest[i]) by {
            assert(rest[i] == l[i + 1]);
        }
        law_batches_are_read_back(rest);
        lemma_change(l[0], batch_bytes(rest));
        assert(change_bytes(l[0]).len() > 0);
        assert(seq![l[0]] + rest =~= l);
    } else {
        assert(l =~= Seq::empty());
    }
}

// ---- scan buffers -----------------------------------------------------------------------

/// A pair as bytes.
pub open spec fn pair_bytes(e: Entry) -> Seq<u8> {
    prefixed(e.0) + prefixed(e.1)
}

/// Pairs as bytes.
pub open spec fn pairs_bytes(l: Seq<Entry>) -> Seq<u8>
    decreases l.len(),
{
    if l.len() == 0 {
        Seq::empty()
    } else {
        pairs_bytes(l.drop_last()) + pair_bytes(l.last())
    }
}

/// Appends a length-prefixed key and a length-prefixed value.
pub fn push_pair(out: &mut Vec<u8>, key: &[u8], value: &[u8])
    requires
        key@.len() <= u32::MAX,
        value@.len() <= u32::MAX,
    ensures
        final(out)@ == old(out)@ + pair_bytes((key@, value@)),
{
    push_u32(out, key.len() as u32);
    push_bytes(out, key);
    push_u32(out, value.len() as u32);
    push_bytes(out, value);
    assert(out@ =~= old(out)@ + pair_bytes((key@, value@)));
}

/// `n` pairs fill a buffer: the last of them reaches the number of pairs or
/// the number of bytes after which a scan stops (each zero: no limit).
pub open spec fn fills(l: Seq<Entry>, n: int, limit: u64, max_bytes: u64) -> bool {
    (limit > 0 && n >= limit) || (max_bytes > 0 && pairs_bytes(l.take(n)).len() >= max_bytes)
}

/// The buffer that a scan hands out: the first pairs, up to the one that fills
/// it.
pub fn scan_buffer(list: &Vec<(Vec<u8>, Vec<u8>)>, limit: u64, max_bytes: u64) -> (r: (
    Vec<u8>,
    usize,
))
    requires
        forall|i: int|
            0 <= i < list@.len() ==> (#[trigger] list@[i]).0@.len() <= u32::MAX && list@[i].1@.len()
                <= u32::MAX,
    ensures
        r.1 <= list@.len(),
        r.0@ == pairs_bytes(pairs(list@).take(r.1 as int)),
        forall|n: int| 0 < n < r.1 ==> !#[trigger] fills(pairs(list@), n, limit, max_bytes),
        r.1 < list@.len() ==> r.1 > 0 && fills(pairs(list@), r.1 as int, limit, max_bytes),
{
    let ghost l = pairs(list@);
    let mut out: Vec<u8> = Vec::new();
    let mut n: usize = 0;
    let mut full: bool = false;
    assert(l.take(0) =~= Seq::empty());
    while n < list.len() && !full
        invariant
            l == pairs(list@),
            n <= list@.len(),
            forall|i: int|
                0 <= i < list@.len() ==> (#[trigger] list@[i]).0@.len() <= u32::MAX
                    && list@[i].1@.len() <= u32::MAX,
            out@ == pairs_bytes(l.take(n as int)),
            forall|m: int| 0 < m < n ==> !#[trigger] fills(l, m, limit, max_bytes),
            full ==> n > 0 && fills(l, n as int, limit, max_bytes),
            !full && n > 0 ==> !fills(l, n as int, limit, max_bytes),
        decreases list@.len() - n,
    {
        push_pair(&mut out, list[n].0.as_slice(), list[n].1.as_slice());
        proof {
            assert(l.take(n + 1).drop_last() =~= l.take(n as int));
            assert(l.take(n + 1).last() == (list@[n as int].0@, list@[n as int].1@));
        }
        n += 1;
        full = (limit > 0 && n as u64 >= limit) || (max_bytes > 0 && out.len() as u64 >= max_bytes);
    }
    (out, n)
}

// ---- reports ----------------------------------------------------------------------------

/// Runtime statistics as the C interface lays them out.
#[derive(Debug, Clone, Copy, PartialEq, Eq, Structural)]
pub struct PhoenixStats {
    /// Pages allocated in the file.
    pub page_count: u32,
    /// Reserved; always zero.
    pub reserved: u32,
    /// Live transactions.
    pub active_txns: u64,
    /// Keys with versions not yet merged into the tree.
    pub pending_keys: u64,
    /// Current log size in bytes.
    pub wal_bytes: u64,
    /// Latest commit timestamp.
    pub commit_ts: u64,
    /// Every version at or below this timestamp is in the durable tree.
    pub tree_ts: u64,
    /// Page reads served from memory.
    pub cache_hits: u64,
    /// Page reads that decoded a page from the file.
    pub cache_misses: u64,
}

impl PhoenixStats {
    /// Lays statistics out.
    pub fn of(s: Stats) -> (p: Self)
        ensures
            p.page_count == s.page_count,
            p.reserved == 0,
            p.active_txns == s.active_txns,
            p.pending_keys == s.pending_keys,
            p.wal_bytes == s.wal_bytes,
            p.commit_ts == s.commit_ts,
            p.tree_ts == s.tree_ts,
            p.cache_hits == s.cache_hits,
            p.cache_misses == s.cache_misses,
    {
        PhoenixStats {
            page_count: s.page_count,
            reserved: 0,
            active_txns: s.active_txns as u64,
            pending_keys: s.pending_keys as u64,
            wal_bytes: s.wal_bytes,
            commit_ts: s.commit_ts,
            tree_ts: s.tree_ts,
            cache_hits: s.cache_hits,
            cache_misses: s.cache_misses,
        }
    }
}

/// The result of a structural check as the C interface lays it out.
#[derive(Debug, Clone, Copy, PartialEq, Eq, Structural)]
pub struct PhoenixTreeReport {
    /// Levels from the root to the leaves.
    pub depth: u32,
    /// Leaf pages reachable from the root.
    pub leaf_pages: u32,
    /// Internal pages reachable from the root.
    pub internal_pages: u32,
    /// Overflow pages reachable from leaf cells.
    pub overflow_pages: u32,
    /// Pages on the free list.
    pub free_pages: u32,
    /// Allocated pages neither reachable nor free.
    pub unreachable_pages: u32,
    /// Non-root leaves below the minimum fill factor.
    pub underfull_leaves: u32,
    /// Reserved; always zero.
    pub reserved: u32,
    /// Keys stored in the tree.
    pub keys: u64,
}

impl PhoenixTreeReport {
    /// Lays a report out.
    pub fn of(r: &TreeReport) -> (p: Self)
        ensures
            p.depth == r.depth,
            p.leaf_pages == r.leaf_pages,
            p.internal_pages == r.internal_pages,
            p.overflow_pages == r.overflow_pages,
            p.free_pages == r.free_pages,
            p.unreachable_pages == r.unreachable_pages,
            p.underfull_leaves == r.underfull_leaves,
            p.reserved == 0,
            p.keys == r.keys,
    {
        PhoenixTreeReport {
            depth: r.depth,
            leaf_pages: r.leaf_pages,
            internal_pages: r.internal_pages,
            overflow_pages: r.overflow_pages,
            free_pages: r.free_pages,
            unreachable_pages: r.unreachable_pages,
            underfull_leaves: r.underfull_leaves,
            reserved: 0,
            keys: r.keys,
        }
    }
}

// ---- latencies --------------------------------------------------------------------------

/// What a latency was measured of.
#[derive(Debug, Clone, Copy, PartialEq, Eq, Structural)]
pub enum Latency {
    /// A read.
    Read,
    /// A write.
    Write,
    /// A scan.
    Scan,
    /// A commit.
    Commit,
    /// A checkpoint.
    Checkpoint,
}

/// What an operation's name stands for.
pub open spec fn latency_named(op: Seq<u8>) -> Option<Latency> {
    if op == encode_utf8("read"@) || op == encode_utf8("get"@) {
        Some(Latency::Read)
    } else if op == encode_utf8("write"@) || op == encode_utf8("insert"@) || op == encode_utf8(
        "put"@,
    ) || op == encode_utf8("delete"@) {
        Some(Latency::Write)
    } else if op == encode_utf8("scan"@) {
        Some(Latency::Scan)
    } else if op == encode_utf8("commit"@) {
        Some(Latency::Commit)
    } else if op == encode_utf8("checkpoint"@) {
        Some(Latency::Checkpoint)
    } else {
        None
    }
}

/// The histogram that a measured operation belongs to; other names are
/// ignored.
pub fn latency_of(op: &str) -> (r: Option<Latency>)
    ensures
        r == latency_named(encode_utf8(op@)),
{
    if is_text(op, "read") || is_text(op, "get") {
        Some(Latency::Read)
    } else if is_text(op, "write") || is_text(op, "insert") || is_text(op, "put") || is_text(
        op,
        "delete",
    ) {
        Some(Latency::Write)
    } else if is_text(op, "scan") {
        Some(Latency::Scan)
    } else if is_text(op, "commit") {
        Some(Latency::Commit)
    } else if is_text(op, "checkpoint") {
        Some(Latency::Checkpoint)
    } else {
        None
    }
}

// ---- spans as text ----------------------------------------------------------------------

/// A character inside a JSON string.
pub open spec fn escaped(c: char) -> Seq<char> {
    if c == '"' {
        seq!['\\', '"']
    } else if c == '\\' {
        seq!['\\', '\\']
    } else if c == '\n' {
        seq!['\\', 'n']
    } else if c == '\r' {
        seq!['\\', 'r']
    } else if c == '\t' {
        seq!['\\', 't']
    } else if (c as u32) < 32 {
        seq!['\\', 'u', '0', '0', hex((c as u32) as int / 16), hex((c as u32) as int % 16)]
    } else {
        seq![c]
    }
}

/// A hexadecimal digit.
pub open spec fn hex(d: int) -> char {
    if d < 10 {
        (48 + d) as char
    } else {
        (87 + d) as char
    }
}

/// The inside of a JSON string.
pub open spec fn escapes(s: Seq<char>) -> Seq<char>
    decreases s.len(),
{
    if s.len() == 0 {
        Seq::empty()
    } else {
        escapes(s.drop_last()) + escaped(s.last())
    }
}

/// A JSON string.
pub open spec fn quoted(s: Seq<char>) -> Seq<char> {
    seq!['"'] + escapes(s) + seq!['"']
}

fn hex_digit(d: u32) -> (c: char)
    requires
        d < 16,
    ensures
        c == hex(d as int),
{
    let b: u8 = if d < 10 {
        48 + d as u8
    } else {
        87 + d as u8
    };
    b as char
}

/// `s` as a JSON string.
pub fn json_string(s: &str) -> (r: String)
    ensures
        r@ == quoted(s@),
{
    let chars: Vec<char> = chars_of(s);
    let mut out: Vec<char> = Vec::new();
    out.push('"');
    let mut i: usize = 0;
    proof {
        assert(s@.take(0) =~= Seq::empty());
        assert(out@ =~= seq!['"'] + escapes(s@.take(0)));
    }
    while i < chars.len()
        invariant
            chars@ == s@,
            i <= s@.len(),
            out@ == seq!['"'] + escapes(s@.take(i as int)),
        decreases s@.len() - i,
    {
        let c: char = chars[i];
        let n: u32 = c as u32;
        let ghost was = out@;
        if c == '"' {
            out.push('\\');
            out.push('"');
        } else if c == '\\' {
            out.push('\\');
            out.push('\\');
        } else if c == '\n' {
            out.push('\\');
            out.push('n');
        } else if c == '\r' {
            out.push('\\');
            out.push('r');
        } else if c == '\t' {
            out.push('\\');
            out.push('t');
        } else if n < 32 {
            out.push('\\');
            out.push('u');
            out.push('0');
            out.push('0');
            out.push(hex_digit(n / 16));
            out.push(hex_digit(n % 16));
        } else {
            out.push(c);
        }
        proof {
            assert(out@ =~= was + escaped(c));
            assert(s@.take(i + 1).drop_last() =~= s@.take(i as int));
            assert(seq!['"'] + escapes(s@.take(i as int)) + escaped(c) =~= seq!['"'] + (escapes(
                s@.take(i as int),
            ) + escaped(c)));
        }
        i += 1;
    }
    assert(s@.take(i as int) =~= s@);
    out.push('"');
    assert(out@ =~= quoted(s@));
    string_of(&out)
}

/// An object of names and values.
pub open spec fn attributes_text(a: Seq<(String, String)>) -> Seq<char>
    decreases a.len(),
{
    if a.len() == 0 {
        "{"@
    } else {
        let front = attributes_text(a.drop_last());
        (if a.len() > 1 {
            front + ","@
        } else {
            front
        }) + quoted(a.last().0@) + ":"@ + quoted(a.last().1@)
    }
}

/// A number, or `null`.
pub open spec fn number_or_null(n: Option<u64>) -> Seq<char> {
    match n {
        Some(n) => decimal(n as nat),
        None => "null"@,
    }
}

/// The duration of a span in microseconds, as far as sixty-four bits go.
pub open spec fn micros_of(r: SpanRecord) -> nat {
    if r.duration > u64::MAX {
        u64::MAX as nat
    } else {
        r.duration as nat
    }
}

/// A span as a JSON object.
pub open spec fn span_text(r: SpanRecord) -> Seq<char> {
    "{\"name\":"@ + quoted(r.name@) + ",\"trace_id\":"@ + decimal(r.trace_id as nat)
        + ",\"span_id\":"@ + decimal(r.span_id as nat) + ",\"parent_id\":"@ + number_or_null(
        r.parent_id,
    ) + ",\"duration_us\":"@ + decimal(micros_of(r)) + ",\"error\":"@ + (if r.error {
        "true"@
    } else {
        "false"@
    }) + ",\"attributes\":"@ + attributes_text(r.attributes@) + "}}"@
}

/// Spans as a JSON array that is still open.
pub open spec fn spans_text(l: Seq<SpanRecord>) -> Seq<char>
    decreases l.len(),
{
    if l.len() == 0 {
        "["@
    } else {
        let front = spans_text(l.drop_last());
        (if l.len() > 1 {
            front + ","@
        } else {
            front
        }) + span_text(l.last())
    }
}

fn attributes_json(a: &Vec<(String, String)>) -> (s: String)
    ensures
        s@ == attributes_text(a@),
{
    let mut s: String = "{".to_owned();
    let mut i: usize = 0;
    assert(a@.take(0) =~= Seq::empty());
    while i < a.len()
        invariant
            i <= a@.len(),
            s@ == attributes_text(a@.take(i as int)),
        decreases a@.len() - i,
    {
        assert(a@.take(i + 1).drop_last() =~= a@.take(i as int));
        if i > 0 {
            s.append(",");
        }
        let k: String = json_string(a[i].0.as_str());
        let v: String = json_string(a[i].1.as_str());
        s.append(k.as_str());
        s.append(":");
        s.append(v.as_str());
        i += 1;
    }
    assert(a@.take(i as int) =~= a@);
    s
}

fn span_json(r: &SpanRecord) -> (s: String)
    ensures
        s@ == span_text(*r),
{
    let mut s: String = "{\"name\":".to_owned();
    let name: String = json_string(r.name.as_str());
    s.append(name.as_str());
    s.append(",\"trace_id\":");
    let n: String = decimal_string(r.trace_id);
    s.append(n.as_str());
    s.append(",\"span_id\":");
    let n: String = decimal_string(r.span_id);
    s.append(n.as_str());
    s.append(",\"parent_id\":");
    match r.parent_id {
        Some(p) => {
            let n: String = decimal_string(p);
            s.append(n.as_str());
        },
        None => {
            s.append("null");
        },
    }
    s.append(",\"duration_us\":");
    let n: String = decimal_string(r.duration_micros());
    s.append(n.as_str());
    s.append(",\"error\":");
    if r.error {
        s.append("true");
    } else {
        s.append("false");
    }
    s.append(",\"attributes\":");
    let a: String = attributes_json(&r.attributes);
    s.append(a.as_str());
    s.append("}}");
    s
}

/// Recorded spans as a JSON array.
pub fn spans_json(list: &Vec<SpanRecord>) -> (s: String)
    ensures
        s@ == spans_text(list@) + "]"@,
{
    let mut s: String = "[".to_owned();
    let mut i: usize = 0;
    assert(list@.take(0) =~= Seq::empty());
    while i < list.len()
        invariant
            i <= list@.len(),
            s@ == spans_text(list@.take(i as int)),
        decreases list@.len() - i,
    {
        assert(list@.take(i + 1).drop_last() =~= list@.take(i as int));
        if i > 0 {
            s.append(",");
        }
        let one: String = span_json(&list[i]);
        s.append(one.as_str());
        i += 1;
    }
    assert(list@.take(i as int) =~= list@);
    s.append("]");
    s
}

} // verus!

//! How a version is stored in a table.
//!
//! ```text
//!  [ key_len u32 ][ val_len u32 ][ seqno u64 ][ kind u8 ][ key ][ value ]
//! ```
//!
//! `kind` is `0` for a value and `1` for a tombstone; a tombstone stores no
//! value bytes.

use crate::bytes::{
    copy_range, get_u32, get_u64, le32, le64, lemma_lex_irreflexive, lemma_lex_total,
    lemma_lex_transitive, lemma_u32_roundtrip, lemma_u64_roundtrip, lex_lt, push_bytes, push_u32,
    push_u64, u32_at, u64_at,
};
use crate::error::Error;
use crate::lsm::version::{
    first_seen, in_order, lemma_first_seen, lemma_unseen, seen, slot_of, version_lt, versions,
    InternalKey, Item, ValueSlot,
};
use vstd::prelude::*;

verus! {

/// Fixed-width prefix of one encoded entry.
pub const ENTRY_HEADER_LEN: usize = 17;

/// Refuse to decode a key or value larger than this (guards a corrupt length).
pub const MAX_ENTRY_FIELD: u32 = 0x400_0000;

/// Marks a live value in the entry header.
pub const KIND_VALUE: u8 = 0;

/// Marks a deletion; the entry stores no value bytes.
pub const KIND_TOMBSTONE: u8 = 1;

/// The value bytes of an entry.
pub open spec fn value_of(slot: Option<Seq<u8>>) -> Seq<u8> {
    match slot {
        Some(v) => v,
        None => Seq::empty(),
    }
}

/// The kind byte of an entry.
pub open spec fn kind_of(slot: Option<Seq<u8>>) -> u8 {
    if slot is Some {
        KIND_VALUE
    } else {
        KIND_TOMBSTONE
    }
}

/// One entry as bytes.
pub open spec fn entry_bytes(e: Item) -> Seq<u8> {
    le32(#[verifier::truncate] (e.0.0.len() as u32)) + le32(
        #[verifier::truncate] (value_of(e.1).len() as u32),
    ) + le64(e.0.1) + seq![kind_of(e.1)] + e.0.0 + value_of(e.1)
}

/// The entry is small enough to be read back.
pub open spec fn fits(e: Item) -> bool {
    e.0.0.len() <= MAX_ENTRY_FIELD && value_of(e.1).len() <= MAX_ENTRY_FIELD
}

/// A list of entries as bytes.
pub open spec fn encoded(run: Seq<Item>) -> Seq<u8>
    decreases run.len(),
{
    if run.len() == 0 {
        Seq::empty()
    } else {
        encoded(run.drop_last()) + entry_bytes(run.last())
    }
}

/// The entry that starts at `pos` and the offset just past it, if the bytes
/// there are one.
pub open spec fn entry_at(data: Seq<u8>, pos: int) -> Option<(Item, int)> {
    if pos + ENTRY_HEADER_LEN > data.len() {
        None
    } else {
        let (key_len, val_len) = (u32_at(data, pos), u32_at(data, pos + 4));
        let key_end = pos + ENTRY_HEADER_LEN + key_len;
        let kind = data[pos + 16];
        if key_len > MAX_ENTRY_FIELD || val_len > MAX_ENTRY_FIELD || key_end + val_len > data.len()
            || kind > KIND_TOMBSTONE {
            None
        } else {
            let key = data.subrange(pos + ENTRY_HEADER_LEN, key_end);
            let slot = if kind == KIND_VALUE {
                Some(data.subrange(key_end, key_end + val_len))
            } else {
                None
            };
            Some((((key, u64_at(data, pos + 8)), slot), key_end + val_len))
        }
    }
}

/// The entries from `pos` to the end, if the bytes there are entries.
pub open spec fn stored(data: Seq<u8>, pos: int) -> Option<Seq<Item>>
    decreases data.len() - pos,
{
    if pos >= data.len() {
        Some(Seq::empty())
    } else {
        match entry_at(data, pos) {
            Some((e, next)) => match stored(data, next) {
                Some(rest) => Some(seq![e] + rest),
                None => None,
            },
            None => None,
        }
    }
}

/// What a scan from `pos` finds of a key: it passes smaller keys and versions
/// that the snapshot does not see, and ends at the first version it sees or at
/// the first larger key. `None` if it meets bytes that are no entry.
pub open spec fn scan(data: Seq<u8>, pos: int, key: Seq<u8>, snapshot: u64) -> Option<
    Option<Option<Seq<u8>>>,
>
    decreases data.len() - pos,
{
    if pos >= data.len() {
        Some(None)
    } else {
        match entry_at(data, pos) {
            Some((e, next)) => if e.0.0 == key {
                if e.0.1 <= snapshot {
                    Some(Some(e.1))
                } else {
                    scan(data, next, key, snapshot)
                }
            } else if lex_lt(e.0.0, key) {
                scan(data, next, key, snapshot)
            } else {
                Some(None)
            },
            None => None,
        }
    }
}

/// Where the entry number `j` starts.
pub open spec fn place(run: Seq<Item>, j: int) -> int {
    encoded(run.subrange(0, j)).len() as int
}

/// Serialises one entry into `out`.
pub fn encode_entry(out: &mut Vec<u8>, key: &InternalKey, slot: &ValueSlot)
    ensures
        final(out)@ == old(out)@ + entry_bytes((key@, slot_of(*slot))),
{
    let ghost was = out@;
    let ghost e = (key@, slot_of(*slot));
    let n: usize = match slot {
        Some(v) => v.len(),
        None => 0,
    };
    push_u32(out, #[verifier::truncate] (key.user_key.len() as u32));
    push_u32(out, #[verifier::truncate] (n as u32));
    push_u64(out, key.seqno);
    match slot {
        Some(v) => {
            out.push(KIND_VALUE);
            push_bytes(out, key.user_key.as_slice());
            push_bytes(out, v.as_slice());
        },
        None => {
            out.push(KIND_TOMBSTONE);
            push_bytes(out, key.user_key.as_slice());
        },
    }
    assert(out@ =~= was + entry_bytes(e));
}

/// Decodes the entry starting at `pos` in `buf`.
///
/// Returns the entry and the offset just past it. Every length is validated
/// against the remaining buffer before it is used to slice.
pub fn decode_entry(buf: &[u8], pos: usize) -> (r: Result<(InternalKey, ValueSlot, usize), Error>)
    ensures
        match r {
            Ok((k, v, next)) => entry_at(buf@, pos as int) == Some(
                ((k@, slot_of(v)), next as int),
            ),
            Err(e) => e is Corruption && entry_at(buf@, pos as int) is None,
        },
{
    let n: usize = buf.len();
    if pos > n || n - pos < ENTRY_HEADER_LEN {
        return Err(Error::corrupt("sstable entry is truncated"));
    }
    let key_len: u32 = get_u32(buf, pos);
    let val_len: u32 = get_u32(buf, pos + 4);
    if key_len > MAX_ENTRY_FIELD || val_len > MAX_ENTRY_FIELD {
        return Err(Error::corrupt("sstable entry declares an implausible length"));
    }
    let seqno: u64 = get_u64(buf, pos + 8);
    let kind: u8 = buf[pos + 16];
    let key_start: usize = pos + ENTRY_HEADER_LEN;
    if n - key_start < key_len as usize || n - key_start - (key_len as usize) < val_len as usize {
        return Err(Error::corrupt("sstable entry runs past the data section"));
    }
    let key_end: usize = key_start + key_len as usize;
    let val_end: usize = key_end + val_len as usize;
    if kind > KIND_TOMBSTONE {
        return Err(Error::corrupt("sstable entry has an unknown kind"));
    }
    let user_key: Vec<u8> = copy_range(buf, key_start, key_end);
    let slot: ValueSlot = if kind == KIND_VALUE {
        Some(copy_range(buf, key_end, val_end))
    } else {
        None
    };
    Ok((InternalKey::new(user_key, seqno), slot, val_end))
}

/// The bytes of an entry are read back as the entry.
pub proof fn lemma_entry_at(data: Seq<u8>, pos: int, e: Item)
    requires
        fits(e),
        0 <= pos,
        pos + entry_bytes(e).len() <= data.len(),
        data.subrange(pos, pos + entry_bytes(e).len()) == entry_bytes(e),
    ensures
        entry_at(data, pos) == Some((e, pos + entry_bytes(e).len())),
{
    let b = entry_bytes(e);
    let (k, v) = (e.0.0, value_of(e.1));
    assert(b.len() == 17 + k.len() + v.len());
    let s = data.subrange(pos, pos + b.len());
    let key_end = pos + 17 + k.len();
    assert(data.subrange(pos, pos + 4) =~= s.subrange(0, 4));
    assert(b.subrange(0, 4) =~= le32(k.len() as u32));
    assert(data.subrange(pos + 4, pos + 8) =~= s.subrange(4, 8));
    assert(b.subrange(4, 8) =~= le32(v.len() as u32));
    assert(data.subrange(pos + 8, pos + 16) =~= s.subrange(8, 16));
    assert(b.subrange(8, 16) =~= le64(e.0.1));
    assert(data[pos + 16] == s[16]);
    assert(data.subrange(pos + 17, key_end) =~= s.subrange(17, 17int + k.len()));
    assert(b.subrange(17, 17int + k.len()) =~= k);
    assert(data.subrange(key_end, key_end + v.len()) =~= s.subrange(17int + k.len(), b.len() as int));
    assert(b.subrange(17int + k.len(), b.len() as int) =~= v);
    lemma_u32_roundtrip(data, pos, k.len() as u32);
    lemma_u32_roundtrip(data, pos + 4, v.len() as u32);
    lemma_u64_roundtrip(data, pos + 8, e.0.1);
}

/// In the bytes of a list, each entry stands at its place.
pub proof fn lemma_piece(run: Seq<Item>, j: int)
    requires
        0 <= j < run.len(),
    ensures
        place(run, j + 1) == place(run, j) + entry_bytes(run[j]).len(),
        place(run, j + 1) <= encoded(run).len(),
        encoded(run).subrange(place(run, j), place(run, j + 1)) == entry_bytes(run[j]),
    decreases run.len(),
{
    let up = run.subrange(0, j + 1);
    assert(up.drop_last() =~= run.subrange(0, j));
    assert(up.last() == run[j]);
    if j == run.len() - 1 {
        assert(up =~= run);
        assert(encoded(run).subrange(place(run, j), place(run, j + 1)) =~= entry_bytes(run[j]));
    } else {
        let less = run.drop_last();
        lemma_piece(less, j);
        assert(less.subrange(0, j) =~= run.subrange(0, j));
        assert(less.subrange(0, j + 1) =~= up);
        assert(encoded(run).subrange(place(run, j), place(run, j + 1)) =~= encoded(less).subrange(
            place(run, j),
            place(run, j + 1),
        ));
    }
}

/// The bytes of a list hold, from the place of an entry on, that entry and
/// those behind it.
pub proof fn lemma_stored(run: Seq<Item>, j: int)
    requires
        0 <= j <= run.len(),
        forall|i: int| 0 <= i < run.len() ==> fits(#[trigger] run[i]),
    ensures
        stored(encoded(run), place(run, j)) == Some(run.subrange(j, run.len() as int)),
    decreases run.len() - j,
{
    let data = encoded(run);
    if j == run.len() {
        assert(run.subrange(0, j) =~= run);
        assert(run.subrange(j, run.len() as int) =~= Seq::<Item>::empty());
    } else {
        lemma_piece(run, j);
        lemma_entry_at(data, place(run, j), run[j]);
        lemma_stored(run, j + 1);
        assert(seq![run[j]] + run.subrange(j + 1, run.len() as int) =~= run.subrange(
            j,
            run.len() as int,
        ));
    }
}

/// Larger keys follow: nothing from `j` on is a version of a smaller key.
proof fn lemma_passed(run: Seq<Item>, j: int, key: Seq<u8>)
    requires
        in_order(run),
        0 <= j < run.len(),
        lex_lt(key, run[j].0.0),
    ensures
        forall|i: int| j <= i < run.len() ==> (#[trigger] run[i]).0.0 != key,
{
    assert forall|i: int| j <= i < run.len() implies (#[trigger] run[i]).0.0 != key by {
        lemma_lex_irreflexive(key);
        if i > j {
            assert(version_lt(run[j].0, run[i].0));
            if lex_lt(run[j].0.0, run[i].0.0) {
                lemma_lex_transitive(key, run[j].0.0, run[i].0.0);
            }
        }
    }
}

/// In a list that is in order, a scan that starts no later than the first
/// version that the snapshot sees finds what the snapshot sees.
pub proof fn lemma_scan(
    run: Seq<Item>,
    data: Seq<u8>,
    pos: int,
    j: int,
    key: Seq<u8>,
    snapshot: u64,
)
    requires
        in_order(run),
        0 <= j <= run.len(),
        0 <= pos,
        stored(data, pos) == Some(run.subrange(j, run.len() as int)),
        forall|i: int|
            0 <= i < j && (#[trigger] run[i]).0.0 == key ==> run[i].0.1 > snapshot,
    ensures
        scan(data, pos, key, snapshot) == Some(seen(versions(run), key, snapshot)),
    decreases run.len() - j,
{
    let tail = run.subrange(j, run.len() as int);
    if pos >= data.len() {
        assert(tail.len() == 0);
        lemma_unseen(run, key, snapshot);
    } else {
        let (e, next) = entry_at(data, pos)->0;
        let rest = stored(data, next)->0;
        assert(tail == seq![e] + rest);
        assert(tail[0] == e);
        assert(run[j] == e);
        assert(rest =~= run.subrange(j + 1, run.len() as int)) by {
            assert forall|i: int| 0 <= i < rest.len() implies rest[i] == run[j + 1 + i] by {
                assert(tail[i + 1] == rest[i]);
            }
        }
        lemma_lex_total(e.0.0, key);
        if e.0.0 == key && e.0.1 <= snapshot {
            assert(first_seen(run, j, snapshot));
            lemma_first_seen(run, j, snapshot);
        } else if e.0.0 == key || lex_lt(e.0.0, key) {
            lemma_scan(run, data, next, j + 1, key, snapshot);
        } else {
            lemma_passed(run, j, key);
            lemma_unseen(run, key, snapshot);
        }
    }
}

} // verus!

//! Immutable, sorted runs produced by flushing a MemTable.
//!
//! # File layout
//!
//! ```text
//!  +-------------------+  offset 0
//!  |  data section     |   entries, ascending (user_key, seqno desc)
//!  +-------------------+
//!  |  bloom filter     |   encoded BloomFilter over distinct user keys
//!  +-------------------+
//!  |  index section    |   sparse: one (key, offset) per RESTART_INTERVAL
//!  +-------------------+
//!  |  footer (76 B)    |   section offsets, counts, CRC32, magic
//!  +-------------------+  end
//! ```
//!
//! # Integrity
//!
//! The footer carries a CRC32 over every byte that precedes it.
//! [`SSTable::open`] verifies it once, up front. Every length read out of the
//! bytes is bounds-checked before it is used to slice or allocate: a truncated
//! or hostile table yields [`Error::Corruption`], never a panic.

use crate::bytes::{
    before, copy_bytes, copy_range, get_u32, get_u64, le32, le64, lemma_lex_asymmetric,
    lemma_lex_irreflexive, lemma_lex_total, lemma_lex_transitive, lex_le, lex_lt, order, push_bytes,
    push_u32, push_u64, same, u32_at, u64_at, Order,
};
use crate::checksum::{crc32, crc32_of};
use crate::error::Error;
use crate::lsm::bloom::{
    filter_bytes, optimal_probes, probes, sane_bits, sized_bits, BloomFilter, DEFAULT_BITS_PER_KEY,
};
use crate::lsm::entry::{
    decode_entry, encode_entry, encoded, entry_at, fits, lemma_scan, lemma_stored, place, scan,
    stored,
};
use crate::lsm::version::{
    in_order, items, lemma_unseen, seen, slot_of, version_lt, versions, InternalKey, Item, Lookup,
    ValueSlot,
};
use vstd::prelude::*;
use vstd::slice::slice_subrange;

verus! {

/// Magic trailer identifying a PhoenixDB SSTable: "PDBSSTBL".
pub const SSTABLE_MAGIC: u64 = 0x5044_4253_5354_424C;

/// Bytes in the fixed-size footer.
///
/// Layout: eight `u64` fields (64 B) + CRC32 (4 B) + magic (8 B).
pub const FOOTER_LEN: usize = 76;

/// One index entry is emitted every this many distinct keys.
///
/// A sparse index keeps the whole index resident in memory even for large
/// tables; a lookup binary-searches it, then scans forward.
pub const RESTART_INTERVAL: usize = 16;

/// Summary of a table, cached in memory by the level manifest.
///
/// Holding the key range lets a lookup skip an entire table without opening it,
/// and holding the seqno range lets compaction reason about version overlap.
#[derive(Debug, PartialEq, Eq)]
pub struct TableMeta {
    /// Monotonic table identifier, unique within a database.
    pub id: u64,
    /// LSM level this table belongs to.
    pub level: u32,
    /// Smallest user key present.
    pub min_key: Vec<u8>,
    /// Largest user key present.
    pub max_key: Vec<u8>,
    /// Lowest sequence number present.
    pub min_seqno: u64,
    /// Highest sequence number present.
    pub max_seqno: u64,
    /// Number of versioned entries.
    pub entry_count: u64,
    /// Total file size in bytes.
    pub file_bytes: u64,
}

/// Not before means at or after.
pub(crate) proof fn lemma_not_before(a: Seq<u8>, b: Seq<u8>)
    ensures
        lex_le(a, b) == !lex_lt(b, a),
{
    lemma_lex_total(a, b);
    lemma_lex_irreflexive(a);
    if lex_lt(a, b) {
        lemma_lex_asymmetric(a, b);
    }
}

impl TableMeta {
    /// True when this table's key range intersects `[from, to]`.
    #[must_use]
    pub fn overlaps(&self, from: &[u8], to: &[u8]) -> (r: bool)
        ensures
            r == (lex_le(self.min_key@, to@) && lex_le(from@, self.max_key@)),
    {
        proof {
            lemma_not_before(self.min_key@, to@);
            lemma_not_before(from@, self.max_key@);
        }
        !before(to, self.min_key.as_slice()) && !before(self.max_key.as_slice(), from)
    }

    /// True when `key` falls inside this table's key range.
    #[must_use]
    pub fn may_contain(&self, key: &[u8]) -> (r: bool)
        ensures
            r == (lex_le(self.min_key@, key@) && lex_le(key@, self.max_key@)),
    {
        self.overlaps(key, key)
    }

    /// A copy.
    pub(crate) fn copy(&self) -> (m: TableMeta)
        ensures
            m@ == self@,
    {
        TableMeta {
            id: self.id,
            level: self.level,
            min_key: copy_bytes(self.min_key.as_slice()),
            max_key: copy_bytes(self.max_key.as_slice()),
            min_seqno: self.min_seqno,
            max_seqno: self.max_seqno,
            entry_count: self.entry_count,
            file_bytes: self.file_bytes,
        }
    }
}

/// What a summary says.
pub ghost struct Summary {
    /// Monotonic table identifier.
    pub id: u64,
    /// Level of the table.
    pub level: u32,
    /// Smallest user key.
    pub min_key: Seq<u8>,
    /// Largest user key.
    pub max_key: Seq<u8>,
    /// Lowest sequence number.
    pub min_seqno: u64,
    /// Highest sequence number.
    pub max_seqno: u64,
    /// Number of versioned entries.
    pub entry_count: u64,
    /// Total size in bytes.
    pub file_bytes: u64,
}

impl View for TableMeta {
    type V = Summary;

    open spec fn view(&self) -> Summary {
        Summary {
            id: self.id,
            level: self.level,
            min_key: self.min_key@,
            max_key: self.max_key@,
            min_seqno: self.min_seqno,
            max_seqno: self.max_seqno,
            entry_count: self.entry_count,
            file_bytes: self.file_bytes,
        }
    }
}

/// The entry is the first of its key.
pub open spec fn fresh(run: Seq<Item>, i: int) -> bool {
    i == 0 || run[i - 1].0.0 != run[i].0.0
}

/// How many keys a list has, the versions of each standing together.
pub open spec fn distinct(run: Seq<Item>) -> nat
    decreases run.len(),
{
    if run.len() == 0 {
        0
    } else {
        distinct(run.drop_last()) + if fresh(run, run.len() - 1) {
            1nat
        } else {
            0
        }
    }
}

/// The sparse index of a list: every so many keys, the first entry of the key
/// and where it starts.
pub open spec fn restarts(run: Seq<Item>) -> Seq<(Seq<u8>, u64)>
    decreases run.len(),
{
    if run.len() == 0 {
        Seq::empty()
    } else {
        let less = run.drop_last();
        if fresh(run, run.len() - 1) && distinct(less) % (RESTART_INTERVAL as nat) == 0 {
            restarts(less).push((run.last().0.0, encoded(less).len() as u64))
        } else {
            restarts(less)
        }
    }
}

/// The lowest sequence number of a list.
pub open spec fn lowest(run: Seq<Item>) -> u64
    decreases run.len(),
{
    if run.len() == 0 {
        u64::MAX
    } else {
        let l = lowest(run.drop_last());
        if run.last().0.1 < l {
            run.last().0.1
        } else {
            l
        }
    }
}

/// The highest sequence number of a list.
pub open spec fn highest(run: Seq<Item>) -> u64
    decreases run.len(),
{
    if run.len() == 0 {
        0
    } else {
        let h = highest(run.drop_last());
        if run.last().0.1 > h {
            run.last().0.1
        } else {
            h
        }
    }
}

/// The filter bits of the keys of a list.
pub open spec fn sown(run: Seq<Item>, num_hashes: u32, num_bits: u64) -> Set<int> {
    Set::new(
        |b: int|
            exists|i: int|
                0 <= i < run.len() && probes(
                    (#[trigger] run[i]).0.0,
                    num_hashes,
                    num_bits,
                ).contains(b),
    )
}

/// Keys do not descend.
pub open spec fn keys_ascend(run: Seq<Item>) -> bool {
    forall|i: int, j: int|
        0 <= i < j < run.len() ==> lex_le((#[trigger] run[i]).0.0, (#[trigger] run[j]).0.0)
}

/// The contents of an index.
pub open spec fn indexed(v: Seq<(Vec<u8>, u64)>) -> Seq<(Seq<u8>, u64)> {
    Seq::new(v.len(), |i: int| (v[i].0@, v[i].1))
}

/// One index entry as bytes.
pub open spec fn restart_bytes(r: (Seq<u8>, u64)) -> Seq<u8> {
    le32(#[verifier::truncate] (r.0.len() as u32)) + le64(r.1) + r.0
}

/// An index as bytes.
pub open spec fn index_bytes(ix: Seq<(Seq<u8>, u64)>) -> Seq<u8>
    decreases ix.len(),
{
    if ix.len() == 0 {
        Seq::empty()
    } else {
        index_bytes(ix.drop_last()) + restart_bytes(ix.last())
    }
}

/// The sections of a table that the footer describes.
#[derive(Debug, Clone, Copy)]
pub struct Footer {
    /// Where the filter starts, which is where the data ends.
    pub bloom_offset: u64,
    /// Length of the filter.
    pub bloom_len: u64,
    /// Where the index starts.
    pub index_offset: u64,
    /// Length of the index.
    pub index_len: u64,
    /// Entries of the index.
    pub index_count: u64,
    /// Entries of the table.
    pub entry_count: u64,
    /// Lowest sequence number.
    pub min_seqno: u64,
    /// Highest sequence number.
    pub max_seqno: u64,
    /// CRC32 of everything before the footer.
    pub crc: u32,
}

/// A footer as bytes.
#[verifier::opaque]
pub open spec fn footer_bytes(f: Footer) -> Seq<u8> {
    le64(f.bloom_offset) + le64(f.bloom_len) + le64(f.index_offset) + le64(f.index_len) + le64(
        f.index_count,
    ) + le64(f.entry_count) + le64(f.min_seqno) + le64(f.max_seqno) + le32(f.crc) + le64(
        SSTABLE_MAGIC,
    )
}

/// The footer that bytes hold.
#[verifier::opaque]
pub open spec fn footer_in(b: Seq<u8>) -> Footer {
    Footer {
        bloom_offset: u64_at(b, 0),
        bloom_len: u64_at(b, 8),
        index_offset: u64_at(b, 16),
        index_len: u64_at(b, 24),
        index_count: u64_at(b, 32),
        entry_count: u64_at(b, 40),
        min_seqno: u64_at(b, 48),
        max_seqno: u64_at(b, 56),
        crc: u32_at(b, 64),
    }
}

/// The sections tile what stands before the footer, in order.
pub open spec fn tiles(f: Footer, file_len: int) -> bool {
    &&& f.bloom_offset + f.bloom_len == f.index_offset
    &&& f.index_offset + f.index_len == file_len - FOOTER_LEN
}

/// Bytes are a footer of a file of that length.
pub open spec fn footer_ok(b: Seq<u8>, file_len: int) -> bool {
    &&& b.len() == FOOTER_LEN
    &&& u64_at(b, 68) == SSTABLE_MAGIC
    &&& tiles(footer_in(b), file_len)
}

impl Footer {
    /// The footer as bytes.
    pub fn encode(&self) -> (out: Vec<u8>)
        ensures
            out@ == footer_bytes(*self),
    {
        reveal(footer_bytes);
        let mut out: Vec<u8> = Vec::new();
        push_u64(&mut out, self.bloom_offset);
        assert(out@ =~= le64(self.bloom_offset));
        push_u64(&mut out, self.bloom_len);
        push_u64(&mut out, self.index_offset);
        push_u64(&mut out, self.index_len);
        push_u64(&mut out, self.index_count);
        push_u64(&mut out, self.entry_count);
        push_u64(&mut out, self.min_seqno);
        push_u64(&mut out, self.max_seqno);
        push_u32(&mut out, self.crc);
        push_u64(&mut out, SSTABLE_MAGIC);
        out
    }

    /// Parses and sanity-checks the footer against the real file size.
    pub fn parse(bytes: &[u8], file_len: u64) -> (r: Result<Footer, Error>)
        ensures
            match r {
                Ok(f) => footer_ok(bytes@, file_len as int) && f == footer_in(bytes@),
                Err(e) => e is Corruption && !footer_ok(bytes@, file_len as int),
            },
    {
        reveal(footer_in);
        if bytes.len() != FOOTER_LEN {
            return Err(Error::corrupt("sstable footer has another length"));
        }
        if get_u64(bytes, 68) != SSTABLE_MAGIC {
            return Err(Error::corrupt("not a PhoenixDB SSTable: wrong magic"));
        }
        let f: Footer = Footer {
            bloom_offset: get_u64(bytes, 0),
            bloom_len: get_u64(bytes, 8),
            index_offset: get_u64(bytes, 16),
            index_len: get_u64(bytes, 24),
            index_count: get_u64(bytes, 32),
            entry_count: get_u64(bytes, 40),
            min_seqno: get_u64(bytes, 48),
            max_seqno: get_u64(bytes, 56),
            crc: get_u32(bytes, 64),
        };
        if file_len < FOOTER_LEN as u64 {
            return Err(Error::corrupt("sstable shorter than its footer"));
        }
        let body_len: u64 = file_len - FOOTER_LEN as u64;
        match f.bloom_offset.checked_add(f.bloom_len) {
            None => Err(Error::corrupt("sstable bloom section overflows")),
            Some(bloom_end) => match f.index_offset.checked_add(f.index_len) {
                None => Err(Error::corrupt("sstable index section overflows")),
                Some(index_end) => if bloom_end != f.index_offset || index_end != body_len {
                    Err(Error::corrupt("sstable sections do not tile the file"))
                } else {
                    Ok(f)
                },
            },
        }
    }
}

/// Builds an SSTable from entries supplied in sorted order.
pub struct SSTableWriter {
    body: Vec<u8>,
    /// Sparse index: `(user_key, data offset)`.
    index: Vec<(Vec<u8>, u64)>,
    bloom: BloomFilter,
    entry_count: u64,
    /// Distinct user keys seen, used to place index restart points.
    distinct_keys: u64,
    last_user_key: Option<Vec<u8>>,
    last_seqno: u64,
    min_key: Option<Vec<u8>>,
    min_seqno: u64,
    max_seqno: u64,
    /// What was appended.
    run: Ghost<Seq<Item>>,
}

impl View for SSTableWriter {
    type V = Seq<Item>;

    closed spec fn view(&self) -> Seq<Item> {
        self.run@
    }
}

/// The filter holds the keys of a list, and no other bits.
pub open spec fn filters(f: BloomFilter, run: Seq<Item>) -> bool {
    f.wf() && f@ == sown(run, f.num_hashes, f.num_bits)
}

/// The footer of a table.
pub open spec fn footer_for(run: Seq<Item>, bloom: Seq<u8>, index: Seq<u8>) -> Footer {
    let data = encoded(run);
    Footer {
        bloom_offset: data.len() as u64,
        bloom_len: bloom.len() as u64,
        index_offset: (data.len() + bloom.len()) as u64,
        index_len: index.len() as u64,
        index_count: restarts(run).len() as u64,
        entry_count: run.len() as u64,
        min_seqno: lowest(run),
        max_seqno: highest(run),
        crc: crc32(data + bloom + index),
    }
}

/// A table as bytes, given its filter as bytes.
pub open spec fn table_bytes(run: Seq<Item>, bloom: Seq<u8>) -> Seq<u8> {
    let index = index_bytes(restarts(run));
    encoded(run) + bloom + index + footer_bytes(footer_for(run, bloom, index))
}

/// The summary of a table that holds a list.
pub open spec fn summary(run: Seq<Item>, id: u64, level: u32, size: int) -> Summary {
    Summary {
        id,
        level,
        min_key: if run.len() == 0 {
            Seq::empty()
        } else {
            run[0].0.0
        },
        max_key: if run.len() == 0 {
            Seq::empty()
        } else {
            run.last().0.0
        },
        min_seqno: if run.len() == 0 {
            0
        } else {
            lowest(run)
        },
        max_seqno: highest(run),
        entry_count: run.len() as u64,
        file_bytes: size as u64,
    }
}

proof fn lemma_encoded_len(run: Seq<Item>)
    ensures
        encoded(run).len() >= 17 * run.len(),
        distinct(run) <= run.len(),
    decreases run.len(),
{
    if run.len() > 0 {
        lemma_encoded_len(run.drop_last());
    }
}

impl SSTableWriter {
    /// Everything kept beside the entries is what they determine.
    pub closed spec fn wf(&self) -> bool {
        let run = self.run@;
        &&& self.body@ == encoded(run)
        &&& indexed(self.index@) == restarts(run)
        &&& filters(self.bloom, run)
        &&& self.entry_count == run.len()
        &&& self.distinct_keys == distinct(run)
        &&& keys_ascend(run)
        &&& match self.last_user_key {
            Some(k) => run.len() > 0 && run.last().0 == (k@, self.last_seqno),
            None => run.len() == 0,
        }
        &&& match self.min_key {
            Some(k) => run.len() > 0 && run[0].0.0 == k@,
            None => run.len() == 0,
        }
        &&& self.min_seqno == lowest(run)
        &&& self.max_seqno == highest(run)
    }

    /// The filter over the keys.
    pub closed spec fn filter(&self) -> BloomFilter {
        self.bloom
    }

    /// Creates a writer for a table expected to hold `expected_keys` distinct keys.
    pub fn create(expected_keys: usize) -> (w: Self)
        ensures
            w.wf(),
            w@ == Seq::<Item>::empty(),
            w.filter().num_bits == sized_bits(
                expected_keys as int,
                sane_bits(DEFAULT_BITS_PER_KEY),
            ),
            w.filter().num_hashes == optimal_probes(sane_bits(DEFAULT_BITS_PER_KEY)),
    {
        let bloom: BloomFilter = BloomFilter::with_capacity(expected_keys, DEFAULT_BITS_PER_KEY);
        let w: SSTableWriter = SSTableWriter {
            body: Vec::new(),
            index: Vec::new(),
            bloom,
            entry_count: 0,
            distinct_keys: 0,
            last_user_key: None,
            last_seqno: 0,
            min_key: None,
            min_seqno: u64::MAX,
            max_seqno: 0,
            run: Ghost(Seq::empty()),
        };
        assert(indexed(w.index@) =~= Seq::<(Seq<u8>, u64)>::empty());
        assert(w.bloom@ =~= sown(Seq::empty(), w.bloom.num_hashes, w.bloom.num_bits));
        w
    }

    /// Bytes of entry data written so far.
    #[must_use]
    pub fn data_bytes(&self) -> (n: u64)
        requires
            self.wf(),
        ensures
            n == encoded(self@).len(),
    {
        self.body.len() as u64
    }

    /// Appends one entry. Entries **must** arrive in `InternalKey` order.
    ///
    /// Returns [`Error::InvalidArgument`] on an out-of-order key rather than
    /// silently producing a table whose index lies about its contents.
    pub fn append(&mut self, key: &InternalKey, slot: &ValueSlot) -> (r: Result<(), Error>)
        requires
            old(self).wf(),
        ensures
            final(self).wf(),
            final(self).filter().num_bits == old(self).filter().num_bits,
            final(self).filter().num_hashes == old(self).filter().num_hashes,
            ({
                let late = old(self)@.len() > 0 && version_lt(key@, old(self)@.last().0);
                match r {
                    Ok(_) => !late && final(self)@ == old(self)@.push((key@, slot_of(*slot))),
                    Err(e) => late && e is InvalidArgument && final(self)@ == old(self)@,
                }
            }),
    {
        let ghost was = self.run@;
        let ghost e = (key@, slot_of(*slot));
        let ghost run = was.push(e);
        let mut is_new: bool = true;
        if let Some(last) = &self.last_user_key {
            if before(key.user_key.as_slice(), last.as_slice()) {
                return Err(Error::invalid("sstable entries must be sorted"));
            }
            is_new = !same(last.as_slice(), key.user_key.as_slice());
            if !is_new && key.seqno > self.last_seqno {
                return Err(Error::invalid("sstable entries must be sorted"));
            }
        }
        proof {
            assert(run.drop_last() =~= was);
            assert(is_new == fresh(run, was.len() as int));
            lemma_encoded_len(was);
            if was.len() > 0 {
                lemma_not_before(was.last().0.0, e.0.0);
            }
            lemma_sorted_push(was, e);
            lemma_sown_push(was, e, self.bloom.num_hashes, self.bloom.num_bits);
        }
        let at: usize = self.body.len();
        if is_new {
            if self.distinct_keys % RESTART_INTERVAL as u64 == 0 {
                let ghost ix = indexed(self.index@);
                self.index.push((copy_bytes(key.user_key.as_slice()), at as u64));
                assert(indexed(self.index@) =~= ix.push((e.0.0, at as u64)));
            }
            self.bloom.insert(key.user_key.as_slice());
            assert(self.bloom@ =~= sown(run, self.bloom.num_hashes, self.bloom.num_bits));
            self.distinct_keys = self.distinct_keys + 1;
            self.last_user_key = Some(copy_bytes(key.user_key.as_slice()));
        } else {
            assert(self.bloom@ =~= sown(run, self.bloom.num_hashes, self.bloom.num_bits)) by {
                let k = was.last().0.0;
                assert(was[was.len() - 1].0.0 == e.0.0);
                assert forall|b: int| probes(
                    e.0.0,
                    self.bloom.num_hashes,
                    self.bloom.num_bits,
                ).contains(b) implies self.bloom@.contains(b) by {
                    assert(was[was.len() - 1].0.0 == e.0.0);
                }
            }
        }
        if self.min_key.is_none() {
            self.min_key = Some(copy_bytes(key.user_key.as_slice()));
        }
        self.last_seqno = key.seqno;
        if key.seqno < self.min_seqno {
            self.min_seqno = key.seqno;
        }
        if key.seqno > self.max_seqno {
            self.max_seqno = key.seqno;
        }
        encode_entry(&mut self.body, key, slot);
        let n: usize = self.body.len();
        assert(self.body@ == encoded(run));
        proof {
            lemma_encoded_len(run);
        }
        self.entry_count = self.entry_count + 1;
        self.run = Ghost(run);
        Ok(())
    }

    /// Finishes the table — filter, index, footer — and summarises it.
    pub fn finish(self, id: u64, level: u32) -> (r: (Vec<u8>, TableMeta))
        requires
            self.wf(),
        ensures
            r.0@ == table_bytes(self@, filter_bytes(self.filter())),
            r.1@ == summary(self@, id, level, r.0@.len() as int),
            filters(self.filter(), self@),
            keys_ascend(self@),
    {
        let ghost run = self.run@;
        let out: Vec<u8> = frame(
            self.body,
            &self.bloom,
            &self.index,
            self.entry_count,
            self.min_seqno,
            self.max_seqno,
            Ghost(run),
        );
        let min_key: Vec<u8> = match self.min_key {
            Some(k) => k,
            None => Vec::new(),
        };
        let max_key: Vec<u8> = match self.last_user_key {
            Some(k) => k,
            None => Vec::new(),
        };
        let meta: TableMeta = TableMeta {
            id,
            level,
            min_key,
            max_key,
            min_seqno: if self.entry_count == 0 {
                0
            } else {
                self.min_seqno
            },
            max_seqno: self.max_seqno,
            entry_count: self.entry_count,
            file_bytes: out.len() as u64,
        };
        assert(meta.min_key@ =~= summary(run, id, level, out@.len() as int).min_key);
        assert(meta.max_key@ =~= summary(run, id, level, out@.len() as int).max_key);
        (out, meta)
    }
}

/// Puts the sections of a table together.
fn frame(
    data: Vec<u8>,
    bloom: &BloomFilter,
    index: &Vec<(Vec<u8>, u64)>,
    entry_count: u64,
    min_seqno: u64,
    max_seqno: u64,
    Ghost(run): Ghost<Seq<Item>>,
) -> (out: Vec<u8>)
    requires
        data@ == encoded(run),
        indexed(index@) == restarts(run),
        entry_count == run.len(),
        min_seqno == lowest(run),
        max_seqno == highest(run),
    ensures
        out@ == table_bytes(run, filter_bytes(*bloom)),
{
    let mut out: Vec<u8> = data;
    let bloom_offset: u64 = out.len() as u64;
    let bloom_bytes: Vec<u8> = bloom.encode();
    push_bytes(&mut out, bloom_bytes.as_slice());
    let index_offset: u64 = out.len() as u64;
    write_index(&mut out, index);
    let index_end: u64 = out.len() as u64;
    let crc: u32 = crc32_of(out.as_slice());
    let f: Footer = Footer {
        bloom_offset,
        bloom_len: bloom_bytes.len() as u64,
        index_offset,
        index_len: index_end - index_offset,
        index_count: index.len() as u64,
        entry_count,
        min_seqno,
        max_seqno,
        crc,
    };
    assert(f == footer_for(run, filter_bytes(*bloom), index_bytes(restarts(run))));
    let footer: Vec<u8> = f.encode();
    push_bytes(&mut out, footer.as_slice());
    out
}

/// Serialises an index into `out`.
fn write_index(out: &mut Vec<u8>, index: &Vec<(Vec<u8>, u64)>)
    ensures
        final(out)@ == old(out)@ + index_bytes(indexed(index@)),
{
    let ghost ix = indexed(index@);
    let ghost head = out@;
    let mut i: usize = 0;
    assert(out@ =~= head + index_bytes(ix.subrange(0, 0)));
    while i < index.len()
        invariant
            i <= index@.len(),
            ix == indexed(index@),
            out@ == head + index_bytes(ix.subrange(0, i as int)),
        decreases index@.len() - i,
    {
        let ghost so_far = out@;
        let key: &Vec<u8> = &index[i].0;
        push_u32(out, #[verifier::truncate] (key.len() as u32));
        push_u64(out, index[i].1);
        push_bytes(out, key.as_slice());
        proof {
            let more = ix.subrange(0, i + 1);
            assert(more.drop_last() =~= ix.subrange(0, i as int));
            assert(more.last() == ix[i as int]);
            assert(out@ =~= so_far + restart_bytes(ix[i as int]));
            assert(out@ =~= head + index_bytes(more));
        }
        i += 1;
    }
    assert(ix.subrange(0, i as int) =~= ix);
}

proof fn lemma_sorted_push(run: Seq<Item>, e: Item)
    requires
        keys_ascend(run),
        run.len() > 0 ==> lex_le(run.last().0.0, e.0.0),
    ensures
        keys_ascend(run.push(e)),
{
    let more = run.push(e);
    assert forall|i: int, j: int| 0 <= i < j < more.len() implies lex_le(
        (#[trigger] more[i]).0.0,
        (#[trigger] more[j]).0.0,
    ) by {
        assert(more[i] == run[i]);
        if j < run.len() {
            assert(more[j] == run[j]);
        } else if i < run.len() - 1 {
            assert(lex_le(run[i].0.0, run[run.len() - 1].0.0));
            let l = run.last().0.0;
            if lex_lt(run[i].0.0, l) && lex_lt(l, e.0.0) {
                lemma_lex_transitive(run[i].0.0, l, e.0.0);
            }
        }
    }
}

proof fn lemma_sown_push(run: Seq<Item>, e: Item, num_hashes: u32, num_bits: u64)
    ensures
        sown(run.push(e), num_hashes, num_bits) == sown(run, num_hashes, num_bits).union(
            probes(e.0.0, num_hashes, num_bits),
        ),
{
    let more = run.push(e);
    let (a, b) = (sown(more, num_hashes, num_bits), sown(run, num_hashes, num_bits));
    assert forall|x: int| a.contains(x) == (b.contains(x) || probes(
        e.0.0,
        num_hashes,
        num_bits,
    ).contains(x)) by {
        if b.contains(x) {
            let i = choose|i: int|
                0 <= i < run.len() && probes(
                    (#[trigger] run[i]).0.0,
                    num_hashes,
                    num_bits,
                ).contains(x);
            assert(more[i] == run[i]);
        }
        assert(more[run.len() as int] == e);
        if a.contains(x) {
            let i = choose|i: int|
                0 <= i < more.len() && probes(
                    (#[trigger] more[i]).0.0,
                    num_hashes,
                    num_bits,
                ).contains(x);
            if i < run.len() {
                assert(run[i] == more[i]);
            }
        }
    }
    assert(a =~= b.union(probes(e.0.0, num_hashes, num_bits)));
}

/// The index entry that starts at `pos` and the offset just past it, if the
/// bytes there are one.
pub open spec fn restart_at(b: Seq<u8>, pos: int) -> Option<((Seq<u8>, u64), int)> {
    if pos + 12 > b.len() {
        None
    } else {
        let end = pos + 12 + u32_at(b, pos);
        if end > b.len() {
            None
        } else {
            Some(((b.subrange(pos + 12, end), u64_at(b, pos + 4)), end))
        }
    }
}

/// The index entries from `pos` to the end, if the bytes there are such.
pub open spec fn index_in(b: Seq<u8>, pos: int) -> Option<Seq<(Seq<u8>, u64)>>
    decreases b.len() - pos,
{
    if pos >= b.len() {
        Some(Seq::empty())
    } else {
        match restart_at(b, pos) {
            Some((r, next)) => match index_in(b, next) {
                Some(rest) => Some(seq![r] + rest),
                None => None,
            },
            None => None,
        }
    }
}

/// The footer of a file.
pub open spec fn footer_part(file: Seq<u8>) -> Seq<u8> {
    file.subrange(file.len() - FOOTER_LEN, file.len() as int)
}

/// What stands before the footer.
pub open spec fn body_part(file: Seq<u8>) -> Seq<u8> {
    file.subrange(0, file.len() - FOOTER_LEN)
}

/// The entries of a file.
pub open spec fn data_part(file: Seq<u8>) -> Seq<u8> {
    file.subrange(0, footer_in(footer_part(file)).bloom_offset as int)
}

/// The filter of a file.
pub open spec fn bloom_part(file: Seq<u8>) -> Seq<u8> {
    let f = footer_in(footer_part(file));
    file.subrange(f.bloom_offset as int, f.index_offset as int)
}

/// The index of a file.
pub open spec fn index_part(file: Seq<u8>) -> Seq<u8> {
    let f = footer_in(footer_part(file));
    file.subrange(f.index_offset as int, file.len() - FOOTER_LEN)
}

/// The footer is one, and its checksum is that of what stands before it.
pub open spec fn framed(file: Seq<u8>) -> bool {
    &&& file.len() >= FOOTER_LEN
    &&& footer_ok(footer_part(file), file.len() as int)
    &&& crc32(body_part(file)) == footer_in(footer_part(file)).crc
}

/// The index section holds as many entries as the footer declares.
pub open spec fn index_ok(b: Seq<u8>, count: u64) -> bool {
    match index_in(b, 0) {
        Some(ix) => ix.len() == count,
        None => false,
    }
}

/// The bytes of some filter.
#[verifier::opaque]
pub open spec fn is_filter(b: Seq<u8>) -> bool {
    exists|f: BloomFilter| f.wf() && b == #[trigger] filter_bytes(f)
}

/// The bytes of the filter.
#[verifier::opaque]
pub open spec fn filter_holds(f: BloomFilter, b: Seq<u8>) -> bool {
    filter_bytes(f) == b
}

/// A file is a table: its frame, filter, index and entries are sound.
pub open spec fn readable(file: Seq<u8>) -> bool {
    &&& framed(file)
    &&& is_filter(bloom_part(file))
    &&& index_ok(index_part(file), footer_in(footer_part(file)).index_count)
    &&& stored(data_part(file), 0) is Some
}

/// The summary of a file that is a table.
pub open spec fn summary_of(file: Seq<u8>, id: u64, level: u32) -> Summary {
    let f = footer_in(footer_part(file));
    let run = stored(data_part(file), 0)->0;
    Summary {
        id,
        level,
        min_key: if run.len() == 0 {
            Seq::empty()
        } else {
            run[0].0.0
        },
        max_key: if run.len() == 0 {
            Seq::empty()
        } else {
            run.last().0.0
        },
        min_seqno: f.min_seqno,
        max_seqno: f.max_seqno,
        entry_count: f.entry_count,
        file_bytes: file.len() as u64,
    }
}

/// A read-only table.
///
/// The filter and the index are decoded eagerly so a point lookup is pure
/// computation.
#[derive(Debug)]
pub struct SSTable {
    /// Summary of the table.
    pub meta: TableMeta,
    /// Entry bytes.
    pub data: Vec<u8>,
    /// Filter over the keys.
    pub bloom: BloomFilter,
    /// Sparse index, ascending by key.
    pub index: Vec<(Vec<u8>, u64)>,
}

/// The table holds what the file holds.
pub open spec fn opened(file: Seq<u8>, id: u64, level: u32, t: SSTable) -> bool {
    &&& readable(file)
    &&& t.data@ == data_part(file)
    &&& t.bloom.wf()
    &&& filter_holds(t.bloom, bloom_part(file))
    &&& Some(indexed(t.index@)) == index_in(index_part(file), 0)
    &&& t.meta@ == summary_of(file, id, level)
}

/// Index keys ascend.
pub open spec fn index_ascends(ix: Seq<(Seq<u8>, u64)>) -> bool {
    forall|i: int, j: int|
        0 <= i < j < ix.len() ==> lex_lt((#[trigger] ix[i]).0, (#[trigger] ix[j]).0)
}

/// The index entry names the first version of its key, which is number `j`.
pub open spec fn anchors(run: Seq<Item>, r: (Seq<u8>, u64), j: int) -> bool {
    &&& 0 <= j < run.len()
    &&& r.0 == run[j].0.0
    &&& r.1 == place(run, j)
    &&& forall|m: int| 0 <= m < j ==> lex_lt((#[trigger] run[m]).0.0, r.0)
}

/// The index entry names a first version.
#[verifier::opaque]
pub open spec fn is_anchor(run: Seq<Item>, r: (Seq<u8>, u64)) -> bool {
    exists|j: int| anchors(run, r, j)
}

/// Each index entry names a first version.
pub open spec fn anchored(run: Seq<Item>, ix: Seq<(Seq<u8>, u64)>) -> bool {
    forall|i: int| 0 <= i < ix.len() ==> is_anchor(run, #[trigger] ix[i])
}

/// Which version an index entry names.
pub proof fn lemma_anchor(run: Seq<Item>, ix: Seq<(Seq<u8>, u64)>, i: int) -> (j: int)
    requires
        anchored(run, ix),
        0 <= i < ix.len(),
    ensures
        anchors(run, ix[i], j),
{
    reveal(is_anchor);
    choose|j: int| anchors(run, ix[i], j)
}

impl SSTable {
    /// The filter is one.
    pub open spec fn wf(&self) -> bool {
        self.bloom.wf()
    }

    /// The table holds a list that is in order, and its filter, its index and
    /// its key range are those of the list.
    pub open spec fn holds(&self, run: Seq<Item>) -> bool {
        &&& in_order(run)
        &&& forall|i: int| 0 <= i < run.len() ==> fits(#[trigger] run[i])
        &&& self.data@ == encoded(run)
        &&& self.data@.len() <= usize::MAX
        &&& run.len() > 0 ==> self.meta.min_key@ == run[0].0.0 && self.meta.max_key@
            == run.last().0.0
        &&& filters(self.bloom, run)
        &&& index_ascends(indexed(self.index@))
        &&& anchored(run, indexed(self.index@))
    }

    /// Validates the frame of a table: its footer and its checksum.
    fn read_footer(file: &[u8]) -> (r: Result<Footer, Error>)
        ensures
            match r {
                Ok(f) => framed(file@) && f == footer_in(footer_part(file@)) && tiles(
                    f,
                    file@.len() as int,
                ) && file@.len() >= FOOTER_LEN,
                Err(e) => e is Corruption && !framed(file@),
            },
    {
        let n: usize = file.len();
        if n < FOOTER_LEN {
            return Err(Error::corrupt("sstable is smaller than a footer"));
        }
        let body_len: usize = n - FOOTER_LEN;
        let footer: Footer = match Footer::parse(slice_subrange(file, body_len, n), n as u64) {
            Ok(f) => f,
            Err(e) => return Err(e),
        };
        if crc32_of(slice_subrange(file, 0, body_len)) != footer.crc {
            return Err(Error::corrupt("sstable CRC mismatch"));
        }
        Ok(footer)
    }

    /// Parses the filter section.
    fn read_filter(bytes: &[u8]) -> (r: Result<BloomFilter, Error>)
        ensures
            match r {
                Ok(f) => f.wf() && filter_holds(f, bytes@) && is_filter(bytes@),
                Err(e) => e is Corruption && !is_filter(bytes@),
            },
    {
        reveal(is_filter);
        reveal(filter_holds);
        BloomFilter::decode(bytes)
    }

    /// Opens and fully validates the table in `file`.
    ///
    /// The CRC over data + bloom + index is verified here, once; a mismatch is
    /// reported as [`Error::Corruption`] and the table is never used.
    #[verifier::rlimit(60)]
    pub fn open(file: &[u8], id: u64, level: u32) -> (r: Result<SSTable, Error>)
        ensures
            match r {
                Ok(t) => opened(file@, id, level, t),
                Err(e) => e is Corruption && !readable(file@),
            },
    {
        let footer: Footer = match SSTable::read_footer(file) {
            Ok(f) => f,
            Err(e) => return Err(e),
        };
        let n: usize = file.len();
        let body_len: usize = n - FOOTER_LEN;
        let bloom_start: usize = footer.bloom_offset as usize;
        let index_start: usize = footer.index_offset as usize;
        let bloom: BloomFilter = match SSTable::read_filter(
            slice_subrange(file, bloom_start, index_start),
        ) {
            Ok(f) => f,
            Err(e) => return Err(e),
        };
        let index: Vec<(Vec<u8>, u64)> = match SSTable::decode_index(
            slice_subrange(file, index_start, body_len),
            footer.index_count,
        ) {
            Ok(v) => v,
            Err(e) => return Err(e),
        };
        let data: Vec<u8> = copy_range(file, 0, bloom_start);
        let (min_key, max_key): (Vec<u8>, Vec<u8>) = match SSTable::scan_key_bounds(
            data.as_slice(),
        ) {
            Ok(b) => b,
            Err(e) => return Err(e),
        };
        let ghost fp = footer_in(footer_part(file@));
        let t: SSTable =
            SSTable {
                meta: TableMeta {
                    id,
                    level,
                    min_key,
                    max_key,
                    min_seqno: footer.min_seqno,
                    max_seqno: footer.max_seqno,
                    entry_count: footer.entry_count,
                    file_bytes: n as u64,
                },
                data,
                bloom,
                index,
            };
        assert(t.data@ == data_part(file@));
        assert(filter_holds(t.bloom, bloom_part(file@)));
        assert(Some(indexed(t.index@)) == index_in(index_part(file@), 0));
        assert(readable(file@));
        assert(t.meta@.min_key =~= summary_of(file@, id, level).min_key);
        assert(t.meta@.max_key =~= summary_of(file@, id, level).max_key);
        assert(t.meta@ == summary_of(file@, id, level));
        Ok(t)
    }

    /// Parses the sparse index, bounds-checking every entry.
    pub fn decode_index(buf: &[u8], count: u64) -> (r: Result<Vec<(Vec<u8>, u64)>, Error>)
        ensures
            match r {
                Ok(v) => index_ok(buf@, count) && index_in(buf@, 0) == Some(indexed(v@)),
                Err(e) => e is Corruption && !index_ok(buf@, count),
            },
    {
        let ghost b = buf@;
        let n: usize = buf.len();
        let mut index: Vec<(Vec<u8>, u64)> = Vec::new();
        let mut pos: usize = 0;
        proof {
            match index_in(b, 0) {
                Some(all) => {
                    assert(indexed(index@) + all =~= all);
                },
                None => {},
            }
        }
        while pos < n
            invariant
                pos <= n,
                n == buf@.len(),
                b == buf@,
                index_in(b, 0) == (match index_in(b, pos as int) {
                    Some(rest) => Some(indexed(index@) + rest),
                    None => None::<Seq<(Seq<u8>, u64)>>,
                }),
            decreases n - pos,
        {
            if n - pos < 12 {
                return Err(Error::corrupt("sstable index entry header truncated"));
            }
            let key_len: u32 = get_u32(buf, pos);
            let offset: u64 = get_u64(buf, pos + 4);
            let key_start: usize = pos + 12;
            if n - key_start < key_len as usize {
                return Err(Error::corrupt("sstable index key runs past the section"));
            }
            let key_end: usize = key_start + key_len as usize;
            let ghost was = indexed(index@);
            let ghost r = (b.subrange(key_start as int, key_end as int), offset);
            assert(restart_at(b, pos as int) == Some((r, key_end as int)));
            index.push((copy_range(buf, key_start, key_end), offset));
            proof {
                assert(indexed(index@) =~= was.push(r));
                match index_in(b, key_end as int) {
                    Some(rest) => {
                        assert(was + (seq![r] + rest) =~= was.push(r) + rest);
                    },
                    None => {},
                }
            }
            pos = key_end;
        }
        assert(indexed(index@) + Seq::<(Seq<u8>, u64)>::empty() =~= indexed(index@));
        if index.len() as u64 != count {
            return Err(Error::corrupt("sstable index has another length than the footer declares"));
        }
        Ok(index)
    }

    /// Walks the data section once to recover the true key bounds.
    pub fn scan_key_bounds(data: &[u8]) -> (r: Result<(Vec<u8>, Vec<u8>), Error>)
        ensures
            match r {
                Ok((min, max)) => match stored(data@, 0) {
                    Some(run) => if run.len() == 0 {
                        min@.len() == 0 && max@.len() == 0
                    } else {
                        min@ == run[0].0.0 && max@ == run.last().0.0
                    },
                    None => false,
                },
                Err(e) => e is Corruption && stored(data@, 0) is None,
            },
    {
        let n: usize = data.len();
        if n == 0 {
            return Ok((Vec::new(), Vec::new()));
        }
        let (first, _, next): (InternalKey, ValueSlot, usize) = match decode_entry(data, 0) {
            Ok(x) => x,
            Err(e) => return Err(e),
        };
        let min: Vec<u8> = first.user_key;
        let mut max: Vec<u8> = copy_bytes(min.as_slice());
        let mut pos: usize = next;
        let ghost e0 = (entry_at(data@, 0)->0).0;
        let ghost mut read: Seq<Item> = seq![e0];
        while pos < n
            invariant
                0 < pos,
                n == data@.len(),
                pos <= n,
                read.len() > 0,
                min@ == read[0].0.0,
                max@ == read.last().0.0,
                stored(data@, 0) == (match stored(data@, pos as int) {
                    Some(rest) => Some(read + rest),
                    None => None::<Seq<Item>>,
                }),
            decreases n - pos,
        {
            let (ik, _, after): (InternalKey, ValueSlot, usize) = match decode_entry(data, pos) {
                Ok(x) => x,
                Err(e) => return Err(e),
            };
            proof {
                let e = (entry_at(data@, pos as int)->0).0;
                match stored(data@, after as int) {
                    Some(rest) => {
                        assert(read + (seq![e] + rest) =~= read.push(e) + rest);
                    },
                    None => {},
                }
                read = read.push(e);
            }
            max = ik.user_key;
            pos = after;
        }
        assert(read + Seq::<Item>::empty() =~= read);
        Ok((min, max))
    }

    /// Cached metadata for this table.
    #[must_use]
    pub fn meta(&self) -> (m: &TableMeta)
        ensures
            *m == self.meta,
    {
        &self.meta
    }

    /// The table's Bloom filter.
    #[must_use]
    pub fn bloom(&self) -> (f: &BloomFilter)
        ensures
            *f == self.bloom,
    {
        &self.bloom
    }

    /// Number of entries held.
    #[must_use]
    pub fn entry_count(&self) -> (n: u64)
        ensures
            n == self.meta.entry_count,
    {
        self.meta.entry_count
    }

    /// Reads `key` as visible to `snapshot`.
    ///
    /// Fast paths, cheapest first: key range check, then Bloom filter, then a
    /// binary search of the sparse index followed by a linear scan.
    pub fn get(&self, key: &[u8], snapshot: u64) -> (r: Result<Lookup, Error>)
        requires
            self.wf(),
        ensures
            forall|run: Seq<Item>| #[trigger]
                self.holds(run) ==> r is Ok && r->Ok_0@ == seen(versions(run), key@, snapshot),
            self.passes_by(key@) ==> r is Ok && r->Ok_0@ is None,
            !self.passes_by(key@) ==> exists|start: usize| #[trigger]
                self.starts(start) && answers(r, scan(self.data@, start as int, key@, snapshot)),
    {
        if self.data.len() == 0 || !self.meta.may_contain(key) || !self.bloom.contains(key) {
            proof {
                assert forall|run: Seq<Item>| #[trigger] self.holds(run) implies seen(
                    versions(run),
                    key@,
                    snapshot,
                ) is None by {
                    self.lemma_passed_by(run, key@, snapshot);
                }
            }
            return Ok(Lookup::Absent);
        }
        let start: usize = self.seek_offset(key);
        let n: usize = self.data.len();
        let mut pos: usize = start;
        proof {
            assert forall|run: Seq<Item>| #[trigger] self.holds(run) implies scan(
                self.data@,
                start as int,
                key@,
                snapshot,
            ) == Some(seen(versions(run), key@, snapshot)) by {
                self.lemma_sought(run, key@, start, snapshot);
            }
        }
        while pos < n
            invariant
                n == self.data@.len(),
                self.starts(start),
                !self.passes_by(key@),
                scan(self.data@, start as int, key@, snapshot) == scan(
                    self.data@,
                    pos as int,
                    key@,
                    snapshot,
                ),
                forall|run: Seq<Item>| #[trigger]
                    self.holds(run) ==> scan(self.data@, start as int, key@, snapshot) == Some(
                        seen(versions(run), key@, snapshot),
                    ),
            decreases n - pos,
        {
            let (ik, slot, next): (InternalKey, ValueSlot, usize) = match decode_entry(
                self.data.as_slice(),
                pos,
            ) {
                Ok(x) => x,
                Err(e) => {
                    let r: Result<Lookup, Error> = Err(e);
                    assert(answers(r, scan(self.data@, start as int, key@, snapshot)));
                    return r;
                },
            };
            proof {
                lemma_lex_irreflexive(key@);
            }
            match order(ik.user_key.as_slice(), key) {
                Order::Less => {},
                Order::Equal => {
                    if ik.seqno <= snapshot {
                        let r: Result<Lookup, Error> = Ok(
                            match slot {
                                Some(v) => Lookup::Found(v),
                                None => Lookup::Deleted,
                            },
                        );
                        assert(answers(r, scan(self.data@, start as int, key@, snapshot)));
                        return r;
                    }
                },
                Order::Greater => {
                    let r: Result<Lookup, Error> = Ok(Lookup::Absent);
                    assert(answers(r, scan(self.data@, start as int, key@, snapshot)));
                    return r;
                },
            }
            pos = next;
        }
        let r: Result<Lookup, Error> = Ok(Lookup::Absent);
        assert(answers(r, scan(self.data@, start as int, key@, snapshot)));
        r
    }

    /// The key range or the filter excludes the key.
    pub open spec fn passes_by(&self, key: Seq<u8>) -> bool {
        ||| self.data@.len() == 0
        ||| !(lex_le(self.meta.min_key@, key) && lex_le(key, self.meta.max_key@))
        ||| !probes(key, self.bloom.num_hashes, self.bloom.num_bits).subset_of(self.bloom@)
    }

    /// A scan may start there: at the first entry or at one that the index
    /// names.
    pub open spec fn starts(&self, start: usize) -> bool {
        start == 0 || exists|i: int|
            0 <= i < self.index@.len() && (#[trigger] self.index@[i]).1 as usize == start
    }

    /// Largest index offset whose key is `<= key`, i.e. where to start scanning.
    fn seek_offset(&self, key: &[u8]) -> (start: usize)
        ensures
            self.starts(start),
            index_ascends(indexed(self.index@)) ==> exists|n: int|
                sought(indexed(self.index@), key@, n) && start == if n == 0 {
                    0
                } else {
                    self.index@[n - 1].1 as usize
                },
    {
        let ghost ix = indexed(self.index@);
        let ghost sorted = index_ascends(ix);
        let mut lo: usize = 0;
        let mut hi: usize = self.index.len();
        while lo < hi
            invariant
                lo <= hi <= self.index@.len(),
                ix == indexed(self.index@),
                sorted == index_ascends(ix),
                sorted ==> forall|m: int| 0 <= m < lo ==> lex_le((#[trigger] ix[m]).0, key@),
                sorted ==> forall|m: int| hi <= m < ix.len() ==> lex_lt(key@, (#[trigger] ix[m]).0),
            decreases hi - lo,
        {
            let mid: usize = lo + (hi - lo) / 2;
            assert(ix[mid as int].0 == self.index@[mid as int].0@);
            proof {
                lemma_not_before(ix[mid as int].0, key@);
            }
            if before(key, self.index[mid].0.as_slice()) {
                proof {
                    if sorted {
                        assert forall|m: int| mid <= m < ix.len() implies lex_lt(
                            key@,
                            (#[trigger] ix[m]).0,
                        ) by {
                            if m > mid {
                                lemma_lex_transitive(key@, ix[mid as int].0, ix[m].0);
                            }
                        }
                    }
                }
                hi = mid;
            } else {
                proof {
                    if sorted {
                        assert forall|m: int| 0 <= m < mid + 1 implies lex_le(
                            (#[trigger] ix[m]).0,
                            key@,
                        ) by {
                            if m < mid && lex_lt(ix[mid as int].0, key@) {
                                lemma_lex_transitive(ix[m].0, ix[mid as int].0, key@);
                            }
                        }
                    }
                }
                lo = mid + 1;
            }
        }
        assert(sorted ==> sought(ix, key@, lo as int));
        if lo == 0 {
            0
        } else {
            assert(self.index@[lo - 1].1 as usize == self.index@[lo - 1].1 as usize);
            self.index[lo - 1].1 as usize
        }
    }

    /// Every entry in the table, in stored order.
    pub fn entries(&self) -> (r: Result<Vec<(InternalKey, ValueSlot)>, Error>)
        ensures
            match r {
                Ok(v) => stored(self.data@, 0) == Some(items(v@)),
                Err(e) => e is Corruption && stored(self.data@, 0) is None,
            },
    {
        let ghost data = self.data@;
        let n: usize = self.data.len();
        let mut out: Vec<(InternalKey, ValueSlot)> = Vec::new();
        let mut pos: usize = 0;
        proof {
            match stored(data, 0) {
                Some(all) => {
                    assert(items(out@) + all =~= all);
                },
                None => {},
            }
        }
        while pos < n
            invariant
                n == self.data@.len(),
                data == self.data@,
                pos <= n,
                stored(data, 0) == (match stored(data, pos as int) {
                    Some(rest) => Some(items(out@) + rest),
                    None => None::<Seq<Item>>,
                }),
            decreases n - pos,
        {
            let (ik, slot, next): (InternalKey, ValueSlot, usize) = match decode_entry(
                self.data.as_slice(),
                pos,
            ) {
                Ok(x) => x,
                Err(e) => return Err(e),
            };
            let ghost was = items(out@);
            let ghost e = (ik@, slot_of(slot));
            out.push((ik, slot));
            proof {
                assert(items(out@) =~= was.push(e));
                match stored(data, next as int) {
                    Some(rest) => {
                        assert(was + (seq![e] + rest) =~= was.push(e) + rest);
                    },
                    None => {},
                }
            }
            pos = next;
        }
        assert(items(out@) + Seq::<Item>::empty() =~= items(out@));
        Ok(out)
    }

    proof fn lemma_passed_by(&self, run: Seq<Item>, key: Seq<u8>, snapshot: u64)
        requires
            self.holds(run),
            self.passes_by(key),
        ensures
            seen(versions(run), key, snapshot) is None,
    {
        assert forall|i: int| 0 <= i < run.len() implies (#[trigger] run[i]).0.0 != key by {
            if run[i].0.0 == key {
                lemma_encoded_len(run);
                assert forall|b: int| probes(
                    key,
                    self.bloom.num_hashes,
                    self.bloom.num_bits,
                ).contains(b) implies self.bloom@.contains(b) by {
                    assert(probes(
                        run[i].0.0,
                        self.bloom.num_hashes,
                        self.bloom.num_bits,
                    ).contains(b));
                }
                if i > 0 {
                    assert(version_lt(run[0].0, run[i].0));
                }
                if i < run.len() - 1 {
                    assert(version_lt(run[i].0, run[run.len() - 1].0));
                }
            }
        }
        lemma_unseen(run, key, snapshot);
    }

    proof fn lemma_sought(&self, run: Seq<Item>, key: Seq<u8>, start: usize, snapshot: u64)
        requires
            self.holds(run),
            exists|n: int|
                sought(indexed(self.index@), key, n) && start == if n == 0 {
                    0
                } else {
                    self.index@[n - 1].1 as usize
                },
        ensures
            scan(self.data@, start as int, key, snapshot) == Some(
                seen(versions(run), key, snapshot),
            ),
    {
        let ix = indexed(self.index@);
        let n = choose|n: int|
            sought(ix, key, n) && start == if n == 0 {
                0
            } else {
                self.index@[n - 1].1 as usize
            };
        if n == 0 {
            assert(run.subrange(0, 0) =~= Seq::<Item>::empty());
            lemma_stored(run, 0);
            lemma_scan(run, self.data@, 0, 0, key, snapshot);
        } else {
            let r = ix[n - 1];
            let j = lemma_anchor(run, ix, n - 1);
            lemma_stored(run, j);
            crate::lsm::entry::lemma_piece(run, j);
            assert(r.1 == place(run, j));
            assert(start == place(run, j));
            assert forall|i: int| 0 <= i < j && (#[trigger] run[i]).0.0 == key implies run[i].0.1
                > snapshot by {
                lemma_lex_irreflexive(key);
                if lex_lt(r.0, key) {
                    lemma_lex_asymmetric(run[i].0.0, r.0);
                }
            }
            lemma_scan(run, self.data@, start as int, j, key, snapshot);
        }
    }
}

/// The result says what the scan found.
pub open spec fn answers(
    r: Result<Lookup, Error>,
    found: Option<Option<Option<Seq<u8>>>>,
) -> bool {
    match r {
        Ok(l) => found == Some(l@),
        Err(e) => e is Corruption && found is None,
    }
}

/// `n` index keys are at or before `key`, and they are the first.
spec fn sought(ix: Seq<(Seq<u8>, u64)>, key: Seq<u8>, n: int) -> bool {
    &&& 0 <= n <= ix.len()
    &&& forall|m: int| 0 <= m < n ==> lex_le((#[trigger] ix[m]).0, key)
    &&& forall|m: int| n <= m < ix.len() ==> lex_lt(key, (#[trigger] ix[m]).0)
}

} // verus!

//! Fixed-size 4 KiB slotted pages with CRC32 integrity protection.
//!
//! Every page is exactly [`PAGE_SIZE`] bytes and begins with a 32-byte header:
//!
//! ```text
//!  offset  size  field
//!   0       4    crc32        CRC32 of bytes [4..4096]
//!   4       4    page_id
//!   8       4    parent_id    SENTINEL when root or not applicable
//!  12       4    extra        leaf: next leaf, internal: leftmost child, overflow: next
//!  16       2    num_keys
//!  18       2    cell_start   offset where the cell heap begins (grows downward)
//!  20       1    page_type    0 free, 1 internal, 2 leaf, 3 overflow, 4 meta
//!  21       1    is_leaf      1 for leaf pages, 0 otherwise
//!  22       2    flags
//!  24       8    lsn          sequence number of the last modification
//! ```
//!
//! The remainder is a slotted page: a directory of 4-byte `(offset, len)`
//! pairs grows upward from byte 32, while variable-length cells are appended
//! downward from byte 4096. Free space is the gap between them.

use crate::bytes::{
    copy_bytes, copy_range, get_u16, get_u32, get_u64, le16, le32, le64, lemma_lex_asymmetric,
    lemma_lex_transitive, lemma_u16_roundtrip, lemma_u32_roundtrip, lemma_u64_roundtrip, lex_lt,
    order, push_bytes, push_u16, push_u32, push_u64, u16_at, u32_at, u64_at, write_at, Order,
};
use crate::checksum::{crc32, crc32_of};
use crate::error::{Error, Result};
use vstd::prelude::*;

verus! {

/// Size of every page in bytes.
pub const PAGE_SIZE: usize = 4096;

/// Size of the fixed page header in bytes.
pub const PAGE_HEADER_SIZE: usize = 32;

/// Bytes consumed by one slot-directory entry.
pub const SLOT_SIZE: usize = 4;

/// Sentinel for "no such page".
pub const SENTINEL: u32 = 0xFFFF_FFFF;

/// Largest key the engine can store in a page.
pub const MAX_KEY_SIZE: usize = 1024;

/// Largest value stored inline in a leaf cell. Anything larger spills into an
/// overflow-page chain.
pub const MAX_INLINE_VALUE: usize = 1024;

/// Payload capacity of a single overflow page.
pub const OVERFLOW_PAYLOAD: usize = 4056;

/// Usable space for slots and cells on a normal page.
pub const USABLE_SPACE: usize = 4064;

/// Discriminates the page kinds.
#[derive(Debug, Clone, Copy, PartialEq, Eq, Structural)]
pub enum PageType {
    /// Page is on the free list.
    Free,
    /// Interior tree node: separator keys and child pointers.
    Internal,
    /// Leaf tree node: keys and values.
    Leaf,
    /// Continuation page of a large value.
    Overflow,
    /// Page 0: database metadata.
    Meta,
}

/// The kind that a type byte stands for.
pub open spec fn type_from(v: u8) -> Option<PageType> {
    if v == 0 {
        Some(PageType::Free)
    } else if v == 1 {
        Some(PageType::Internal)
    } else if v == 2 {
        Some(PageType::Leaf)
    } else if v == 3 {
        Some(PageType::Overflow)
    } else if v == 4 {
        Some(PageType::Meta)
    } else {
        None
    }
}

/// The type byte of a kind.
pub open spec fn type_byte(t: PageType) -> u8 {
    match t {
        PageType::Free => 0,
        PageType::Internal => 1,
        PageType::Leaf => 2,
        PageType::Overflow => 3,
        PageType::Meta => 4,
    }
}

impl PageType {
    fn from_u8(v: u8) -> (r: Result<PageType>)
        ensures
            match r {
                Ok(t) => type_from(v) == Some(t),
                Err(e) => type_from(v) is None && e is Corruption,
            },
    {
        match v {
            0 => Ok(PageType::Free),
            1 => Ok(PageType::Internal),
            2 => Ok(PageType::Leaf),
            3 => Ok(PageType::Overflow),
            4 => Ok(PageType::Meta),
            _ => Err(Error::corrupt("unknown page type")),
        }
    }

    fn to_u8(self) -> (v: u8)
        ensures
            v == type_byte(self),
            type_from(v) == Some(self),
    {
        match self {
            PageType::Free => 0,
            PageType::Internal => 1,
            PageType::Leaf => 2,
            PageType::Overflow => 3,
            PageType::Meta => 4,
        }
    }
}

/// One decoded leaf cell.
#[derive(Debug, PartialEq, Eq)]
pub struct LeafCell {
    /// Full key bytes.
    pub key: Vec<u8>,
    /// Inline value bytes (empty when `overflow` is set).
    pub value: Vec<u8>,
    /// Total value length including overflow bytes.
    pub total_len: u32,
    /// First page of the overflow chain, or `None` when the value is inline.
    pub overflow: Option<u32>,
}

// ---- what the bytes of a page say ------------------------------------------

/// The page's identifier.
pub open spec fn page_id_of(b: Seq<u8>) -> u32 {
    u32_at(b, 4)
}

/// The parent page's identifier.
pub open spec fn parent_of(b: Seq<u8>) -> u32 {
    u32_at(b, 8)
}

/// The overloaded pointer: next leaf, leftmost child or next overflow page.
pub open spec fn extra_of(b: Seq<u8>) -> u32 {
    u32_at(b, 12)
}

/// Number of cells.
pub open spec fn num_keys_of(b: Seq<u8>) -> u16 {
    u16_at(b, 16)
}

/// Where the cell heap begins.
pub open spec fn cell_start_of(b: Seq<u8>) -> u16 {
    u16_at(b, 18)
}

/// The page's kind, when its type byte is known.
pub open spec fn type_of(b: Seq<u8>) -> Option<PageType> {
    type_from(b[20])
}

/// Whether the leaf byte is set.
pub open spec fn is_leaf_of(b: Seq<u8>) -> bool {
    b[21] == 1
}

/// The flag bits.
pub open spec fn flags_of(b: Seq<u8>) -> u16 {
    u16_at(b, 22)
}

/// The sequence number of the last modification.
pub open spec fn lsn_of(b: Seq<u8>) -> u64 {
    u64_at(b, 24)
}

/// Where cell `i` begins, by the slot directory.
pub open spec fn slot_off(b: Seq<u8>, i: int) -> int {
    u16_at(b, 32 + 4 * i) as int
}

/// How long cell `i` is, by the slot directory.
pub open spec fn slot_len(b: Seq<u8>, i: int) -> int {
    u16_at(b, 34 + 4 * i) as int
}

/// Whether slot `i` exists and stays inside the page.
pub open spec fn slot_ok(b: Seq<u8>, i: int) -> bool {
    &&& 0 <= i < num_keys_of(b)
    &&& 36 + 4 * i <= 4096
    &&& 32 <= slot_off(b, i)
    &&& slot_off(b, i) + slot_len(b, i) <= 4096
}

/// The bytes of cell `i`.
pub open spec fn cell_of(b: Seq<u8>, i: int) -> Seq<u8> {
    b.subrange(slot_off(b, i), slot_off(b, i) + slot_len(b, i))
}

/// All cells, in slot order.
pub open spec fn cells_of(b: Seq<u8>) -> Seq<Seq<u8>> {
    Seq::new(num_keys_of(b) as nat, |i: int| cell_of(b, i))
}

/// The slot directory stays below the heap and every slot stays inside it.
pub open spec fn structured(b: Seq<u8>) -> bool {
    &&& 32 + 4 * num_keys_of(b) <= cell_start_of(b) <= 4096
    &&& forall|i: int|
        0 <= i < num_keys_of(b) ==> cell_start_of(b) <= #[trigger] slot_off(b, i) && slot_off(b, i)
            + slot_len(b, i) <= 4096
}

/// Total length of a list of cells.
pub open spec fn cell_bytes(cells: Seq<Seq<u8>>) -> nat
    decreases cells.len(),
{
    if cells.len() == 0 {
        0
    } else {
        cell_bytes(cells.drop_last()) + cells.last().len()
    }
}

/// Bytes that a list of cells takes up, slots and all.
pub open spec fn used_bytes(cells: Seq<Seq<u8>>) -> nat {
    cell_bytes(cells) + 4 * cells.len()
}

/// The gap between the slot directory and the heap.
pub open spec fn free_of(b: Seq<u8>) -> nat {
    let gap = cell_start_of(b) - (32 + 4 * num_keys_of(b));
    if gap < 0 {
        0
    } else {
        gap as nat
    }
}

/// No two cells share heap space, counted in bytes.
pub open spec fn heap_ok(b: Seq<u8>) -> bool {
    cell_bytes(cells_of(b)) <= 4096 - cell_start_of(b)
}

/// Everything in the header but the checksum, the cell count and the start of
/// the heap is the same.
pub open spec fn same_header(a: Seq<u8>, b: Seq<u8>) -> bool {
    &&& page_id_of(a) == page_id_of(b)
    &&& parent_of(a) == parent_of(b)
    &&& extra_of(a) == extra_of(b)
    &&& a[20] == b[20]
    &&& a[21] == b[21]
    &&& flags_of(a) == flags_of(b)
    &&& lsn_of(a) == lsn_of(b)
}

/// Whether the stored checksum matches the contents.
pub open spec fn crc_ok(b: Seq<u8>) -> bool {
    u32_at(b, 0) == crc32(b.subrange(4, 4096))
}

/// Whether structure validation accepts the page.
pub open spec fn structure_ok(b: Seq<u8>) -> bool {
    match type_of(b) {
        None => false,
        Some(PageType::Internal) | Some(PageType::Leaf) => structured(b),
        Some(_) => true,
    }
}

/// 4096 zero bytes.
pub open spec fn zero_page() -> Seq<u8> {
    Seq::new(4096, |i: int| 0u8)
}

/// The page with its checksum brought up to date.
pub open spec fn sealed(b: Seq<u8>) -> Seq<u8> {
    write_at(b, 0, le32(crc32(b.subrange(4, 4096))))
}

/// A page just made by [`Page::new`].
pub open spec fn fresh(b: Seq<u8>, page_id: u32, page_type: PageType) -> bool {
    &&& b.len() == 4096
    &&& page_id_of(b) == page_id
    &&& parent_of(b) == SENTINEL
    &&& extra_of(b) == SENTINEL
    &&& num_keys_of(b) == 0
    &&& cell_start_of(b) == 4096
    &&& type_of(b) == Some(page_type)
    &&& is_leaf_of(b) == (page_type == PageType::Leaf)
    &&& flags_of(b) == 0
    &&& lsn_of(b) == 0
    &&& forall|i: int| 32 <= i < 4096 ==> b[i] == 0
    &&& cells_of(b) == Seq::<Seq<u8>>::empty()
    &&& sane(b)
}

/// A single 4 KiB page held in memory.
#[derive(Debug)]
pub struct Page {
    buf: Box<[u8; PAGE_SIZE]>,
}

impl View for Page {
    type V = Seq<u8>;

    closed spec fn view(&self) -> Seq<u8> {
        self.buf@
    }
}

/// A page always holds 4096 bytes.
pub broadcast proof fn lemma_page_len(p: &Page)
    ensures
        (#[trigger] p@).len() == 4096,
{
}

impl Clone for Page {
    fn clone(&self) -> (r: Self)
        ensures
            r@ == self@,
    {
        Page { buf: Box::new(*self.buf) }
    }
}

impl Page {
    fn read_u16(&self, off: usize) -> (v: u16)
        requires
            off + 2 <= 4096,
        ensures
            v == u16_at(self@, off as int),
    {
        self.buf[off] as u16 + 0x100 * (self.buf[off + 1] as u16)
    }

    fn write_u16(&mut self, off: usize, v: u16)
        requires
            off + 2 <= 4096,
        ensures
            final(self)@ == write_at(old(self)@, off as int, le16(v)),
    {
        self.buf[off] = (v % 0x100) as u8;
        self.buf[off + 1] = (v / 0x100) as u8;
        assert(self@ =~= write_at(old(self)@, off as int, le16(v)));
    }

    fn read_u32(&self, off: usize) -> (v: u32)
        requires
            off + 4 <= 4096,
        ensures
            v == u32_at(self@, off as int),
    {
        self.buf[off] as u32 + 0x100 * (self.buf[off + 1] as u32) + 0x1_0000 * (self.buf[off
            + 2] as u32) + 0x100_0000 * (self.buf[off + 3] as u32)
    }

    fn write_u32(&mut self, off: usize, v: u32)
        requires
            off + 4 <= 4096,
        ensures
            final(self)@ == write_at(old(self)@, off as int, le32(v)),
    {
        self.buf[off] = (v % 0x100) as u8;
        self.buf[off + 1] = (v / 0x100 % 0x100) as u8;
        self.buf[off + 2] = (v / 0x1_0000 % 0x100) as u8;
        self.buf[off + 3] = (v / 0x100_0000) as u8;
        assert(self@ =~= write_at(old(self)@, off as int, le32(v)));
    }

    fn write_bytes(&mut self, off: usize, data: &[u8])
        requires
            off + data@.len() <= 4096,
        ensures
            final(self)@ == write_at(old(self)@, off as int, data@),
    {
        let mut i: usize = 0;
        while i < data.len()
            invariant
                i <= data@.len(),
                off + data@.len() <= 4096,
                self@ == write_at(old(self)@, off as int, data@.subrange(0, i as int)),
            decreases data@.len() - i,
        {
            self.buf[off + i] = data[i];
            i += 1;
            assert(self@ =~= write_at(old(self)@, off as int, data@.subrange(0, i as int)));
        }
        assert(data@.subrange(0, i as int) =~= data@);
    }

    /// Allocates a zeroed page and initialises its header.
    pub fn new(page_id: u32, page_type: PageType) -> (p: Self)
        ensures
            fresh(p@, page_id, page_type),
    {
        let mut p = Page { buf: Box::new([0u8;4096]) };
        p.set_page_id(page_id);
        p.set_parent(SENTINEL);
        p.set_extra(SENTINEL);
        p.set_num_keys(0);
        p.set_cell_start(4096);
        p.set_page_type(page_type);
        p.set_lsn(0);
        assert(cells_of(p@) =~= Seq::<Seq<u8>>::empty());
        p
    }

    /// A page of zero bytes, as a freshly grown file holds.
    pub fn zeroed() -> (p: Self)
        ensures
            p@ == zero_page(),
    {
        let p = Page { buf: Box::new([0u8;4096]) };
        assert(p@ =~= zero_page());
        p
    }

    /// Wraps 4096 bytes without looking at them.
    pub fn from_raw(bytes: &[u8]) -> (p: Self)
        requires
            bytes@.len() == 4096,
        ensures
            p@ == bytes@,
    {
        let mut page = Page { buf: Box::new([0u8;4096]) };
        page.write_bytes(0, bytes);
        assert(page@ =~= bytes@);
        page
    }

    /// Wraps an existing 4 KiB buffer and verifies its CRC and structure.
    pub fn from_bytes(bytes: &[u8]) -> (r: Result<Page>)
        ensures
            match r {
                Ok(p) => p@ == bytes@ && crc_ok(bytes@) && structure_ok(bytes@),
                Err(e) => e is Corruption && !(bytes@.len() == 4096 && crc_ok(bytes@)
                    && structure_ok(bytes@)),
            },
    {
        if bytes.len() != PAGE_SIZE {
            return Err(Error::corrupt("page must be 4096 bytes"));
        }
        let page = Page::from_raw(bytes);
        page.verify()?;
        page.validate_structure()?;
        Ok(page)
    }

    /// Raw bytes, for writing to disk. Call [`Page::finalize`] first.
    pub fn as_bytes(&self) -> (b: &[u8; PAGE_SIZE])
        ensures
            b@ == self@,
    {
        &self.buf
    }

    /// This page's identifier.
    pub fn page_id(&self) -> (v: u32)
        ensures
            v == page_id_of(self@),
    {
        self.read_u32(4)
    }

    /// Sets the page identifier.
    pub fn set_page_id(&mut self, v: u32)
        ensures
            final(self)@ == write_at(old(self)@, 4, le32(v)),
            page_id_of(final(self)@) == v,
    {
        self.write_u32(4, v);
        assert(self@.subrange(4, 8) =~= le32(v));
        proof {
            lemma_u32_roundtrip(self@, 4, v);
        }
    }

    /// Parent page id, or [`SENTINEL`] for the root.
    pub fn parent(&self) -> (v: u32)
        ensures
            v == parent_of(self@),
    {
        self.read_u32(8)
    }

    /// Sets the parent page id.
    pub fn set_parent(&mut self, v: u32)
        ensures
            final(self)@ == write_at(old(self)@, 8, le32(v)),
            parent_of(final(self)@) == v,
    {
        self.write_u32(8, v);
        assert(self@.subrange(8, 12) =~= le32(v));
        proof {
            lemma_u32_roundtrip(self@, 8, v);
        }
    }

    /// Overloaded pointer: next leaf, leftmost child or next overflow page.
    pub fn extra(&self) -> (v: u32)
        ensures
            v == extra_of(self@),
    {
        self.read_u32(12)
    }

    /// Sets the overloaded pointer field.
    pub fn set_extra(&mut self, v: u32)
        ensures
            final(self)@ == write_at(old(self)@, 12, le32(v)),
            extra_of(final(self)@) == v,
            page_id_of(final(self)@) == page_id_of(old(self)@),
            type_of(final(self)@) == type_of(old(self)@),
            is_leaf_of(final(self)@) == is_leaf_of(old(self)@),
            structured(final(self)@) == structured(old(self)@),
            structured(old(self)@) ==> cells_of(final(self)@) == cells_of(old(self)@),
            sane(old(self)@) ==> sane(final(self)@),
    {
        self.write_u32(12, v);
        assert(self@.subrange(12, 16) =~= le32(v));
        proof {
            lemma_u32_roundtrip(self@, 12, v);
            lemma_body_same(old(self)@, self@);
        }
    }

    /// Number of cells stored on this page.
    pub fn num_keys(&self) -> (v: u16)
        ensures
            v == num_keys_of(self@),
    {
        self.read_u16(16)
    }

    /// Sets the cell count.
    pub fn set_num_keys(&mut self, v: u16)
        ensures
            final(self)@ == write_at(old(self)@, 16, le16(v)),
            num_keys_of(final(self)@) == v,
    {
        self.write_u16(16, v);
    }

    fn cell_start(&self) -> (v: u16)
        ensures
            v == cell_start_of(self@),
    {
        self.read_u16(18)
    }

    fn set_cell_start(&mut self, v: u16)
        ensures
            final(self)@ == write_at(old(self)@, 18, le16(v)),
            cell_start_of(final(self)@) == v,
    {
        self.write_u16(18, v);
    }

    /// Page kind, or corruption for an unknown type byte.
    pub fn page_type(&self) -> (r: Result<PageType>)
        ensures
            match r {
                Ok(t) => type_of(self@) == Some(t),
                Err(e) => type_of(self@) is None && e is Corruption,
            },
    {
        PageType::from_u8(self.buf[20])
    }

    /// Sets the page kind and keeps the leaf byte in step.
    pub fn set_page_type(&mut self, t: PageType)
        ensures
            final(self)@ == write_at(
                old(self)@,
                20,
                seq![type_byte(t), if t == PageType::Leaf { 1u8 } else { 0u8 }],
            ),
            type_of(final(self)@) == Some(t),
            is_leaf_of(final(self)@) == (t == PageType::Leaf),
    {
        self.buf[20] = t.to_u8();
        self.buf[21] = if t == PageType::Leaf {
            1
        } else {
            0
        };
        assert(self@ =~= write_at(
            old(self)@,
            20,
            seq![type_byte(t), if t == PageType::Leaf { 1u8 } else { 0u8 }],
        ));
    }

    /// True when this page is a tree leaf.
    pub fn is_leaf(&self) -> (v: bool)
        ensures
            v == is_leaf_of(self@),
    {
        self.buf[21] == 1
    }

    /// Implementation-defined flag bits.
    pub fn flags(&self) -> (v: u16)
        ensures
            v == flags_of(self@),
    {
        self.read_u16(22)
    }

    /// Sets the flag bits.
    pub fn set_flags(&mut self, v: u16)
        ensures
            final(self)@ == write_at(old(self)@, 22, le16(v)),
            flags_of(final(self)@) == v,
    {
        self.write_u16(22, v);
    }

    /// Log sequence number of the last modification.
    pub fn lsn(&self) -> (v: u64)
        ensures
            v == lsn_of(self@),
    {
        get_u64(&*self.buf, 24)
    }

    /// Records the log sequence number of the last modification.
    pub fn set_lsn(&mut self, v: u64)
        ensures
            final(self)@ == write_at(old(self)@, 24, le64(v)),
            lsn_of(final(self)@) == v,
    {
        self.write_u64(24, v);
        proof {
            lemma_u64_roundtrip(self@, 24, v);
        }
    }

    fn write_u64(&mut self, off: usize, v: u64)
        requires
            off + 8 <= 4096,
        ensures
            final(self)@ == write_at(old(self)@, off as int, le64(v)),
            final(self)@.subrange(off as int, off + 8) == le64(v),
    {
        self.write_u32(off, (v % 0x1_0000_0000) as u32);
        self.write_u32(off + 4, (v / 0x1_0000_0000) as u32);
        assert(self@ =~= write_at(old(self)@, off as int, le64(v)));
        assert(self@.subrange(off as int, off + 8) =~= le64(v));
    }

    // ---- integrity ----------------------------------------------------------

    /// Computes the CRC32 of everything after the checksum field.
    pub fn compute_crc(&self) -> (c: u32)
        ensures
            c == crc32(self@.subrange(4, 4096)),
    {
        let b: Vec<u8> = copy_range(&*self.buf, 4, 4096);
        crc32_of(&b)
    }

    /// Stores the current CRC32. Must be called immediately before writing.
    pub fn finalize(&mut self)
        ensures
            final(self)@ == sealed(old(self)@),
            crc_ok(final(self)@),
    {
        let crc: u32 = self.compute_crc();
        self.write_u32(0, crc);
        assert(self@.subrange(4, 4096) =~= old(self)@.subrange(4, 4096));
    }

    /// Checksum recorded in the header.
    pub fn stored_crc(&self) -> (v: u32)
        ensures
            v == u32_at(self@, 0),
    {
        self.read_u32(0)
    }

    /// Verifies the CRC32.
    pub fn verify(&self) -> (r: Result<()>)
        ensures
            match r {
                Ok(_) => crc_ok(self@),
                Err(e) => !crc_ok(self@) && e is Corruption,
            },
    {
        let stored: u32 = self.stored_crc();
        let actual: u32 = self.compute_crc();
        if stored != actual {
            return Err(Error::corrupt("page CRC mismatch"));
        }
        Ok(())
    }

    /// Bounds-checks the slot directory so later accessors cannot read outside
    /// the page even if the CRC happens to match hostile bytes.
    pub fn validate_structure(&self) -> (r: Result<()>)
        ensures
            match r {
                Ok(_) => structure_ok(self@),
                Err(e) => !structure_ok(self@) && e is Corruption,
            },
    {
        let ty: PageType = self.page_type()?;
        match ty {
            PageType::Overflow | PageType::Meta | PageType::Free => Ok(()),
            PageType::Internal | PageType::Leaf => if self.is_structured() {
                Ok(())
            } else {
                Err(Error::corrupt("slot directory or cell heap out of bounds"))
            },
        }
    }

    /// Whether the slot directory and every slot stay in bounds.
    pub fn is_structured(&self) -> (r: bool)
        ensures
            r == structured(self@),
    {
        let n: usize = self.num_keys() as usize;
        let cell_start: usize = self.cell_start() as usize;
        if cell_start > PAGE_SIZE || PAGE_HEADER_SIZE + n * SLOT_SIZE > cell_start {
            return false;
        }
        let mut i: usize = 0;
        while i < n
            invariant
                i <= n,
                n == num_keys_of(self@),
                cell_start == cell_start_of(self@),
                32 + 4 * n <= cell_start <= 4096,
                forall|j: int|
                    0 <= j < i ==> cell_start_of(self@) <= #[trigger] slot_off(self@, j)
                        && slot_off(self@, j) + slot_len(self@, j) <= 4096,
            decreases n - i,
        {
            let off: usize = self.read_u16(32 + i * 4) as usize;
            let len: usize = self.read_u16(34 + i * 4) as usize;
            assert(off == slot_off(self@, i as int));
            assert(len == slot_len(self@, i as int));
            if off < cell_start || off + len > PAGE_SIZE {
                return false;
            }
            i += 1;
        }
        true
    }

    // ---- slot directory -----------------------------------------------------

    fn slot(&self, index: usize) -> (r: Result<(usize, usize)>)
        ensures
            match r {
                Ok((off, len)) => slot_ok(self@, index as int) && off == slot_off(
                    self@,
                    index as int,
                ) && len == slot_len(self@, index as int),
                Err(e) => !slot_ok(self@, index as int) && e is Corruption,
            },
    {
        if index >= self.num_keys() as usize {
            return Err(Error::corrupt("slot index beyond the cell count"));
        }
        if PAGE_HEADER_SIZE + index * SLOT_SIZE + SLOT_SIZE > PAGE_SIZE {
            return Err(Error::corrupt("slot directory runs off the page"));
        }
        let off: usize = self.read_u16(32 + index * 4) as usize;
        let len: usize = self.read_u16(34 + index * 4) as usize;
        if off < PAGE_HEADER_SIZE || off + len > PAGE_SIZE {
            return Err(Error::corrupt("slot points outside the page"));
        }
        Ok((off, len))
    }

    fn set_slot(&mut self, index: usize, off: u16, len: u16)
        requires
            36 + 4 * index <= 4096,
        ensures
            final(self)@ == write_at(old(self)@, 32 + 4 * index, le16(off) + le16(len)),
    {
        self.write_u16(32 + index * 4, off);
        self.write_u16(34 + index * 4, len);
        assert(self@ =~= write_at(old(self)@, 32 + 4 * index, le16(off) + le16(len)));
    }

    /// Raw bytes of cell `index`.
    pub fn cell(&self, index: usize) -> (r: Result<&[u8]>)
        ensures
            match r {
                Ok(c) => slot_ok(self@, index as int) && c@ == cell_of(self@, index as int),
                Err(e) => !slot_ok(self@, index as int) && e is Corruption,
            },
    {
        let (off, len) = self.slot(index)?;
        let all: &[u8] = &*self.buf;
        Ok(&all[off..off + len])
    }

    /// Bytes currently available for a new cell, its slot entry counted.
    pub fn free_space(&self) -> (v: usize)
        ensures
            v == free_of(self@),
    {
        let dir_end: usize = PAGE_HEADER_SIZE + self.num_keys() as usize * SLOT_SIZE;
        let start: usize = self.cell_start() as usize;
        if start < dir_end {
            0
        } else {
            start - dir_end
        }
    }
}

/// Structured, with every cell in heap space of its own.
pub open spec fn sane(b: Seq<u8>) -> bool {
    &&& structured(b)
    &&& heap_ok(b)
    &&& disjoint_cells(b)
}

/// No two cells overlap.
pub open spec fn disjoint_cells(b: Seq<u8>) -> bool {
    forall|i: int, j: int|
        0 <= i < j < num_keys_of(b) ==> #[trigger] slot_off(b, i) + slot_len(b, i) <= slot_off(b, j)
            || #[trigger] slot_off(b, j) + slot_len(b, j) <= slot_off(b, i)
}

// ---- arithmetic of cell lists ------------------------------------------------

/// Adding a cell at the end adds its length.
pub proof fn lemma_cell_bytes_push(s: Seq<Seq<u8>>, x: Seq<u8>)
    ensures
        cell_bytes(s.push(x)) == cell_bytes(s) + x.len(),
{
    assert(s.push(x).drop_last() =~= s);
}

/// Inserting a cell anywhere adds its length.
pub proof fn lemma_cell_bytes_insert(s: Seq<Seq<u8>>, i: int, x: Seq<u8>)
    requires
        0 <= i <= s.len(),
    ensures
        cell_bytes(s.insert(i, x)) == cell_bytes(s) + x.len(),
    decreases s.len(),
{
    if i == s.len() {
        assert(s.insert(i, x) =~= s.push(x));
        lemma_cell_bytes_push(s, x);
    } else {
        lemma_cell_bytes_insert(s.drop_last(), i, x);
        assert(s.insert(i, x).drop_last() =~= s.drop_last().insert(i, x));
    }
}

/// Removing a cell takes its length away.
pub proof fn lemma_cell_bytes_remove(s: Seq<Seq<u8>>, i: int)
    requires
        0 <= i < s.len(),
    ensures
        cell_bytes(s.remove(i)) + s[i].len() == cell_bytes(s),
{
    lemma_cell_bytes_insert(s.remove(i), i, s[i]);
    assert(s.remove(i).insert(i, s[i]) =~= s);
}

/// The lengths of two lists add up.
pub proof fn lemma_cell_bytes_concat(a: Seq<Seq<u8>>, b: Seq<Seq<u8>>)
    ensures
        cell_bytes(a + b) == cell_bytes(a) + cell_bytes(b),
    decreases b.len(),
{
    if b.len() == 0 {
        assert(a + b =~= a);
    } else {
        lemma_cell_bytes_concat(a, b.drop_last());
        assert((a + b).drop_last() =~= a + b.drop_last());
    }
}

/// A prefix is no longer than the whole.
pub proof fn lemma_cell_bytes_prefix(s: Seq<Seq<u8>>, k: int)
    requires
        0 <= k <= s.len(),
    ensures
        cell_bytes(s.take(k)) <= cell_bytes(s),
        k < s.len() ==> cell_bytes(s.take(k + 1)) == cell_bytes(s.take(k)) + s[k].len(),
{
    assert(s =~= s.take(k) + s.skip(k));
    lemma_cell_bytes_concat(s.take(k), s.skip(k));
    if k < s.len() {
        assert(s.take(k + 1) =~= s.take(k).push(s[k]));
        lemma_cell_bytes_push(s.take(k), s[k]);
    }
}

impl Page {
    /// Inserts raw cell bytes at slot position `index`, shifting later slots.
    ///
    /// Reports a full page when it cannot accommodate the cell even after
    /// compaction; the caller is expected to split.
    pub fn insert_cell_at(&mut self, index: usize, cell: &[u8]) -> (r: Result<()>)
        requires
            structured(old(self)@),
        ensures
            structured(final(self)@),
            sane(old(self)@) ==> sane(final(self)@),
            same_header(old(self)@, final(self)@),
            ({
                let cells = cells_of(old(self)@);
                let fits = cell@.len() + 4 <= free_of(old(self)@) || used_bytes(cells) + cell@.len()
                    + 4 <= USABLE_SPACE;
                match r {
                    Ok(_) => index <= cells.len() && fits && cells_of(final(self)@)
                        == cells.insert(index as int, cell@),
                    Err(e) => cells_of(final(self)@) == cells && if index > cells.len() {
                        e is InvalidArgument && final(self)@ == old(self)@
                    } else if used_bytes(cells) > USABLE_SPACE {
                        e is Corruption && !fits
                    } else {
                        e is Full && !fits
                    },
                }
            }),
            sane(old(self)@) && index <= num_keys_of(old(self)@) ==> (r is Ok <==> used_bytes(
                cells_of(old(self)@),
            ) + cell@.len() + 4 <= USABLE_SPACE),
    {
        let n: usize = self.num_keys() as usize;
        if index > n {
            return Err(Error::invalid("slot index beyond the cell count"));
        }
        if cell.len() > PAGE_SIZE || cell.len() + SLOT_SIZE > self.free_space() {
            self.compact()?;
            if cell.len() > PAGE_SIZE || cell.len() + SLOT_SIZE > self.free_space() {
                return Err(Error::full("page cannot fit the cell"));
            }
        }
        let ghost b0 = self@;
        let new_start: usize = self.cell_start() as usize - cell.len();
        self.write_bytes(new_start, cell);
        self.set_cell_start(new_start as u16);
        let from: usize = PAGE_HEADER_SIZE + index * SLOT_SIZE;
        let to: usize = PAGE_HEADER_SIZE + n * SLOT_SIZE;
        let tail: Vec<u8> = copy_range(&*self.buf, from, to);
        self.write_bytes(from + SLOT_SIZE, &tail);
        self.set_slot(index, new_start as u16, cell.len() as u16);
        self.set_num_keys((n + 1) as u16);
        proof {
            lemma_inserted(b0, self@, index as int, cell@, new_start as int);
        }
        Ok(())
    }

    /// Removes the cell at `index`. Space is reclaimed by [`Page::compact`].
    pub fn remove_cell_at(&mut self, index: usize) -> (r: Result<()>)
        requires
            structured(old(self)@),
        ensures
            structured(final(self)@),
            sane(old(self)@) ==> sane(final(self)@),
            same_header(old(self)@, final(self)@),
            match r {
                Ok(_) => index < cells_of(old(self)@).len() && cells_of(final(self)@) == cells_of(
                    old(self)@,
                ).remove(index as int),
                Err(e) => e is InvalidArgument && index >= cells_of(old(self)@).len()
                    && final(self)@ == old(self)@,
            },
    {
        let n: usize = self.num_keys() as usize;
        if index >= n {
            return Err(Error::invalid("slot index beyond the cell count"));
        }
        let from: usize = PAGE_HEADER_SIZE + (index + 1) * SLOT_SIZE;
        let to: usize = PAGE_HEADER_SIZE + n * SLOT_SIZE;
        let tail: Vec<u8> = copy_range(&*self.buf, from, to);
        self.write_bytes(from - SLOT_SIZE, &tail);
        self.set_num_keys((n - 1) as u16);
        proof {
            let b = old(self)@;
            let c = self@;
            assert forall|i: int| 0 <= i < n - 1 implies #[trigger] slot_off(c, i) == (if i < index {
                slot_off(b, i)
            } else {
                slot_off(b, i + 1)
            }) && slot_len(c, i) == (if i < index {
                slot_len(b, i)
            } else {
                slot_len(b, i + 1)
            }) by {
                let k = 32 + 4 * i;
                let d = if i < index {
                    0int
                } else {
                    4int
                };
                assert(c[k] == b[k + d]);
                assert(c[k + 1] == b[k + 1 + d]);
                assert(c[k + 2] == b[k + 2 + d]);
                assert(c[k + 3] == b[k + 3 + d]);
            }
            assert forall|i: int| 0 <= i < n - 1 implies #[trigger] cell_of(c, i) == (if i < index {
                cell_of(b, i)
            } else {
                cell_of(b, i + 1)
            }) by {
                let o = slot_off(c, i);
                let j = if i < index {
                    i
                } else {
                    i + 1
                };
                assert(slot_off(b, j) == o);
                assert(cell_of(c, i) =~= cell_of(b, j));
            }
            assert(cells_of(c) =~= cells_of(b).remove(index as int));
            lemma_cell_bytes_remove(cells_of(b), index as int);
        }
        Ok(())
    }

    /// Replaces the cell at `index`, compacting if the new cell is larger.
    ///
    /// When the larger cell does not fit, the old one is gone: the caller
    /// splits the page.
    pub fn replace_cell_at(&mut self, index: usize, cell: &[u8]) -> (r: Result<()>)
        requires
            structured(old(self)@),
        ensures
            structured(final(self)@),
            sane(old(self)@) ==> sane(final(self)@),
            same_header(old(self)@, final(self)@),
            index >= num_keys_of(old(self)@) ==> (r matches Err(e) && e is Corruption && final(self)@
                == old(self)@),
            index < num_keys_of(old(self)@) && cell@.len() == slot_len(old(self)@, index as int)
                ==> r is Ok && final(self)@ == write_at(
                old(self)@,
                slot_off(old(self)@, index as int),
                cell@,
            ),
            index < num_keys_of(old(self)@) && sane(old(self)@) ==> ({
                let cells = cells_of(old(self)@);
                let rest = cells.remove(index as int);
                match r {
                    Ok(_) => used_bytes(rest) + cell@.len() + 4 <= USABLE_SPACE && cells_of(
                        final(self)@,
                    ) == cells.update(index as int, cell@),
                    Err(e) => e is Full && used_bytes(rest) + cell@.len() + 4 > USABLE_SPACE
                        && cells_of(final(self)@) == rest,
                }
            }),
    {
        let (off, len) = self.slot(index)?;
        if cell.len() == len {
            self.write_bytes(off, cell);
            proof {
                lemma_overwritten(old(self)@, self@, index as int, cell@);
            }
            return Ok(());
        }
        self.remove_cell_at(index)?;
        let r = self.insert_cell_at(index, cell);
        assert(cells_of(old(self)@).remove(index as int).insert(index as int, cell@) =~= cells_of(
            old(self)@,
        ).update(index as int, cell@));
        r
    }

    /// Rebuilds the cell heap, discarding space left by removed cells.
    ///
    /// Cells that together exceed the page are reported as corruption.
    pub fn compact(&mut self) -> (r: Result<()>)
        requires
            structured(old(self)@),
        ensures
            structured(final(self)@),
            cells_of(final(self)@) == cells_of(old(self)@),
            same_header(old(self)@, final(self)@),
            match r {
                Ok(_) => used_bytes(cells_of(old(self)@)) <= USABLE_SPACE && sane(final(self)@)
                    && free_of(final(self)@) == USABLE_SPACE - used_bytes(cells_of(old(self)@)),
                Err(e) => e is Corruption && used_bytes(cells_of(old(self)@)) > USABLE_SPACE
                    && final(self)@ == old(self)@,
            },
    {
        let n: usize = self.num_keys() as usize;
        let ghost b0 = self@;
        let ghost cs = cells_of(b0);
        let mut cells: Vec<Vec<u8>> = Vec::new();
        let mut total: usize = 0;
        let mut i: usize = 0;
        assert(cs.take(0) =~= Seq::<Seq<u8>>::empty());
        while i < n
            invariant
                self@ == b0,
                structured(b0),
                cs == cells_of(b0),
                n == num_keys_of(b0),
                n <= 1016,
                i <= n,
                cells@.len() == i,
                forall|j: int| 0 <= j < i ==> (#[trigger] cells@[j])@ == cs[j],
                total == cell_bytes(cs.take(i as int)),
                total <= 4096 * i,
            decreases n - i,
        {
            assert(slot_ok(b0, i as int)) by {
                assert(cell_start_of(b0) <= slot_off(b0, i as int));
            }
            let c: &[u8] = self.cell(i)?;
            total = total + c.len();
            cells.push(copy_bytes(c));
            proof {
                lemma_cell_bytes_prefix(cs, i as int);
            }
            i += 1;
        }
        assert(cs.take(n as int) =~= cs);
        if total + n * SLOT_SIZE > USABLE_SPACE {
            return Err(Error::corrupt("cells exceed the page"));
        }
        let mut cursor: usize = PAGE_SIZE;
        let mut k: usize = 0;
        while k < n
            invariant
                k <= n,
                n == num_keys_of(b0),
                cs == cells_of(b0),
                cells@.len() == n,
                cs.len() == n,
                forall|j: int| 0 <= j < n ==> (#[trigger] cells@[j])@ == cs[j],
                cell_bytes(cs) + 4 * n <= 4064,
                cursor == 4096 - cell_bytes(cs.take(k as int)),
                forall|q: int| 0 <= q < 32 ==> self@[q] == b0[q],
                forall|j: int|
                    0 <= j < k ==> #[trigger] slot_off(self@, j) == 4096 - cell_bytes(
                        cs.take(j + 1),
                    ) && slot_len(self@, j) == cs[j].len() && cell_of(self@, j) == cs[j],
            decreases n - k,
        {
            let ghost before = self@;
            proof {
                lemma_cell_bytes_prefix(cs, k as int);
                lemma_cell_bytes_prefix(cs, k + 1);
            }
            let c: &Vec<u8> = &cells[k];
            cursor = cursor - c.len();
            self.write_bytes(cursor, c.as_slice());
            self.set_slot(k, cursor as u16, c.len() as u16);
            proof {
                assert(slot_off(self@, k as int) == cursor);
                assert(slot_len(self@, k as int) == c@.len());
                assert(cell_of(self@, k as int) =~= cs[k as int]);
                assert forall|j: int| 0 <= j < k implies #[trigger] slot_off(self@, j) == 4096
                    - cell_bytes(cs.take(j + 1)) && slot_len(self@, j) == cs[j].len() && cell_of(
                    self@,
                    j,
                ) == cs[j] by {
                    assert(slot_off(before, j) == 4096 - cell_bytes(cs.take(j + 1)));
                    assert(slot_off(self@, j) == slot_off(before, j));
                    assert(slot_len(self@, j) == slot_len(before, j));
                    assert(cs.take(k as int).take(j + 1) =~= cs.take(j + 1));
                    lemma_cell_bytes_prefix(cs.take(k as int), j + 1);
                    assert(cell_of(self@, j) =~= cell_of(before, j));
                }
            }
            k += 1;
        }
        let ghost done = self@;
        self.set_cell_start(cursor as u16);
        proof {
            let c = self@;
            assert forall|j: int| 0 <= j < n implies #[trigger] slot_off(c, j) == 4096 - cell_bytes(
                cs.take(j + 1),
            ) && slot_len(c, j) == cs[j].len() && cell_of(c, j) == cs[j] by {
                assert(slot_off(done, j) == slot_off(c, j));
                assert(slot_len(done, j) == slot_len(c, j));
                lemma_cell_bytes_prefix(cs, j + 1);
                assert(cell_of(c, j) =~= cell_of(done, j));
            }
            assert(cells_of(c) =~= cs);
            assert forall|j: int| 0 <= j < n implies cell_start_of(c) <= #[trigger] slot_off(c, j)
                && slot_off(c, j) + slot_len(c, j) <= 4096 by {
                lemma_cell_bytes_prefix(cs, j + 1);
                lemma_cell_bytes_prefix(cs, j);
            }
            assert forall|x: int, y: int| 0 <= x < y < n implies #[trigger] slot_off(c, x)
                + slot_len(c, x) <= slot_off(c, y) || #[trigger] slot_off(c, y) + slot_len(c, y)
                <= slot_off(c, x) by {
                assert(cs.take(y).take(x + 1) =~= cs.take(x + 1));
                lemma_cell_bytes_prefix(cs.take(y), x + 1);
                lemma_cell_bytes_prefix(cs, y);
            }
        }
        Ok(())
    }

    /// Drops every cell, resetting the heap.
    pub fn clear_cells(&mut self)
        ensures
            cells_of(final(self)@) == Seq::<Seq<u8>>::empty(),
            free_of(final(self)@) == USABLE_SPACE,
            sane(final(self)@),
            same_header(old(self)@, final(self)@),
    {
        self.set_num_keys(0);
        self.set_cell_start(4096);
        assert(cells_of(self@) =~= Seq::<Seq<u8>>::empty());
    }
}

/// Writing a cell below the heap and a slot for it inserts it.
proof fn lemma_inserted(b: Seq<u8>, c: Seq<u8>, index: int, cell: Seq<u8>, start: int)
    requires
        b.len() == 4096,
        structured(b),
        0 <= index <= num_keys_of(b),
        start == cell_start_of(b) - cell.len(),
        cell.len() + 4 <= free_of(b),
        ({
            let n = num_keys_of(b);
            let b1 = write_at(b, start, cell);
            let b2 = write_at(b1, 18, le16(start as u16));
            let b3 = write_at(
                b2,
                36 + 4 * index,
                b2.subrange(32 + 4 * index, 32 + 4 * n),
            );
            let b4 = write_at(b3, 32 + 4 * index, le16(start as u16) + le16(cell.len() as u16));
            c == write_at(b4, 16, le16((n + 1) as u16))
        }),
    ensures
        structured(c),
        sane(b) ==> sane(c),
        same_header(b, c),
        cells_of(c) == cells_of(b).insert(index, cell),
{
    let n = num_keys_of(b) as int;
    assert(num_keys_of(c) == n + 1);
    assert(cell_start_of(c) == start);
    assert forall|i: int| 0 <= i < n + 1 implies #[trigger] slot_off(c, i) == (if i < index {
        slot_off(b, i)
    } else if i == index {
        start
    } else {
        slot_off(b, i - 1)
    }) && slot_len(c, i) == (if i < index {
        slot_len(b, i)
    } else if i == index {
        cell.len() as int
    } else {
        slot_len(b, i - 1)
    }) by {
        let k = 32 + 4 * i;
        if i < index {
            assert(c[k] == b[k] && c[k + 1] == b[k + 1] && c[k + 2] == b[k + 2] && c[k + 3] == b[k
                + 3]);
        } else if i > index {
            assert(c[k] == b[k - 4]);
            assert(c[k + 1] == b[k - 3]);
            assert(c[k + 2] == b[k - 2]);
            assert(c[k + 3] == b[k - 1]);
        }
    }
    assert forall|i: int| 0 <= i < n + 1 implies #[trigger] cell_of(c, i) == (if i < index {
        cell_of(b, i)
    } else if i == index {
        cell
    } else {
        cell_of(b, i - 1)
    }) by {
        let o = slot_off(c, i);
        if i == index {
            assert(cell_of(c, i) =~= cell);
        } else {
            let j = if i < index {
                i
            } else {
                i - 1
            };
            assert(slot_off(b, j) == o);
            assert(cell_of(c, i) =~= cell_of(b, j));
        }
    }
    assert(cells_of(c) =~= cells_of(b).insert(index, cell));
    lemma_cell_bytes_insert(cells_of(b), index, cell);
    assert forall|i: int| 0 <= i < n + 1 implies cell_start_of(c) <= #[trigger] slot_off(c, i)
        && slot_off(c, i) + slot_len(c, i) <= 4096 by {
        if i < index {
            assert(slot_off(b, i) >= cell_start_of(b));
        } else if i > index {
            assert(slot_off(b, i - 1) >= cell_start_of(b));
        }
    }
    if sane(b) {
        assert forall|x: int, y: int| 0 <= x < y < n + 1 implies #[trigger] slot_off(c, x)
            + slot_len(c, x) <= slot_off(c, y) || #[trigger] slot_off(c, y) + slot_len(c, y)
            <= slot_off(c, x) by {
            let p = if x < index {
                x
            } else {
                x - 1
            };
            let q = if y < index {
                y
            } else {
                y - 1
            };
            if x == index {
                assert(slot_off(b, q) >= cell_start_of(b));
            } else if y == index {
                assert(slot_off(b, p) >= cell_start_of(b));
            } else {
                assert(slot_off(b, p) == slot_off(c, x));
                assert(slot_off(b, q) == slot_off(c, y));
            }
        }
    }
}

/// Writing over a cell that overlaps no other changes that cell alone.
proof fn lemma_overwritten(b: Seq<u8>, c: Seq<u8>, index: int, cell: Seq<u8>)
    requires
        b.len() == 4096,
        structured(b),
        0 <= index < num_keys_of(b),
        cell.len() == slot_len(b, index),
        c == write_at(b, slot_off(b, index), cell),
    ensures
        structured(c),
        same_header(b, c),
        sane(b) ==> sane(c) && cells_of(c) == cells_of(b).update(index, cell) && used_bytes(
            cells_of(b).remove(index),
        ) + cell.len() + 4 <= USABLE_SPACE,
{
    let n = num_keys_of(b) as int;
    assert(slot_off(b, index) >= cell_start_of(b));
    assert forall|i: int| 0 <= i < n implies #[trigger] slot_off(c, i) == slot_off(b, i) && slot_len(
        c,
        i,
    ) == slot_len(b, i) by {}
    assert forall|i: int| 0 <= i < n implies cell_start_of(c) <= #[trigger] slot_off(c, i)
        && slot_off(c, i) + slot_len(c, i) <= 4096 by {
        assert(slot_off(b, i) >= cell_start_of(b));
    }
    if sane(b) {
        assert forall|i: int| 0 <= i < n implies #[trigger] cell_of(c, i) == (if i == index {
            cell
        } else {
            cell_of(b, i)
        }) by {
            let o = slot_off(b, i);
            let oi = slot_off(b, index);
            if i == index {
                assert(cell_of(c, i) =~= cell);
            } else {
                assert(cell_of(c, i) =~= cell_of(b, i));
            }
        }
        assert(cells_of(c) =~= cells_of(b).update(index, cell));
        assert forall|x: int, y: int| 0 <= x < y < n implies #[trigger] slot_off(c, x) + slot_len(
            c,
            x,
        ) <= slot_off(c, y) || #[trigger] slot_off(c, y) + slot_len(c, y) <= slot_off(c, x) by {
            assert(slot_off(b, x) == slot_off(c, x));
            assert(slot_off(b, y) == slot_off(c, y));
        }
        lemma_cell_bytes_remove(cells_of(b), index);
        lemma_cell_bytes_remove(cells_of(c), index);
        assert(cells_of(c).remove(index) =~= cells_of(b).remove(index));
    }
}

// ---- cell encodings ------------------------------------------------------------
//
// Leaf:     [key_len u16][flags u8][pad u8][total_len u32][key][payload]
//           flags bit 0 set: payload is a 4-byte overflow page id;
//           clear: payload is `total_len` inline value bytes.
// Internal: [key_len u16][child u32][key]; the leftmost child lives in the
//           header's extra field.

/// A length as the sixteen-bit field holds it.
pub open spec fn short_len(n: nat) -> u16 {
    (n % 0x1_0000) as u16
}

/// A leaf cell's bytes.
pub open spec fn leaf_bytes(
    key: Seq<u8>,
    value: Seq<u8>,
    total_len: u32,
    overflow: Option<u32>,
) -> Seq<u8> {
    le16(short_len(key.len())) + seq![if overflow is Some { 1u8 } else { 0u8 }, 0u8] + le32(
        total_len,
    ) + key + (match overflow {
        Some(pid) => le32(pid),
        None => value,
    })
}

/// An internal cell's bytes.
pub open spec fn internal_bytes(key: Seq<u8>, child: u32) -> Seq<u8> {
    le16(short_len(key.len())) + le32(child) + key
}

/// Where a leaf cell's payload begins.
pub open spec fn leaf_payload(cell: Seq<u8>) -> Seq<u8> {
    cell.subrange(8 + u16_at(cell, 0), cell.len() as int)
}

/// Whether a leaf cell's value lives in an overflow chain.
pub open spec fn leaf_overflows(cell: Seq<u8>) -> bool {
    cell[2] % 2 == 1
}

/// Whether a byte string is a leaf cell.
pub open spec fn leaf_ok(cell: Seq<u8>) -> bool {
    &&& cell.len() >= 8
    &&& 8 + u16_at(cell, 0) <= cell.len()
    &&& if leaf_overflows(cell) {
        leaf_payload(cell).len() >= 4
    } else {
        leaf_payload(cell).len() == u32_at(cell, 4)
    }
}

/// The key of a leaf or internal cell.
pub open spec fn cell_key_of(leaf: bool, cell: Seq<u8>) -> Option<Seq<u8>> {
    let hdr: int = if leaf {
        8
    } else {
        6
    };
    if cell.len() < hdr || hdr + u16_at(cell, 0) > cell.len() {
        None
    } else {
        Some(cell.subrange(hdr, hdr + u16_at(cell, 0)))
    }
}

/// Whether a decoded cell is what the bytes say.
pub open spec fn leaf_decodes(cell: Seq<u8>, d: LeafCell) -> bool {
    &&& leaf_ok(cell)
    &&& cell_key_of(true, cell) == Some(d.key@)
    &&& d.total_len == u32_at(cell, 4)
    &&& if leaf_overflows(cell) {
        d.overflow == Some(u32_at(leaf_payload(cell), 0)) && d.value@ == Seq::<u8>::empty()
    } else {
        d.overflow is None && d.value@ == leaf_payload(cell)
    }
}

/// The key of cell `i`, when the slot and the cell are sound.
pub open spec fn key_at(b: Seq<u8>, i: int) -> Option<Seq<u8>> {
    if slot_ok(b, i) {
        cell_key_of(is_leaf_of(b), cell_of(b, i))
    } else {
        None
    }
}

/// Every cell has a key and the keys strictly ascend.
pub open spec fn keys_ascend(b: Seq<u8>) -> bool {
    &&& forall|i: int| 0 <= i < num_keys_of(b) ==> (#[trigger] key_at(b, i)) is Some
    &&& forall|i: int, j: int|
        0 <= i < j < num_keys_of(b) ==> lex_lt(
            #[trigger] key_at(b, i)->0,
            #[trigger] key_at(b, j)->0,
        )
}

/// A leaf cell decodes to what it was encoded from.
pub proof fn law_leaf_cell_roundtrip(
    key: Seq<u8>,
    value: Seq<u8>,
    total_len: u32,
    overflow: Option<u32>,
)
    requires
        key.len() <= 0xFFFF,
        overflow is None ==> total_len == value.len(),
    ensures
        ({
            let cell = leaf_bytes(key, value, total_len, overflow);
            &&& leaf_ok(cell)
            &&& cell_key_of(true, cell) == Some(key)
            &&& u32_at(cell, 4) == total_len
            &&& leaf_overflows(cell) == overflow is Some
            &&& overflow is Some ==> u32_at(leaf_payload(cell), 0) == overflow->0
            &&& overflow is None ==> leaf_payload(cell) == value
            &&& cell.len() == 8 + key.len() + (if overflow is Some {
                4
            } else {
                value.len()
            })
        }),
{
    let cell = leaf_bytes(key, value, total_len, overflow);
    assert(cell.subrange(0, 2) =~= le16(short_len(key.len())));
    lemma_u16_roundtrip(cell, 0, short_len(key.len()));
    assert(cell.subrange(4, 8) =~= le32(total_len));
    lemma_u32_roundtrip(cell, 4, total_len);
    assert(cell.subrange(8, (8 + key.len()) as int) =~= key);
    match overflow {
        Some(pid) => {
            let p = leaf_payload(cell);
            assert(p =~= le32(pid));
            assert(p.subrange(0, 4) =~= le32(pid));
            lemma_u32_roundtrip(p, 0, pid);
        },
        None => {
            assert(leaf_payload(cell) =~= value);
        },
    }
}

/// An internal cell decodes to what it was encoded from.
pub proof fn law_internal_cell_roundtrip(key: Seq<u8>, child: u32)
    requires
        key.len() <= 0xFFFF,
    ensures
        cell_key_of(false, internal_bytes(key, child)) == Some(key),
        u32_at(internal_bytes(key, child), 2) == child,
        internal_bytes(key, child).len() == 6 + key.len(),
{
    let cell = internal_bytes(key, child);
    assert(cell.subrange(0, 2) =~= le16(short_len(key.len())));
    lemma_u16_roundtrip(cell, 0, short_len(key.len()));
    assert(cell.subrange(2, 6) =~= le32(child));
    lemma_u32_roundtrip(cell, 2, child);
    assert(cell.subrange(6, (6 + key.len()) as int) =~= key);
}

impl Page {
    /// Serialises a leaf cell.
    pub fn encode_leaf_cell(
        key: &[u8],
        value: &[u8],
        total_len: u32,
        overflow: Option<u32>,
    ) -> (out: Vec<u8>)
        ensures
            out@ == leaf_bytes(key@, value@, total_len, overflow),
    {
        let mut out: Vec<u8> = Vec::new();
        push_u16(&mut out, (key.len() % 0x1_0000) as u16);
        out.push(if overflow.is_some() { 1 } else { 0 });
        out.push(0);
        push_u32(&mut out, total_len);
        push_bytes(&mut out, key);
        match overflow {
            Some(pid) => push_u32(&mut out, pid),
            None => push_bytes(&mut out, value),
        }
        assert(out@ =~= leaf_bytes(key@, value@, total_len, overflow));
        out
    }

    /// Deserialises the leaf cell at `index`.
    pub fn leaf_cell(&self, index: usize) -> (r: Result<LeafCell>)
        ensures
            match r {
                Ok(d) => slot_ok(self@, index as int) && leaf_decodes(
                    cell_of(self@, index as int),
                    d,
                ),
                Err(e) => e is Corruption && !(slot_ok(self@, index as int) && leaf_ok(
                    cell_of(self@, index as int),
                )),
            },
    {
        let cell: &[u8] = self.cell(index)?;
        if cell.len() < 8 {
            return Err(Error::corrupt("leaf cell shorter than its header"));
        }
        let key_len: usize = get_u16(cell, 0) as usize;
        let has_overflow: bool = cell[2] % 2 == 1;
        let total_len: u32 = get_u32(cell, 4);
        if 8 + key_len > cell.len() {
            return Err(Error::corrupt("leaf cell key length escapes the cell"));
        }
        let key: Vec<u8> = copy_range(cell, 8, 8 + key_len);
        let payload: Vec<u8> = copy_range(cell, 8 + key_len, cell.len());
        if has_overflow {
            if payload.len() < 4 {
                return Err(Error::corrupt("overflow leaf cell missing chain pointer"));
            }
            let pid: u32 = get_u32(payload.as_slice(), 0);
            Ok(LeafCell { key, value: Vec::new(), total_len, overflow: Some(pid) })
        } else {
            if payload.len() as u64 != total_len as u64 {
                return Err(Error::corrupt("inline value length differs from the declared one"));
            }
            Ok(LeafCell { key, value: payload, total_len, overflow: None })
        }
    }

    /// Borrows just the key of cell `index` without copying.
    pub fn cell_key(&self, index: usize) -> (r: Result<&[u8]>)
        ensures
            match r {
                Ok(k) => key_at(self@, index as int) == Some(k@),
                Err(e) => e is Corruption && key_at(self@, index as int) is None,
            },
    {
        let cell: &[u8] = self.cell(index)?;
        let hdr: usize = if self.is_leaf() {
            8
        } else {
            6
        };
        if cell.len() < hdr {
            return Err(Error::corrupt("cell too short"));
        }
        let key_len: usize = get_u16(cell, 0) as usize;
        if hdr + key_len > cell.len() {
            return Err(Error::corrupt("cell key escapes the cell"));
        }
        Ok(&cell[hdr..hdr + key_len])
    }

    /// Serialises a separator key plus its right child pointer.
    pub fn encode_internal_cell(key: &[u8], child: u32) -> (out: Vec<u8>)
        ensures
            out@ == internal_bytes(key@, child),
    {
        let mut out: Vec<u8> = Vec::new();
        push_u16(&mut out, (key.len() % 0x1_0000) as u16);
        push_u32(&mut out, child);
        push_bytes(&mut out, key);
        out
    }

    /// Child pointer stored in internal cell `index`.
    pub fn internal_child(&self, index: usize) -> (r: Result<u32>)
        ensures
            match r {
                Ok(c) => slot_ok(self@, index as int) && slot_len(self@, index as int) >= 6 && c
                    == u32_at(cell_of(self@, index as int), 2),
                Err(e) => e is Corruption && !(slot_ok(self@, index as int) && slot_len(
                    self@,
                    index as int,
                ) >= 6),
            },
    {
        let cell: &[u8] = self.cell(index)?;
        if cell.len() < 6 {
            return Err(Error::corrupt("internal cell too short"));
        }
        Ok(get_u32(cell, 2))
    }

    /// Rewrites the child pointer of internal cell `index` in place.
    pub fn set_internal_child(&mut self, index: usize, child: u32) -> (r: Result<()>)
        requires
            structured(old(self)@),
        ensures
            structured(final(self)@),
            sane(old(self)@) ==> sane(final(self)@),
            same_header(old(self)@, final(self)@),
            match r {
                Ok(_) => slot_ok(old(self)@, index as int) && slot_len(old(self)@, index as int)
                    >= 6 && final(self)@ == write_at(
                    old(self)@,
                    slot_off(old(self)@, index as int) + 2,
                    le32(child),
                ) && (sane(old(self)@) ==> cells_of(final(self)@) == cells_of(old(self)@).update(
                    index as int,
                    write_at(cells_of(old(self)@)[index as int], 2, le32(child)),
                )),
                Err(e) => e is Corruption && final(self)@ == old(self)@ && !(slot_ok(
                    old(self)@,
                    index as int,
                ) && slot_len(old(self)@, index as int) >= 6),
            },
    {
        let (off, len) = self.slot(index)?;
        if len < 6 {
            return Err(Error::corrupt("internal cell too short"));
        }
        self.write_u32(off + 2, child);
        proof {
            let b = old(self)@;
            let cell = write_at(cell_of(b, index as int), 2, le32(child));
            assert(self@ =~= write_at(b, off as int, cell));
            lemma_overwritten(b, self@, index as int, cell);
        }
        Ok(())
    }

    /// Binary-searches the page for `key`.
    ///
    /// `Ok(i)` means an exact match at slot `i`; `Err(i)` is the insertion
    /// point.
    pub fn search(&self, key: &[u8]) -> (r: Result<std::result::Result<usize, usize>>)
        ensures
            match r {
                Ok(Ok(i)) => i < num_keys_of(self@) && key_at(self@, i as int) == Some(key@),
                Ok(Err(i)) => i <= num_keys_of(self@) && (keys_ascend(self@) ==> splits_at(
                    self@,
                    key@,
                    i as int,
                )),
                Err(e) => e is Corruption && exists|i: int|
                    0 <= i < num_keys_of(self@) && (#[trigger] key_at(self@, i)) is None,
            },
    {
        let mut lo: usize = 0;
        let mut hi: usize = self.num_keys() as usize;
        while lo < hi
            invariant
                lo <= hi <= num_keys_of(self@),
                keys_ascend(self@) ==> forall|j: int|
                    0 <= j < lo ==> lex_lt(#[trigger] key_at(self@, j)->0, key@),
                keys_ascend(self@) ==> forall|j: int|
                    hi <= j < num_keys_of(self@) ==> lex_lt(key@, #[trigger] key_at(self@, j)->0),
            decreases hi - lo,
        {
            let mid: usize = lo + (hi - lo) / 2;
            let k: &[u8] = self.cell_key(mid)?;
            match order(k, key) {
                Order::Less => {
                    proof {
                        assert forall|j: int|
                            keys_ascend(self@) && 0 <= j < mid + 1 implies lex_lt(
                            #[trigger] key_at(self@, j)->0,
                            key@,
                        ) by {
                            if j < mid {
                                assert(lex_lt(
                                    key_at(self@, j)->0,
                                    key_at(self@, mid as int)->0,
                                ));
                                lemma_lex_transitive(key_at(self@, j)->0, k@, key@);
                            }
                        }
                    }
                    lo = mid + 1;
                },
                Order::Greater => {
                    proof {
                        assert forall|j: int|
                            keys_ascend(self@) && mid <= j < num_keys_of(self@) implies lex_lt(
                            key@,
                            #[trigger] key_at(self@, j)->0,
                        ) by {
                            if mid < j {
                                assert(lex_lt(
                                    key_at(self@, mid as int)->0,
                                    key_at(self@, j)->0,
                                ));
                                lemma_lex_transitive(key@, k@, key_at(self@, j)->0);
                            }
                        }
                    }
                    hi = mid;
                },
                Order::Equal => {
                    return Ok(Ok(mid));
                },
            }
        }
        Ok(Err(lo))
    }
}

/// `key` belongs between cells `i - 1` and `i`.
pub open spec fn splits_at(b: Seq<u8>, key: Seq<u8>, i: int) -> bool {
    &&& forall|j: int| 0 <= j < i ==> lex_lt(#[trigger] key_at(b, j)->0, key)
    &&& forall|j: int| i <= j < num_keys_of(b) ==> lex_lt(key, #[trigger] key_at(b, j)->0)
}

/// On ascending keys a search finds the key exactly when it is there: a
/// position where the key belongs holds no equal key anywhere.
pub proof fn law_search_misses_only_absent_keys(b: Seq<u8>, key: Seq<u8>, i: int, j: int)
    requires
        keys_ascend(b),
        splits_at(b, key, i),
        0 <= j < num_keys_of(b),
    ensures
        key_at(b, j) != Some(key),
{
    if key_at(b, j) == Some(key) {
        if j < i {
            lemma_lex_asymmetric(key_at(b, j)->0, key);
        } else {
            lemma_lex_asymmetric(key, key_at(b, j)->0);
        }
    }
}

// ---- overflow pages --------------------------------------------------------------
//
// Body: [payload_len u32][reserved u32][payload bytes...]

/// The payload of an overflow page, when it is one.
pub open spec fn overflow_payload_of(b: Seq<u8>) -> Option<Seq<u8>> {
    if type_of(b) == Some(PageType::Overflow) && u32_at(b, 32) <= OVERFLOW_PAYLOAD {
        Some(b.subrange(40, 40 + u32_at(b, 32)))
    } else {
        None
    }
}

// ---- meta page -------------------------------------------------------------------

/// Contents of the page-0 metadata block.
#[derive(Debug, Clone, Copy, PartialEq, Eq, Structural)]
pub struct MetaData {
    /// On-disk format version.
    pub version: u32,
    /// Page id of the tree's root.
    pub root: u32,
    /// Head of the free-page list, or [`SENTINEL`].
    pub free_list: u32,
    /// Total pages allocated in the file.
    pub page_count: u32,
    /// Every version with a commit timestamp up to this one is in the tree.
    pub tree_ts: u64,
    /// Next transaction id to hand out after recovery.
    pub next_txn_id: u64,
    /// Highest sequence number durably reflected in the tree.
    pub last_lsn: u64,
}

/// File magic.
pub const META_MAGIC: u64 = 0x5048_4F45_4E49_5844;

/// Current on-disk format version.
pub const META_VERSION: u32 = 1;

impl Default for MetaData {
    fn default() -> (m: Self)
        ensures
            m == default_meta(),
    {
        MetaData {
            version: META_VERSION,
            root: 1,
            free_list: SENTINEL,
            page_count: 2,
            tree_ts: 0,
            next_txn_id: 1,
            last_lsn: 0,
        }
    }
}

/// The metadata of a fresh database.
pub open spec fn default_meta() -> MetaData {
    MetaData {
        version: META_VERSION,
        root: 1,
        free_list: SENTINEL,
        page_count: 2,
        tree_ts: 0,
        next_txn_id: 1,
        last_lsn: 0,
    }
}

/// The metadata block of a page, when it holds one.
pub open spec fn meta_of(b: Seq<u8>) -> Option<MetaData> {
    if type_of(b) == Some(PageType::Meta) && u64_at(b, 32) == META_MAGIC && u32_at(b, 44)
        == PAGE_SIZE {
        Some(
            MetaData {
                version: u32_at(b, 40),
                root: u32_at(b, 48),
                free_list: u32_at(b, 52),
                page_count: u32_at(b, 56),
                tree_ts: u64_at(b, 60),
                next_txn_id: u64_at(b, 68),
                last_lsn: u64_at(b, 76),
            },
        )
    } else {
        None
    }
}

impl Page {
    /// Writes one link of an overflow chain.
    pub fn write_overflow(&mut self, payload: &[u8], next: u32) -> (r: Result<()>)
        ensures
            match r {
                Ok(_) => {
                    &&& payload@.len() <= OVERFLOW_PAYLOAD
                    &&& overflow_payload_of(final(self)@) == Some(payload@)
                    &&& type_of(final(self)@) == Some(PageType::Overflow)
                    &&& !is_leaf_of(final(self)@)
                    &&& extra_of(final(self)@) == next
                    &&& page_id_of(final(self)@) == page_id_of(old(self)@)
                    &&& num_keys_of(final(self)@) == num_keys_of(old(self)@)
                    &&& lsn_of(final(self)@) == lsn_of(old(self)@)
                    &&& parent_of(final(self)@) == parent_of(old(self)@)
                    &&& flags_of(final(self)@) == flags_of(old(self)@)
                },
                Err(e) => e is Full && payload@.len() > OVERFLOW_PAYLOAD && final(self)@
                    == old(self)@,
            },
    {
        if payload.len() > OVERFLOW_PAYLOAD {
            return Err(Error::full("overflow payload exceeds the page"));
        }
        self.set_page_type(PageType::Overflow);
        self.set_extra(next);
        self.write_u32(32, payload.len() as u32);
        self.write_u32(36, 0);
        self.write_bytes(40, payload);
        assert(self@.subrange(40, (40 + payload@.len()) as int) =~= payload@);
        Ok(())
    }

    /// Reads the payload of an overflow page.
    pub fn read_overflow(&self) -> (r: Result<&[u8]>)
        ensures
            match r {
                Ok(p) => overflow_payload_of(self@) == Some(p@),
                Err(e) => e is Corruption && overflow_payload_of(self@) is None,
            },
    {
        if self.page_type()? != PageType::Overflow {
            return Err(Error::corrupt("expected an overflow page"));
        }
        let len: usize = self.read_u32(32) as usize;
        if len > OVERFLOW_PAYLOAD {
            return Err(Error::corrupt("overflow payload length exceeds page capacity"));
        }
        let all: &[u8] = &*self.buf;
        Ok(&all[40..40 + len])
    }

    /// Writes the page-0 metadata block.
    pub fn write_meta(&mut self, meta: &MetaData)
        ensures
            meta_of(final(self)@) == Some(*meta),
            type_of(final(self)@) == Some(PageType::Meta),
            !is_leaf_of(final(self)@),
            page_id_of(final(self)@) == page_id_of(old(self)@),
            parent_of(final(self)@) == parent_of(old(self)@),
            extra_of(final(self)@) == extra_of(old(self)@),
            num_keys_of(final(self)@) == num_keys_of(old(self)@),
            flags_of(final(self)@) == flags_of(old(self)@),
            lsn_of(final(self)@) == lsn_of(old(self)@),
            forall|i: int| 84 <= i < 4096 ==> #[trigger] final(self)@[i] == old(self)@[i],
    {
        let block: Vec<u8> = encode_meta(meta);
        self.set_page_type(PageType::Meta);
        self.write_bytes(32, &block);
        assert forall|i: int| 0 <= i < block@.len() implies self@[32 + i] == #[trigger] block@[i] by {}
        proof {
            lemma_meta_written(self@, *meta);
        }
    }

    /// Reads and validates the page-0 metadata block.
    pub fn read_meta(&self) -> (r: Result<MetaData>)
        ensures
            match r {
                Ok(m) => meta_of(self@) == Some(m),
                Err(e) => e is Corruption && meta_of(self@) is None,
            },
    {
        if self.page_type()? != PageType::Meta {
            return Err(Error::corrupt("page 0 is not a meta page"));
        }
        let b: &[u8] = &*self.buf;
        if get_u64(b, 32) != META_MAGIC {
            return Err(Error::corrupt("bad magic: not a PhoenixDB file"));
        }
        if get_u32(b, 44) != 4096 {
            return Err(Error::corrupt("file was created with another page size"));
        }
        Ok(
            MetaData {
                version: get_u32(b, 40),
                root: get_u32(b, 48),
                free_list: get_u32(b, 52),
                page_count: get_u32(b, 56),
                tree_ts: get_u64(b, 60),
                next_txn_id: get_u64(b, 68),
                last_lsn: get_u64(b, 76),
            },
        )
    }
}

fn encode_meta(meta: &MetaData) -> (block: Vec<u8>)
    ensures
        block@ == meta_block(*meta),
        block@.len() == 52,
{
    let mut block: Vec<u8> = Vec::new();
    push_u64(&mut block, META_MAGIC);
    assert(block@ =~= le64(META_MAGIC));
    push_u32(&mut block, meta.version);
    push_u32(&mut block, 4096);
    push_u32(&mut block, meta.root);
    push_u32(&mut block, meta.free_list);
    push_u32(&mut block, meta.page_count);
    push_u64(&mut block, meta.tree_ts);
    push_u64(&mut block, meta.next_txn_id);
    push_u64(&mut block, meta.last_lsn);
    proof {
        reveal(meta_block);
    }
    block
}

/// The bytes of a metadata block.
#[verifier::opaque]
pub open spec fn meta_block(m: MetaData) -> Seq<u8> {
    le64(META_MAGIC) + le32(m.version) + le32(4096) + le32(m.root) + le32(m.free_list) + le32(
        m.page_count,
    ) + le64(m.tree_ts) + le64(m.next_txn_id) + le64(m.last_lsn)
}

/// A metadata block holds each field at its place.
proof fn lemma_meta_block(m: MetaData)
    ensures
        ({
            let b = meta_block(m);
            &&& b.len() == 52
            &&& u64_at(b, 0) == META_MAGIC
            &&& u32_at(b, 8) == m.version
            &&& u32_at(b, 12) == 4096
            &&& u32_at(b, 16) == m.root
            &&& u32_at(b, 20) == m.free_list
            &&& u32_at(b, 24) == m.page_count
            &&& u64_at(b, 28) == m.tree_ts
            &&& u64_at(b, 36) == m.next_txn_id
            &&& u64_at(b, 44) == m.last_lsn
        }),
{
    reveal(meta_block);
    let b = meta_block(m);
    assert(b.subrange(0, 8) =~= le64(META_MAGIC));
    lemma_u64_roundtrip(b, 0, META_MAGIC);
    assert(b.subrange(8, 12) =~= le32(m.version));
    lemma_u32_roundtrip(b, 8, m.version);
    assert(b.subrange(12, 16) =~= le32(4096));
    lemma_u32_roundtrip(b, 12, 4096);
    assert(b.subrange(16, 20) =~= le32(m.root));
    lemma_u32_roundtrip(b, 16, m.root);
    assert(b.subrange(20, 24) =~= le32(m.free_list));
    lemma_u32_roundtrip(b, 20, m.free_list);
    assert(b.subrange(24, 28) =~= le32(m.page_count));
    lemma_u32_roundtrip(b, 24, m.page_count);
    assert(b.subrange(28, 36) =~= le64(m.tree_ts));
    lemma_u64_roundtrip(b, 28, m.tree_ts);
    assert(b.subrange(36, 44) =~= le64(m.next_txn_id));
    lemma_u64_roundtrip(b, 36, m.next_txn_id);
    assert(b.subrange(44, 52) =~= le64(m.last_lsn));
    lemma_u64_roundtrip(b, 44, m.last_lsn);
}

proof fn lemma_meta_written(page: Seq<u8>, m: MetaData)
    requires
        type_of(page) == Some(PageType::Meta),
        forall|i: int| 0 <= i < 52 ==> page[32 + i] == #[trigger] meta_block(m)[i],
    ensures
        meta_of(page) == Some(m),
{
    let block = meta_block(m);
    lemma_meta_block(m);
    lemma_shifted_u64(page, block, 0);
    lemma_shifted_u32(page, block, 8);
    lemma_shifted_u32(page, block, 12);
    lemma_shifted_u32(page, block, 16);
    lemma_shifted_u32(page, block, 20);
    lemma_shifted_u32(page, block, 24);
    lemma_shifted_u64(page, block, 28);
    lemma_shifted_u64(page, block, 36);
    lemma_shifted_u64(page, block, 44);
}

proof fn lemma_shifted_u32(page: Seq<u8>, block: Seq<u8>, off: int)
    requires
        0 <= off,
        off + 4 <= block.len(),
        forall|i: int| 0 <= i < block.len() ==> page[32 + i] == #[trigger] block[i],
    ensures
        u32_at(page, 32 + off) == u32_at(block, off),
{
    assert(page[32 + off] == block[off]);
    assert(page[32 + (off + 1)] == block[off + 1]);
    assert(page[32 + (off + 2)] == block[off + 2]);
    assert(page[32 + (off + 3)] == block[off + 3]);
}

proof fn lemma_shifted_u64(page: Seq<u8>, block: Seq<u8>, off: int)
    requires
        0 <= off,
        off + 8 <= block.len(),
        forall|i: int| 0 <= i < block.len() ==> page[32 + i] == #[trigger] block[i],
    ensures
        u64_at(page, 32 + off) == u64_at(block, off),
{
    lemma_shifted_u32(page, block, off);
    lemma_shifted_u32(page, block, off + 4);
}

/// Sealing a page leaves its cells and its structure as they were.
pub proof fn lemma_sealed_cells(b: Seq<u8>)
    requires
        b.len() == 4096,
    ensures
        structured(sealed(b)) == structured(b),
        structure_ok(sealed(b)) == structure_ok(b),
        is_leaf_of(sealed(b)) == is_leaf_of(b),
        structured(b) ==> cells_of(sealed(b)) == cells_of(b),
        sane(b) ==> sane(sealed(b)),
        same_header(b, sealed(b)),
{
    lemma_body_same(b, sealed(b));
}

/// Pages that agree behind the header, and in their cell count and heap start,
/// have the same cells.
pub proof fn lemma_body_same(b: Seq<u8>, c: Seq<u8>)
    requires
        b.len() == 4096,
        c.len() == 4096,
        forall|i: int| 16 <= i < 20 || 32 <= i < 4096 ==> c[i] == b[i],
    ensures
        structured(c) == structured(b),
        structured(b) ==> cells_of(c) == cells_of(b),
        sane(b) ==> sane(c),
{
    assert(num_keys_of(c) == num_keys_of(b));
    assert(cell_start_of(c) == cell_start_of(b));
    if 32 + 4 * num_keys_of(b) <= 4096 {
        assert forall|i: int| 0 <= i < num_keys_of(b) implies #[trigger] slot_off(c, i) == slot_off(
            b,
            i,
        ) && slot_len(c, i) == slot_len(b, i) by {}
        assert forall|i: int| 0 <= i < num_keys_of(b) implies #[trigger] slot_off(b, i) == slot_off(
            c,
            i,
        ) by {}
        if structured(b) {
            assert forall|i: int| 0 <= i < num_keys_of(b) implies #[trigger] cell_of(c, i)
                == cell_of(b, i) by {
                assert(slot_off(b, i) >= cell_start_of(b));
                assert(cell_of(c, i) =~= cell_of(b, i));
            }
            assert(cells_of(c) =~= cells_of(b));
        }
    }
}

} // verus!

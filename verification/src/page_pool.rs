//! Simple page-buffer recycler to cut allocation pressure.
//!
//! The pool keeps previously-used buffers in a `Vec` and reissues them on
//! demand. The caller must zero or fully reinitialise the page before reuse,
//! which `Page::new` already does.

use crate::page::PAGE_SIZE;
use vstd::prelude::*;

verus! {

/// How many buffers a pool keeps.
pub const POOL_CAP: usize = 16_384;

/// Recycler for page buffers.
pub struct PagePool {
    pool: Vec<Box<[u8; PAGE_SIZE]>>,
}

impl View for PagePool {
    type V = Seq<Box<[u8; PAGE_SIZE]>>;

    closed spec fn view(&self) -> Seq<Box<[u8; PAGE_SIZE]>> {
        self.pool@
    }
}

impl PagePool {
    /// Creates an empty pool.
    #[must_use]
    pub fn new() -> (p: Self)
        ensures
            p@.len() == 0,
    {
        PagePool { pool: Vec::new() }
    }

    /// Takes the buffer that was released last, or allocates a fresh one, all
    /// zero.
    pub fn acquire(&mut self) -> (b: Box<[u8; PAGE_SIZE]>)
        ensures
            if old(self)@.len() > 0 {
                b == old(self)@.last() && final(self)@ == old(self)@.drop_last()
            } else {
                final(self)@ == old(self)@ && forall|i: int|
                    0 <= i < PAGE_SIZE ==> #[trigger] b@[i] == 0
            },
    {
        match self.pool.pop() {
            Some(b) => b,
            None => Box::new([0u8;PAGE_SIZE]),
        }
    }

    /// Returns a buffer to the pool for later reuse; a full pool drops it.
    pub fn release(&mut self, buf: Box<[u8; PAGE_SIZE]>)
        ensures
            final(self)@ == if old(self)@.len() < POOL_CAP {
                old(self)@.push(buf)
            } else {
                old(self)@
            },
    {
        if self.pool.len() < POOL_CAP {
            self.pool.push(buf);
        }
    }
}

impl Default for PagePool {
    fn default() -> (p: Self)
        ensures
            p@.len() == 0,
    {
        PagePool::new()
    }
}

/// A buffer that is released into a pool with room is the next one acquired,
/// and the pool is as it was.
pub proof fn law_released_buffers_are_reused(
    pool: Seq<Box<[u8; PAGE_SIZE]>>,
    buf: Box<[u8; PAGE_SIZE]>,
)
    requires
        pool.len() < POOL_CAP,
    ensures
        pool.push(buf).last() == buf,
        pool.push(buf).drop_last() == pool,
{
    assert(pool.push(buf).drop_last() =~= pool);
}

} // verus!

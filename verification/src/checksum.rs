//! CRC32 checksums.

use vstd::prelude::*;

verus! {

/// The CRC32 that `crc32fast` computes for a byte string.
pub uninterp spec fn crc32(data: Seq<u8>) -> u32;

/// Calls `crc32fast::hash`. The result depends on the bytes alone.
#[verifier::external_body]
pub(crate) fn crc32_of(data: &[u8]) -> (c: u32)
    ensures
        c == crc32(data@),
{
    crc32fast::hash(data)
}

} // verus!

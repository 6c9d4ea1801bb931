//! Checksums and the numbers beside them.

use vstd::prelude::*;

verus! {

/// The CRC-32 that `crc32fast::hash` computes of some bytes.
pub uninterp spec fn crc32(bytes: Seq<u8>) -> u32;

/// `crc32fast::hash`: a function of the bytes.
pub assume_specification[ crc32fast::hash ](buf: &[u8]) -> (r: u32)
    ensures
        r == crc32(buf@),
;

/// Four bytes, the lowest first.
pub open spec fn u32_bytes(x: u32) -> Seq<u8> {
    vstd::bytes::spec_u32_to_le_bytes(x)
}

/// The number that four bytes write, the lowest first.
pub open spec fn u32_of(bytes: Seq<u8>) -> u32 {
    vstd::bytes::spec_u32_from_le_bytes(bytes)
}

/// Eight bytes, the lowest first.
pub open spec fn u64_bytes(x: u64) -> Seq<u8> {
    vstd::bytes::spec_u64_to_le_bytes(x)
}

/// The number that eight bytes write, the lowest first.
pub open spec fn u64_of(bytes: Seq<u8>) -> u64 {
    vstd::bytes::spec_u64_from_le_bytes(bytes)
}

/// Numbers read back as they were written.
pub proof fn law_numbers_read_back(x: u32, y: u64)
    ensures
        u32_bytes(x).len() == 4,
        u32_of(u32_bytes(x)) == x,
        u64_bytes(y).len() == 8,
        u64_of(u64_bytes(y)) == y,
{
    vstd::bytes::lemma_auto_spec_u32_to_from_le_bytes();
    vstd::bytes::lemma_auto_spec_u64_to_from_le_bytes();
}

} // verus!

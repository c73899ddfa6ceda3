//! The checksum of pages, blocks, headers and footers.

use vstd::prelude::*;

verus! {

/// The CRC-32 of `data`, as the `crc32fast` crate computes it.
pub uninterp spec fn crc32(data: Seq<u8>) -> u32;

/// `crc32fast::hash`: the checksum is a function of the bytes alone. Nothing
/// else is claimed of it.
#[verifier::external_body]
pub(crate) fn crc_of(data: &[u8]) -> (crc: u32)
    ensures
        crc == crc32(data@),
{
    crc32fast::hash(data)
}

} // verus!

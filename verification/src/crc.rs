//! CRC-32 checksums, computed by the `crc32fast` crate.
use vstd::prelude::*;

verus! {

/// The CRC-32 (IEEE polynomial) checksum of a byte string, as `crc32fast::hash` computes it.
pub uninterp spec fn crc32_of(data: Seq<u8>) -> u32;

/// Calls `crc32fast::hash`. The contract claims only that the result is the
/// checksum of the bytes given, the same for the same bytes.
#[verifier::external_body]
pub(crate) fn crc32(data: &[u8]) -> (r: u32)
    ensures
        r == crc32_of(data@),
{
    crc32fast::hash(data)
}

} // verus!

//! Page checksums.

use vstd::prelude::*;

verus! {

/// The CRC-32 (IEEE) value of a byte sequence. The algorithm itself is not
/// restated here; `crc32` below ties this name to the computation, so
/// contracts can say exactly "the CRC-32 of these bytes" without the library
/// vouching for the algorithm's internals.
pub uninterp spec fn crc32_of(data: Seq<u8>) -> u32;

/// Relies on crc32fast::hash: the CRC-32 (IEEE) checksum of `data`, a pure
/// function of the bytes alone.
#[verifier::external_body]
pub(crate) fn crc32(data: &[u8]) -> (r: u32)
    ensures
        r == crc32_of(data@),
{
    crc32fast::hash(data)
}

} // verus!

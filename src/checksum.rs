//! CRC-32C (Castagnoli), the checksum of every value-log record.
use vstd::prelude::*;

verus! {

/// The CRC-32C of a byte string.
pub uninterp spec fn crc32c(data: Seq<u8>) -> u32;

/// Relies on crc::crc32::checksum_castagnoli, whose result depends on the bytes alone.
#[verifier::external_body]
pub(crate) fn crc32c_of(data: &[u8]) -> (r: u32)
    ensures
        r == crc32c(data@),
{
    crc::crc32::checksum_castagnoli(data)
}

} // verus!

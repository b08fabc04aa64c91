//! The ways in which an operation of the storage core can fail.
use vstd::prelude::*;

verus! {

/// Why an operation failed.
#[derive(Debug, Clone, Copy, PartialEq, Eq, Structural)]
pub enum Error {
    /// A file in the log directory carries the log suffix but its stem is no fid.
    InvalidFilename,
    /// A read went past the valid region of a segment or a table.
    UnexpectedEof,
    /// A value-log record whose checksum does not match its bytes.
    CorruptRecord,
    /// A table whose trailer or block index is inconsistent.
    CorruptTable,
    /// A block record whose key runs past the end of its block.
    KeyExceedSizeOfBlock { pos: u32, block_len: u32 },
    /// A block record whose value runs past the end of its block.
    ValueExceedSizeOfBlock { pos: u32, block_len: u32 },
    /// A record, or a batch of records, too long for the 32-bit offsets of a segment.
    RecordTooLarge,
    /// A writable segment that already holds more than 4 GiB.
    SegmentTooLarge,
    /// No fid is left above the active one.
    FidExhausted,
}

} // verus!

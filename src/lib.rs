//! Storage core of a key-value engine that keeps values apart from keys:
//! an append-only, segmented value log of CRC-protected records, and a
//! reader for immutable sorted tables of prefix-compressed blocks.
//!
//! Files are opened, read and written by the caller; this crate decides
//! what goes where and checks what comes back:
//! - `value`: value-log records and pointers, and their byte layouts;
//! - `names`: segment file names;
//! - `segment`, `vlog`: the segments of the value log and the log itself;
//! - `block`, `table`: blocks of a sorted table, the table's block index,
//!   and iteration over both.
pub mod bytes;
pub mod checksum;
pub mod error;
pub mod value;
pub mod names;
pub mod segment;
pub mod vlog;
pub mod block;
pub mod table;

//! An embedded key-value store made durable by a segmented write-ahead log.
//!
//! Mutations are encoded as binary frames and appended to the open segment of
//! the log; once a segment reaches the configured size, the log rolls over to
//! a fresh segment. Opening a store replays every frame, across all segments
//! in start-index order, to rebuild the in-memory mapping.
//!
//! The library itself is purely computational: segment contents are byte
//! buffers, handed in and out as [`NamedFile`] values. Reading a log directory
//! from disk and writing segment bytes back belong to the embedding program.

use vstd::prelude::*;

pub mod codec;
pub mod frame;
pub mod names;
pub mod segment;
pub mod kv_store;
pub mod laws;
pub mod segmented_log;
pub mod wal;

pub use codec::{WalEntry, WalEntryModel, WalEntryView};
pub use frame::WalFrame;
pub use kv_store::{KVStore, KvMap, WriteBatch, DEFAULT_MAX_LOG_SIZE};
pub use segment::WalSegment;
pub use segmented_log::{SegmentedWal, WALConfig, WalEntryIterator};
pub use wal::WriteAheadLog;

verus! {

/// Errors raised by the write-ahead log and the store built on it.
#[derive(Debug, Clone, Copy, PartialEq, Eq, Structural)]
pub enum WalError {
    /// A log entry was too large to be framed.
    Serialization,
    /// A frame's payload failed structural validation: corruption mid-log.
    Deserialization,
    /// A frame header or payload was cut short inside a non-final segment.
    TruncatedTail,
    /// A file name matched the segment pattern but holds no canonical index.
    BadSegmentName,
    /// Two segment files claim the same start index.
    DuplicateSegment,
}

/// One directory entry of the log: a file name and the bytes it holds.
pub struct NamedFile {
    pub name: String,
    pub data: Vec<u8>,
}

} // verus!

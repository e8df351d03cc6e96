//! An embedded, append-only, log-structured key-value store.
//!
//! The library holds the storage engine's logic: the record format, the
//! in-memory index, recovery from the data files' bytes, the write path and
//! compaction. Files are read and written by the caller; the engine takes
//! bytes and answers with what is to be appended, created or copied.

use vstd::prelude::*;

pub mod base;
pub mod checksum;
pub mod codec;
pub mod directory;
pub mod endian;
pub mod error;
pub mod keydir;
pub mod keymap;
pub mod loadable;
pub mod merge;
pub mod merge_pointer;
pub mod record;
pub mod recovery;

verus! {

/// What the store's operations return.
pub type Result<T> = std::result::Result<T, error::Error>;

/// How a store is opened.
#[derive(Clone, Copy, Debug)]
pub struct Options {
    /// The size at which the active file is closed and a new one begun.
    /// 256 MiB by default.
    pub max_file_size_bytes: u64,
    /// How many readers may hold the store at once. 2^29 - 1 by default.
    pub max_readers: u32,
    pub flush_behavior: FlushBehavior,
}

impl Default for Options {
    fn default() -> (options: Options)
        ensures
            options.max_file_size_bytes == 0x1000_0000,
            options.max_readers == 536870911,
            options.flush_behavior == FlushBehavior::AfterEveryWrite,
    {
        Options {
            max_file_size_bytes: 0x1000_0000,
            max_readers: 536870911,
            flush_behavior: FlushBehavior::AfterEveryWrite,
        }
    }
}

/// Governs when the write buffer is handed to the operating system. What is
/// still in the buffer when the process is killed is lost.
#[derive(Clone, Copy, Debug, PartialEq, Eq, Structural)]
pub enum FlushBehavior {
    /// Flush after every single `insert` and `remove`: more durable, slower.
    AfterEveryWrite,
    /// Flush only when the buffer is full, at no set time. Call `flush` by
    /// hand where a read has to see a write.
    WhenFull,
}

impl Default for FlushBehavior {
    fn default() -> (behavior: FlushBehavior)
        ensures
            behavior == FlushBehavior::AfterEveryWrite,
    {
        FlushBehavior::AfterEveryWrite
    }
}

} // verus!

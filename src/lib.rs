//! A persistent key-value store kept as an append-only log of commands, with
//! an in-memory index from each live key to the offset of its latest `Put`
//! record and a compaction step that rewrites only the live records.
//!
//! The store keeps the bytes of its log file in memory and says, after each
//! change, what must reach the file: either bytes to append, or the whole log
//! to write in place of the old file. Reading and writing the file is left to
//! the caller.

pub mod codec;
pub mod error;
pub mod laws;
pub mod log;
pub mod store;

pub use error::KvError;
pub use store::{KvStore, Persist, MAX_LOG_SIZE};

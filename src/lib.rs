//! A single-file, append-only key-value store.
//!
//! Every write appends a record to a log; an in-memory index maps each key
//! to the offset of its most recent record and is rebuilt from the log by a
//! forward scan whenever a log is loaded. A record with an empty value is a
//! tombstone: it marks its key as deleted, so an empty value cannot be
//! stored. Nothing is ever erased from the log.
//!
//! The library keeps the log's bytes in memory; the program around it keeps
//! a file equal to them (see `Kvdb::log_bytes` and `encode`).
pub mod codec;
pub mod index;
pub mod laws;
pub mod log;
pub mod store;

pub use codec::{decode_header, encode, HEADER_LEN};
pub use store::{KvError, Kvdb};

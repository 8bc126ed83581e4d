//! A persistent key-value store built on an append-only log.
//!
//! Keys are `i64`, values are byte strings handed in and out as text. The
//! engine keeps an in-memory index from each key to the place of its latest
//! value in the log, a byte-budgeted recency cache of decoded values, and
//! rewrites the log to drop obsolete records once it grows past a threshold.
//! The log's bytes are held in memory; the caller persists them: it appends
//! what each write adds, and replaces its copy whole after a compaction.

pub mod cache;
pub mod db;
pub mod error;
pub mod laws;
pub mod log;
pub mod record;

pub use cache::{ValueCache, MAX_CACHE_SIZE};
pub use db::{Config, KvDb, DEFAULT_GC_THRESHOLD};
pub use error::KvError;
pub use log::{load_index, MemIndex, ValuePos};
pub use record::{write_remove_record, write_set_record, OpType};

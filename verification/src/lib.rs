//! A minimal embedded key-value storage engine: an in-memory sorted index
//! backed by a crash-durable append-only write-ahead log.
//!
//! The log's byte format, its replay/recovery protocol, the sorted index it
//! rebuilds, and the engine façade's log-before-apply rule are all verified.
//! File and directory handling live outside this crate: the library works on
//! the byte contents of log files and on plain values.

pub mod codec;
pub mod database;
pub mod lex;
pub mod mem_table;
pub mod record;
pub mod wal;
pub mod wal_iterator;

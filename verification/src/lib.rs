//! A single-node key-value store kept in an append-only command log.
//!
//! The crate is the storage engine: the record format, the in-memory index,
//! replay of the log on open, and compaction. It works on generation images
//! held in memory; reading them from disk and writing them back is left to
//! the program that embeds the engine. What that program has to decide is
//! decided here too: how the generation files are named, in what order
//! they are read, and what is written and taken away after an operation.

pub mod compact;
pub mod entry;
pub mod error;
pub mod files;
pub mod index;
pub mod kv;
pub mod laws;
pub mod log;
pub mod prelude;
pub mod record;
pub mod replay;

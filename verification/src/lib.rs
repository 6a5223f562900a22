//! An embedded key-value store with durable, crash-resilient persistence.
//!
//! The store keeps every mutation in an append-only write-ahead log made of
//! length-prefixed frames.  The on-disk state (active WAL, frozen segments)
//! is modelled here as plain byte sequences; replaying them rebuilds the
//! in-memory index.  A host shim performs the actual file operations and
//! feeds the bytes in and out.

pub mod db;
pub mod entry;
pub mod error;
pub mod index;
pub mod log;
pub mod record;
pub mod store;

pub use db::DB;
pub use error::DBError;
pub use record::{Action, Record};

//! A single-node, embedded key-value engine.
//!
//! String-to-string mappings are persisted through an append-only commit
//! log and served from an in-memory index.  The log is modelled here as
//! its textual content; the caller owns the backing file, reads it whole
//! when opening a store, and appends each committed record to it.

pub mod codec;
pub mod defs;
pub mod log;
pub mod store;

pub use self::defs::KvdbError;
pub use self::store::KvStore;

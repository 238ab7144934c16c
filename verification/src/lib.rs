//! A persistent, log-structured key-value store with a verified core.
//!
//! Mutations are appended as framed records to generation-numbered segment
//! images, an index maps each live key to the position of its last write,
//! stale bytes are accounted, and compaction rewrites the live entries into
//! a fresh segment. The segments live in memory here; the store queues the
//! file operations each mutation implies, and the binaries around the
//! library apply them to the data directory and serve the wire protocol.

use vstd::prelude::*;

pub mod codec;
pub mod common;
pub mod engines;
pub mod error;
pub mod model;
pub mod parser;
pub mod records;
pub mod server;

pub use engines::kvs::KvStore;
pub use engines::KvsEngine;
pub use error::KVError;

verus! {

/// Accounted stale bytes above which a mutation triggers compaction.
pub const COMPACTION_THRESHOLD: u64 = 1024 * 1024;

} // verus!

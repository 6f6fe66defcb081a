//! A content-addressed, deduplicating backup library.
//!
//! A backup ingests a directory tree that has already been walked into plain
//! values (paths, file bytes, link targets), splits the concatenation of the
//! regular files' bytes into content-defined chunks, stores each chunk in an
//! append-only blob store, and records a snapshot manifest from which every
//! file can be rebuilt byte for byte. An optional base snapshot lets a new
//! backup reuse chunks that were already stored.

pub mod backup;
pub mod codec;
pub mod digest;
pub mod error;
pub mod index;
pub mod laws;
pub mod metadata;
pub mod reader;
pub mod restore;
pub mod storage;
pub mod writer;

pub use metadata::{Chunk, File, FileChunk, FileSymlink, Snapshot};

//! Error kinds surfaced by the backup and restore pipelines.

use vstd::prelude::*;

verus! {

/// Why a pipeline call failed. Nothing is retried internally; partial state
/// (already-appended blob bytes, already-rebuilt file bytes) stays in place.
#[derive(Clone, Copy, Debug, PartialEq, Eq, Structural)]
pub enum Error {
    /// A malformed blob key, or a key whose range lies outside the store.
    InvalidInput,
    /// A snapshot that does not decode, or a row whose indices or ranges do
    /// not fit the manifest it came with.
    InvalidData,
    /// A chunk whose bytes no longer hash to the digest recorded for it.
    Integrity,
}

} // verus!

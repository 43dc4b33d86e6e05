//! The error taxonomy shared by every component of the store.

use vstd::prelude::*;

verus! {

/// Every failure a store operation can report. All variants are recoverable
/// error values for the caller; none is signalled by panicking.
#[derive(Clone, Copy, Debug, PartialEq, Eq, Structural)]
pub enum StoreError {
    /// A snapshot handed to `MerkHandle::from_snapshot` was not a canonical
    /// store encoding.
    OpenError,
    /// The handle was closed or destroyed before the operation.
    StoreClosed,
    /// Exclusive access to the store could not be acquired. With this
    /// single-owner handle design the situation cannot arise; the variant
    /// completes the taxonomy for callers that wrap the handle in a lock.
    LockFailure,
    /// A batch was used again after a commit had consumed it.
    BatchAlreadyCommitted,
    /// The staged operations were rejected by the store: a delete named a key
    /// that is not present.
    ApplyError,
    /// A chunk index at or beyond the chunk count was requested.
    ChunkIndexOutOfRange,
    /// A chunk fed to the restorer failed its structural checks.
    InvalidChunk,
    /// The restorer was used again after `finalize` had completed or aborted.
    AlreadyFinalized,
    /// The restored data does not hash to the root digest the restorer was
    /// constructed with, or the delivered length contradicts the stated one.
    RootHashMismatch,
    /// The proof does not hash to the expected root digest.
    ProofHashMismatch,
    /// The proof does not cover a queried key. The snapshot proofs this
    /// library produces always cover every key, so only foreign proofs could
    /// report it.
    ProofIncomplete,
    /// The proof bytes or the expected digest are not in the proof format:
    /// wrong digest width, or a non-canonical entry encoding.
    InvalidProofFormat,
}

impl StoreError {
    /// A short stable description of the error.
    pub fn message(&self) -> (r: &'static str)
    {
        match self {
            StoreError::OpenError => "snapshot is not a valid store encoding",
            StoreError::StoreClosed => "store is closed",
            StoreError::LockFailure => "failed to acquire store lock",
            StoreError::BatchAlreadyCommitted => "batch was already committed",
            StoreError::ApplyError => "batch was rejected by the store",
            StoreError::ChunkIndexOutOfRange => "chunk index out of range",
            StoreError::InvalidChunk => "chunk failed structural checks",
            StoreError::AlreadyFinalized => "restorer was already finalized",
            StoreError::RootHashMismatch => "restored data does not match the target root hash",
            StoreError::ProofHashMismatch => "proof does not match the expected root hash",
            StoreError::ProofIncomplete => "proof does not cover a queried key",
            StoreError::InvalidProofFormat => "proof bytes are not in the proof format",
        }
    }
}

} // verus!

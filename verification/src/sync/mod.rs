//! Sync orchestration: the advisory lock protocol and sync errors.

use vstd::prelude::*;

use crate::error::TalonError;

pub mod lock;
pub mod relink;

pub use lock::{LockMetadata, SyncLockError};

verus! {

/// Errors returned by a sync run.
#[derive(Debug)]
pub enum SyncError {
    /// Another Talon process holds the sync lock.
    LockBusy,
    /// Lock-file IO failed for a reason other than contention.
    Lock(std::io::Error),
    /// Indexer-side failure (DB or filesystem).
    Indexer(TalonError),
    /// Embed-pass failure (HTTP error, dim mismatch, etc.).
    Embed(String),
}

impl SyncError {
    /// The sync error of a lock error: contention stays contention, and an
    /// IO failure keeps its cause.
    pub fn from_lock(err: SyncLockError) -> (r: Self)
        ensures
            err is Busy ==> r is LockBusy,
            err matches SyncLockError::Io(e) ==> r matches SyncError::Lock(f) && f == e,
    {
        match err {
            SyncLockError::Busy => SyncError::LockBusy,
            SyncLockError::Io(io) => SyncError::Lock(io),
        }
    }
}

} // verus!

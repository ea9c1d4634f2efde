//! Advisory file lock with stale-PID detection: the acquisition protocol.
//!
//! The lock is a JSON file holding the holder's pid and start time.
//! Acquisition creates the file exclusively; when it already exists, the
//! holder's pid is probed, a lock whose holder is gone (or whose file cannot
//! be read) is removed, and one more creation is tried. The file system and
//! process probes are performed by the caller, who feeds their outcomes to
//! [`acquire_step`] and performs the [`LockAction`] it returns.

use vstd::prelude::*;

verus! {

/// Declares `std::io::Error` so that lock and sync errors can carry it.
#[verifier::external_type_specification]
#[verifier::external_body]
pub struct ExIoError(std::io::Error);

/// On-disk representation of the lock file.
#[derive(Debug, Clone, Copy, PartialEq, Eq, Structural)]
pub struct LockMetadata {
    /// Operating-system process id of the holder.
    pub pid: u32,
    /// Wall-clock acquisition time, milliseconds since the Unix epoch.
    pub started_at: u64,
}

/// Errors returned by lock acquisition.
#[derive(Debug)]
pub enum SyncLockError {
    /// Another live process holds the lock.
    Busy,
    /// Filesystem operation failed for a reason other than contention.
    Io(std::io::Error),
}

/// Where an acquisition stands.
#[derive(Debug, Clone, Copy, PartialEq, Eq, Structural)]
pub enum AcquireState {
    /// The lock's parent directories are being created.
    PreparingParents,
    /// The first exclusive creation is under way.
    FirstAttempt,
    /// The existing lock file is being read for its holder.
    ReadingHolder,
    /// The holder with this pid is being probed.
    ProbingHolder(u32),
    /// The stale lock file is being removed.
    RemovingStale,
    /// The second (last) exclusive creation is under way.
    SecondAttempt,
    /// The acquisition is over.
    Done,
}

/// What the caller must do next.
#[derive(Debug)]
pub enum LockAction {
    /// Create the lock file's missing parent directories (if it has any).
    CreateParents,
    /// Create the lock file exclusively and write this process's metadata.
    CreateLock,
    /// Read the holder's pid out of the lock file.
    ReadHolder,
    /// Probe whether the process with this pid is alive.
    ProbeHolder(u32),
    /// Remove the lock file (a missing file counts as removed).
    RemoveLock,
    /// Stop: the lock is held by this process (`Ok`) or could not be taken.
    Finish(Result<(), SyncLockError>),
}

/// What the caller observed when performing an action.
#[derive(Debug)]
pub enum LockEvent {
    /// The parent directories exist.
    ParentsReady,
    /// The lock file was created.
    Created,
    /// The lock file already exists.
    AlreadyExists,
    /// The holder's pid, or `None` when the file cannot be read or parsed.
    Holder(Option<u32>),
    /// Whether the probed holder is alive.
    HolderAlive(bool),
    /// The lock file is gone.
    Removed,
    /// A filesystem operation failed otherwise.
    IoFailed(std::io::Error),
}

/// The action a state waits on; it is asked again when an event does not
/// fit the state.
pub open spec fn pending_action(state: AcquireState) -> LockAction {
    match state {
        AcquireState::PreparingParents => LockAction::CreateParents,
        AcquireState::FirstAttempt => LockAction::CreateLock,
        AcquireState::ReadingHolder => LockAction::ReadHolder,
        AcquireState::ProbingHolder(pid) => LockAction::ProbeHolder(pid),
        AcquireState::RemovingStale => LockAction::RemoveLock,
        AcquireState::SecondAttempt => LockAction::CreateLock,
        AcquireState::Done => LockAction::Finish(Err(SyncLockError::Busy)),
    }
}

/// The protocol: create the parents, then the lock; when it exists, read its
/// holder; a holder that cannot be read, or that is not alive, is stale and
/// its file is removed, after which the lock is created once more; a live
/// holder, or a lock that exists again at the second attempt, means busy;
/// any other filesystem failure ends the acquisition with that error.
pub open spec fn step_spec(state: AcquireState, event: LockEvent) -> (AcquireState, LockAction) {
    match (state, event) {
        (AcquireState::PreparingParents, LockEvent::ParentsReady) => (AcquireState::FirstAttempt, LockAction::CreateLock),
        (AcquireState::FirstAttempt, LockEvent::Created) => (AcquireState::Done, LockAction::Finish(Ok(()))),
        (AcquireState::FirstAttempt, LockEvent::AlreadyExists) => (AcquireState::ReadingHolder, LockAction::ReadHolder),
        (AcquireState::ReadingHolder, LockEvent::Holder(None)) => (AcquireState::RemovingStale, LockAction::RemoveLock),
        (AcquireState::ReadingHolder, LockEvent::Holder(Some(pid))) => (AcquireState::ProbingHolder(pid), LockAction::ProbeHolder(pid)),
        (AcquireState::ProbingHolder(_), LockEvent::HolderAlive(true)) => (AcquireState::Done, LockAction::Finish(Err(SyncLockError::Busy))),
        (AcquireState::ProbingHolder(_), LockEvent::HolderAlive(false)) => (AcquireState::RemovingStale, LockAction::RemoveLock),
        (AcquireState::RemovingStale, LockEvent::Removed) => (AcquireState::SecondAttempt, LockAction::CreateLock),
        (AcquireState::SecondAttempt, LockEvent::Created) => (AcquireState::Done, LockAction::Finish(Ok(()))),
        (AcquireState::SecondAttempt, LockEvent::AlreadyExists) => (AcquireState::Done, LockAction::Finish(Err(SyncLockError::Busy))),
        (AcquireState::PreparingParents, LockEvent::IoFailed(e)) => (AcquireState::Done, LockAction::Finish(Err(SyncLockError::Io(e)))),
        (AcquireState::FirstAttempt, LockEvent::IoFailed(e)) => (AcquireState::Done, LockAction::Finish(Err(SyncLockError::Io(e)))),
        (AcquireState::RemovingStale, LockEvent::IoFailed(e)) => (AcquireState::Done, LockAction::Finish(Err(SyncLockError::Io(e)))),
        (AcquireState::SecondAttempt, LockEvent::IoFailed(e)) => (AcquireState::Done, LockAction::Finish(Err(SyncLockError::Io(e)))),
        (s, _) => (s, pending_action(s)),
    }
}

/// The first state and action of an acquisition.
pub fn acquire_start() -> (r: (AcquireState, LockAction))
    ensures
        r.0 == AcquireState::PreparingParents,
        r.1 is CreateParents,
{
    (AcquireState::PreparingParents, LockAction::CreateParents)
}

/// One step of the acquisition protocol (see [`step_spec`]).
pub fn acquire_step(state: AcquireState, event: LockEvent) -> (r: (AcquireState, LockAction))
    ensures
        r == step_spec(state, event),
{
    match (state, event) {
        (AcquireState::PreparingParents, LockEvent::ParentsReady) => (AcquireState::FirstAttempt, LockAction::CreateLock),
        (AcquireState::FirstAttempt, LockEvent::Created) => (AcquireState::Done, LockAction::Finish(Ok(()))),
        (AcquireState::FirstAttempt, LockEvent::AlreadyExists) => (AcquireState::ReadingHolder, LockAction::ReadHolder),
        (AcquireState::ReadingHolder, LockEvent::Holder(None)) => (AcquireState::RemovingStale, LockAction::RemoveLock),
        (AcquireState::ReadingHolder, LockEvent::Holder(Some(pid))) => (AcquireState::ProbingHolder(pid), LockAction::ProbeHolder(pid)),
        (AcquireState::ProbingHolder(_), LockEvent::HolderAlive(true)) => (AcquireState::Done, LockAction::Finish(Err(SyncLockError::Busy))),
        (AcquireState::ProbingHolder(_), LockEvent::HolderAlive(false)) => (AcquireState::RemovingStale, LockAction::RemoveLock),
        (AcquireState::RemovingStale, LockEvent::Removed) => (AcquireState::SecondAttempt, LockAction::CreateLock),
        (AcquireState::SecondAttempt, LockEvent::Created) => (AcquireState::Done, LockAction::Finish(Ok(()))),
        (AcquireState::SecondAttempt, LockEvent::AlreadyExists) => (AcquireState::Done, LockAction::Finish(Err(SyncLockError::Busy))),
        (AcquireState::PreparingParents, LockEvent::IoFailed(e)) => (AcquireState::Done, LockAction::Finish(Err(SyncLockError::Io(e)))),
        (AcquireState::FirstAttempt, LockEvent::IoFailed(e)) => (AcquireState::Done, LockAction::Finish(Err(SyncLockError::Io(e)))),
        (AcquireState::RemovingStale, LockEvent::IoFailed(e)) => (AcquireState::Done, LockAction::Finish(Err(SyncLockError::Io(e)))),
        (AcquireState::SecondAttempt, LockEvent::IoFailed(e)) => (AcquireState::Done, LockAction::Finish(Err(SyncLockError::Io(e)))),
        (s, _) => (s, match s {
            AcquireState::PreparingParents => LockAction::CreateParents,
            AcquireState::FirstAttempt => LockAction::CreateLock,
            AcquireState::ReadingHolder => LockAction::ReadHolder,
            AcquireState::ProbingHolder(pid) => LockAction::ProbeHolder(pid),
            AcquireState::RemovingStale => LockAction::RemoveLock,
            AcquireState::SecondAttempt => LockAction::CreateLock,
            AcquireState::Done => LockAction::Finish(Err(SyncLockError::Busy)),
        }),
    }
}

/// The id a liveness probe can address for `pid`: the same number as a
/// positive `i32`, or `None` (the process then counts as not alive).
pub fn probe_pid(pid: u32) -> (r: Option<i32>)
    ensures
        r matches Some(p) ==> p == pid,
        r is Some <==> 0 < pid <= i32::MAX,
{
    if pid == 0 || pid > 2147483647 {
        None
    } else {
        Some(pid as i32)
    }
}

/// Whether a lock file released on drop should be removed: only when it
/// still names the process that holds the guard.
pub fn owns_lock(holder: Option<u32>, own_pid: u32) -> (b: bool)
    ensures
        b == (holder == Some(own_pid)),
{
    match holder {
        Some(h) => h == own_pid,
        None => false,
    }
}

/// Declares `std::path::PathBuf`, the owned path a lock guard keeps.
#[verifier::external_type_specification]
#[verifier::external_body]
pub struct ExPathBuf(std::path::PathBuf);

/// Declares `std::path::Path`, the borrowed path a lock guard hands out.
#[verifier::external_type_specification]
#[verifier::external_body]
pub struct ExPath(std::path::Path);

/// `PathBuf::as_path` borrows the path; nothing is claimed of it.
pub assume_specification[std::path::PathBuf::as_path](p: &std::path::PathBuf) -> &std::path::Path;

/// A held lock: the lock file's path and the pid of the process that took
/// it. Releasing it (removing the file) is for the holder alone: see
/// [`SyncLock::owns`].
#[derive(Debug)]
pub struct SyncLock {
    path: std::path::PathBuf,
    pid: u32,
}

impl SyncLock {
    /// The pid recorded in the guard.
    pub closed spec fn holder_pid(self) -> u32 {
        self.pid
    }

    /// A guard for the lock at `path`, taken by the process `pid`.
    pub fn new(path: std::path::PathBuf, pid: u32) -> (r: Self)
        ensures
            r.holder_pid() == pid,
    {
        SyncLock { path, pid }
    }

    /// Returns the path of the lock file backing this guard.
    pub fn path(&self) -> &std::path::Path {
        self.path.as_path()
    }

    /// The pid of the process that took the lock.
    pub fn pid(&self) -> (r: u32)
        ensures
            r == self.holder_pid(),
    {
        self.pid
    }

    /// Whether the lock file, which now names `holder`, is this guard's to
    /// remove: only when it still names the process that took it.
    pub fn owns(&self, holder: Option<u32>) -> (b: bool)
        ensures
            b == (holder == Some(self.holder_pid())),
    {
        owns_lock(holder, self.pid)
    }
}

} // verus!

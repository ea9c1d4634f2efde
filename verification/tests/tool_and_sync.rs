use talon_core::error::TalonError;
use talon_core::sync::lock::{
    acquire_start, acquire_step, owns_lock, probe_pid, AcquireState, LockAction, LockEvent, SyncLockError,
};
use talon_core::sync::SyncError;
use talon_core::tool::{ContainerPath, PositiveCount, StatusResponse, StatusState, VaultPath};

#[test]
fn positive_count_accepts_only_positive_values() {
    assert_eq!(PositiveCount::new(12, "limit").unwrap().get(), 12);
    match PositiveCount::new(0, "candidate_limit") {
        Err(TalonError::InvalidInput { field, message }) => {
            assert_eq!(field, "candidate_limit");
            assert_eq!(message, "must be greater than zero");
        }
        other => panic!("zero must be rejected, got {other:?}"),
    }
    assert_eq!(PositiveCount::default().get(), 10);
}

#[test]
fn paths_must_not_be_blank() {
    assert_eq!(VaultPath::parse("notes/a.md".to_string()).unwrap().as_str(), "notes/a.md");
    assert_eq!(ContainerPath::parse(" /vault ".to_string()).unwrap().as_str(), " /vault ");
    assert!(matches!(VaultPath::parse("   ".to_string()), Err(TalonError::InvalidInput { field: "path", .. })));
    assert!(matches!(ContainerPath::parse(String::new()), Err(TalonError::InvalidInput { field: "path", .. })));
}

#[test]
fn scaffold_status_reports_config_error() {
    let status = StatusResponse::scaffold().unwrap();
    assert_eq!(status.state, StatusState::ConfigError);
    assert!(!status.enabled);
    assert_eq!(status.index_version, "scaffold");
}

fn run(events: Vec<LockEvent>) -> (AcquireState, Vec<String>) {
    let (mut state, mut action) = acquire_start();
    let mut seen = vec![format!("{action:?}")];
    for event in events {
        let (s, a) = acquire_step(state, event);
        state = s;
        action = a;
        seen.push(format!("{action:?}"));
    }
    let _ = action;
    (state, seen)
}

#[test]
fn lock_is_taken_at_the_first_attempt() {
    let (state, actions) = run(vec![LockEvent::ParentsReady, LockEvent::Created]);
    assert_eq!(state, AcquireState::Done);
    assert_eq!(actions, vec!["CreateParents", "CreateLock", "Finish(Ok(()))"]);
}

#[test]
fn stale_lock_is_removed_and_retried_once() {
    let (state, actions) = run(vec![
        LockEvent::ParentsReady,
        LockEvent::AlreadyExists,
        LockEvent::Holder(Some(4242)),
        LockEvent::HolderAlive(false),
        LockEvent::Removed,
        LockEvent::AlreadyExists,
    ]);
    assert_eq!(state, AcquireState::Done);
    assert_eq!(
        actions,
        vec!["CreateParents", "CreateLock", "ReadHolder", "ProbeHolder(4242)", "RemoveLock", "CreateLock", "Finish(Err(Busy))"]
    );
}

#[test]
fn unreadable_lock_counts_as_stale_and_live_holder_as_busy() {
    let (_, actions) = run(vec![
        LockEvent::ParentsReady,
        LockEvent::AlreadyExists,
        LockEvent::Holder(None),
        LockEvent::Removed,
        LockEvent::Created,
    ]);
    assert_eq!(actions.last().unwrap(), "Finish(Ok(()))");
    let (_, actions) = run(vec![
        LockEvent::ParentsReady,
        LockEvent::AlreadyExists,
        LockEvent::Holder(Some(1)),
        LockEvent::HolderAlive(true),
    ]);
    assert_eq!(actions.last().unwrap(), "Finish(Err(Busy))");
}

#[test]
fn io_failures_end_the_acquisition_and_stray_events_repeat_the_request() {
    let (state, action) = acquire_step(
        AcquireState::FirstAttempt,
        LockEvent::IoFailed(std::io::Error::new(std::io::ErrorKind::PermissionDenied, "denied")),
    );
    assert_eq!(state, AcquireState::Done);
    assert!(matches!(action, LockAction::Finish(Err(SyncLockError::Io(_)))));
    let (state, action) = acquire_step(AcquireState::ReadingHolder, LockEvent::Created);
    assert_eq!(state, AcquireState::ReadingHolder);
    assert!(matches!(action, LockAction::ReadHolder));
}

#[test]
fn pids_and_ownership() {
    assert_eq!(probe_pid(0), None);
    assert_eq!(probe_pid(7), Some(7));
    assert_eq!(probe_pid(2_147_483_647), Some(2_147_483_647));
    assert_eq!(probe_pid(2_147_483_648), None);
    assert!(owns_lock(Some(5), 5));
    assert!(!owns_lock(Some(6), 5));
    assert!(!owns_lock(None, 5));
}

#[test]
fn lock_errors_become_sync_errors() {
    assert!(matches!(SyncError::from_lock(SyncLockError::Busy), SyncError::LockBusy));
    let io = std::io::Error::new(std::io::ErrorKind::Other, "disk");
    assert!(matches!(SyncError::from_lock(SyncLockError::Io(io)), SyncError::Lock(e) if e.to_string() == "disk"));
}

#[test]
fn positive_count_converts_both_ways() {
    let c = PositiveCount::try_from(3_u16).unwrap();
    assert_eq!(u16::from(c), 3);
    assert!(matches!(PositiveCount::try_from(0_u16), Err(TalonError::InvalidInput { field: "count", .. })));
}

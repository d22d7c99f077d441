use os::deadlock::DEADLOCK_DETECTED;
use os::mutex::{LockStep, Mutex, MutexBlocking, MutexSpin, UnlockStep};

#[test]
fn spin_lock_takes_a_free_mutex() {
    let mut m = MutexSpin::new();
    assert!(m.lock(1) == LockStep::Acquired);
    assert!(m.lock(2) == LockStep::Retry);
    assert!(m.unlock() == UnlockStep::Released);
    assert!(m.lock(2) == LockStep::Acquired);
}

#[test]
fn spin_lock_checked_never_reports_deadlock() {
    let mut m = MutexSpin::new();
    assert!(m.lock_checked(1, true) == LockStep::Acquired);
    assert!(m.lock_checked(1, true) == LockStep::Retry);
    assert_eq!(m.lock_checked(1, true).code(), 0);
}

#[test]
fn blocking_lock_unlock_round_trip() {
    let mut m = MutexBlocking::new();
    assert!(m.lock(3) == LockStep::Acquired);
    assert_eq!(m.current_owner(), Some(3));
    assert!(m.unlock() == UnlockStep::Released);
    assert_eq!(m.current_owner(), None);
    assert!(m.lock(4) == LockStep::Acquired);
}

#[test]
fn blocking_waiters_are_served_in_order() {
    let mut m = MutexBlocking::new();
    assert!(m.lock(1) == LockStep::Acquired);
    assert!(m.lock(2) == LockStep::Blocked);
    assert!(m.lock(3) == LockStep::Blocked);
    assert!(m.unlock() == UnlockStep::HandedTo(2));
    assert_eq!(m.current_owner(), Some(2));
    assert!(m.unlock() == UnlockStep::HandedTo(3));
    assert_eq!(m.current_owner(), Some(3));
    assert!(m.unlock() == UnlockStep::Released);
    assert_eq!(m.current_owner(), None);
}

#[test]
fn blocking_self_lock_is_detected_when_checked() {
    let mut m = MutexBlocking::new();
    assert_eq!(m.lock_checked(7, true).code(), 0);
    let step = m.lock_checked(7, true);
    assert!(step == LockStep::Deadlock);
    assert_eq!(step.code(), DEADLOCK_DETECTED);
    // Nothing changed: the owner unlocks and nobody is woken.
    assert_eq!(m.current_owner(), Some(7));
    assert!(m.unlock() == UnlockStep::Released);
}

#[test]
fn blocking_self_lock_unchecked_blocks() {
    let mut m = MutexBlocking::new();
    assert!(m.lock_checked(7, false) == LockStep::Acquired);
    assert!(m.lock_checked(7, false) == LockStep::Blocked);
    assert!(m.unlock() == UnlockStep::HandedTo(7));
}

#[test]
fn blocking_other_thread_is_not_a_deadlock() {
    let mut m = MutexBlocking::new();
    assert!(m.lock(1) == LockStep::Acquired);
    let step = m.lock_checked(2, true);
    assert!(step == LockStep::Blocked);
    assert_eq!(step.code(), 0);
}

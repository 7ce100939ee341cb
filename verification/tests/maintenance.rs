use conduit::maintenance::{clean_step, CleanAction, CleanEvent, CleanState};

const EVENTS: [CleanEvent; 5] = [
    CleanEvent::Woken { database_alive: true },
    CleanEvent::Woken { database_alive: false },
    CleanEvent::Locked,
    CleanEvent::LockTimedOut,
    CleanEvent::Flushed { ok: true },
];

const STATES: [CleanState; 4] =
    [CleanState::Waiting, CleanState::Locking, CleanState::Flushing, CleanState::Stopped];

#[test]
fn a_woken_task_flushes_and_sleeps_again() {
    let woken = CleanEvent::Woken { database_alive: true };
    assert_eq!(
        clean_step(CleanState::Waiting, woken),
        (CleanState::Locking, CleanAction::RotateAndLock)
    );
    assert_eq!(
        clean_step(CleanState::Locking, CleanEvent::Locked),
        (CleanState::Flushing, CleanAction::Flush)
    );
    for ok in [true, false] {
        assert_eq!(
            clean_step(CleanState::Flushing, CleanEvent::Flushed { ok }),
            (CleanState::Waiting, CleanAction::Wait)
        );
    }
}

#[test]
fn a_lock_that_comes_late_is_given_up() {
    assert_eq!(
        clean_step(CleanState::Locking, CleanEvent::LockTimedOut),
        (CleanState::Waiting, CleanAction::Wait)
    );
}

#[test]
fn the_task_ends_with_the_database() {
    let woken = CleanEvent::Woken { database_alive: false };
    assert_eq!(clean_step(CleanState::Waiting, woken), (CleanState::Stopped, CleanAction::Stop));
    for event in EVENTS {
        assert_eq!(
            clean_step(CleanState::Stopped, event),
            (CleanState::Stopped, CleanAction::Stop)
        );
    }
}

#[test]
fn the_log_is_flushed_only_under_the_lock() {
    for state in STATES {
        for event in EVENTS {
            let (next, action) = clean_step(state, event);
            let locked = state == CleanState::Locking && event == CleanEvent::Locked;
            assert_eq!(action == CleanAction::Flush, locked);
            assert_eq!(next == CleanState::Flushing, locked);
        }
    }
}

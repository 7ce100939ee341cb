//! The decisions of the task that truncates the write-ahead log.
//!
//! The task sleeps until a timer or a hangup signal wakes it. It then lets
//! the long-polling requests go, takes the database for itself within a
//! time limit, flushes the log, and sleeps again. The waiting, the locking
//! and the flushing are the caller's; what to do next is decided here.

use vstd::prelude::*;

verus! {

/// Where the task stands.
#[derive(Clone, Copy, Debug, PartialEq, Eq, Structural)]
pub enum CleanState {
    /// Asleep until the timer or a signal wakes it.
    Waiting,
    /// Asking for the database, with a time limit.
    Locking,
    /// Holding the database and flushing the log.
    Flushing,
    /// The database is gone and the task has ended.
    Stopped,
}

/// What has happened to the task.
#[derive(Clone, Copy, Debug, PartialEq, Eq, Structural)]
pub enum CleanEvent {
    /// The timer ticked or the signal came.
    Woken { database_alive: bool },
    /// The database was taken in time.
    Locked,
    /// The database was not taken in time.
    LockTimedOut,
    /// The flush has ended.
    Flushed { ok: bool },
}

/// What the task does next.
#[derive(Clone, Copy, Debug, PartialEq, Eq, Structural)]
pub enum CleanAction {
    /// Sleep until woken.
    Wait,
    /// Release the long-polling requests, then ask for the database.
    RotateAndLock,
    /// Flush the log, then give the database back.
    Flush,
    /// End the task.
    Stop,
}

/// The state after an event, and what to do then. An attempt that does not
/// get the database in time is given up until the task is woken again, and
/// a flush that fails is not tried again before that either. An event that
/// cannot come in a state leaves the task waiting; a task that has stopped
/// stays stopped.
pub open spec fn clean_next(state: CleanState, event: CleanEvent) -> (CleanState, CleanAction) {
    match (state, event) {
        (CleanState::Stopped, _) => (CleanState::Stopped, CleanAction::Stop),
        (CleanState::Waiting, CleanEvent::Woken { database_alive: true }) => (
            CleanState::Locking,
            CleanAction::RotateAndLock,
        ),
        (CleanState::Waiting, CleanEvent::Woken { database_alive: false }) => (
            CleanState::Stopped,
            CleanAction::Stop,
        ),
        (CleanState::Locking, CleanEvent::Locked) => (CleanState::Flushing, CleanAction::Flush),
        _ => (CleanState::Waiting, CleanAction::Wait),
    }
}

/// Decides what the task does after an event.
pub fn clean_step(state: CleanState, event: CleanEvent) -> (r: (CleanState, CleanAction))
    ensures
        r == clean_next(state, event),
{
    match state {
        CleanState::Stopped => (CleanState::Stopped, CleanAction::Stop),
        CleanState::Waiting => match event {
            CleanEvent::Woken { database_alive } => if database_alive {
                (CleanState::Locking, CleanAction::RotateAndLock)
            } else {
                (CleanState::Stopped, CleanAction::Stop)
            },
            _ => (CleanState::Waiting, CleanAction::Wait),
        },
        CleanState::Locking => match event {
            CleanEvent::Locked => (CleanState::Flushing, CleanAction::Flush),
            _ => (CleanState::Waiting, CleanAction::Wait),
        },
        CleanState::Flushing => (CleanState::Waiting, CleanAction::Wait),
    }
}

/// The state that a run of events leaves, from `state` on.
pub open spec fn clean_run(state: CleanState, events: Seq<CleanEvent>) -> CleanState
    decreases events.len(),
{
    if events.len() == 0 {
        state
    } else {
        clean_next(clean_run(state, events.drop_last()), events.last()).0
    }
}

/// The log is flushed only by a task that holds the database: only right
/// after the database was taken in time, by a task that had asked for it,
/// and a task asks for it only when it is woken while the database is
/// there.
pub proof fn lemma_flush_needs_the_lock(state: CleanState, event: CleanEvent)
    ensures
        clean_next(state, event).1 == CleanAction::Flush <==> state == CleanState::Locking && event
            == CleanEvent::Locked,
        clean_next(state, event).0 == CleanState::Flushing <==> clean_next(state, event).1
            == CleanAction::Flush,
        clean_next(state, event).1 == CleanAction::RotateAndLock <==> state == CleanState::Waiting
            && event == (CleanEvent::Woken { database_alive: true }),
        clean_next(state, event).0 == CleanState::Locking <==> clean_next(state, event).1
            == CleanAction::RotateAndLock,
{
}

/// Once the database is gone the task does nothing more: whatever happens
/// after it has stopped, it stays stopped.
pub proof fn lemma_stopped_for_good(events: Seq<CleanEvent>)
    ensures
        clean_run(CleanState::Stopped, events) == CleanState::Stopped,
    decreases events.len(),
{
    if events.len() > 0 {
        lemma_stopped_for_good(events.drop_last());
    }
}

} // verus!

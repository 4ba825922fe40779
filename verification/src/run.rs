//! The scheduled loop: back up at once, then wait and back up in turn, until
//! told to stop. A failed attempt does not end the loop.
use vstd::prelude::*;

verus! {

/// Where the loop stands.
#[derive(Debug, Clone, Copy, PartialEq, Eq, Structural)]
pub enum RunState {
    /// It has just started.
    Starting,
    /// A backup is running.
    BackingUp,
    /// It waits for the next backup.
    Waiting,
    /// It has ended.
    Stopped,
}

/// What happens to the loop.
#[derive(Debug, Clone, Copy, PartialEq, Eq, Structural)]
pub enum RunEvent {
    /// It is set going at a time in milliseconds since the Unix epoch.
    Started {
        /// The time.
        now_ms: i64,
    },
    /// The backup ended, well or not.
    BackupEnded {
        /// Whether it succeeded.
        succeeded: bool,
    },
    /// The wait is over.
    WaitOver {
        /// The time.
        now_ms: i64,
    },
    /// It is told to stop while it waits.
    Shutdown,
}

/// What the loop does next.
#[derive(Debug, Clone, Copy, PartialEq, Eq, Structural)]
pub enum RunAction {
    /// Back up, as a snapshot created at this time in whole seconds.
    BackUp {
        /// The creation time.
        created_at: i64,
    },
    /// Wait for the schedule's next delay, or for being told to stop.
    Wait,
    /// End.
    Stop,
    /// Nothing: the event does not belong here.
    Ignore,
}

/// The loop's next state and action.
pub open spec fn next_step(state: RunState, event: RunEvent) -> (RunState, RunAction) {
    match (state, event) {
        (RunState::Starting, RunEvent::Started { now_ms }) => (
            RunState::BackingUp,
            RunAction::BackUp { created_at: (now_ms as int / 1000) as i64 },
        ),
        (RunState::BackingUp, RunEvent::BackupEnded { .. }) => (RunState::Waiting, RunAction::Wait),
        (RunState::Waiting, RunEvent::WaitOver { now_ms }) => (
            RunState::BackingUp,
            RunAction::BackUp { created_at: (now_ms as int / 1000) as i64 },
        ),
        (RunState::Waiting, RunEvent::Shutdown) => (RunState::Stopped, RunAction::Stop),
        _ => (state, RunAction::Ignore),
    }
}

/// Whole seconds of a time in milliseconds, rounded down.
#[must_use]
pub fn created_at(now_ms: i64) -> (r: i64)
    ensures
        r == now_ms as int / 1000,
{
    match now_ms.checked_div_euclid(1000) {
        Some(s) => s,
        None => 0,
    }
}

/// The loop's next state and action.
#[must_use]
pub fn step(state: RunState, event: RunEvent) -> (r: (RunState, RunAction))
    ensures
        r == next_step(state, event),
{
    match (state, event) {
        (RunState::Starting, RunEvent::Started { now_ms }) => (
            RunState::BackingUp,
            RunAction::BackUp { created_at: created_at(now_ms) },
        ),
        (RunState::BackingUp, RunEvent::BackupEnded { .. }) => (RunState::Waiting, RunAction::Wait),
        (RunState::Waiting, RunEvent::WaitOver { now_ms }) => (
            RunState::BackingUp,
            RunAction::BackUp { created_at: created_at(now_ms) },
        ),
        (RunState::Waiting, RunEvent::Shutdown) => (RunState::Stopped, RunAction::Stop),
        _ => (state, RunAction::Ignore),
    }
}

/// How long an attempt took, in milliseconds; none if the clock went back.
#[must_use]
pub fn attempt_duration_ms(started_at_ms: i64, now_ms: i64) -> (r: u64)
    ensures
        r == if now_ms > started_at_ms {
            now_ms - started_at_ms
        } else {
            0
        },
{
    if now_ms > started_at_ms {
        (now_ms as i128 - started_at_ms as i128) as u64
    } else {
        0
    }
}

/// Starting backs up at once, and a failed attempt is followed by the same
/// wait as one that succeeded.
pub proof fn law_failures_do_not_stop_the_schedule(now_ms: i64, a: bool, b: bool)
    ensures
        next_step(RunState::Starting, RunEvent::Started { now_ms }).1 is BackUp,
        next_step(RunState::BackingUp, RunEvent::BackupEnded { succeeded: a }) == next_step(
            RunState::BackingUp,
            RunEvent::BackupEnded { succeeded: b },
        ),
        next_step(RunState::BackingUp, RunEvent::BackupEnded { succeeded: a }) == (
            RunState::Waiting,
            RunAction::Wait,
        ),
        next_step(RunState::Waiting, RunEvent::WaitOver { now_ms }).1 is BackUp,
{
}

/// The loop ends only by being told to.
pub proof fn law_only_shutdown_stops(state: RunState, event: RunEvent)
    requires
        state != RunState::Stopped,
        next_step(state, event).0 == RunState::Stopped,
    ensures
        state == RunState::Waiting && event == RunEvent::Shutdown,
{
}

/// The loop backs up when it is set going and when a wait is over, waits when a
/// backup has ended, stops when it is told to while it waits, and ignores
/// everything else where it stands.
pub proof fn law_loop_does_one_thing(state: RunState, event: RunEvent)
    ensures
        ({
            let (next, action) = next_step(state, event);
            &&& action is BackUp <==> (state == RunState::Starting && event is Started) || (state
                == RunState::Waiting && event is WaitOver)
            &&& action is Wait <==> state == RunState::BackingUp && event is BackupEnded
            &&& action is Stop <==> state == RunState::Waiting && event is Shutdown
            &&& action is BackUp ==> next == RunState::BackingUp
            &&& action is Wait ==> next == RunState::Waiting
            &&& action is Stop ==> next == RunState::Stopped
            &&& action is Ignore ==> next == state
        }),
{
}

/// A snapshot is created in the second of the time at which it is begun.
pub proof fn law_created_in_its_second(state: RunState, event: RunEvent)
    requires
        next_step(state, event).1 is BackUp,
    ensures
        match (event, next_step(state, event).1) {
            (RunEvent::Started { now_ms }, RunAction::BackUp { created_at }) => 1000 * created_at
                <= now_ms < 1000 * created_at + 1000,
            (RunEvent::WaitOver { now_ms }, RunAction::BackUp { created_at }) => 1000 * created_at
                <= now_ms < 1000 * created_at + 1000,
            _ => false,
        },
{
}

} // verus!

//! Puts the ruleset back when something else on the node takes its tables away.
//!
//! A monitor reports every change to the node's tables. Each report is nothing more than a reason
//! to look whether the tables are still there.

use vstd::prelude::*;

verus! {

/// How long to wait before a monitor that did not start is started again.
pub const RESPAWN_DELAY_SECS: u64 = 5;

/// What happened last.
#[derive(Clone, Copy, Debug, PartialEq, Eq, Structural)]
pub enum Event {
    /// The ruleset has been applied, and nothing is watching yet.
    Applied,
    Spawned,
    SpawnFailed,
    Waited,
    /// The monitor reported a change.
    Line,
    /// The monitor's output ended, or could not be read.
    Ended,
    /// All tables are there, or some are not.
    Checked(bool),
    CheckFailed,
    /// The ruleset has been applied again, whether or not that went well.
    Reapplied,
    /// The monitor is gone.
    Reaped,
}

/// What to do next.
#[derive(Clone, Copy, Debug, PartialEq, Eq, Structural)]
pub enum Action {
    Spawn,
    Wait(u64),
    ReadLine,
    Check,
    Reapply,
    Reap,
}

/// What each event calls for. Tables that are missing, and they alone, have the ruleset applied
/// again; nothing that goes wrong ends the watch.
pub fn next_action(event: Event) -> (r: Action)
    ensures
        r == Action::Reapply <==> event == Event::Checked(false),
        r == Action::Check <==> event == Event::Line,
        r == Action::Reap <==> event == Event::Ended,
        r == Action::Wait(RESPAWN_DELAY_SECS) <==> event == Event::SpawnFailed,
        r is Wait ==> r == Action::Wait(RESPAWN_DELAY_SECS),
        r == Action::Spawn <==> event is Applied || event is Waited || event is Reaped,
        r == Action::ReadLine <==> event is Spawned || event == Event::Checked(true)
            || event is CheckFailed || event is Reapplied,
{
    match event {
        Event::Applied | Event::Waited | Event::Reaped => Action::Spawn,
        Event::SpawnFailed => Action::Wait(RESPAWN_DELAY_SECS),
        Event::Line => Action::Check,
        Event::Ended => Action::Reap,
        Event::Checked(false) => Action::Reapply,
        Event::Spawned | Event::Checked(true) | Event::CheckFailed | Event::Reapplied => {
            Action::ReadLine
        },
    }
}

} // verus!

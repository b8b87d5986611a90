//! The watch loop as a state machine.
//!
//! The loop itself sleeps, reads the disk and writes to the store, none of
//! which is done here. Here is what it decides: given where it stands and
//! what has just happened, where it stands next and what is to be done. The
//! driver carries out the action and comes back with the event.

use vstd::prelude::*;

verus! {

/// The pause between the end of one cycle and the start of the next, in
/// milliseconds.
pub const WATCH_INTERVAL_MILLIS: u64 = 500;

/// What the operator asked for. The choice is made once, at startup.
#[derive(Debug, Clone, Copy, PartialEq, Eq, Structural)]
pub enum Intent {
    /// Print every entry ever appended, oldest first.
    ReportRaw,
    /// Print the current state of every path.
    ReportLatest,
    /// Watch the tree; with `reset`, destroy all history first.
    Watch { reset: bool },
}

/// Where the loop stands.
#[derive(Debug, Clone, Copy, PartialEq, Eq, Structural)]
pub enum State {
    Idle,
    Reporting,
    Watching,
}

/// What the driver is to do next.
#[derive(Debug, Clone, Copy, PartialEq, Eq, Structural)]
pub enum Action {
    /// Print every entry, oldest first.
    DumpAll,
    /// Print the current state of every path.
    DumpLatest,
    /// Destroy all history.
    Reset,
    /// Run one reconciliation cycle.
    Cycle,
    /// Pause for [`WATCH_INTERVAL_MILLIS`], and look for a request to shut
    /// down before coming back.
    Sleep,
    /// Leave, with or without a failure to report.
    Exit { failed: bool },
}

/// What the driver comes back with.
#[derive(Debug, Clone, Copy, PartialEq, Eq, Structural)]
pub enum Event {
    /// The operator's intent, at startup.
    Start(Intent),
    /// The action was carried out.
    Done(Action),
    /// The action failed on the store.
    Failed(Action),
    /// A shutdown was requested; the driver reports it between cycles only.
    Shutdown,
}

/// The transition table.
///
/// From `Idle` the intent decides. A report is one action and an exit.
/// Watching goes on until a shutdown is reported: cycle, sleep, cycle; a
/// cycle that failed is tried again after the pause, and a reset that failed
/// ends the run, since the history it was to clear is still there.
pub open spec fn next(state: State, event: Event) -> (State, Action) {
    match state {
        State::Idle => match event {
            Event::Start(Intent::ReportRaw) => (State::Reporting, Action::DumpAll),
            Event::Start(Intent::ReportLatest) => (State::Reporting, Action::DumpLatest),
            Event::Start(Intent::Watch { reset }) => if reset {
                (State::Watching, Action::Reset)
            } else {
                (State::Watching, Action::Cycle)
            },
            _ => (State::Idle, Action::Exit { failed: false }),
        },
        State::Reporting => match event {
            Event::Failed(_) => (State::Idle, Action::Exit { failed: true }),
            _ => (State::Idle, Action::Exit { failed: false }),
        },
        State::Watching => match event {
            Event::Shutdown => (State::Idle, Action::Exit { failed: false }),
            Event::Failed(Action::Reset) => (State::Idle, Action::Exit { failed: true }),
            Event::Done(Action::Cycle) => (State::Watching, Action::Sleep),
            Event::Failed(Action::Cycle) => (State::Watching, Action::Sleep),
            _ => (State::Watching, Action::Cycle),
        },
    }
}

/// One step of the loop: the next state and the action to carry out.
pub fn step(state: State, event: Event) -> (decided: (State, Action))
    ensures
        decided == next(state, event),
{
    match state {
        State::Idle => match event {
            Event::Start(Intent::ReportRaw) => (State::Reporting, Action::DumpAll),
            Event::Start(Intent::ReportLatest) => (State::Reporting, Action::DumpLatest),
            Event::Start(Intent::Watch { reset }) => {
                if reset {
                    (State::Watching, Action::Reset)
                } else {
                    (State::Watching, Action::Cycle)
                }
            },
            _ => (State::Idle, Action::Exit { failed: false }),
        },
        State::Reporting => match event {
            Event::Failed(_) => (State::Idle, Action::Exit { failed: true }),
            _ => (State::Idle, Action::Exit { failed: false }),
        },
        State::Watching => match event {
            Event::Shutdown => (State::Idle, Action::Exit { failed: false }),
            Event::Failed(Action::Reset) => (State::Idle, Action::Exit { failed: true }),
            Event::Done(Action::Cycle) => (State::Watching, Action::Sleep),
            Event::Failed(Action::Cycle) => (State::Watching, Action::Sleep),
            _ => (State::Watching, Action::Cycle),
        },
    }
}

/// Reporting and watching do not mix: no event leads from the one to the
/// other. A report ends after its one action, and the only ways out of
/// watching are a shutdown and a reset that failed.
pub proof fn lemma_modes_do_not_mix(state: State, event: Event)
    ensures
        state == State::Reporting ==> next(state, event).0 == State::Idle && next(
            state,
            event,
        ).1 is Exit,
        state == State::Watching ==> next(state, event).0 != State::Reporting,
        state == State::Watching && event != Event::Shutdown && event != Event::Failed(
            Action::Reset,
        ) ==> next(state, event).0 == State::Watching,
        next(state, event).1 is Exit <==> next(state, event).0 == State::Idle,
        next(state, event).1 is Reset ==> event == Event::Start(Intent::Watch { reset: true }),
{
}

} // verus!

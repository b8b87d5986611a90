use diskwatch::utils::can_fingerprint;
use diskwatch::watch::{step, Action, Event, Intent, State, WATCH_INTERVAL_MILLIS};

const EXIT_OK: Action = Action::Exit { failed: false };
const EXIT_FAILED: Action = Action::Exit { failed: true };

fn all_actions() -> Vec<Action> {
    vec![
        Action::DumpAll,
        Action::DumpLatest,
        Action::Reset,
        Action::Cycle,
        Action::Sleep,
        EXIT_OK,
        EXIT_FAILED,
    ]
}

fn all_events() -> Vec<Event> {
    let mut events = vec![
        Event::Start(Intent::ReportRaw),
        Event::Start(Intent::ReportLatest),
        Event::Start(Intent::Watch { reset: false }),
        Event::Start(Intent::Watch { reset: true }),
        Event::Shutdown,
    ];
    for action in all_actions() {
        events.push(Event::Done(action));
        events.push(Event::Failed(action));
    }
    events
}

#[test]
fn the_interval_is_half_a_second() {
    assert_eq!(WATCH_INTERVAL_MILLIS, 500);
}

#[test]
fn the_intent_decides_at_startup() {
    assert_eq!(
        step(State::Idle, Event::Start(Intent::ReportRaw)),
        (State::Reporting, Action::DumpAll)
    );
    assert_eq!(
        step(State::Idle, Event::Start(Intent::ReportLatest)),
        (State::Reporting, Action::DumpLatest)
    );
    assert_eq!(
        step(State::Idle, Event::Start(Intent::Watch { reset: true })),
        (State::Watching, Action::Reset)
    );
    assert_eq!(
        step(State::Idle, Event::Start(Intent::Watch { reset: false })),
        (State::Watching, Action::Cycle)
    );
    assert_eq!(step(State::Idle, Event::Shutdown), (State::Idle, EXIT_OK));
    assert_eq!(step(State::Idle, Event::Done(Action::Cycle)), (State::Idle, EXIT_OK));
}

#[test]
fn a_report_ends_after_one_action() {
    for event in all_events() {
        let (state, action) = step(State::Reporting, event);
        assert_eq!(state, State::Idle);
        match event {
            Event::Failed(_) => assert_eq!(action, EXIT_FAILED),
            _ => assert_eq!(action, EXIT_OK),
        }
    }
}

#[test]
fn watching_alternates_cycle_and_sleep() {
    assert_eq!(step(State::Watching, Event::Done(Action::Reset)), (State::Watching, Action::Cycle));
    assert_eq!(step(State::Watching, Event::Done(Action::Cycle)), (State::Watching, Action::Sleep));
    assert_eq!(step(State::Watching, Event::Done(Action::Sleep)), (State::Watching, Action::Cycle));
    let mut state = State::Idle;
    let mut event = Event::Start(Intent::Watch { reset: true });
    let mut seen = Vec::new();
    for _ in 0..7 {
        let (next, action) = step(state, event);
        state = next;
        seen.push(action);
        event = Event::Done(action);
    }
    assert_eq!(
        seen,
        vec![
            Action::Reset,
            Action::Cycle,
            Action::Sleep,
            Action::Cycle,
            Action::Sleep,
            Action::Cycle,
            Action::Sleep
        ]
    );
    assert_eq!(state, State::Watching);
}

#[test]
fn a_failed_cycle_is_tried_again_after_the_pause() {
    assert_eq!(
        step(State::Watching, Event::Failed(Action::Cycle)),
        (State::Watching, Action::Sleep)
    );
    assert_eq!(step(State::Watching, Event::Done(Action::Sleep)), (State::Watching, Action::Cycle));
}

#[test]
fn a_failed_reset_ends_the_run_with_a_failure() {
    assert_eq!(step(State::Watching, Event::Failed(Action::Reset)), (State::Idle, EXIT_FAILED));
}

#[test]
fn a_shutdown_ends_watching_cleanly() {
    assert_eq!(step(State::Watching, Event::Shutdown), (State::Idle, EXIT_OK));
}

#[test]
fn reporting_and_watching_do_not_mix() {
    for event in all_events() {
        assert_ne!(step(State::Reporting, event).0, State::Watching);
        assert_ne!(step(State::Watching, event).0, State::Reporting);
        let (state, action) = step(State::Watching, event);
        assert_ne!(action, Action::Reset);
        assert_ne!(action, Action::DumpAll);
        assert_ne!(action, Action::DumpLatest);
        if event != Event::Shutdown && event != Event::Failed(Action::Reset) {
            assert_eq!(state, State::Watching);
        }
    }
}

#[test]
fn ordinary_content_can_be_fingerprinted() {
    assert!(can_fingerprint(b""));
    assert!(can_fingerprint(b"x"));
    assert!(can_fingerprint(&vec![0u8; 100_000]));
}

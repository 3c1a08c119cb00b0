use swaymnesia::{changes_session, new_window, watch, Action, Event, Signal, WindowChange, SETTLE};

const CHANGES: [(WindowChange, bool); 10] = [
    (WindowChange::New, true),
    (WindowChange::Close, true),
    (WindowChange::Focus, true),
    (WindowChange::Title, true),
    (WindowChange::FullscreenMode, true),
    (WindowChange::Move, true),
    (WindowChange::Floating, true),
    (WindowChange::Urgent, false),
    (WindowChange::Mark, false),
    (WindowChange::Other, false),
];

#[test]
fn some_events_change_the_session() {
    for (change, expected) in CHANGES {
        assert_eq!(changes_session(&Event::Window(change, 1)), expected);
    }
    assert!(changes_session(&Event::Workspace));
    assert!(!changes_session(&Event::Other));
}

#[test]
fn only_new_windows_are_reported() {
    for (change, _) in CHANGES {
        let expected = if change == WindowChange::New {
            Some(7)
        } else {
            None
        };
        assert_eq!(new_window(&Event::Window(change, 7)), expected);
    }
    assert_eq!(new_window(&Event::Workspace), None);
    assert_eq!(new_window(&Event::Other), None);
}

#[test]
fn saves_once_settled() {
    assert_eq!(SETTLE, 1_000_000_000);
    let mut pending = None;
    assert_eq!(watch(&mut pending, Signal::Quiet, 5 * SETTLE), Action::Wait);
    assert_eq!(watch(&mut pending, Signal::Changed, 6 * SETTLE), Action::Wait);
    assert_eq!(pending, Some(6 * SETTLE));
    assert_eq!(
        watch(&mut pending, Signal::Quiet, 7 * SETTLE - 1),
        Action::Wait
    );
    assert_eq!(watch(&mut pending, Signal::Quiet, 7 * SETTLE), Action::Save);
    assert_eq!(pending, None);
    assert_eq!(watch(&mut pending, Signal::Quiet, 9 * SETTLE), Action::Wait);
}

#[test]
fn every_change_starts_the_wait_anew() {
    let mut pending = None;
    for i in 0..10 {
        let action = watch(&mut pending, Signal::Changed, i * (SETTLE / 2));
        assert_eq!(action, Action::Wait);
    }
    let last = 9 * (SETTLE / 2);
    assert_eq!(
        watch(&mut pending, Signal::Quiet, last + SETTLE / 2),
        Action::Wait
    );
    assert_eq!(
        watch(&mut pending, Signal::Quiet, last + SETTLE),
        Action::Save
    );
}

#[test]
fn stops_when_sway_exits() {
    let mut pending = Some(0);
    assert_eq!(watch(&mut pending, Signal::Closed, 5 * SETTLE), Action::Stop);
    assert_eq!(pending, Some(0));
}

#[test]
fn a_clock_that_goes_back_saves_nothing() {
    let mut pending = Some(5 * SETTLE);
    assert_eq!(watch(&mut pending, Signal::Quiet, 0), Action::Wait);
    assert_eq!(pending, Some(5 * SETTLE));
}

//! Saves the layout of a sway session and brings it back on the next login.
//!
//! [`session::capture`] makes a session of sway's tree, [`Session::encode`] and [`load_session`]
//! turn it into a session file and back, and [`restore::restore`] lists the steps that bring it
//! back. [`watch`] decides when the session file is to be rewritten.

pub mod capture;
pub mod capture_laws;
pub mod capture_node_laws;
pub mod config;
pub mod config_laws;
pub mod file_laws;
pub mod format;
pub mod format_laws;
pub mod path;
pub mod plan_laws;
pub mod process;
pub mod process_laws;
pub mod rebuild_laws;
pub mod restore;
pub mod restore_laws;
pub mod session;
pub mod session_laws;
pub mod text;
pub mod text_laws;
pub mod toml;
pub mod toml_laws;

use crate::session::Session;
use vstd::prelude::*;

verus! {

/// How long the session has to stay unchanged before [`watch`] has it written to the session file,
/// in nanoseconds
pub const SETTLE: u64 = 1_000_000_000;

// Session files

/// The session in the file at `path`, given what came of reading the file
pub fn load_session(path: &str, file: &Result<Vec<u8>, String>) -> (res: Result<Session, String>)
    ensures
        match file {
            Ok(bytes) => match format::read_session(bytes@) {
                Ok((view, _)) => res matches Ok(session) && session@ == view,
                Err(e) => res matches Err(message) && message@ == text::about_file(
                    path@,
                    format::error_text(e),
                ),
            },
            Err(e) => res matches Err(message) && message@ == text::about_file(path@, e@),
        },
{
    match file {
        Ok(bytes) => match Session::decode(bytes.as_slice()) {
            Ok(session) => Ok(session),
            Err(e) => Err(text::complaint(path, e.message().as_str())),
        },
        Err(e) => Err(text::complaint(path, e.as_str())),
    }
}

// Events

/// What happened to a window
#[derive(Debug, Clone, Copy, PartialEq, Eq)]
pub enum WindowChange {
    New,
    Close,
    Focus,
    Title,
    FullscreenMode,
    Move,
    Floating,
    Urgent,
    Mark,
    /// Any other change
    Other,
}

/// An event that sway reports
#[derive(Debug, Clone, Copy, PartialEq, Eq)]
pub enum Event {
    /// Something happened to the window with this container id.
    Window(WindowChange, i64),
    Workspace,
    /// Any other event
    Other,
}

/// Whether a change of a window is one of the session.
pub open spec fn matters(change: WindowChange) -> bool {
    match change {
        WindowChange::New => true,
        WindowChange::Close => true,
        WindowChange::Move => true,
        WindowChange::Floating => true,
        WindowChange::FullscreenMode => true,
        WindowChange::Focus => true,
        WindowChange::Title => true,
        WindowChange::Urgent | WindowChange::Mark | WindowChange::Other => false,
    }
}

/// Whether `event` changes the session
pub fn changes_session(event: &Event) -> (b: bool)
    ensures
        b == (match event {
            Event::Window(change, _) => matters(*change),
            Event::Workspace => true,
            Event::Other => false,
        }),
{
    match event {
        Event::Window(change, _) => match change {
            WindowChange::New
            | WindowChange::Close
            | WindowChange::Move
            | WindowChange::Floating
            | WindowChange::FullscreenMode
            | WindowChange::Focus
            | WindowChange::Title => true,
            _ => false,
        },
        Event::Workspace => true,
        Event::Other => false,
    }
}

/// The container id of the window that `event` reports as new
pub fn new_window(event: &Event) -> (id: Option<i64>)
    ensures
        id == (match event {
            Event::Window(WindowChange::New, id) => Some(*id),
            _ => None,
        }),
{
    match event {
        Event::Window(WindowChange::New, id) => Some(*id),
        _ => None,
    }
}

// Watching

/// What a watch learns
#[derive(Debug, Clone, Copy, PartialEq, Eq)]
pub enum Signal {
    /// The session changed.
    Changed,
    /// Nothing changed for a while.
    Quiet,
    /// sway has exited.
    Closed,
}

/// What a watch asks for
#[derive(Debug, Clone, Copy, PartialEq, Eq)]
pub enum Action {
    /// Wait for the next signal.
    Wait,
    /// Write the session file, then wait for the next signal.
    Save,
    /// Stop watching.
    Stop,
}

/// When the last change happened that is not saved, in the state after a signal, before anything is
/// saved.
pub open spec fn changed_at(state: Option<u64>, signal: Signal, now: u64) -> Option<u64> {
    if signal is Changed {
        Some(now)
    } else {
        state
    }
}

/// What a signal asks for.
pub open spec fn asked(state: Option<u64>, signal: Signal, now: u64) -> Action {
    match (signal, changed_at(state, signal, now)) {
        (Signal::Closed, _) => Action::Stop,
        (_, Some(at)) => if now - at >= SETTLE {
            Action::Save
        } else {
            Action::Wait
        },
        (_, None) => Action::Wait,
    }
}

/// The state after a signal.
pub open spec fn after(state: Option<u64>, signal: Signal, now: u64) -> Option<u64> {
    if asked(state, signal, now) is Save {
        None
    } else {
        changed_at(state, signal, now)
    }
}

/// Watches the session for as long as sway runs, having it saved when settled: `pending` is when the
/// last change happened that is not saved, and `now` the time at which `signal` comes, both in
/// nanoseconds from some start
pub fn watch(pending: &mut Option<u64>, signal: Signal, now: u64) -> (action: Action)
    ensures
        action == asked(*old(pending), signal, now),
        *final(pending) == after(*old(pending), signal, now),
{
    match signal {
        Signal::Changed => {
            *pending = Some(now);
        },
        Signal::Quiet => {},
        Signal::Closed => {
            return Action::Stop;
        },
    }
    match *pending {
        Some(at) => if now >= at && now - at >= SETTLE {
            *pending = None;
            Action::Save
        } else {
            Action::Wait
        },
        None => Action::Wait,
    }
}

// Laws

/// The state of a watch after signals, each with the time at which it came.
pub open spec fn state_after(signals: Seq<(Signal, u64)>) -> Option<u64>
    decreases signals.len(),
{
    if signals.len() == 0 {
        None
    } else {
        after(state_after(signals.drop_last()), signals.last().0, signals.last().1)
    }
}

/// What the signal at `i` asks for.
pub open spec fn action_at(signals: Seq<(Signal, u64)>, i: int) -> Action {
    asked(state_after(signals.take(i)), signals[i].0, signals[i].1)
}

/// Whether the last change up to the signal at `end` is the one at `i`.
pub open spec fn last_change(signals: Seq<(Signal, u64)>, i: int, end: int) -> bool {
    &&& 0 <= i <= end < signals.len()
    &&& signals[i].0 is Changed
    &&& forall|j: int| i < j <= end ==> (#[trigger] signals[j]).0 !is Changed
}

/// Whether a signal in a range asked for the session to be saved.
pub open spec fn saved_within(signals: Seq<(Signal, u64)>, start: int, end: int) -> bool {
    exists|j: int| start <= j < end && #[trigger] action_at(signals, j) is Save
}

proof fn lemma_take_state(signals: Seq<(Signal, u64)>, end: int)
    requires
        0 <= end < signals.len(),
    ensures
        state_after(signals.take(end + 1)) == after(
            state_after(signals.take(end)),
            signals[end].0,
            signals[end].1,
        ),
{
    assert(signals.take(end + 1).drop_last() =~= signals.take(end));
}

proof fn lemma_pending(signals: Seq<(Signal, u64)>, i: int, end: int)
    requires
        last_change(signals, i, end),
        !saved_within(signals, i, end + 1),
    ensures
        state_after(signals.take(end + 1)) == Some(signals[i].1),
    decreases end - i,
{
    lemma_take_state(signals, end);
    assert(action_at(signals, end) !is Save);
    if i < end {
        assert(!saved_within(signals, i, end));
        lemma_pending(signals, i, end - 1);
        assert(signals[end].0 !is Changed);
    }
}

proof fn lemma_pending_from(signals: Seq<(Signal, u64)>, end: int) -> (i: int)
    requires
        0 <= end < signals.len(),
        state_after(signals.take(end + 1)) is Some,
    ensures
        last_change(signals, i, end),
        state_after(signals.take(end + 1)) == Some(signals[i].1),
        !saved_within(signals, i, end + 1),
    decreases end,
{
    lemma_take_state(signals, end);
    assert(action_at(signals, end) !is Save);
    if signals[end].0 is Changed {
        end
    } else {
        if end == 0 {
            assert(signals.take(0) =~= Seq::empty());
        }
        lemma_pending_from(signals, end - 1)
    }
}

/// The session is saved only once it has stayed unchanged for the settling time: when it is saved,
/// there is a last change, which was at least that long ago, and it was not saved since.
pub proof fn law_saved_only_when_settled(signals: Seq<(Signal, u64)>, end: int)
    requires
        0 <= end < signals.len(),
        action_at(signals, end) is Save,
    ensures
        exists|i: int| #[trigger]
            last_change(signals, i, end) && signals[end].1 - signals[i].1 >= SETTLE
                && !saved_within(signals, i, end),
{
    if signals[end].0 is Changed {
        assert(false);
    }
    if end == 0 {
        assert(signals.take(0) =~= Seq::empty());
    }
    let i = lemma_pending_from(signals, end - 1);
    assert(last_change(signals, i, end));
}

/// Every change is saved: once the settling time has passed since the last change, and sway still
/// runs, the session has been saved with that change.
pub proof fn law_settled_changes_are_saved(signals: Seq<(Signal, u64)>, i: int, end: int)
    requires
        last_change(signals, i, end),
        signals[end].0 !is Closed,
        signals[end].1 - signals[i].1 >= SETTLE,
    ensures
        saved_within(signals, i, end + 1),
{
    if !saved_within(signals, i, end + 1) {
        assert(!saved_within(signals, i, end));
        assert(action_at(signals, end) !is Save);
        if i < end {
            lemma_pending(signals, i, end - 1);
            assert(signals[end].0 !is Changed);
        }
    }
}

/// A watch ends when sway has exited, whatever is still unsaved, and never before.
pub proof fn law_watch_ends_with_sway(state: Option<u64>, signal: Signal, now: u64)
    ensures
        asked(state, signal, now) is Stop <==> signal is Closed,
{
}

/// Between a change and its saving, a later change makes the wait begin anew, and when nothing was
/// changed since the session was saved, it is not saved again.
pub proof fn law_waiting_begins_anew(state: Option<u64>, change: u64, now: u64)
    ensures
        asked(state, Signal::Changed, change) is Wait,
        now - change < SETTLE ==> asked(
            after(state, Signal::Changed, change),
            Signal::Quiet,
            now,
        ) is Wait,
        now - change >= SETTLE ==> {
            let changed = after(state, Signal::Changed, change);
            &&& asked(changed, Signal::Quiet, now) is Save
            &&& forall|later: u64|
                asked(after(changed, Signal::Quiet, now), Signal::Quiet, later) is Wait
        },
{
}

/// Every change of a window changes the session, but for one that makes it urgent, one of its marks and
/// one that sway has no name for.
pub proof fn law_changes_that_matter(change: WindowChange)
    ensures
        !matters(change) <==> change is Urgent || change is Mark || change is Other,
{
}

} // verus!

//! What restoring does step by step: which windows are opened where, what sway is told of each, and
//! what it is told in the end.

use crate::restore;
use crate::restore::{Attempt, PlaceView, PlacedView, RestorerView, StepView};
use crate::restore_laws;
use crate::session::{Layout, Rect, SessionView, TileView, WindowView, WorkspaceView};
use crate::session_laws;
use crate::text;
use vstd::prelude::*;

verus! {

// Windows of tiles

/// The windows of tiles are those of each tile in order: of a window itself, and of a split those of
/// its children.
pub proof fn law_windows_of_tiles(
    a: Seq<TileView>,
    b: Seq<TileView>,
    window: WindowView,
    layout: Layout,
)
    ensures
        restore::all_windows_of(a + b) == restore::all_windows_of(a) + restore::all_windows_of(b),
        restore::all_windows_of(seq![TileView::Window(window)]) == seq![window],
        restore::all_windows_of(seq![TileView::Split { layout, children: a }])
            == restore::all_windows_of(a),
    decreases b.len(),
{
    lemma_windows_of_one(TileView::Window(window));
    lemma_windows_of_one(TileView::Split { layout, children: a });
    if b.len() == 0 {
        assert(a + b =~= a);
    } else {
        assert((a + b).drop_last() =~= a + b.drop_last());
        law_windows_of_tiles(a, b.drop_last(), window, layout);
    }
    assert(restore::all_windows_of(a + b) =~= restore::all_windows_of(a) + restore::all_windows_of(
        b,
    ));
}

proof fn lemma_windows_of_one(tile: TileView)
    ensures
        restore::all_windows_of(seq![tile]) == restore::windows_of(tile),
{
    let tiles = seq![tile];
    assert(tiles.drop_last() =~= Seq::empty());
    assert(tiles.last() == tile);
    assert(restore::all_windows_of(tiles.drop_last()) =~= Seq::empty());
    assert(restore::all_windows_of(tiles) =~= restore::windows_of(tile));
}

// Placing tiles

proof fn lemma_place_both(a: Seq<TileView>, b: Seq<TileView>, ids: Seq<Option<i64>>)
    ensures
        ({
            let (first, rest) = restore::place_tiles(a, ids);
            let (second, behind) = restore::place_tiles(b, rest);
            restore::place_tiles(a + b, ids) == (first + second, behind)
        }),
    decreases b.len(),
{
    let (first, rest) = restore::place_tiles(a, ids);
    let (second, behind) = restore::place_tiles(b, rest);
    if b.len() == 0 {
        assert(a + b =~= a);
        assert(first + second =~= first);
    } else {
        assert((a + b).drop_last() =~= a + b.drop_last());
        assert((a + b).last() == b.last());
        lemma_place_both(a, b.drop_last(), ids);
        assert(restore::place_tiles(a + b, ids).0 =~= first + second);
    }
}

proof fn lemma_place_one(tile: TileView, ids: Seq<Option<i64>>)
    ensures
        restore::place_tiles(seq![tile], ids) == match restore::place_tile(tile, ids) {
            (Some(placed), rest) => (seq![placed], rest),
            (None, rest) => (Seq::empty(), rest),
        },
{
    let tiles = seq![tile];
    assert(tiles.drop_last() =~= Seq::empty());
    assert(tiles.last() == tile);
    let none = restore::place_tiles(tiles.drop_last(), ids);
    assert(none.0 =~= Seq::empty());
    assert(none.1 == ids);
    assert(restore::place_tiles(tiles, ids).0 =~= match restore::place_tile(tile, ids).0 {
        Some(placed) => seq![placed],
        None => Seq::empty(),
    });
}

/// Tiles are placed in order, each with the ids that those before it left over. A window takes the
/// first id, and is there if it appeared; a split takes those of its children, and is there if two of
/// them are, while a lone child stands for it.
pub proof fn law_tiles_are_placed_in_order(
    a: Seq<TileView>,
    b: Seq<TileView>,
    ids: Seq<Option<i64>>,
    window: WindowView,
    layout: Layout,
    id: Option<i64>,
)
    ensures
        ({
            let (first, rest) = restore::place_tiles(a, ids);
            let (second, behind) = restore::place_tiles(b, rest);
            restore::place_tiles(a + b, ids) == (first + second, behind)
        }),
        restore::place_tiles(seq![TileView::Window(window)], seq![id] + ids) == (match id {
            Some(id) => seq![PlacedView::Window(id)],
            None => Seq::empty(),
        }, ids),
        ({
            let (children, rest) = restore::place_tiles(a, ids);
            restore::place_tiles(seq![TileView::Split { layout, children: a }], ids) == (
                if children.len() >= 2 {
                    seq![PlacedView::Split(layout, children)]
                } else {
                    children
                },
                rest,
            )
        }),
{
    lemma_place_both(a, b, ids);
    let window = TileView::Window(window);
    lemma_place_one(window, seq![id] + ids);
    assert((seq![id] + ids).drop_first() =~= ids);
    assert((seq![id] + ids)[0] == id);
    assert(restore::place_tile(window, seq![id] + ids) == (match id {
        Some(id) => Some(PlacedView::Window(id)),
        None => None,
    }, ids));
    let split = TileView::Split { layout, children: a };
    lemma_place_one(split, ids);
    let (children, rest) = restore::place_tiles(a, ids);
    assert(restore::place_tile(split, ids) == (restore::placed_split(layout, children), rest));
    assert(children.len() == 1 ==> seq![children[0]] =~= children);
    assert(children.len() == 0 ==> Seq::empty() =~= children);
}

// Steps

/// The steps that open windows at a place, one by one.
pub open spec fn opening(windows: Seq<WindowView>, place: PlaceView) -> Seq<StepView> {
    Seq::new(windows.len(), |i: int| StepView::Open(windows[i], place))
}

/// The steps of a workspace: it is shown, moved to its output where that is known, and given its
/// layout; its tiling windows are opened on it and nested; and then its floating windows are opened.
pub open spec fn steps_of(workspace: WorkspaceView) -> Seq<StepView> {
    seq![
        StepView::Run(
            "workspace --no-auto-back-and-forth "@ + restore::quoted(workspace.name),
        ),
    ] + (if workspace.output == Seq::<char>::empty() {
        Seq::empty()
    } else {
        seq![StepView::Run("move workspace to output "@ + restore::quoted(workspace.output))]
    }) + seq![StepView::Run("layout "@ + session_laws::layout_text(workspace.layout))] + opening(
        restore::all_windows_of(workspace.tiles),
        PlaceView::Tiled(workspace.name),
    ) + seq![StepView::Arrange(workspace.tiles)] + opening(
        workspace.floating,
        PlaceView::Floating(workspace.name),
    )
}

proof fn lemma_opening(windows: Seq<WindowView>, place: PlaceView)
    ensures
        restore::open_steps(windows, place) == opening(windows, place),
{
    assert(restore::open_steps(windows, place) =~= opening(windows, place));
}

proof fn lemma_steps_of(workspace: WorkspaceView)
    ensures
        restore::workspace_steps(workspace) == steps_of(workspace),
{
    lemma_opening(
        restore::all_windows_of(workspace.tiles),
        PlaceView::Tiled(workspace.name),
    );
    lemma_opening(workspace.floating, PlaceView::Floating(workspace.name));
    assert(workspace.output.len() == 0 <==> workspace.output =~= Seq::<char>::empty());
    assert(restore::workspace_steps(workspace) =~= steps_of(workspace));
}

proof fn lemma_workspaces_both(a: Seq<WorkspaceView>, b: Seq<WorkspaceView>)
    ensures
        restore::workspaces_steps(a + b) == restore::workspaces_steps(a)
            + restore::workspaces_steps(b),
    decreases b.len(),
{
    if b.len() == 0 {
        assert(a + b =~= a);
    } else {
        assert((a + b).drop_last() =~= a + b.drop_last());
        assert((a + b).last() == b.last());
        lemma_workspaces_both(a, b.drop_last());
    }
    assert(restore::workspaces_steps(a + b) =~= restore::workspaces_steps(a)
        + restore::workspaces_steps(b));
}

/// The steps of a session are those of its first workspace followed by those of the session without
/// it. In the end, the mark is taken away, the windows of the scratchpad are opened, and once they
/// have settled, the windows get their geometry and state.
pub proof fn law_steps_of_a_session(
    workspace: WorkspaceView,
    others: Seq<WorkspaceView>,
    scratchpad: Seq<WindowView>,
)
    ensures
        ({
            let steps = |workspaces: Seq<WorkspaceView>|
                restore::session_steps(SessionView { workspaces, scratchpad });
            &&& steps(seq![workspace] + others) == steps_of(workspace) + steps(others)
            &&& steps(Seq::empty()) == seq![StepView::Run("unmark _swaymnesia"@)] + opening(
                scratchpad,
                PlaceView::Scratchpad,
            ) + seq![StepView::Settle, StepView::Finish]
        }),
{
    let one = seq![workspace];
    assert(one.drop_last() =~= Seq::empty());
    assert(one.last() == workspace);
    assert(restore::workspaces_steps(one.drop_last()) =~= Seq::empty());
    assert(restore::workspaces_steps(one) =~= restore::workspace_steps(workspace));
    lemma_steps_of(workspace);
    lemma_workspaces_both(one, others);
    lemma_opening(scratchpad, PlaceView::Scratchpad);
    let all = SessionView { workspaces: one + others, scratchpad };
    let fewer = SessionView { workspaces: others, scratchpad };
    let none = SessionView { workspaces: Seq::empty(), scratchpad };
    assert(restore::session_steps(all) =~= steps_of(workspace) + restore::session_steps(fewer));
    reveal_strlit("unmark ");
    reveal_strlit("_swaymnesia");
    reveal_strlit("unmark _swaymnesia");
    assert(restore::unmark() =~= "unmark _swaymnesia"@);
    assert(restore::workspaces_steps(none.workspaces) =~= Seq::empty());
    assert(restore::session_steps(none) =~= seq![StepView::Run("unmark _swaymnesia"@)] + opening(
        scratchpad,
        PlaceView::Scratchpad,
    ) + seq![StepView::Settle, StepView::Finish]);
}

// Commands

/// What addresses a window in a command.
pub open spec fn to_window(id: i64) -> Seq<char> {
    "[con_id="@ + text::decimal(id as int) + "] "@
}

/// What sway is told when a step was taken that needs no look back: a command is handed on, a tiling
/// window is moved to its workspace, a floating one also floats, and one of the scratchpad floats. Of
/// a window that did not appear, it is told nothing.
pub proof fn law_commands_of_a_step(
    state: RestorerView,
    command: Seq<char>,
    window: WindowView,
    name: Seq<char>,
    id: i64,
    outcome: Option<i64>,
    place: PlaceView,
)
    ensures
        restore::asked(state, StepView::Run(command), outcome) == seq![command],
        restore::asked(state, StepView::Open(window, PlaceView::Tiled(name)), Some(id)) == seq![
            to_window(id) + "move container to workspace "@ + restore::quoted(name),
        ],
        restore::asked(state, StepView::Open(window, PlaceView::Floating(name)), Some(id)) == seq![
            to_window(id) + "move container to workspace "@ + restore::quoted(name),
            to_window(id) + "floating enable"@,
        ],
        restore::asked(state, StepView::Open(window, PlaceView::Scratchpad), Some(id)) == seq![
            to_window(id) + "floating enable"@,
        ],
        restore::asked(state, StepView::Open(window, place), None) == Seq::<Seq<char>>::empty(),
        restore::asked(state, StepView::Settle, outcome) == Seq::<Seq<char>>::empty(),
{
    assert(restore::move_to_workspace(id, name) =~= to_window(id) + "move container to workspace "@
        + restore::quoted(name));
}

// The end

/// Whether a step opened a window, and which.
pub open spec fn opened_at(step: StepView, outcome: Option<i64>) -> Option<(WindowView, PlaceView, i64)> {
    match (step, outcome) {
        (StepView::Open(window, place), Some(id)) => Some((window, place, id)),
        _ => None,
    }
}

/// The windows that float at a place of their own, with their size and position, in the order in
/// which they appeared.
pub open spec fn floated(steps: Seq<StepView>, outcomes: Seq<Option<i64>>) -> Seq<(i64, Rect)>
    decreases steps.len(),
{
    if steps.len() == 0 {
        Seq::empty()
    } else {
        floated(steps.drop_last(), outcomes) + match opened_at(
            steps.last(),
            outcomes[steps.len() - 1],
        ) {
            Some((_, PlaceView::Tiled(_), _)) | None => Seq::empty(),
            Some((window, _, id)) => seq![(id, window.rect)],
        }
    }
}

/// The windows that go to the scratchpad, in the order in which they appeared.
pub open spec fn put_away(steps: Seq<StepView>, outcomes: Seq<Option<i64>>) -> Seq<i64>
    decreases steps.len(),
{
    if steps.len() == 0 {
        Seq::empty()
    } else {
        put_away(steps.drop_last(), outcomes) + match opened_at(
            steps.last(),
            outcomes[steps.len() - 1],
        ) {
            Some((_, PlaceView::Scratchpad, id)) => seq![id],
            _ => Seq::empty(),
        }
    }
}

/// The windows of workspaces that were saved as fullscreen, in the order in which they appeared.
pub open spec fn maximised(steps: Seq<StepView>, outcomes: Seq<Option<i64>>) -> Seq<i64>
    decreases steps.len(),
{
    if steps.len() == 0 {
        Seq::empty()
    } else {
        maximised(steps.drop_last(), outcomes) + match opened_at(
            steps.last(),
            outcomes[steps.len() - 1],
        ) {
            Some((_, PlaceView::Scratchpad, _)) | None => Seq::empty(),
            Some((window, _, id)) => if window.fullscreen {
                seq![id]
            } else {
                Seq::empty()
            },
        }
    }
}

/// The windows of workspaces that were saved as focused, in the order in which they appeared.
pub open spec fn with_focus(steps: Seq<StepView>, outcomes: Seq<Option<i64>>) -> Seq<i64>
    decreases steps.len(),
{
    if steps.len() == 0 {
        Seq::empty()
    } else {
        with_focus(steps.drop_last(), outcomes) + match opened_at(
            steps.last(),
            outcomes[steps.len() - 1],
        ) {
            Some((_, PlaceView::Scratchpad, _)) | None => Seq::empty(),
            Some((window, _, id)) => if window.focused {
                seq![id]
            } else {
                Seq::empty()
            },
        }
    }
}

proof fn lemma_remembered(steps: Seq<StepView>, outcomes: Seq<Option<i64>>)
    ensures
        ({
            let state = restore_laws::state_after(steps, outcomes);
            let focus = with_focus(steps, outcomes);
            &&& state.floating == floated(steps, outcomes)
            &&& state.scratchpad == put_away(steps, outcomes)
            &&& state.fullscreen == maximised(steps, outcomes)
            &&& state.focused == if focus.len() > 0 {
                Some(focus.last())
            } else {
                None
            }
        }),
    decreases steps.len(),
{
    let state = restore_laws::state_after(steps, outcomes);
    if steps.len() > 0 {
        lemma_remembered(steps.drop_last(), outcomes);
        let before = restore_laws::state_after(steps.drop_last(), outcomes);
        assert(state == restore::after(before, steps.last(), outcomes[steps.len() - 1]));
        assert(state.floating =~= floated(steps, outcomes));
        assert(state.scratchpad =~= put_away(steps, outcomes));
        assert(state.fullscreen =~= maximised(steps, outcomes));
    } else {
        assert(state.floating =~= floated(steps, outcomes));
        assert(state.scratchpad =~= put_away(steps, outcomes));
        assert(state.fullscreen =~= maximised(steps, outcomes));
    }
}

/// The commands that give a floating window its size and its position.
pub open spec fn geometry_of(id: i64, rect: Rect) -> Seq<Seq<char>> {
    seq![
        to_window(id) + "resize set width "@ + text::decimal(rect.width as int) + " px height "@
            + text::decimal(rect.height as int) + " px"@,
        to_window(id) + "move absolute position "@ + text::decimal(rect.x as int) + " "@
            + text::decimal(rect.y as int),
    ]
}

/// One command for each window of a list.
pub open spec fn each_told(ids: Seq<i64>, what: Seq<char>) -> Seq<Seq<char>> {
    Seq::new(ids.len(), |i: int| to_window(ids[i]) + what)
}

proof fn lemma_geometry(floating: Seq<(i64, Rect)>)
    ensures
        restore::geometry_commands(floating).len() == 2 * floating.len(),
        forall|i: int|
            0 <= i < floating.len() ==> #[trigger] restore::geometry_commands(floating).subrange(
                2 * i,
                2 * i + 2,
            ) == geometry_of(floating[i].0, floating[i].1),
    decreases floating.len(),
{
    if floating.len() > 0 {
        let rest = floating.drop_last();
        let fewer = restore::geometry_commands(rest);
        let all = restore::geometry_commands(floating);
        lemma_geometry(rest);
        let (id, rect) = floating.last();
        assert(restore::resize(id, rect) =~= geometry_of(id, rect)[0]);
        assert(restore::move_to_position(id, rect) =~= geometry_of(id, rect)[1]);
        assert(all == fewer + geometry_of(id, rect)) by {
            assert(seq![restore::resize(id, rect), restore::move_to_position(id, rect)]
                =~= geometry_of(id, rect));
        }
        assert forall|i: int| 0 <= i < floating.len() implies #[trigger] all.subrange(
            2 * i,
            2 * i + 2,
        ) == geometry_of(floating[i].0, floating[i].1) by {
            if i < rest.len() {
                assert(fewer.subrange(2 * i, 2 * i + 2) == geometry_of(rest[i].0, rest[i].1));
                assert(all.subrange(2 * i, 2 * i + 2) =~= fewer.subrange(2 * i, 2 * i + 2));
            } else {
                assert(all.subrange(2 * i, 2 * i + 2) =~= geometry_of(id, rect));
            }
        }
    }
}

/// In the end sway is told just this: the size and the position of each window that floats, in the
/// order in which they appeared; then which windows go to the scratchpad; then which windows of the
/// workspaces fill the screen; and then which window gets the focus, the last one that appeared of
/// those saved with it.
pub proof fn law_commands_in_the_end(steps: Seq<StepView>, outcomes: Seq<Option<i64>>, id: Option<i64>)
    ensures
        ({
            let state = restore_laws::state_after(steps, outcomes);
            let commands = restore::asked(state, StepView::Finish, id);
            let floating = floated(steps, outcomes);
            let focus = with_focus(steps, outcomes);
            let geometry = 2 * floating.len();
            &&& commands.len() >= geometry
            &&& forall|i: int|
                0 <= i < floating.len() ==> #[trigger] commands.subrange(2 * i, 2 * i + 2)
                    == geometry_of(floating[i].0, floating[i].1)
            &&& commands.skip(geometry as int) == each_told(
                put_away(steps, outcomes),
                "move scratchpad"@,
            ) + each_told(maximised(steps, outcomes), "fullscreen enable"@) + (if focus.len()
                > 0 {
                seq![to_window(focus.last()) + "focus"@]
            } else {
                Seq::empty()
            })
        }),
{
    let state = restore_laws::state_after(steps, outcomes);
    let commands = restore::finish_commands(state);
    let floating = floated(steps, outcomes);
    let geometry = restore::geometry_commands(floating);
    let focus = with_focus(steps, outcomes);
    lemma_remembered(steps, outcomes);
    lemma_geometry(floating);
    let behind = each_told(put_away(steps, outcomes), "move scratchpad"@) + each_told(
        maximised(steps, outcomes),
        "fullscreen enable"@,
    ) + (if focus.len() > 0 {
        seq![to_window(focus.last()) + "focus"@]
    } else {
        Seq::empty()
    });
    assert(restore::each_command(state.scratchpad, "move scratchpad"@) =~= each_told(
        put_away(steps, outcomes),
        "move scratchpad"@,
    ));
    assert(restore::each_command(state.fullscreen, "fullscreen enable"@) =~= each_told(
        maximised(steps, outcomes),
        "fullscreen enable"@,
    ));
    assert(commands =~= geometry + behind);
    assert(commands.skip(geometry.len() as int) =~= behind);
    assert forall|i: int| 0 <= i < floating.len() implies #[trigger] commands.subrange(
        2 * i,
        2 * i + 2,
    ) == geometry_of(floating[i].0, floating[i].1) by {
        assert(geometry.subrange(2 * i, 2 * i + 2) == geometry_of(floating[i].0, floating[i].1));
        assert(commands.subrange(2 * i, 2 * i + 2) =~= geometry.subrange(2 * i, 2 * i + 2));
    }
}

// Windows that do not appear

/// Only a window that appeared has an id, and only the end of sway ends the restore. A program that
/// could not be started, or whose window did not appear in time, is reported, with its command line
/// and what is known of the reason; nothing else is.
pub proof fn law_outcomes(
    outcome: Result<(Option<i64>, Option<String>), String>,
    argv: Seq<char>,
    attempt: Attempt,
)
    requires
        restore::is_outcome(outcome, argv, attempt),
    ensures
        outcome is Err <==> attempt is Disconnected,
        outcome matches Ok((id, report)) ==> {
            &&& attempt matches Attempt::Appeared(found) ==> id == Some(found) && report is None
            &&& attempt !is Appeared ==> id is None
            &&& attempt is TimedOut ==> (report matches Some(report) && report@
                == "no window appeared for "@ + argv)
            &&& attempt matches Attempt::NotStarted(e) ==> (report matches Some(report)
                && report@ == "cannot start "@ + argv + ": "@ + e@)
        },
        outcome matches Err(e) ==> e@ == "sway closed the event stream"@,
{
}

} // verus!

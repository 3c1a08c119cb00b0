//! What holds of every restore: each window is opened once, the windows that appear are put back
//! into the tree that was saved, and each of them gets its final geometry and state.

use crate::restore;
use crate::restore::{PlaceView, PlacedView, RestorerView, StepView};
use crate::session;
use crate::session::{Layout, Rect, SessionView, TileView, WindowView, WorkspaceView};
use vstd::prelude::*;

verus! {

// Quoted arguments

/// The text of the quoted argument that a command goes on with, up to the closing quote, in which
/// a backslash stands before a character that is meant as it is; and what follows it.
pub open spec fn argument_text(s: Seq<char>) -> Option<(Seq<char>, Seq<char>)>
    decreases s.len(),
{
    if s.len() == 0 {
        None
    } else if s[0] == '"' {
        Some((Seq::empty(), s.skip(1)))
    } else if s[0] == '\\' && s.len() == 1 {
        None
    } else if s[0] == '\\' {
        match argument_text(s.skip(2)) {
            Some((text, rest)) => Some((seq![s[1]] + text, rest)),
            None => None,
        }
    } else {
        match argument_text(s.skip(1)) {
            Some((text, rest)) => Some((seq![s[0]] + text, rest)),
            None => None,
        }
    }
}

proof fn lemma_escaped_first(s: Seq<char>)
    requires
        s.len() > 0,
    ensures
        restore::escaped(s) == restore::escaped_char(s[0]) + restore::escaped(s.skip(1)),
    decreases s.len(),
{
    if s.len() == 1 {
        assert(s.drop_last() =~= Seq::empty());
        assert(s.skip(1) =~= Seq::empty());
        assert(restore::escaped(s) =~= restore::escaped_char(s[0]) + restore::escaped(s.skip(1)));
    } else {
        lemma_escaped_first(s.drop_last());
        assert(s.drop_last().skip(1) =~= s.skip(1).drop_last());
        assert(restore::escaped(s) =~= restore::escaped_char(s[0]) + restore::escaped(s.skip(1)));
    }
}

proof fn lemma_argument_text(s: Seq<char>, behind: Seq<char>)
    ensures
        argument_text(restore::escaped(s) + seq!['"'] + behind) == Some((s, behind)),
    decreases s.len(),
{
    let whole = restore::escaped(s) + seq!['"'] + behind;
    if s.len() == 0 {
        assert(whole.skip(1) =~= behind);
        assert(s =~= Seq::empty());
    } else {
        let tail = restore::escaped(s.skip(1)) + seq!['"'] + behind;
        lemma_escaped_first(s);
        lemma_argument_text(s.skip(1), behind);
        let width = restore::escaped_char(s[0]).len() as int;
        assert(whole.skip(width) =~= tail);
        assert(seq![s[0]] + s.skip(1) =~= s);
    }
}

/// A quoted argument holds exactly the text that was quoted, and ends where the argument ends,
/// whatever stands behind it in the command.
pub proof fn law_quoted_argument_holds_its_text(s: Seq<char>, behind: Seq<char>)
    ensures
        restore::quoted(s)[0] == '"',
        argument_text((restore::quoted(s) + behind).skip(1)) == Some((s, behind)),
{
    lemma_argument_text(s, behind);
    assert((restore::quoted(s) + behind).skip(1) =~= restore::escaped(s) + seq!['"'] + behind);
}

proof fn lemma_escaped_both(a: Seq<char>, b: Seq<char>)
    ensures
        restore::escaped(a + b) == restore::escaped(a) + restore::escaped(b),
    decreases b.len(),
{
    if b.len() == 0 {
        assert(a + b =~= a);
    } else {
        assert((a + b).drop_last() =~= a + b.drop_last());
        assert((a + b).last() == b.last());
        lemma_escaped_both(a, b.drop_last());
    }
    assert(restore::escaped(a + b) =~= restore::escaped(a) + restore::escaped(b));
}

proof fn lemma_escaped_one(c: char)
    ensures
        restore::escaped(seq![c]) == restore::escaped_char(c),
{
    let one = seq![c];
    assert(one.drop_last() =~= Seq::empty());
    assert(restore::escaped(one.drop_last()) =~= Seq::empty());
    assert(restore::escaped(one) =~= restore::escaped_char(c));
}

proof fn lemma_escaped_plain(s: Seq<char>)
    requires
        !s.contains('"'),
        !s.contains('\\'),
    ensures
        restore::escaped(s) == s,
    decreases s.len(),
{
    if s.len() > 0 {
        let rest = s.drop_last();
        assert(s.contains(s.last()));
        assert forall|c: char| rest.contains(c) implies s.contains(c) by {
            let i = choose|i: int| 0 <= i < rest.len() && rest[i] == c;
            assert(s[i] == c);
        }
        lemma_escaped_plain(rest);
    }
    assert(restore::escaped(s) =~= s);
}

/// Quoting puts a text between quotes and a backslash before each quote and each backslash in it, and
/// changes nothing else.
pub proof fn law_quoting_changes_nothing_else(a: Seq<char>, b: Seq<char>, plain: Seq<char>)
    requires
        !plain.contains('"'),
        !plain.contains('\\'),
    ensures
        restore::quoted(plain) == seq!['"'] + plain + seq!['"'],
        restore::quoted(a + seq!['"'] + b) == restore::quoted(a).drop_last() + seq!['\\', '"']
            + restore::quoted(b).drop_first(),
        restore::quoted(a + seq!['\\'] + b) == restore::quoted(a).drop_last() + seq![
            '\\',
            '\\',
        ] + restore::quoted(b).drop_first(),
{
    lemma_escaped_plain(plain);
    lemma_escaped_one('"');
    lemma_escaped_one('\\');
    lemma_escaped_both(a, seq!['"']);
    lemma_escaped_both(a + seq!['"'], b);
    lemma_escaped_both(a, seq!['\\']);
    lemma_escaped_both(a + seq!['\\'], b);
    assert(restore::quoted(a).drop_last() =~= seq!['"'] + restore::escaped(a));
    assert(restore::quoted(b).drop_first() =~= restore::escaped(b) + seq!['"']);
    assert(restore::quoted(a + seq!['"'] + b) =~= restore::quoted(a).drop_last() + seq!['\\', '"']
        + restore::quoted(b).drop_first());
    assert(restore::quoted(a + seq!['\\'] + b) =~= restore::quoted(a).drop_last() + seq![
        '\\',
        '\\',
    ] + restore::quoted(b).drop_first());
}

// Opened windows

/// The windows that the steps open, in order.
pub open spec fn opened_by(steps: Seq<StepView>) -> Seq<WindowView>
    decreases steps.len(),
{
    if steps.len() == 0 {
        Seq::empty()
    } else {
        match steps.last() {
            StepView::Open(window, _) => opened_by(steps.drop_last()).push(window),
            _ => opened_by(steps.drop_last()),
        }
    }
}

/// The windows of each workspace of a list, the tiling ones before the floating ones.
pub open spec fn windows_of_workspaces(workspaces: Seq<WorkspaceView>) -> Seq<WindowView>
    decreases workspaces.len(),
{
    if workspaces.len() == 0 {
        Seq::empty()
    } else {
        windows_of_workspaces(workspaces.drop_last()) + restore::all_windows_of(
            workspaces.last().tiles,
        ) + workspaces.last().floating
    }
}

/// The windows of a session.
pub open spec fn windows_of_session(session: SessionView) -> Seq<WindowView> {
    windows_of_workspaces(session.workspaces) + session.scratchpad
}

proof fn lemma_opened_by_both(a: Seq<StepView>, b: Seq<StepView>)
    ensures
        opened_by(a + b) == opened_by(a) + opened_by(b),
    decreases b.len(),
{
    if b.len() == 0 {
        assert(a + b =~= a);
        assert(opened_by(a + b) =~= opened_by(a) + opened_by(b));
    } else {
        assert((a + b).drop_last() =~= a + b.drop_last());
        lemma_opened_by_both(a, b.drop_last());
        assert(opened_by(a + b) =~= opened_by(a) + opened_by(b));
    }
}

proof fn lemma_opened_by_opening(windows: Seq<WindowView>, place: PlaceView)
    ensures
        opened_by(restore::open_steps(windows, place)) == windows,
    decreases windows.len(),
{
    let steps = restore::open_steps(windows, place);
    if windows.len() > 0 {
        assert(steps.drop_last() =~= restore::open_steps(windows.drop_last(), place));
        lemma_opened_by_opening(windows.drop_last(), place);
    }
    assert(opened_by(steps) =~= windows);
}

proof fn lemma_opened_by_one(step: StepView)
    requires
        step !is Open,
    ensures
        opened_by(seq![step]) == Seq::<WindowView>::empty(),
{
    assert(seq![step].drop_last() =~= Seq::empty());
    assert(opened_by(Seq::empty()) =~= Seq::empty());
}

proof fn lemma_opened_by_workspace(workspace: WorkspaceView)
    ensures
        opened_by(restore::workspace_steps(workspace)) == restore::all_windows_of(workspace.tiles)
            + workspace.floating,
{
    let show = seq![StepView::Run(restore::show_workspace(workspace.name))];
    let output = if workspace.output.len() == 0 {
        Seq::empty()
    } else {
        seq![StepView::Run(restore::move_to_output(workspace.output))]
    };
    let layout = seq![StepView::Run(restore::set_layout(workspace.layout))];
    let tiled = restore::open_steps(
        restore::all_windows_of(workspace.tiles),
        PlaceView::Tiled(workspace.name),
    );
    let arrange = seq![StepView::Arrange(workspace.tiles)];
    let floating = restore::open_steps(workspace.floating, PlaceView::Floating(workspace.name));
    lemma_opened_by_one(show[0]);
    if workspace.output.len() > 0 {
        lemma_opened_by_one(output[0]);
    }
    lemma_opened_by_one(layout[0]);
    lemma_opened_by_one(arrange[0]);
    lemma_opened_by_both(show, output);
    lemma_opened_by_both(show + output, layout);
    lemma_opened_by_both(show + output + layout, tiled);
    lemma_opened_by_both(show + output + layout + tiled, arrange);
    lemma_opened_by_both(show + output + layout + tiled + arrange, floating);
    lemma_opened_by_opening(
        restore::all_windows_of(workspace.tiles),
        PlaceView::Tiled(workspace.name),
    );
    lemma_opened_by_opening(workspace.floating, PlaceView::Floating(workspace.name));
    assert(opened_by(restore::workspace_steps(workspace)) =~= restore::all_windows_of(
        workspace.tiles,
    ) + workspace.floating);
}

proof fn lemma_opened_by_workspaces(workspaces: Seq<WorkspaceView>)
    ensures
        opened_by(restore::workspaces_steps(workspaces)) == windows_of_workspaces(workspaces),
    decreases workspaces.len(),
{
    if workspaces.len() > 0 {
        lemma_opened_by_workspaces(workspaces.drop_last());
        lemma_opened_by_workspace(workspaces.last());
        lemma_opened_by_both(
            restore::workspaces_steps(workspaces.drop_last()),
            restore::workspace_steps(workspaces.last()),
        );
        assert(opened_by(restore::workspaces_steps(workspaces)) =~= windows_of_workspaces(
            workspaces,
        ));
    }
}

/// Restoring a session opens each of its windows once, in the order in which they were saved, and
/// nothing else.
pub proof fn law_every_window_is_opened_once(session: SessionView)
    ensures
        opened_by(restore::session_steps(session)) == windows_of_session(session),
{
    let workspaces = restore::workspaces_steps(session.workspaces);
    let unmark = seq![StepView::Run(restore::unmark())];
    let scratchpad = restore::open_steps(session.scratchpad, PlaceView::Scratchpad);
    let end = seq![StepView::Settle, StepView::Finish];
    lemma_opened_by_workspaces(session.workspaces);
    lemma_opened_by_one(unmark[0]);
    lemma_opened_by_opening(session.scratchpad, PlaceView::Scratchpad);
    assert(end.drop_last() =~= seq![StepView::Settle]);
    lemma_opened_by_one(StepView::Settle);
    lemma_opened_by_both(workspaces, unmark);
    lemma_opened_by_both(workspaces + unmark, scratchpad);
    lemma_opened_by_both(workspaces + unmark + scratchpad, end);
    assert(opened_by(restore::session_steps(session)) =~= windows_of_session(session));
}

// Rebuilt trees

/// The windows that appeared, in order.
pub open spec fn appeared(ids: Seq<Option<i64>>) -> Seq<i64>
    decreases ids.len(),
{
    if ids.len() == 0 {
        Seq::empty()
    } else {
        match ids.last() {
            Some(id) => appeared(ids.drop_last()).push(id),
            None => appeared(ids.drop_last()),
        }
    }
}

/// The windows of a placed tile, in order.
pub open spec fn placed_windows(placed: PlacedView) -> Seq<i64>
    decreases placed,
{
    match placed {
        PlacedView::Window(id) => seq![id],
        PlacedView::Split(_, children) => all_placed_windows(children),
    }
}

/// The windows of each of a list of placed tiles, in order.
pub open spec fn all_placed_windows(placed: Seq<PlacedView>) -> Seq<i64>
    decreases placed,
{
    if placed.len() == 0 {
        Seq::empty()
    } else {
        all_placed_windows(placed.drop_last()) + placed_windows(placed.last())
    }
}

proof fn lemma_appeared_both(a: Seq<Option<i64>>, b: Seq<Option<i64>>)
    ensures
        appeared(a + b) == appeared(a) + appeared(b),
    decreases b.len(),
{
    if b.len() == 0 {
        assert(a + b =~= a);
        assert(appeared(a + b) =~= appeared(a) + appeared(b));
    } else {
        assert((a + b).drop_last() =~= a + b.drop_last());
        lemma_appeared_both(a, b.drop_last());
        assert(appeared(a + b) =~= appeared(a) + appeared(b));
    }
}

proof fn lemma_placed_split(children: Seq<PlacedView>, layout: Layout)
    ensures
        match restore::placed_split(layout, children) {
            Some(placed) => placed_windows(placed) == all_placed_windows(children),
            None => all_placed_windows(children) == Seq::<i64>::empty(),
        },
{
    if children.len() == 1 {
        assert(children.drop_last() =~= Seq::empty());
        assert(all_placed_windows(children.drop_last()) =~= Seq::empty());
        assert(all_placed_windows(children) =~= placed_windows(children[0]));
    }
}

proof fn lemma_place_tile(tile: TileView, ids: Seq<Option<i64>>)
    requires
        restore::windows_of(tile).len() <= ids.len(),
    ensures
        restore::place_tile(tile, ids).1 == ids.skip(restore::windows_of(tile).len() as int),
        match restore::place_tile(tile, ids).0 {
            Some(placed) => placed_windows(placed) == appeared(
                ids.take(restore::windows_of(tile).len() as int),
            ),
            None => appeared(ids.take(restore::windows_of(tile).len() as int)) == Seq::<
                i64,
            >::empty(),
        },
    decreases tile,
{
    match tile {
        TileView::Window(_) => {
            assert(ids.take(1).drop_last() =~= Seq::empty());
            assert(appeared(Seq::empty()) =~= Seq::empty());
            assert(ids.take(1).last() == ids[0]);
            assert(ids.skip(1) =~= ids.drop_first());
        },
        TileView::Split { layout, children } => {
            law_placed_windows_are_those_that_appeared(children, ids);
            lemma_placed_split(restore::place_tiles(children, ids).0, layout);
        },
    }
}

/// The tiles that are put back hold exactly the windows that appeared, in their order. The ids that
/// follow are not touched.
pub proof fn law_placed_windows_are_those_that_appeared(
    tiles: Seq<TileView>,
    ids: Seq<Option<i64>>,
)
    requires
        restore::all_windows_of(tiles).len() <= ids.len(),
    ensures
        all_placed_windows(restore::place_tiles(tiles, ids).0) == appeared(
            ids.take(restore::all_windows_of(tiles).len() as int),
        ),
        restore::place_tiles(tiles, ids).1 == ids.skip(restore::all_windows_of(tiles).len() as int),
    decreases tiles,
{
    if tiles.len() == 0 {
        assert(ids.take(0) =~= Seq::empty());
        assert(appeared(ids.take(0)) =~= Seq::empty());
        assert(ids.skip(0) =~= ids);
    } else {
        let before = restore::all_windows_of(tiles.drop_last()).len() as int;
        let width = restore::windows_of(tiles.last()).len() as int;
        law_placed_windows_are_those_that_appeared(tiles.drop_last(), ids);
        let (placed, rest) = restore::place_tiles(tiles.drop_last(), ids);
        lemma_place_tile(tiles.last(), rest);
        assert(rest.skip(width) =~= ids.skip(before + width));
        assert(ids.take(before) + rest.take(width) =~= ids.take(before + width));
        lemma_appeared_both(ids.take(before), rest.take(width));
        if let Some(last) = restore::place_tile(tiles.last(), rest).0 {
            assert(placed.push(last).drop_last() =~= placed);
        }
        assert(all_placed_windows(restore::place_tiles(tiles, ids).0) =~= appeared(
            ids.take(before + width),
        ));
    }
}

/// Whether a placed tile has the splits of a tile, with the same layouts, around as many windows.
pub open spec fn same_tree(placed: PlacedView, tile: TileView) -> bool
    decreases tile,
{
    match (placed, tile) {
        (PlacedView::Window(_), TileView::Window(_)) => true,
        (PlacedView::Split(layout, children), TileView::Split { layout: saved, children: tiles }) =>
            layout == saved && same_trees(children, tiles),
        _ => false,
    }
}

/// Whether two lists agree in length and in the tree of each member.
pub open spec fn same_trees(placed: Seq<PlacedView>, tiles: Seq<TileView>) -> bool
    decreases tiles,
{
    &&& placed.len() == tiles.len()
    &&& tiles.len() > 0 ==> same_trees(placed.drop_last(), tiles.drop_last()) && same_tree(
        placed.last(),
        tiles.last(),
    )
}

proof fn lemma_same_tree(tile: TileView, ids: Seq<Option<i64>>)
    requires
        session::proper(tile),
        restore::windows_of(tile).len() <= ids.len(),
        forall|i: int| 0 <= i < ids.len() ==> (#[trigger] ids[i]) is Some,
    ensures
        restore::place_tile(tile, ids).0 matches Some(placed) && same_tree(placed, tile),
    decreases tile,
{
    match tile {
        TileView::Window(_) => {
            assert(ids[0] is Some);
        },
        TileView::Split { layout: _, children } => {
            law_tree_is_rebuilt(children, ids);
        },
    }
}

/// Where every window appears, the tiles that are put back form the tree that was saved.
pub proof fn law_tree_is_rebuilt(tiles: Seq<TileView>, ids: Seq<Option<i64>>)
    requires
        session::all_proper(tiles),
        restore::all_windows_of(tiles).len() <= ids.len(),
        forall|i: int| 0 <= i < ids.len() ==> (#[trigger] ids[i]) is Some,
    ensures
        same_trees(restore::place_tiles(tiles, ids).0, tiles),
    decreases tiles,
{
    if tiles.len() > 0 {
        let before = restore::all_windows_of(tiles.drop_last()).len() as int;
        law_tree_is_rebuilt(tiles.drop_last(), ids);
        law_placed_windows_are_those_that_appeared(tiles.drop_last(), ids);
        let (placed, rest) = restore::place_tiles(tiles.drop_last(), ids);
        assert forall|i: int| 0 <= i < rest.len() implies (#[trigger] rest[i]) is Some by {
            assert(rest[i] == ids[before + i]);
        }
        lemma_same_tree(tiles.last(), rest);
        let last = restore::place_tile(tiles.last(), rest).0->0;
        assert(placed.push(last).drop_last() =~= placed);
    }
}

// Taking all steps

/// The state after all of `steps`, from the start, where `outcomes` holds for each of them the
/// window that it opened.
pub open spec fn state_after(steps: Seq<StepView>, outcomes: Seq<Option<i64>>) -> RestorerView
    decreases steps.len(),
{
    if steps.len() == 0 {
        restore::fresh()
    } else {
        restore::after(
            state_after(steps.drop_last(), outcomes),
            steps.last(),
            outcomes[steps.len() - 1],
        )
    }
}

/// Whether a step has nothing to do with the tiling windows of the workspace at hand.
spec fn keeps_opened(step: StepView) -> bool {
    match step {
        StepView::Open(_, PlaceView::Tiled(_)) => false,
        StepView::Arrange(_) => false,
        _ => true,
    }
}

proof fn lemma_keeps_opened(a: Seq<StepView>, b: Seq<StepView>, outcomes: Seq<Option<i64>>)
    requires
        forall|i: int| 0 <= i < b.len() ==> keeps_opened(#[trigger] b[i]),
    ensures
        state_after(a + b, outcomes).opened == state_after(a, outcomes).opened,
    decreases b.len(),
{
    if b.len() == 0 {
        assert(a + b =~= a);
    } else {
        assert((a + b).drop_last() =~= a + b.drop_last());
        assert forall|i: int| 0 <= i < b.drop_last().len() implies keeps_opened(
            #[trigger] b.drop_last()[i],
        ) by {
            assert(b.drop_last()[i] == b[i]);
        }
        lemma_keeps_opened(a, b.drop_last(), outcomes);
        assert(keeps_opened(b[b.len() - 1]));
    }
}

proof fn lemma_opens_tiled(
    a: Seq<StepView>,
    windows: Seq<WindowView>,
    name: Seq<char>,
    outcomes: Seq<Option<i64>>,
)
    requires
        state_after(a, outcomes).opened.len() == 0,
        a.len() + windows.len() <= outcomes.len(),
    ensures
        state_after(
            a + restore::open_steps(windows, PlaceView::Tiled(name)),
            outcomes,
        ).opened == outcomes.subrange(a.len() as int, (a.len() + windows.len()) as int),
    decreases windows.len(),
{
    let steps = restore::open_steps(windows, PlaceView::Tiled(name));
    if windows.len() == 0 {
        assert(a + steps =~= a);
        assert(state_after(a, outcomes).opened =~= outcomes.subrange(
            a.len() as int,
            a.len() as int,
        ));
    } else {
        let fewer = restore::open_steps(windows.drop_last(), PlaceView::Tiled(name));
        assert((a + steps).drop_last() =~= a + fewer);
        lemma_opens_tiled(a, windows.drop_last(), name, outcomes);
        assert(state_after(a + steps, outcomes).opened =~= outcomes.subrange(
            a.len() as int,
            (a.len() + windows.len()) as int,
        ));
    }
}

/// What comes before the tiling windows of a workspace are opened.
spec fn prelude(workspace: WorkspaceView) -> Seq<StepView> {
    seq![StepView::Run(restore::show_workspace(workspace.name))] + (if workspace.output.len() == 0 {
        Seq::empty()
    } else {
        seq![StepView::Run(restore::move_to_output(workspace.output))]
    }) + seq![StepView::Run(restore::set_layout(workspace.layout))]
}

proof fn lemma_workspace_opening(
    a: Seq<StepView>,
    workspace: WorkspaceView,
    outcomes: Seq<Option<i64>>,
)
    requires
        state_after(a, outcomes).opened.len() == 0,
        a.len() + restore::workspace_opening(workspace).len() <= outcomes.len(),
    ensures
        ({
            let end = (a.len() + restore::workspace_opening(workspace).len()) as int;
            let count = restore::all_windows_of(workspace.tiles).len();
            &&& count <= restore::workspace_opening(workspace).len()
            &&& state_after(a + restore::workspace_opening(workspace), outcomes).opened
                == outcomes.subrange(end - count, end)
        }),
{
    let windows = restore::all_windows_of(workspace.tiles);
    let opening = restore::open_steps(windows, PlaceView::Tiled(workspace.name));
    assert(restore::workspace_opening(workspace) =~= prelude(workspace) + opening);
    assert(a + restore::workspace_opening(workspace) =~= (a + prelude(workspace)) + opening);
    lemma_keeps_opened(a, prelude(workspace), outcomes);
    lemma_opens_tiled(a + prelude(workspace), windows, workspace.name, outcomes);
}

proof fn lemma_workspaces_end(workspaces: Seq<WorkspaceView>, outcomes: Seq<Option<i64>>)
    ensures
        state_after(restore::workspaces_steps(workspaces), outcomes).opened.len() == 0,
    decreases workspaces.len(),
{
    if workspaces.len() > 0 {
        let workspace = workspaces.last();
        let before = restore::workspaces_steps(workspaces.drop_last());
        let arranged = (before + restore::workspace_opening(workspace)).push(
            StepView::Arrange(workspace.tiles),
        );
        let floating = restore::open_steps(
            workspace.floating,
            PlaceView::Floating(workspace.name),
        );
        assert(restore::workspaces_steps(workspaces) =~= arranged + floating);
        assert(arranged.drop_last() =~= before + restore::workspace_opening(workspace));
        lemma_keeps_opened(arranged, floating, outcomes);
    }
}

proof fn lemma_workspaces_prefix(workspaces: Seq<WorkspaceView>, count: int)
    requires
        0 <= count <= workspaces.len(),
    ensures
        restore::workspaces_steps(workspaces.take(count)).is_prefix_of(
            restore::workspaces_steps(workspaces),
        ),
    decreases workspaces.len() - count,
{
    if count == workspaces.len() {
        assert(workspaces.take(count) =~= workspaces);
    } else {
        lemma_workspaces_prefix(workspaces, count + 1);
        assert(workspaces.take(count + 1).drop_last() =~= workspaces.take(count));
    }
}

/// When the tiles of a workspace are put back, what is known of opened windows is what became of
/// the tiling windows of that workspace, and of no others.
pub proof fn law_each_workspace_gets_its_own_windows(
    session: SessionView,
    at: int,
    outcomes: Seq<Option<i64>>,
)
    requires
        0 <= at < session.workspaces.len(),
        outcomes.len() == restore::session_steps(session).len(),
    ensures
        ({
            let workspace = session.workspaces[at];
            let opening = restore::workspaces_steps(session.workspaces.take(at))
                + restore::workspace_opening(workspace);
            let end = opening.len() as int;
            let count = restore::all_windows_of(workspace.tiles).len();
            &&& opening.push(StepView::Arrange(workspace.tiles)).is_prefix_of(
                restore::session_steps(session),
            )
            &&& state_after(opening, outcomes).opened == outcomes.subrange(end - count, end)
        }),
{
    let workspace = session.workspaces[at];
    let before = restore::workspaces_steps(session.workspaces.take(at));
    let opening = before + restore::workspace_opening(workspace);
    let arranged = opening.push(StepView::Arrange(workspace.tiles));
    let through = restore::workspaces_steps(session.workspaces.take(at + 1));
    assert(session.workspaces.take(at + 1).drop_last() =~= session.workspaces.take(at));
    assert(arranged.is_prefix_of(through));
    lemma_workspaces_prefix(session.workspaces, at + 1);
    assert(restore::workspaces_steps(session.workspaces).is_prefix_of(
        restore::session_steps(session),
    ));
    assert(arranged.is_prefix_of(restore::session_steps(session))) by {
        let all = restore::workspaces_steps(session.workspaces);
        assert(arranged =~= restore::session_steps(session).take(arranged.len() as int)) by {
            assert forall|i: int| 0 <= i < arranged.len() implies arranged[i]
                == restore::session_steps(session)[i] by {
                assert(arranged[i] == through[i]);
                assert(through[i] == all[i]);
            }
        }
    }
    lemma_workspaces_end(session.workspaces.take(at), outcomes);
    lemma_workspace_opening(before, workspace, outcomes);
}

// Final geometry and state

/// Whether a later step than the one at `i` opened a window that is to be focused.
pub open spec fn focused_later(
    steps: Seq<StepView>,
    outcomes: Seq<Option<i64>>,
    i: int,
) -> bool {
    exists|j: int|
        i < j < steps.len() && outcomes[j] is Some && (#[trigger] steps[j] matches StepView::Open(
            window,
            place,
        ) && window.focused && place !is Scratchpad)
}

proof fn lemma_push_contains<T>(s: Seq<T>, last: T, x: T)
    ensures
        s.contains(x) ==> s.push(last).contains(x),
        s.push(last).contains(last),
{
    if s.contains(x) {
        let i = choose|i: int| 0 <= i < s.len() && s[i] == x;
        assert(s.push(last)[i] == x);
    }
    assert(s.push(last)[s.len() as int] == last);
}

proof fn lemma_remembered(steps: Seq<StepView>, outcomes: Seq<Option<i64>>, i: int, id: i64)
    requires
        0 <= i < steps.len(),
        outcomes[i] == Some(id),
    ensures
        steps[i] matches StepView::Open(window, place) ==> {
            let state = state_after(steps, outcomes);
            &&& place !is Tiled ==> state.floating.contains((id, window.rect))
            &&& place is Scratchpad ==> state.scratchpad.contains(id)
            &&& place !is Scratchpad && window.fullscreen ==> state.fullscreen.contains(id)
            &&& place !is Scratchpad && window.focused && !focused_later(steps, outcomes, i)
                ==> state.focused == Some(id)
        },
    decreases steps.len(),
{
    if steps[i] is Open {
        let window = steps[i]->Open_0;
        let before = state_after(steps.drop_last(), outcomes);
        let last = outcomes[steps.len() - 1];
        if i < steps.len() - 1 {
            lemma_remembered(steps.drop_last(), outcomes, i, id);
            assert(steps.drop_last()[i] == steps[i]);
            if focused_later(steps.drop_last(), outcomes, i) {
                let j = choose|j: int|
                    i < j < steps.drop_last().len() && outcomes[j] is Some
                        && (#[trigger] steps.drop_last()[j] matches StepView::Open(window, place)
                        && window.focused && place !is Scratchpad);
                assert(steps[j] == steps.drop_last()[j]);
            }
        }
        if let Some(new) = last {
            lemma_push_contains(before.scratchpad, new, id);
            lemma_push_contains(before.fullscreen, new, id);
            if steps.last() is Open {
                lemma_push_contains(
                    before.floating,
                    (new, steps.last()->Open_0.rect),
                    (id, window.rect),
                );
            }
        }
    }
}

proof fn lemma_geometry(floating: Seq<(i64, Rect)>, k: int)
    requires
        0 <= k < floating.len(),
    ensures
        restore::geometry_commands(floating).contains(
            restore::resize(floating[k].0, floating[k].1),
        ),
        restore::geometry_commands(floating).contains(
            restore::move_to_position(floating[k].0, floating[k].1),
        ),
    decreases floating.len(),
{
    let (id, rect) = floating[k];
    let all = restore::geometry_commands(floating);
    let fewer = restore::geometry_commands(floating.drop_last());
    if k == floating.len() - 1 {
        assert(all[fewer.len() as int] == restore::resize(id, rect));
        assert(all[(fewer.len() + 1) as int] == restore::move_to_position(id, rect));
    } else {
        lemma_geometry(floating.drop_last(), k);
        let a = choose|a: int| 0 <= a < fewer.len() && fewer[a] == restore::resize(id, rect);
        let b = choose|b: int|
            0 <= b < fewer.len() && fewer[b] == restore::move_to_position(id, rect);
        assert(all[a] == fewer[a]);
        assert(all[b] == fewer[b]);
    }
}

proof fn lemma_each_command(ids: Seq<i64>, what: Seq<char>, id: i64)
    requires
        ids.contains(id),
    ensures
        restore::each_command(ids, what).contains(restore::command_for(id, what)),
{
    let k = choose|k: int| 0 <= k < ids.len() && ids[k] == id;
    assert(restore::each_command(ids, what)[k] == restore::command_for(id, what));
}

proof fn lemma_part_contains<T>(a: Seq<T>, b: Seq<T>, c: Seq<T>, x: T)
    requires
        b.contains(x),
    ensures
        (a + b + c).contains(x),
{
    let k = choose|k: int| 0 <= k < b.len() && b[k] == x;
    assert((a + b + c)[a.len() + k] == x);
}

/// In the end each window that appeared gets what was saved of it: a floating window its size and
/// its position, one of the scratchpad its place there, a fullscreen window its fullscreen state,
/// and the focus goes to the focused window, as the last command of all.
pub proof fn law_windows_get_their_saved_state(
    session: SessionView,
    outcomes: Seq<Option<i64>>,
    i: int,
    id: i64,
)
    requires
        outcomes.len() == restore::session_steps(session).len(),
        0 <= i < outcomes.len(),
        outcomes[i] == Some(id),
    ensures
        ({
            let steps = restore::session_steps(session);
            let state = state_after(steps.drop_last(), outcomes);
            let commands = restore::asked(state, steps.last(), outcomes.last());
            steps[i] matches StepView::Open(window, place) ==> {
                &&& place !is Tiled ==> commands.contains(restore::resize(id, window.rect))
                    && commands.contains(restore::move_to_position(id, window.rect))
                &&& place is Scratchpad ==> commands.contains(
                    restore::command_for(id, "move scratchpad"@),
                )
                &&& place !is Scratchpad && window.fullscreen ==> commands.contains(
                    restore::command_for(id, "fullscreen enable"@),
                )
                &&& place !is Scratchpad && window.focused && !focused_later(steps, outcomes, i)
                    ==> commands.len() > 0 && commands.last() == restore::command_for(
                    id,
                    "focus"@,
                )
            }
        }),
{
    let steps = restore::session_steps(session);
    assert(steps.last() is Finish);
    if let StepView::Open(window, place) = steps[i] {
        let sofar = steps.drop_last();
        let state = state_after(sofar, outcomes);
        assert(sofar[i] == steps[i]);
        lemma_remembered(sofar, outcomes, i, id);
        if focused_later(sofar, outcomes, i) {
            let j = choose|j: int|
                i < j < sofar.len() && outcomes[j] is Some && (
                #[trigger] sofar[j] matches StepView::Open(window, place) && window.focused
                    && place !is Scratchpad);
            assert(steps[j] == sofar[j]);
        }
        let geometry = restore::geometry_commands(state.floating);
        let scratchpad = restore::each_command(state.scratchpad, "move scratchpad"@);
        let fullscreen = restore::each_command(state.fullscreen, "fullscreen enable"@);
        let focus = match state.focused {
            Some(id) => seq![restore::command_for(id, "focus"@)],
            None => Seq::empty(),
        };
        let commands = geometry + scratchpad + fullscreen + focus;
        assert(commands == restore::finish_commands(state));
        let none = Seq::<Seq<char>>::empty();
        if place !is Tiled {
            let k = choose|k: int|
                0 <= k < state.floating.len() && state.floating[k] == (id, window.rect);
            lemma_geometry(state.floating, k);
            let behind = scratchpad + fullscreen + focus;
            lemma_part_contains(none, geometry, behind, restore::resize(id, window.rect));
            lemma_part_contains(none, geometry, behind, restore::move_to_position(id, window.rect));
            assert(none + geometry + behind =~= commands);
        }
        if place is Scratchpad {
            let what = restore::command_for(id, "move scratchpad"@);
            lemma_each_command(state.scratchpad, "move scratchpad"@, id);
            lemma_part_contains(geometry, scratchpad, fullscreen + focus, what);
            assert(geometry + scratchpad + (fullscreen + focus) =~= commands);
        }
        if place !is Scratchpad && window.fullscreen {
            let what = restore::command_for(id, "fullscreen enable"@);
            lemma_each_command(state.fullscreen, "fullscreen enable"@, id);
            lemma_part_contains(geometry + scratchpad, fullscreen, focus, what);
        }
    }
}

} // verus!

//! What the text of a session is for: it shows every workspace and every window, in order.

use crate::restore;
use crate::restore_laws;
use crate::session;
use crate::session::{Layout, SessionView, TileView, WindowView, WorkspaceView};
use crate::text;
use vstd::prelude::*;

verus! {

/// The name of a layout.
pub open spec fn layout_text(layout: Layout) -> Seq<char> {
    match layout {
        Layout::SplitH => "splith"@,
        Layout::SplitV => "splitv"@,
        Layout::Stacked => "stacking"@,
        Layout::Tabbed => "tabbed"@,
    }
}

/// The line that names a workspace, its output and its layout.
pub open spec fn headline(workspace: WorkspaceView) -> Seq<char> {
    "workspace "@ + workspace.name + " on "@ + workspace.output + " ["@ + layout_text(
        workspace.layout,
    ) + "]\n"@
}

/// A session of one workspace.
pub open spec fn only(workspace: WorkspaceView) -> SessionView {
    SessionView { workspaces: seq![workspace], scratchpad: Seq::empty() }
}

proof fn lemma_workspaces_text(a: Seq<WorkspaceView>, b: Seq<WorkspaceView>)
    ensures
        session::workspaces_text(a + b) == session::workspaces_text(a) + session::workspaces_text(
            b,
        ),
    decreases b.len(),
{
    if b.len() == 0 {
        assert(a + b =~= a);
        assert(session::workspaces_text(a + b) =~= session::workspaces_text(a)
            + session::workspaces_text(b));
    } else {
        assert((a + b).drop_last() =~= a + b.drop_last());
        lemma_workspaces_text(a, b.drop_last());
        assert(session::workspaces_text(a + b) =~= session::workspaces_text(a)
            + session::workspaces_text(b));
    }
}

proof fn lemma_tiles_text(a: Seq<TileView>, b: Seq<TileView>, indent: Seq<char>)
    ensures
        session::tiles_text(a + b, indent) == session::tiles_text(a, indent) + session::tiles_text(
            b,
            indent,
        ),
    decreases b.len(),
{
    if b.len() == 0 {
        assert(a + b =~= a);
        assert(session::tiles_text(a + b, indent) =~= session::tiles_text(a, indent)
            + session::tiles_text(b, indent));
    } else {
        assert((a + b).drop_last() =~= a + b.drop_last());
        lemma_tiles_text(a, b.drop_last(), indent);
        assert(session::tiles_text(a + b, indent) =~= session::tiles_text(a, indent)
            + session::tiles_text(b, indent));
    }
}

proof fn lemma_windows_text(a: Seq<WindowView>, b: Seq<WindowView>, indent: Seq<char>)
    ensures
        session::windows_text(a + b, indent) == session::windows_text(a, indent)
            + session::windows_text(b, indent),
    decreases b.len(),
{
    if b.len() == 0 {
        assert(a + b =~= a);
        assert(session::windows_text(a + b, indent) =~= session::windows_text(a, indent)
            + session::windows_text(b, indent));
    } else {
        assert((a + b).drop_last() =~= a + b.drop_last());
        lemma_windows_text(a, b.drop_last(), indent);
        assert(session::windows_text(a + b, indent) =~= session::windows_text(a, indent)
            + session::windows_text(b, indent));
    }
}

proof fn lemma_one_workspace(workspace: WorkspaceView)
    ensures
        session::session_text(only(workspace)) == session::workspace_text(workspace),
{
    assert(seq![workspace].drop_last() =~= Seq::empty());
    assert(session::workspaces_text(Seq::empty()) =~= Seq::empty());
    assert(session::session_text(only(workspace)) =~= session::workspace_text(workspace));
}

/// Every workspace is in the text, in order: the text of some workspaces followed by others is the
/// text of the ones followed by the text of the others.
pub proof fn law_text_of_workspaces(a: Seq<WorkspaceView>, b: Seq<WorkspaceView>)
    ensures
        session::session_text(SessionView { workspaces: a + b, scratchpad: Seq::empty() })
            == session::session_text(SessionView { workspaces: a, scratchpad: Seq::empty() })
            + session::session_text(SessionView { workspaces: b, scratchpad: Seq::empty() }),
{
    lemma_workspaces_text(a, b);
    assert(session::session_text(SessionView { workspaces: a + b, scratchpad: Seq::empty() })
        =~= session::session_text(SessionView { workspaces: a, scratchpad: Seq::empty() })
        + session::session_text(SessionView { workspaces: b, scratchpad: Seq::empty() }));
}

/// The text of a workspace is the line that names it, followed by the lines of its tiles and those of
/// its floating windows, each list in order: what is added to a list adds the lines that it has where
/// it stands alone.
pub proof fn law_text_of_a_workspace(
    workspace: WorkspaceView,
    tiles: Seq<TileView>,
    floating: Seq<WindowView>,
)
    ensures
        ({
            let bare = WorkspaceView {
                tiles: Seq::empty(),
                floating: Seq::empty(),
                ..workspace
            };
            let head = headline(workspace);
            let more_tiles = WorkspaceView { tiles: tiles + workspace.tiles, ..workspace };
            let more_floating = WorkspaceView {
                floating: workspace.floating + floating,
                ..workspace
            };
            &&& session::session_text(only(bare)) == head
            &&& head.is_prefix_of(session::session_text(only(workspace)))
            &&& session::session_text(only(more_tiles)) == session::session_text(
                only(WorkspaceView { tiles, ..bare }),
            ) + session::session_text(only(workspace)).skip(head.len() as int)
            &&& session::session_text(only(more_floating)) == session::session_text(
                only(workspace),
            ) + session::session_text(only(WorkspaceView { floating, ..bare })).skip(
                head.len() as int,
            )
        }),
{
    let bare = WorkspaceView { tiles: Seq::empty(), floating: Seq::empty(), ..workspace };
    let head = headline(workspace);
    let more_tiles = WorkspaceView { tiles: tiles + workspace.tiles, ..workspace };
    let more_floating = WorkspaceView { floating: workspace.floating + floating, ..workspace };
    lemma_one_workspace(bare);
    lemma_one_workspace(workspace);
    lemma_one_workspace(more_tiles);
    lemma_one_workspace(more_floating);
    lemma_one_workspace(WorkspaceView { tiles, ..bare });
    lemma_one_workspace(WorkspaceView { floating, ..bare });
    lemma_tiles_text(tiles, workspace.tiles, "  "@);
    lemma_windows_text(workspace.floating, floating, "  "@);
    assert(session::tiles_text(Seq::empty(), "  "@) =~= Seq::empty());
    assert(session::windows_text(Seq::empty(), "  "@) =~= Seq::empty());
    let lines = session::tiles_text(workspace.tiles, "  "@) + session::windows_text(
        workspace.floating,
        "  "@,
    );
    assert(session::workspace_text(bare) =~= head);
    assert(session::workspace_text(workspace) =~= head + lines);
    assert(session::workspace_text(workspace).skip(head.len() as int) =~= lines);
    assert(session::workspace_text(WorkspaceView { tiles, ..bare }) =~= head + session::tiles_text(
        tiles,
        "  "@,
    ));
    assert(session::workspace_text(WorkspaceView { floating, ..bare }) =~= head
        + session::windows_text(floating, "  "@));
    assert(session::workspace_text(WorkspaceView { floating, ..bare }).skip(head.len() as int)
        =~= session::windows_text(floating, "  "@));
    assert(session::workspace_text(more_tiles) =~= head + session::tiles_text(tiles, "  "@)
        + lines);
    assert(session::workspace_text(more_floating) =~= head + lines + session::windows_text(
        floating,
        "  "@,
    ));
}

/// The lines of a scratchpad stand behind those of the workspaces, below a line of their own, in
/// order.
pub proof fn law_text_of_the_scratchpad(
    workspaces: Seq<WorkspaceView>,
    a: Seq<WindowView>,
    b: Seq<WindowView>,
)
    requires
        a.len() > 0,
    ensures
        ({
            let alone = |windows: Seq<WindowView>|
                session::session_text(
                    SessionView { workspaces: Seq::empty(), scratchpad: windows },
                );
            &&& "scratchpad\n"@.is_prefix_of(alone(a))
            &&& session::session_text(SessionView { workspaces, scratchpad: a })
                == session::session_text(SessionView { workspaces, scratchpad: Seq::empty() })
                + alone(a)
            &&& b.len() > 0 ==> alone(a + b) == alone(a) + alone(b).skip("scratchpad\n"@.len() as int)
        }),
{
    let head = "scratchpad\n"@;
    assert(session::workspaces_text(Seq::empty()) =~= Seq::empty());
    lemma_windows_text(a, b, "  "@);
    let first = session::windows_text(a, "  "@);
    let second = session::windows_text(b, "  "@);
    assert(session::session_text(SessionView { workspaces: Seq::empty(), scratchpad: a }) =~= head
        + first);
    assert(session::session_text(SessionView { workspaces: Seq::empty(), scratchpad: a + b })
        =~= head + first + second);
    if b.len() > 0 {
        let alone = session::session_text(
            SessionView { workspaces: Seq::empty(), scratchpad: b },
        );
        assert(alone =~= head + second);
        assert(alone.skip(head.len() as int) =~= second);
    }
    assert(session::session_text(SessionView { workspaces, scratchpad: a })
        =~= session::session_text(SessionView { workspaces, scratchpad: Seq::empty() }) + (head
        + first));
}

// Windows

/// The remarks on a window: whether it is floating, with its size and its position, fullscreen, and
/// focused.
pub open spec fn flags_text(window: WindowView) -> Seq<char> {
    let place = "floating "@ + text::decimal(window.rect.width as int) + "x"@ + text::decimal(
        window.rect.height as int,
    ) + "+"@ + text::decimal(window.rect.x as int) + "+"@ + text::decimal(window.rect.y as int);
    match (window.floating, window.fullscreen, window.focused) {
        (false, false, false) => Seq::empty(),
        (false, false, true) => " [focused]"@,
        (false, true, false) => " [fullscreen]"@,
        (false, true, true) => " [fullscreen, focused]"@,
        (true, false, false) => " ["@ + place + "]"@,
        (true, false, true) => " ["@ + place + ", focused]"@,
        (true, true, false) => " ["@ + place + ", fullscreen]"@,
        (true, true, true) => " ["@ + place + ", fullscreen, focused]"@,
    }
}

/// The two lines of a window: its application, title and remarks, and below them its arguments.
pub open spec fn lines_of_window(window: WindowView, indent: Seq<char>) -> Seq<char> {
    indent + (if window.app_id.len() == 0 {
        "?"@
    } else {
        window.app_id
    }) + " "@ + session::quoted_for_debug(window.title) + flags_text(window) + "\n"@ + indent
        + "  ["@ + text::joined(
        window.argv.map_values(|argument: Seq<char>| session::quoted_for_debug(argument)),
        ", "@,
    ) + "]\n"@
}

proof fn lemma_joined(a: Seq<char>, b: Seq<char>, c: Seq<char>, separator: Seq<char>)
    ensures
        text::joined(seq![a], separator) == a,
        text::joined(seq![a, b], separator) == a + separator + b,
        text::joined(seq![a, b, c], separator) == a + separator + b + separator + c,
{
    let (one, two, three) = (seq![a], seq![a, b], seq![a, b, c]);
    assert(text::joined(one, separator) == a);
    assert(two.drop_last() =~= one);
    assert(text::joined(two, separator) == a + separator + b);
    assert(three.drop_last() =~= two);
    assert(text::joined(three, separator) == text::joined(two, separator) + separator + c);
}

/// The texts that remarks are made of.
proof fn lemma_remark_texts()
    ensures
        " [focused]"@ == " ["@ + "focused"@ + "]"@,
        " [fullscreen]"@ == " ["@ + "fullscreen"@ + "]"@,
        " [fullscreen, focused]"@ == " ["@ + ("fullscreen"@ + ", "@ + "focused"@) + "]"@,
        ", focused]"@ == ", "@ + "focused"@ + "]"@,
        ", fullscreen]"@ == ", "@ + "fullscreen"@ + "]"@,
        ", fullscreen, focused]"@ == ", "@ + "fullscreen"@ + ", "@ + "focused"@ + "]"@,
{
    reveal_strlit(" [");
    reveal_strlit("]");
    reveal_strlit(", ");
    reveal_strlit("fullscreen");
    reveal_strlit("focused");
    reveal_strlit(" [focused]");
    reveal_strlit(" [fullscreen]");
    reveal_strlit(" [fullscreen, focused]");
    reveal_strlit(", focused]");
    reveal_strlit(", fullscreen]");
    reveal_strlit(", fullscreen, focused]");
    assert(" [focused]"@ =~= " ["@ + "focused"@ + "]"@);
    assert(" [fullscreen]"@ =~= " ["@ + "fullscreen"@ + "]"@);
    assert(" [fullscreen, focused]"@ =~= " ["@ + ("fullscreen"@ + ", "@ + "focused"@) + "]"@);
    assert(", focused]"@ =~= ", "@ + "focused"@ + "]"@);
    assert(", fullscreen]"@ =~= ", "@ + "fullscreen"@ + "]"@);
    assert(", fullscreen, focused]"@ =~= ", "@ + "fullscreen"@ + ", "@ + "focused"@ + "]"@);
}

proof fn lemma_regroup(a: Seq<char>, b: Seq<char>, c: Seq<char>, d: Seq<char>, e: Seq<char>)
    ensures
        a + (b + c + d) + e == a + b + (c + d + e),
{
    assert(a + (b + c + d) + e =~= a + b + (c + d + e));
}

proof fn lemma_regroup_more(
    a: Seq<char>,
    b: Seq<char>,
    c: Seq<char>,
    d: Seq<char>,
    e: Seq<char>,
    f: Seq<char>,
)
    ensures
        a + (b + c + d + c + e) + f == a + b + (c + d + c + e + f),
{
    assert(a + (b + c + d + c + e) + f =~= a + b + (c + d + c + e + f));
}

proof fn lemma_flags_text(window: WindowView)
    ensures
        session::remarks_text(window) == flags_text(window),
{
    let place = "floating "@ + session::geometry(window.rect);
    let remarks = session::remarks(window);
    let (full, focused) = ("fullscreen"@, "focused"@);
    lemma_place_text(window);
    lemma_remark_texts();
    match (window.floating, window.fullscreen, window.focused) {
        (false, false, false) => {},
        (false, false, true) => {
            assert(remarks =~= seq![focused]);
            lemma_joined(focused, focused, focused, ", "@);
        },
        (false, true, false) => {
            assert(remarks =~= seq![full]);
            lemma_joined(full, full, full, ", "@);
        },
        (false, true, true) => {
            assert(remarks =~= seq![full, focused]);
            lemma_joined(full, focused, focused, ", "@);
        },
        (true, false, false) => {
            assert(remarks =~= seq![place]);
            lemma_joined(place, place, place, ", "@);
        },
        (true, false, true) => {
            assert(remarks =~= seq![place, focused]);
            lemma_joined(place, focused, focused, ", "@);
            lemma_regroup(" ["@, place, ", "@, focused, "]"@);
        },
        (true, true, false) => {
            assert(remarks =~= seq![place, full]);
            lemma_joined(place, full, full, ", "@);
            lemma_regroup(" ["@, place, ", "@, full, "]"@);
        },
        (true, true, true) => {
            assert(remarks =~= seq![place, full, focused]);
            lemma_joined(place, full, focused, ", "@);
            lemma_regroup_more(" ["@, place, ", "@, full, focused, "]"@);
        },
    }
}

proof fn lemma_place_text(window: WindowView)
    ensures
        "floating "@ + session::geometry(window.rect) == "floating "@ + text::decimal(
            window.rect.width as int,
        ) + "x"@ + text::decimal(window.rect.height as int) + "+"@ + text::decimal(
            window.rect.x as int,
        ) + "+"@ + text::decimal(window.rect.y as int),
{
    assert("floating "@ + session::geometry(window.rect) =~= "floating "@ + text::decimal(
        window.rect.width as int,
    ) + "x"@ + text::decimal(window.rect.height as int) + "+"@ + text::decimal(
        window.rect.x as int,
    ) + "+"@ + text::decimal(window.rect.y as int));
}

proof fn lemma_window_text(window: WindowView, indent: Seq<char>)
    ensures
        session::window_text(window, indent) == lines_of_window(window, indent),
{
    lemma_flags_text(window);
    reveal_strlit("  ");
    reveal_strlit("[");
    reveal_strlit("  [");
    reveal_strlit("]");
    reveal_strlit("\n");
    reveal_strlit("]\n");
    assert(session::each_quoted(window.argv) =~= window.argv.map_values(
        |argument: Seq<char>| session::quoted_for_debug(argument),
    ));
    assert(session::window_text(window, indent) =~= lines_of_window(window, indent));
}

/// What a window on a workspace, tiling or floating, adds to the text of the workspace, and one of
/// the scratchpad to the text of the scratchpad: its two lines, indented once.
pub proof fn law_text_of_a_window(workspace: WorkspaceView, window: WindowView)
    requires
        workspace.tiles.len() == 0,
        workspace.floating.len() == 0,
    ensures
        session::session_text(
            only(WorkspaceView { tiles: seq![TileView::Window(window)], ..workspace }),
        ) == headline(workspace) + lines_of_window(window, "  "@),
        session::session_text(only(WorkspaceView { floating: seq![window], ..workspace }))
            == headline(workspace) + lines_of_window(window, "  "@),
        session::session_text(
            SessionView { workspaces: Seq::empty(), scratchpad: seq![window] },
        ) == "scratchpad\n"@ + lines_of_window(window, "  "@),
{
    let tiles = seq![TileView::Window(window)];
    let windows = seq![window];
    lemma_one_workspace(WorkspaceView { tiles, ..workspace });
    lemma_one_workspace(WorkspaceView { floating: windows, ..workspace });
    lemma_window_text(window, "  "@);
    assert(tiles.drop_last() =~= Seq::empty());
    assert(windows.drop_last() =~= Seq::empty());
    assert(session::tiles_text(Seq::empty(), "  "@) =~= Seq::empty());
    assert(session::windows_text(Seq::empty(), "  "@) =~= Seq::empty());
    assert(session::workspaces_text(Seq::empty()) =~= Seq::empty());
    assert(workspace.tiles =~= Seq::empty());
    assert(workspace.floating =~= Seq::empty());
    assert(session::tile_text(tiles.last(), "  "@) == session::window_text(window, "  "@));
    assert(session::workspace_text(WorkspaceView { tiles, ..workspace }) =~= headline(workspace)
        + lines_of_window(window, "  "@));
    assert(session::workspace_text(WorkspaceView { floating: windows, ..workspace })
        =~= headline(workspace) + lines_of_window(window, "  "@));
    assert(session::session_text(
        SessionView { workspaces: Seq::empty(), scratchpad: windows },
    ) =~= "scratchpad\n"@ + lines_of_window(window, "  "@));
}

/// The text of a split, at any depth, is the line that names its layout, and below it the text of
/// each of its tiles in order, indented once more; that of a window is its two lines.
pub proof fn law_text_of_a_split(
    layout: Layout,
    a: Seq<TileView>,
    b: Seq<TileView>,
    window: WindowView,
    indent: Seq<char>,
)
    ensures
        ({
            let text = |tiles: Seq<TileView>, indent: Seq<char>| session::tiles_text(tiles, indent);
            let split = |children: Seq<TileView>| seq![TileView::Split { layout, children }];
            &&& text(split(a), indent) == indent + layout_text(layout) + "\n"@ + text(
                a,
                indent + "  "@,
            )
            &&& text(a + b, indent) == text(a, indent) + text(b, indent)
            &&& text(seq![TileView::Window(window)], indent) == lines_of_window(window, indent)
            &&& text(Seq::empty(), indent) == Seq::<char>::empty()
        }),
{
    lemma_tiles_text(a, b, indent);
    lemma_window_text(window, indent);
    let split = seq![TileView::Split { layout, children: a }];
    let single = seq![TileView::Window(window)];
    assert(split.drop_last() =~= Seq::empty());
    assert(single.drop_last() =~= Seq::empty());
    assert(session::tiles_text(Seq::empty(), indent) =~= Seq::empty());
    assert(session::tile_text(split.last(), indent) =~= indent + layout_text(layout) + "\n"@
        + session::tiles_text(a, indent + "  "@));
    assert(session::tile_text(single.last(), indent) == session::window_text(window, indent));
    assert(session::tiles_text(split, indent) =~= session::tile_text(split.last(), indent));
    assert(session::tiles_text(single, indent) =~= session::tile_text(single.last(), indent));
}

/// Whether a text stands within another one.
pub open spec fn within(part: Seq<char>, whole: Seq<char>) -> bool {
    exists|before: Seq<char>, behind: Seq<char>| whole == #[trigger] (before + part + behind)
}

proof fn lemma_within_more(part: Seq<char>, a: Seq<char>, middle: Seq<char>, b: Seq<char>)
    requires
        within(part, middle),
    ensures
        within(part, a + middle + b),
{
    let (before, behind) = choose|before: Seq<char>, behind: Seq<char>|
        middle == #[trigger] (before + part + behind);
    assert(a + middle + b =~= (a + before) + part + (behind + b));
}

proof fn lemma_within_itself(part: Seq<char>)
    ensures
        within(part, part),
{
    assert(part =~= Seq::<char>::empty() + part + Seq::<char>::empty());
}

/// As many spaces as a tile at a given depth is indented by.
pub open spec fn spaces(depth: nat) -> Seq<char> {
    Seq::new(2 * depth, |i: int| ' ')
}

proof fn lemma_spaces(depth: nat)
    ensures
        spaces(depth) + "  "@ == spaces(depth + 1),
        spaces(1) == "  "@,
{
    reveal_strlit("  ");
    assert(spaces(depth) + "  "@ =~= spaces(depth + 1));
    assert(spaces(1) =~= "  "@);
}

proof fn lemma_window_in_tile(tile: TileView, depth: nat, window: WindowView)
    requires
        restore::windows_of(tile).contains(window),
    ensures
        exists|deeper: nat|
            depth <= deeper && #[trigger] within(
                lines_of_window(window, spaces(deeper)),
                session::tile_text(tile, spaces(depth)),
            ),
    decreases tile,
{
    match tile {
        TileView::Window(found) => {
            assert(found == window);
            lemma_window_text(window, spaces(depth));
            lemma_within_itself(lines_of_window(window, spaces(depth)));
            assert(within(
                lines_of_window(window, spaces(depth)),
                session::tile_text(tile, spaces(depth)),
            ));
        },
        TileView::Split { layout, children } => {
            lemma_spaces(depth);
            lemma_window_in_tiles(children, depth + 1, window);
            let deeper = choose|deeper: nat|
                depth + 1 <= deeper && #[trigger] within(
                    lines_of_window(window, spaces(deeper)),
                    session::tiles_text(children, spaces(depth + 1)),
                );
            let part = lines_of_window(window, spaces(deeper));
            let head = spaces(depth) + session::layout_name(layout) + "\n"@;
            let inner = session::tiles_text(children, spaces(depth + 1));
            lemma_within_more(part, head, inner, Seq::empty());
            assert(session::tile_text(tile, spaces(depth)) =~= head + inner + Seq::<char>::empty());
            assert(within(part, session::tile_text(tile, spaces(depth))));
        },
    }
}

proof fn lemma_window_in_tiles(tiles: Seq<TileView>, depth: nat, window: WindowView)
    requires
        restore::all_windows_of(tiles).contains(window),
    ensures
        exists|deeper: nat|
            depth <= deeper && #[trigger] within(
                lines_of_window(window, spaces(deeper)),
                session::tiles_text(tiles, spaces(depth)),
            ),
    decreases tiles,
{
    let before = restore::all_windows_of(tiles.drop_last());
    let here = restore::windows_of(tiles.last());
    let i = choose|i: int| 0 <= i < (before + here).len() && (before + here)[i] == window;
    let a = session::tiles_text(tiles.drop_last(), spaces(depth));
    let b = session::tile_text(tiles.last(), spaces(depth));
    if i < before.len() {
        assert(before[i] == window);
        lemma_window_in_tiles(tiles.drop_last(), depth, window);
        let deeper = choose|deeper: nat|
            depth <= deeper && #[trigger] within(lines_of_window(window, spaces(deeper)), a);
        lemma_within_more(lines_of_window(window, spaces(deeper)), Seq::empty(), a, b);
        assert(Seq::<char>::empty() + a + b =~= a + b);
        assert(within(
            lines_of_window(window, spaces(deeper)),
            session::tiles_text(tiles, spaces(depth)),
        ));
    } else {
        assert(here[i - before.len()] == window);
        lemma_window_in_tile(tiles.last(), depth, window);
        let deeper = choose|deeper: nat|
            depth <= deeper && #[trigger] within(lines_of_window(window, spaces(deeper)), b);
        lemma_within_more(lines_of_window(window, spaces(deeper)), a, b, Seq::empty());
        assert(a + b + Seq::<char>::empty() =~= a + b);
        assert(within(
            lines_of_window(window, spaces(deeper)),
            session::tiles_text(tiles, spaces(depth)),
        ));
    }
}

proof fn lemma_window_in_windows(windows: Seq<WindowView>, window: WindowView)
    requires
        windows.contains(window),
    ensures
        within(lines_of_window(window, spaces(1)), session::windows_text(windows, "  "@)),
    decreases windows.len(),
{
    let part = lines_of_window(window, spaces(1));
    let i = choose|i: int| 0 <= i < windows.len() && windows[i] == window;
    let a = session::windows_text(windows.drop_last(), "  "@);
    let b = session::window_text(windows.last(), "  "@);
    lemma_spaces(0);
    if i < windows.len() - 1 {
        assert(windows.drop_last()[i] == window);
        lemma_window_in_windows(windows.drop_last(), window);
        lemma_within_more(part, Seq::empty(), a, b);
        assert(Seq::<char>::empty() + a + b =~= a + b);
    } else {
        lemma_window_text(window, "  "@);
        lemma_within_itself(part);
        lemma_within_more(part, a, b, Seq::empty());
        assert(a + b + Seq::<char>::empty() =~= a + b);
    }
}

/// Every window of a session is in its text, with its application, title, remarks and arguments,
/// indented at least once.
pub proof fn law_every_window_is_in_the_text(session: SessionView, window: WindowView)
    requires
        restore_laws::windows_of_session(session).contains(window),
    ensures
        exists|depth: nat|
            1 <= depth && #[trigger] within(
                lines_of_window(window, spaces(depth)),
                session::session_text(session),
            ),
{
    let workspaces = restore_laws::windows_of_workspaces(session.workspaces);
    let all = workspaces + session.scratchpad;
    let i = choose|i: int| 0 <= i < all.len() && all[i] == window;
    let a = session::workspaces_text(session.workspaces);
    let b = if session.scratchpad.len() == 0 {
        Seq::empty()
    } else {
        "scratchpad\n"@ + session::windows_text(session.scratchpad, "  "@)
    };
    if i < workspaces.len() {
        assert(workspaces[i] == window);
        lemma_window_in_workspaces(session.workspaces, window);
        let depth = choose|depth: nat|
            1 <= depth && #[trigger] within(lines_of_window(window, spaces(depth)), a);
        lemma_within_more(lines_of_window(window, spaces(depth)), Seq::empty(), a, b);
        assert(Seq::<char>::empty() + a + b =~= a + b);
        assert(within(lines_of_window(window, spaces(depth)), session::session_text(session)));
    } else {
        assert(session.scratchpad[i - workspaces.len()] == window);
        lemma_window_in_windows(session.scratchpad, window);
        let part = lines_of_window(window, spaces(1));
        lemma_within_more(
            part,
            a + "scratchpad\n"@,
            session::windows_text(session.scratchpad, "  "@),
            Seq::empty(),
        );
        assert(a + "scratchpad\n"@ + session::windows_text(session.scratchpad, "  "@) + Seq::<
            char,
        >::empty() =~= a + b);
        assert(within(part, session::session_text(session)));
    }
}

proof fn lemma_window_in_workspaces(workspaces: Seq<WorkspaceView>, window: WindowView)
    requires
        restore_laws::windows_of_workspaces(workspaces).contains(window),
    ensures
        exists|depth: nat|
            1 <= depth && #[trigger] within(
                lines_of_window(window, spaces(depth)),
                session::workspaces_text(workspaces),
            ),
    decreases workspaces.len(),
{
    let rest = workspaces.drop_last();
    let workspace = workspaces.last();
    let before = restore_laws::windows_of_workspaces(rest);
    let tiled = restore::all_windows_of(workspace.tiles);
    let all = before + tiled + workspace.floating;
    let i = choose|i: int| 0 <= i < all.len() && all[i] == window;
    let a = session::workspaces_text(rest);
    let head = "workspace "@ + workspace.name + " on "@ + workspace.output + " ["@
        + session::layout_name(workspace.layout) + "]\n"@;
    let b = session::tiles_text(workspace.tiles, "  "@);
    let c = session::windows_text(workspace.floating, "  "@);
    let whole = session::workspaces_text(workspaces);
    assert(whole =~= a + (head + b + c));
    lemma_spaces(0);
    if i < before.len() {
        assert(before[i] == window);
        lemma_window_in_workspaces(rest, window);
        let depth = choose|depth: nat|
            1 <= depth && #[trigger] within(lines_of_window(window, spaces(depth)), a);
        lemma_within_more(
            lines_of_window(window, spaces(depth)),
            Seq::empty(),
            a,
            head + b + c,
        );
        assert(Seq::<char>::empty() + a + (head + b + c) =~= whole);
        assert(within(lines_of_window(window, spaces(depth)), whole));
    } else if i < before.len() + tiled.len() {
        assert(tiled[i - before.len()] == window);
        lemma_window_in_tiles(workspace.tiles, 1, window);
        let depth = choose|depth: nat|
            1 <= depth && #[trigger] within(
                lines_of_window(window, spaces(depth)),
                session::tiles_text(workspace.tiles, spaces(1)),
            );
        lemma_within_more(lines_of_window(window, spaces(depth)), a + head, b, c);
        assert(a + head + b + c =~= whole);
        assert(within(lines_of_window(window, spaces(depth)), whole));
    } else {
        assert(workspace.floating[i - before.len() - tiled.len()] == window);
        lemma_window_in_windows(workspace.floating, window);
        let part = lines_of_window(window, spaces(1));
        lemma_within_more(part, a + head + b, c, Seq::empty());
        assert(a + head + b + c + Seq::<char>::empty() =~= whole);
        assert(within(part, whole));
    }
}

} // verus!

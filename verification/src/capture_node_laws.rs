//! What capturing is for, stated on the nodes of sway's tree: which of them are windows, which
//! workspaces are saved, and with what.

use crate::capture;
use crate::capture::{NodeLayout, NodeView, ScratchpadState};
use crate::config;
use crate::config::ConfigView;
use crate::process;
use crate::restore;
use crate::session::{Layout, SessionView, TileView, WindowView, WorkspaceView};
use crate::text;
use vstd::prelude::*;

verus! {

// Nodes that show windows

/// A text, or the empty one where it is missing.
pub open spec fn text_or_nothing(s: Option<Seq<char>>) -> Seq<char> {
    match s {
        Some(s) => s,
        None => Seq::empty(),
    }
}

/// The application of a node: its id, or else its class, or else nothing.
pub open spec fn application(node: NodeView) -> Seq<char> {
    match (node.app_id, node.class) {
        (Some(app_id), _) => app_id,
        (None, Some(class)) => class,
        (None, None) => Seq::empty(),
    }
}

/// The command that starts the program of a node again.
pub open spec fn command(node: NodeView) -> Option<Seq<Seq<char>>> {
    match node.process {
        Some(known) => process::command_of(known),
        None => None,
    }
}

/// Whether a node shows a window that can be started again and that no rule leaves out.
pub open spec fn shows_window(node: NodeView, config: ConfigView) -> bool {
    &&& node.nodes.len() == 0
    &&& node.floating_nodes.len() == 0
    &&& command(node) matches Some(argv) && !config::skipped(
        config,
        application(node),
        text_or_nothing(node.name),
        text::joined(argv, " "@),
    )
}

/// What is to be saved of the window that a node shows.
pub open spec fn shown(node: NodeView, floating: bool) -> WindowView {
    WindowView {
        app_id: application(node),
        title: text_or_nothing(node.name),
        argv: command(node)->0,
        floating,
        fullscreen: node.fullscreen_mode == Some(1u8) || node.fullscreen_mode == Some(2u8),
        focused: node.focused,
        rect: node.rect,
    }
}

proof fn lemma_window(node: NodeView, floating: bool, config: ConfigView)
    ensures
        capture::window_of(node, floating, config) == if shows_window(node, config) {
            Some(shown(node, floating))
        } else {
            None
        },
{
}

/// The layout that is to be saved for a container.
pub open spec fn saved_layout(node: NodeView) -> Layout {
    match node.layout {
        NodeLayout::SplitV => Layout::SplitV,
        NodeLayout::Stacked => Layout::Stacked,
        NodeLayout::Tabbed => Layout::Tabbed,
        NodeLayout::SplitH | NodeLayout::Other => Layout::SplitH,
    }
}

/// Whether a floating container belongs to the scratchpad.
pub open spec fn on_scratchpad(node: NodeView) -> bool {
    match node.scratchpad_state {
        None | Some(ScratchpadState::Outside) => false,
        Some(ScratchpadState::Fresh) | Some(ScratchpadState::Changed) => true,
    }
}

// The windows below nodes

/// The windows below a tiling node, in order.
pub open spec fn tiling_windows(node: NodeView, config: ConfigView) -> Seq<WindowView>
    decreases node,
{
    if node.nodes.len() > 0 {
        all_tiling_windows(node.nodes, config)
    } else if shows_window(node, config) {
        seq![shown(node, false)]
    } else {
        Seq::empty()
    }
}

/// The windows below tiling nodes, in order.
pub open spec fn all_tiling_windows(nodes: Seq<NodeView>, config: ConfigView) -> Seq<WindowView>
    decreases nodes,
{
    if nodes.len() == 0 {
        Seq::empty()
    } else {
        all_tiling_windows(nodes.drop_last(), config) + tiling_windows(nodes.last(), config)
    }
}

/// The windows below a floating container, in order.
pub open spec fn floating_windows(node: NodeView, config: ConfigView) -> Seq<WindowView>
    decreases node,
{
    if shows_window(node, config) {
        seq![shown(node, true)]
    } else {
        all_floating_windows(node.nodes, config) + all_floating_windows(
            node.floating_nodes,
            config,
        )
    }
}

/// The windows below floating containers, in order.
pub open spec fn all_floating_windows(nodes: Seq<NodeView>, config: ConfigView) -> Seq<WindowView>
    decreases nodes,
{
    if nodes.len() == 0 {
        Seq::empty()
    } else {
        all_floating_windows(nodes.drop_last(), config) + floating_windows(nodes.last(), config)
    }
}

/// The floating containers of a list that belong to the scratchpad, or those that do not, in order.
pub open spec fn sorted_out(nodes: Seq<NodeView>, scratchpad: bool) -> Seq<NodeView> {
    nodes.filter(|node: NodeView| on_scratchpad(node) == scratchpad)
}

/// Whether a tiling window that is to be saved stands somewhere below a node.
pub open spec fn holds_tiling(node: NodeView, config: ConfigView) -> bool
    decreases node,
{
    if node.nodes.len() == 0 {
        shows_window(node, config)
    } else {
        any_holds_tiling(node.nodes, config)
    }
}

/// Whether a tiling window that is to be saved stands somewhere below one of some nodes.
pub open spec fn any_holds_tiling(nodes: Seq<NodeView>, config: ConfigView) -> bool
    decreases nodes,
{
    nodes.len() > 0 && (any_holds_tiling(nodes.drop_last(), config) || holds_tiling(
        nodes.last(),
        config,
    ))
}

/// Whether a window that is to be saved stands somewhere below a floating container, among its nodes
/// or its floating nodes.
pub open spec fn holds_floating(node: NodeView, config: ConfigView) -> bool
    decreases node,
{
    shows_window(node, config) || any_holds_floating(node.nodes, config) || any_holds_floating(
        node.floating_nodes,
        config,
    )
}

/// Whether a window that is to be saved stands somewhere below one of some floating containers.
pub open spec fn any_holds_floating(nodes: Seq<NodeView>, config: ConfigView) -> bool
    decreases nodes,
{
    nodes.len() > 0 && (any_holds_floating(nodes.drop_last(), config) || holds_floating(
        nodes.last(),
        config,
    ))
}

proof fn lemma_holds_tiling(node: NodeView, config: ConfigView)
    ensures
        holds_tiling(node, config) <==> tiling_windows(node, config).len() > 0,
    decreases node,
{
    if node.nodes.len() > 0 {
        lemma_any_holds_tiling(node.nodes, config);
    }
}

proof fn lemma_any_holds_tiling(nodes: Seq<NodeView>, config: ConfigView)
    ensures
        any_holds_tiling(nodes, config) <==> all_tiling_windows(nodes, config).len() > 0,
    decreases nodes,
{
    if nodes.len() > 0 {
        lemma_any_holds_tiling(nodes.drop_last(), config);
        lemma_holds_tiling(nodes.last(), config);
    }
}

proof fn lemma_holds_floating(node: NodeView, config: ConfigView)
    ensures
        holds_floating(node, config) <==> floating_windows(node, config).len() > 0,
    decreases node,
{
    lemma_any_holds_floating(node.nodes, config);
    lemma_any_holds_floating(node.floating_nodes, config);
    if shows_window(node, config) {
        assert(floating_windows(node, config).len() == 1);
    }
}

proof fn lemma_any_holds_floating(nodes: Seq<NodeView>, config: ConfigView)
    ensures
        any_holds_floating(nodes, config) <==> all_floating_windows(nodes, config).len() > 0,
    decreases nodes,
{
    if nodes.len() > 0 {
        lemma_any_holds_floating(nodes.drop_last(), config);
        lemma_holds_floating(nodes.last(), config);
    }
}

proof fn lemma_floating_of(node: NodeView, config: ConfigView)
    ensures
        capture::floating_of(node, config) == floating_windows(node, config),
    decreases node,
{
    lemma_window(node, true, config);
    lemma_all_floating_of(node.nodes, config);
    lemma_all_floating_of(node.floating_nodes, config);
}

proof fn lemma_all_floating_of(nodes: Seq<NodeView>, config: ConfigView)
    ensures
        capture::all_floating_of(nodes, config) == all_floating_windows(nodes, config),
    decreases nodes,
{
    if nodes.len() > 0 {
        lemma_all_floating_of(nodes.drop_last(), config);
        lemma_floating_of(nodes.last(), config);
    }
}

proof fn lemma_gathered(nodes: Seq<NodeView>, scratchpad: bool, config: ConfigView)
    ensures
        capture::gathered(nodes, scratchpad, config) == all_floating_windows(
            sorted_out(nodes, scratchpad),
            config,
        ),
    decreases nodes.len(),
{
    reveal(Seq::filter);
    if nodes.len() > 0 {
        lemma_gathered(nodes.drop_last(), scratchpad, config);
        lemma_floating_of(nodes.last(), config);
        let before = sorted_out(nodes.drop_last(), scratchpad);
        if on_scratchpad(nodes.last()) == scratchpad {
            assert(sorted_out(nodes, scratchpad) == before.push(nodes.last()));
            assert(before.push(nodes.last()).drop_last() =~= before);
        } else {
            assert(sorted_out(nodes, scratchpad) == before);
        }
    } else {
        assert(sorted_out(nodes, scratchpad) =~= Seq::empty());
    }
}

proof fn lemma_tile_windows(node: NodeView, config: ConfigView)
    ensures
        match capture::tile_of(node, config) {
            Some(tile) => restore::windows_of(tile) == tiling_windows(node, config)
                && tiling_windows(node, config).len() > 0,
            None => tiling_windows(node, config) == Seq::<WindowView>::empty(),
        },
    decreases node,
{
    lemma_window(node, false, config);
    if node.nodes.len() > 0 {
        let tiles = capture::tiles_of(node.nodes, config);
        lemma_tiles_windows(node.nodes, config);
        if tiles.len() == 1 {
            assert(tiles.drop_last() =~= Seq::empty());
            assert(restore::all_windows_of(tiles.drop_last()) =~= Seq::empty());
            assert(restore::all_windows_of(tiles) =~= restore::windows_of(tiles[0]));
        }
    }
}

proof fn lemma_tiles_windows(nodes: Seq<NodeView>, config: ConfigView)
    ensures
        restore::all_windows_of(capture::tiles_of(nodes, config)) == all_tiling_windows(
            nodes,
            config,
        ),
        capture::tiles_of(nodes, config).len() > 0 <==> all_tiling_windows(nodes, config).len() > 0,
    decreases nodes,
{
    if nodes.len() > 0 {
        lemma_tiles_windows(nodes.drop_last(), config);
        lemma_tile_windows(nodes.last(), config);
        let before = capture::tiles_of(nodes.drop_last(), config);
        if let Some(tile) = capture::tile_of(nodes.last(), config) {
            assert(before.push(tile).drop_last() =~= before);
        }
        assert(restore::all_windows_of(capture::tiles_of(nodes, config)) =~= all_tiling_windows(
            nodes,
            config,
        ));
    }
}

// Trees

proof fn lemma_one_tile(node: NodeView, config: ConfigView)
    ensures
        capture::tiles_of(seq![node], config) == match capture::tile_of(node, config) {
            Some(tile) => seq![tile],
            None => Seq::empty(),
        },
{
    let nodes = seq![node];
    assert(nodes.drop_last() =~= Seq::empty());
    assert(nodes.last() == node);
    assert(capture::tiles_of(nodes.drop_last(), config) =~= Seq::empty());
    assert(capture::tiles_of(nodes, config) =~= match capture::tile_of(node, config) {
        Some(tile) => seq![tile],
        None => Seq::empty(),
    });
}

/// The tiles of nodes are those of each node in order: of a node without children, the window that it
/// shows, if it is to be saved; of a container whose children come to two tiles or more, a split with
/// its layout; and of any other container, what its children come to.
pub proof fn law_tiles_of_nodes(
    a: Seq<NodeView>,
    b: Seq<NodeView>,
    node: NodeView,
    config: ConfigView,
)
    ensures
        capture::tiles_of(a + b, config) == capture::tiles_of(a, config) + capture::tiles_of(
            b,
            config,
        ),
        node.nodes.len() == 0 ==> capture::tiles_of(seq![node], config) == if shows_window(
            node,
            config,
        ) {
            seq![TileView::Window(shown(node, false))]
        } else {
            Seq::empty()
        },
        node.nodes.len() > 0 ==> {
            let children = capture::tiles_of(node.nodes, config);
            capture::tiles_of(seq![node], config) == if children.len() >= 2 {
                seq![TileView::Split { layout: saved_layout(node), children }]
            } else {
                children
            }
        },
    decreases b.len(),
{
    lemma_window(node, false, config);
    lemma_one_tile(node, config);
    if node.nodes.len() > 0 {
        let children = capture::tiles_of(node.nodes, config);
        assert(children.len() == 1 ==> seq![children[0]] =~= children);
        assert(children.len() == 0 ==> Seq::empty() =~= children);
    }
    if b.len() == 0 {
        assert(a + b =~= a);
        assert(capture::tiles_of(a + b, config) =~= capture::tiles_of(a, config)
            + capture::tiles_of(b, config));
    } else {
        assert((a + b).drop_last() =~= a + b.drop_last());
        law_tiles_of_nodes(a, b.drop_last(), node, config);
        assert(capture::tiles_of(a + b, config) =~= capture::tiles_of(a, config)
            + capture::tiles_of(b, config));
    }
}

// Workspaces

/// Whether a workspace has a window to be saved somewhere: below its tiling nodes, or below one of its
/// floating containers that is not on the scratchpad.
pub open spec fn has_window(workspace: NodeView, config: ConfigView) -> bool {
    any_holds_tiling(workspace.nodes, config) || exists|i: int|
        0 <= i < workspace.floating_nodes.len() && !on_scratchpad(
            #[trigger] workspace.floating_nodes[i],
        ) && holds_floating(workspace.floating_nodes[i], config)
}

/// What is to be saved of a workspace.
pub open spec fn saved_workspace(
    output: NodeView,
    workspace: NodeView,
    config: ConfigView,
) -> WorkspaceView {
    WorkspaceView {
        name: text_or_nothing(workspace.name),
        output: text_or_nothing(output.name),
        layout: saved_layout(workspace),
        tiles: capture::tiles_of(workspace.nodes, config),
        floating: all_floating_windows(sorted_out(workspace.floating_nodes, false), config),
    }
}

/// Whether a workspace is one that sway keeps for itself.
pub open spec fn internal(workspace: NodeView) -> bool {
    "__i3"@.is_prefix_of(text_or_nothing(workspace.name))
}

proof fn lemma_sorted_holds(nodes: Seq<NodeView>, config: ConfigView)
    ensures
        all_floating_windows(sorted_out(nodes, false), config).len() > 0 <==> (exists|i: int|
            0 <= i < nodes.len() && !on_scratchpad(#[trigger] nodes[i]) && holds_floating(
                nodes[i],
                config,
            )),
    decreases nodes.len(),
{
    reveal(Seq::filter);
    if nodes.len() > 0 {
        let rest = nodes.drop_last();
        let before = sorted_out(rest, false);
        lemma_sorted_holds(rest, config);
        lemma_holds_floating(nodes.last(), config);
        if on_scratchpad(nodes.last()) {
            assert(sorted_out(nodes, false) == before);
        } else {
            assert(sorted_out(nodes, false) == before.push(nodes.last()));
            assert(before.push(nodes.last()).drop_last() =~= before);
        }
        if exists|i: int|
            0 <= i < rest.len() && !on_scratchpad(#[trigger] rest[i]) && holds_floating(
                rest[i],
                config,
            ) {
            let i = choose|i: int|
                0 <= i < rest.len() && !on_scratchpad(#[trigger] rest[i]) && holds_floating(
                    rest[i],
                    config,
                );
            assert(nodes[i] == rest[i]);
        }
        if exists|i: int|
            0 <= i < nodes.len() && !on_scratchpad(#[trigger] nodes[i]) && holds_floating(
                nodes[i],
                config,
            ) {
            let i = choose|i: int|
                0 <= i < nodes.len() && !on_scratchpad(#[trigger] nodes[i]) && holds_floating(
                    nodes[i],
                    config,
                );
            if i < rest.len() {
                assert(rest[i] == nodes[i]);
            }
        }
        if !on_scratchpad(nodes.last()) && holds_floating(nodes.last(), config) {
            assert(!on_scratchpad(nodes[nodes.len() - 1]));
        }
    } else {
        assert(sorted_out(nodes, false) =~= Seq::empty());
    }
}

proof fn lemma_workspace(output: NodeView, workspace: NodeView, config: ConfigView)
    ensures
        capture::workspace_of(output, workspace, config) == saved_workspace(
            output,
            workspace,
            config,
        ),
        capture::worth_saving(capture::workspace_of(output, workspace, config)) <==> !internal(
            workspace,
        ) && has_window(workspace, config),
{
    lemma_gathered(workspace.floating_nodes, false, config);
    lemma_tiles_windows(workspace.nodes, config);
    lemma_any_holds_tiling(workspace.nodes, config);
    lemma_sorted_holds(workspace.floating_nodes, config);
}

/// The session of a tree of outputs.
pub open spec fn session_of(root: NodeView, outputs: Seq<NodeView>, config: ConfigView) -> SessionView {
    capture::captured(NodeView { nodes: outputs, ..root }, config)
}

proof fn lemma_workspaces_both(
    output: NodeView,
    a: Seq<NodeView>,
    b: Seq<NodeView>,
    config: ConfigView,
)
    ensures
        capture::workspaces_of(output, a + b, config) == capture::workspaces_of(output, a, config)
            + capture::workspaces_of(output, b, config),
        capture::scratchpad_of(a + b, config) == capture::scratchpad_of(a, config)
            + capture::scratchpad_of(b, config),
    decreases b.len(),
{
    if b.len() == 0 {
        assert(a + b =~= a);
    } else {
        assert((a + b).drop_last() =~= a + b.drop_last());
        lemma_workspaces_both(output, a, b.drop_last(), config);
    }
    assert(capture::workspaces_of(output, a + b, config) =~= capture::workspaces_of(
        output,
        a,
        config,
    ) + capture::workspaces_of(output, b, config));
    assert(capture::scratchpad_of(a + b, config) =~= capture::scratchpad_of(a, config)
        + capture::scratchpad_of(b, config));
}

proof fn lemma_workspaces_named(
    one: NodeView,
    other: NodeView,
    nodes: Seq<NodeView>,
    config: ConfigView,
)
    requires
        one.name == other.name,
    ensures
        capture::workspaces_of(one, nodes, config) == capture::workspaces_of(other, nodes, config),
    decreases nodes.len(),
{
    if nodes.len() > 0 {
        lemma_workspaces_named(one, other, nodes.drop_last(), config);
    }
}

proof fn lemma_outputs_both(a: Seq<NodeView>, b: Seq<NodeView>, config: ConfigView)
    ensures
        capture::all_workspaces_of(a + b, config) == capture::all_workspaces_of(a, config)
            + capture::all_workspaces_of(b, config),
        capture::all_scratchpad_of(a + b, config) == capture::all_scratchpad_of(a, config)
            + capture::all_scratchpad_of(b, config),
    decreases b.len(),
{
    if b.len() == 0 {
        assert(a + b =~= a);
    } else {
        assert((a + b).drop_last() =~= a + b.drop_last());
        lemma_outputs_both(a, b.drop_last(), config);
    }
    assert(capture::all_workspaces_of(a + b, config) =~= capture::all_workspaces_of(a, config)
        + capture::all_workspaces_of(b, config));
    assert(capture::all_scratchpad_of(a + b, config) =~= capture::all_scratchpad_of(a, config)
        + capture::all_scratchpad_of(b, config));
}

proof fn lemma_one_output(output: NodeView, config: ConfigView)
    ensures
        capture::all_workspaces_of(seq![output], config) == capture::workspaces_of(
            output,
            output.nodes,
            config,
        ),
        capture::all_scratchpad_of(seq![output], config) == capture::scratchpad_of(
            output.nodes,
            config,
        ),
{
    assert(seq![output].drop_last() =~= Seq::empty());
    assert(capture::all_workspaces_of(Seq::empty(), config) =~= Seq::empty());
    assert(capture::all_scratchpad_of(Seq::empty(), config) =~= Seq::empty());
    assert(capture::all_workspaces_of(seq![output], config) =~= capture::workspaces_of(
        output,
        output.nodes,
        config,
    ));
    assert(capture::all_scratchpad_of(seq![output], config) =~= capture::scratchpad_of(
        output.nodes,
        config,
    ));
}

/// Outputs are captured one after the other, and so are the workspaces of an output: what is captured
/// of two lists of them is what is captured of the one, followed by what is captured of the other.
pub proof fn law_captured_in_order(
    root: NodeView,
    a: Seq<NodeView>,
    b: Seq<NodeView>,
    output: NodeView,
    config: ConfigView,
)
    ensures
        ({
            let of = |outputs: Seq<NodeView>| session_of(root, outputs, config);
            let with = |nodes: Seq<NodeView>| seq![NodeView { nodes, ..output }];
            &&& of(a + b).workspaces == of(a).workspaces + of(b).workspaces
            &&& of(a + b).scratchpad == of(a).scratchpad + of(b).scratchpad
            &&& of(with(a + b)).workspaces == of(with(a)).workspaces + of(with(b)).workspaces
            &&& of(with(a + b)).scratchpad == of(with(a)).scratchpad + of(with(b)).scratchpad
        }),
{
    lemma_outputs_both(a, b, config);
    let all = NodeView { nodes: a + b, ..output };
    let first = NodeView { nodes: a, ..output };
    let second = NodeView { nodes: b, ..output };
    lemma_one_output(all, config);
    lemma_one_output(first, config);
    lemma_one_output(second, config);
    lemma_workspaces_both(all, a, b, config);
    lemma_workspaces_named(all, first, a, config);
    lemma_workspaces_named(all, second, b, config);
}

/// Of one workspace on one output, the workspace is saved if it has a window to be saved anywhere,
/// tiling or floating, and is none that sway keeps for itself; with its name, output, layout, tiles and
/// floating windows. The windows of the scratchpad that are found there are saved in any case.
pub proof fn law_one_workspace(
    root: NodeView,
    output: NodeView,
    workspace: NodeView,
    config: ConfigView,
)
    requires
        output.nodes == seq![workspace],
    ensures
        ({
            let session = session_of(root, seq![output], config);
            &&& session.workspaces == if !internal(workspace) && has_window(workspace, config) {
                seq![saved_workspace(output, workspace, config)]
            } else {
                Seq::empty()
            }
            &&& session.scratchpad == all_floating_windows(
                sorted_out(workspace.floating_nodes, true),
                config,
            )
            &&& restore::all_windows_of(saved_workspace(output, workspace, config).tiles)
                == all_tiling_windows(workspace.nodes, config)
        }),
{
    lemma_workspace(output, workspace, config);
    lemma_one_output(output, config);
    lemma_gathered(workspace.floating_nodes, true, config);
    lemma_tiles_windows(workspace.nodes, config);
    let nodes = seq![workspace];
    assert(nodes.drop_last() =~= Seq::empty());
    assert(capture::workspaces_of(output, Seq::empty(), config) =~= Seq::empty());
    assert(capture::scratchpad_of(Seq::empty(), config) =~= Seq::empty());
    assert(capture::workspaces_of(output, nodes, config) =~= if !internal(workspace) && has_window(
        workspace,
        config,
    ) {
        seq![saved_workspace(output, workspace, config)]
    } else {
        Seq::empty()
    });
    assert(capture::scratchpad_of(nodes, config) =~= all_floating_windows(
        sorted_out(workspace.floating_nodes, true),
        config,
    ));
}

proof fn lemma_found_on_output(
    output: NodeView,
    nodes: Seq<NodeView>,
    config: ConfigView,
    at: int,
)
    requires
        0 <= at < nodes.len(),
        !internal(nodes[at]),
        has_window(nodes[at], config),
    ensures
        capture::workspaces_of(output, nodes, config).contains(
            saved_workspace(output, nodes[at], config),
        ),
    decreases nodes.len(),
{
    let wanted = saved_workspace(output, nodes[at], config);
    let before = capture::workspaces_of(output, nodes.drop_last(), config);
    let all = capture::workspaces_of(output, nodes, config);
    lemma_workspace(output, nodes.last(), config);
    if at < nodes.len() - 1 {
        assert(nodes.drop_last()[at] == nodes[at]);
        lemma_found_on_output(output, nodes.drop_last(), config, at);
        let i = choose|i: int| 0 <= i < before.len() && before[i] == wanted;
        assert(all[i] == wanted);
    } else {
        assert(all[before.len() as int] == wanted);
    }
}

proof fn lemma_found(outputs: Seq<NodeView>, config: ConfigView, output: int, at: int)
    requires
        0 <= output < outputs.len(),
        0 <= at < outputs[output].nodes.len(),
        !internal(outputs[output].nodes[at]),
        has_window(outputs[output].nodes[at], config),
    ensures
        capture::all_workspaces_of(outputs, config).contains(
            saved_workspace(outputs[output], outputs[output].nodes[at], config),
        ),
    decreases outputs.len(),
{
    let wanted = saved_workspace(outputs[output], outputs[output].nodes[at], config);
    let before = capture::all_workspaces_of(outputs.drop_last(), config);
    let here = capture::workspaces_of(outputs.last(), outputs.last().nodes, config);
    let all = capture::all_workspaces_of(outputs, config);
    if output < outputs.len() - 1 {
        assert(outputs.drop_last()[output] == outputs[output]);
        lemma_found(outputs.drop_last(), config, output, at);
        let i = choose|i: int| 0 <= i < before.len() && before[i] == wanted;
        assert(all[i] == wanted);
    } else {
        lemma_found_on_output(outputs.last(), outputs.last().nodes, config, at);
        let i = choose|i: int| 0 <= i < here.len() && here[i] == wanted;
        assert(all[before.len() + i] == wanted);
    }
}

/// Every workspace with a window is saved: if any node below it, a tiling one or one in a floating
/// container outside the scratchpad, shows a window that can be started again and that no rule leaves
/// out, the session has a workspace with its name, output, layout, tiles and floating windows, unless
/// the workspace is one that sway keeps for itself.
pub proof fn law_every_workspace_with_a_window_is_saved(
    tree: NodeView,
    config: ConfigView,
    output: int,
    at: int,
)
    requires
        0 <= output < tree.nodes.len(),
        0 <= at < tree.nodes[output].nodes.len(),
        !internal(tree.nodes[output].nodes[at]),
        has_window(tree.nodes[output].nodes[at], config),
    ensures
        capture::captured(tree, config).workspaces.contains(
            saved_workspace(tree.nodes[output], tree.nodes[output].nodes[at], config),
        ),
{
    lemma_found(tree.nodes, config, output, at);
}

} // verus!

//! What holds of every session that is captured: which workspaces and windows it has, and that its
//! trees can be rebuilt.

use crate::capture;
use crate::capture::NodeView;
use crate::config;
use crate::config::ConfigView;
use crate::process;
use crate::restore;
use crate::restore_laws;
use crate::session;
use crate::session::{Layout, TileView, WindowView, WorkspaceView};
use crate::text;
use vstd::prelude::*;

verus! {

// Windows

/// Whether a window may stand in a session: it can be started again, and no rule leaves it out.
pub open spec fn may_stand(window: WindowView, floating: bool, config: ConfigView) -> bool {
    &&& window.floating == floating
    &&& window.argv.len() > 0
    &&& !config::skipped(config, window.app_id, window.title, text::joined(window.argv, " "@))
}

/// Whether each window of a list may stand in a session.
pub open spec fn all_may_stand(
    windows: Seq<WindowView>,
    floating: bool,
    config: ConfigView,
) -> bool {
    forall|i: int| 0 <= i < windows.len() ==> may_stand(#[trigger] windows[i], floating, config)
}

proof fn lemma_window(node: NodeView, floating: bool, config: ConfigView)
    ensures
        capture::window_of(node, floating, config) matches Some(window) ==> may_stand(
            window,
            floating,
            config,
        ),
{
    if let Some(known) = node.process {
        process::law_command_is_not_empty(known);
    }
}

/// The windows at the leaves below a node, in order.
pub open spec fn leaf_windows(node: NodeView, config: ConfigView) -> Seq<WindowView>
    decreases node,
{
    if node.nodes.len() == 0 {
        match capture::window_of(node, false, config) {
            Some(window) => seq![window],
            None => Seq::empty(),
        }
    } else {
        all_leaf_windows(node.nodes, config)
    }
}

/// The windows at the leaves below each node of a list, in order.
pub open spec fn all_leaf_windows(nodes: Seq<NodeView>, config: ConfigView) -> Seq<WindowView>
    decreases nodes,
{
    if nodes.len() == 0 {
        Seq::empty()
    } else {
        all_leaf_windows(nodes.drop_last(), config) + leaf_windows(nodes.last(), config)
    }
}

proof fn lemma_split_windows(layout: Layout, children: Seq<TileView>)
    ensures
        match capture::split_of(layout, children) {
            Some(tile) => restore::windows_of(tile) == restore::all_windows_of(children),
            None => restore::all_windows_of(children) == Seq::<WindowView>::empty(),
        },
{
    if children.len() == 1 {
        assert(children.drop_last() =~= Seq::empty());
        assert(restore::all_windows_of(children.drop_last()) =~= Seq::empty());
        assert(restore::all_windows_of(children) =~= restore::windows_of(children[0]));
    }
}

proof fn lemma_tile_windows(node: NodeView, config: ConfigView)
    ensures
        match capture::tile_of(node, config) {
            Some(tile) => restore::windows_of(tile) == leaf_windows(node, config),
            None => leaf_windows(node, config) == Seq::<WindowView>::empty(),
        },
    decreases node,
{
    if node.nodes.len() > 0 {
        law_no_tiling_window_is_lost(node.nodes, config);
        lemma_split_windows(
            capture::layout_of_node(node.layout),
            capture::tiles_of(node.nodes, config),
        );
    }
}

/// The tiling tree that is saved holds each window below its nodes that can be saved, in order: no
/// window is lost with a container that one of its children stands for.
pub proof fn law_no_tiling_window_is_lost(nodes: Seq<NodeView>, config: ConfigView)
    ensures
        restore::all_windows_of(capture::tiles_of(nodes, config)) == all_leaf_windows(
            nodes,
            config,
        ),
    decreases nodes,
{
    if nodes.len() > 0 {
        law_no_tiling_window_is_lost(nodes.drop_last(), config);
        lemma_tile_windows(nodes.last(), config);
        let before = capture::tiles_of(nodes.drop_last(), config);
        if let Some(tile) = capture::tile_of(nodes.last(), config) {
            assert(before.push(tile).drop_last() =~= before);
        }
        assert(restore::all_windows_of(capture::tiles_of(nodes, config)) =~= all_leaf_windows(
            nodes,
            config,
        ));
    }
}

proof fn lemma_both_may_stand(
    a: Seq<WindowView>,
    b: Seq<WindowView>,
    floating: bool,
    config: ConfigView,
)
    requires
        all_may_stand(a, floating, config),
        all_may_stand(b, floating, config),
    ensures
        all_may_stand(a + b, floating, config),
{
    assert forall|i: int| 0 <= i < (a + b).len() implies may_stand(
        #[trigger] (a + b)[i],
        floating,
        config,
    ) by {
        if i < a.len() {
            assert(may_stand(a[i], floating, config));
        } else {
            assert(may_stand(b[i - a.len()], floating, config));
        }
    }
}

proof fn lemma_leaf(node: NodeView, config: ConfigView)
    ensures
        all_may_stand(leaf_windows(node, config), false, config),
    decreases node,
{
    if node.nodes.len() > 0 {
        lemma_leaves(node.nodes, config);
    } else {
        lemma_window(node, false, config);
    }
}

proof fn lemma_leaves(nodes: Seq<NodeView>, config: ConfigView)
    ensures
        all_may_stand(all_leaf_windows(nodes, config), false, config),
    decreases nodes,
{
    if nodes.len() > 0 {
        lemma_leaves(nodes.drop_last(), config);
        lemma_leaf(nodes.last(), config);
        lemma_both_may_stand(
            all_leaf_windows(nodes.drop_last(), config),
            leaf_windows(nodes.last(), config),
            false,
            config,
        );
    }
}

proof fn lemma_floating(node: NodeView, config: ConfigView)
    ensures
        all_may_stand(capture::floating_of(node, config), true, config),
    decreases node,
{
    lemma_window(node, true, config);
    if capture::window_of(node, true, config) is None {
        lemma_all_floating(node.nodes, config);
        lemma_all_floating(node.floating_nodes, config);
        lemma_both_may_stand(
            capture::all_floating_of(node.nodes, config),
            capture::all_floating_of(node.floating_nodes, config),
            true,
            config,
        );
    }
}

proof fn lemma_all_floating(nodes: Seq<NodeView>, config: ConfigView)
    ensures
        all_may_stand(capture::all_floating_of(nodes, config), true, config),
    decreases nodes,
{
    if nodes.len() > 0 {
        lemma_all_floating(nodes.drop_last(), config);
        lemma_floating(nodes.last(), config);
        lemma_both_may_stand(
            capture::all_floating_of(nodes.drop_last(), config),
            capture::floating_of(nodes.last(), config),
            true,
            config,
        );
    }
}

proof fn lemma_gathered(nodes: Seq<NodeView>, scratchpad: bool, config: ConfigView)
    ensures
        all_may_stand(capture::gathered(nodes, scratchpad, config), true, config),
    decreases nodes.len(),
{
    if nodes.len() > 0 {
        lemma_gathered(nodes.drop_last(), scratchpad, config);
        lemma_floating(nodes.last(), config);
        lemma_both_may_stand(
            capture::gathered(nodes.drop_last(), scratchpad, config),
            capture::floating_of(nodes.last(), config),
            true,
            config,
        );
    }
}

// Trees

proof fn lemma_tile_proper(node: NodeView, config: ConfigView)
    ensures
        capture::tile_of(node, config) matches Some(tile) ==> session::proper(tile),
    decreases node,
{
    if node.nodes.len() > 0 {
        let children = capture::tiles_of(node.nodes, config);
        lemma_tiles_proper(node.nodes, config);
        if children.len() == 1 {
            assert(session::proper(children.last()));
        }
    }
}

proof fn lemma_tiles_proper(nodes: Seq<NodeView>, config: ConfigView)
    ensures
        session::all_proper(capture::tiles_of(nodes, config)),
    decreases nodes,
{
    if nodes.len() > 0 {
        lemma_tiles_proper(nodes.drop_last(), config);
        lemma_tile_proper(nodes.last(), config);
        let before = capture::tiles_of(nodes.drop_last(), config);
        if let Some(tile) = capture::tile_of(nodes.last(), config) {
            assert(before.push(tile).drop_last() =~= before);
        }
    }
}

// Workspaces

/// Whether a workspace may stand in a session.
pub open spec fn workspace_may_stand(workspace: WorkspaceView, config: ConfigView) -> bool {
    &&& capture::worth_saving(workspace)
    &&& session::all_proper(workspace.tiles)
    &&& all_may_stand(restore::all_windows_of(workspace.tiles), false, config)
    &&& all_may_stand(workspace.floating, true, config)
}

proof fn lemma_workspaces_of(
    output: NodeView,
    nodes: Seq<NodeView>,
    config: ConfigView,
    at: int,
)
    requires
        0 <= at < capture::workspaces_of(output, nodes, config).len(),
    ensures
        workspace_may_stand(capture::workspaces_of(output, nodes, config)[at], config),
    decreases nodes.len(),
{
    let before = capture::workspaces_of(output, nodes.drop_last(), config);
    if at < before.len() {
        lemma_workspaces_of(output, nodes.drop_last(), config, at);
    } else {
        lemma_tiles_proper(nodes.last().nodes, config);
        law_no_tiling_window_is_lost(nodes.last().nodes, config);
        lemma_leaves(nodes.last().nodes, config);
        lemma_gathered(nodes.last().floating_nodes, false, config);
    }
}

proof fn lemma_all_workspaces_of(outputs: Seq<NodeView>, config: ConfigView, at: int)
    requires
        0 <= at < capture::all_workspaces_of(outputs, config).len(),
    ensures
        workspace_may_stand(capture::all_workspaces_of(outputs, config)[at], config),
    decreases outputs.len(),
{
    let before = capture::all_workspaces_of(outputs.drop_last(), config);
    if at < before.len() {
        lemma_all_workspaces_of(outputs.drop_last(), config, at);
    } else {
        lemma_workspaces_of(outputs.last(), outputs.last().nodes, config, at - before.len());
    }
}

/// Each workspace that is captured has a window and is none of sway's own; each of its splits has at
/// least two children; and each of its windows can be started again and is left out by no rule, the
/// tiling ones and the floating ones being told apart.
pub proof fn law_captured_workspaces_may_stand(tree: NodeView, config: ConfigView, at: int)
    requires
        0 <= at < capture::captured(tree, config).workspaces.len(),
    ensures
        workspace_may_stand(capture::captured(tree, config).workspaces[at], config),
{
    lemma_all_workspaces_of(tree.nodes, config, at);
}

proof fn lemma_scratchpad_of(workspaces: Seq<NodeView>, config: ConfigView)
    ensures
        all_may_stand(capture::scratchpad_of(workspaces, config), true, config),
    decreases workspaces.len(),
{
    if workspaces.len() > 0 {
        lemma_scratchpad_of(workspaces.drop_last(), config);
        lemma_gathered(workspaces.last().floating_nodes, true, config);
        lemma_both_may_stand(
            capture::scratchpad_of(workspaces.drop_last(), config),
            capture::gathered(workspaces.last().floating_nodes, true, config),
            true,
            config,
        );
    }
}

proof fn lemma_all_scratchpad_of(outputs: Seq<NodeView>, config: ConfigView)
    ensures
        all_may_stand(capture::all_scratchpad_of(outputs, config), true, config),
    decreases outputs.len(),
{
    if outputs.len() > 0 {
        lemma_all_scratchpad_of(outputs.drop_last(), config);
        lemma_scratchpad_of(outputs.last().nodes, config);
        lemma_both_may_stand(
            capture::all_scratchpad_of(outputs.drop_last(), config),
            capture::scratchpad_of(outputs.last().nodes, config),
            true,
            config,
        );
    }
}

/// Each window of the scratchpad that is captured is floating, can be started again and is left out
/// by no rule.
pub proof fn law_captured_scratchpad_may_stand(tree: NodeView, config: ConfigView)
    ensures
        all_may_stand(capture::captured(tree, config).scratchpad, true, config),
{
    lemma_all_scratchpad_of(tree.nodes, config);
}

// Nothing is passed over

proof fn lemma_workspace_found(
    output: NodeView,
    nodes: Seq<NodeView>,
    config: ConfigView,
    at: int,
)
    requires
        0 <= at < nodes.len(),
        capture::worth_saving(capture::workspace_of(output, nodes[at], config)),
    ensures
        capture::workspaces_of(output, nodes, config).contains(
            capture::workspace_of(output, nodes[at], config),
        ),
    decreases nodes.len(),
{
    let wanted = capture::workspace_of(output, nodes[at], config);
    let before = capture::workspaces_of(output, nodes.drop_last(), config);
    let all = capture::workspaces_of(output, nodes, config);
    if at < nodes.len() - 1 {
        lemma_workspace_found(output, nodes.drop_last(), config, at);
        let i = choose|i: int| 0 <= i < before.len() && before[i] == wanted;
        assert(all[i] == wanted);
    } else {
        assert(all[before.len() as int] == wanted);
    }
}

proof fn lemma_output_found(outputs: Seq<NodeView>, config: ConfigView, at: int, x: WorkspaceView)
    requires
        0 <= at < outputs.len(),
        capture::workspaces_of(outputs[at], outputs[at].nodes, config).contains(x),
    ensures
        capture::all_workspaces_of(outputs, config).contains(x),
    decreases outputs.len(),
{
    let before = capture::all_workspaces_of(outputs.drop_last(), config);
    let here = capture::workspaces_of(outputs.last(), outputs.last().nodes, config);
    let all = capture::all_workspaces_of(outputs, config);
    if at < outputs.len() - 1 {
        lemma_output_found(outputs.drop_last(), config, at, x);
        let i = choose|i: int| 0 <= i < before.len() && before[i] == x;
        assert(all[i] == x);
    } else {
        let i = choose|i: int| 0 <= i < here.len() && here[i] == x;
        assert(all[before.len() + i] == x);
    }
}

/// Every workspace with at least one window is captured, but for those that sway keeps for itself.
pub proof fn law_every_workspace_with_a_window_is_captured(
    tree: NodeView,
    config: ConfigView,
    output: int,
    at: int,
)
    requires
        0 <= output < tree.nodes.len(),
        0 <= at < tree.nodes[output].nodes.len(),
    ensures
        ({
            let workspace = capture::workspace_of(
                tree.nodes[output],
                tree.nodes[output].nodes[at],
                config,
            );
            capture::worth_saving(workspace) ==> capture::captured(
                tree,
                config,
            ).workspaces.contains(workspace)
        }),
{
    let outputs = tree.nodes;
    let workspace = capture::workspace_of(outputs[output], outputs[output].nodes[at], config);
    if capture::worth_saving(workspace) {
        lemma_workspace_found(outputs[output], outputs[output].nodes, config, at);
        lemma_output_found(outputs, config, output, workspace);
    }
}

proof fn lemma_either_contains<T>(a: Seq<T>, b: Seq<T>, x: T)
    requires
        a.contains(x) || b.contains(x),
    ensures
        (a + b).contains(x),
{
    if a.contains(x) {
        let i = choose|i: int| 0 <= i < a.len() && a[i] == x;
        assert((a + b)[i] == x);
    } else {
        let i = choose|i: int| 0 <= i < b.len() && b[i] == x;
        assert((a + b)[a.len() + i] == x);
    }
}

/// Every window of a floating container is found among those of the scratchpad, if the container
/// belongs to it, and otherwise among the floating windows of its workspace.
pub proof fn law_every_floating_window_is_found(
    nodes: Seq<NodeView>,
    scratchpad: bool,
    config: ConfigView,
    at: int,
    window: WindowView,
)
    requires
        0 <= at < nodes.len(),
        capture::in_scratchpad(nodes[at]) == scratchpad,
        capture::floating_of(nodes[at], config).contains(window),
    ensures
        capture::gathered(nodes, scratchpad, config).contains(window),
    decreases nodes.len(),
{
    if at < nodes.len() - 1 {
        law_every_floating_window_is_found(nodes.drop_last(), scratchpad, config, at, window);
    }
    if capture::in_scratchpad(nodes.last()) == scratchpad {
        lemma_either_contains(
            capture::gathered(nodes.drop_last(), scratchpad, config),
            capture::floating_of(nodes.last(), config),
            window,
        );
    }
}

proof fn lemma_scratchpad_found(
    workspaces: Seq<NodeView>,
    config: ConfigView,
    at: int,
    window: WindowView,
)
    requires
        0 <= at < workspaces.len(),
        capture::gathered(workspaces[at].floating_nodes, true, config).contains(window),
    ensures
        capture::scratchpad_of(workspaces, config).contains(window),
    decreases workspaces.len(),
{
    if at < workspaces.len() - 1 {
        lemma_scratchpad_found(workspaces.drop_last(), config, at, window);
    }
    lemma_either_contains(
        capture::scratchpad_of(workspaces.drop_last(), config),
        capture::gathered(workspaces.last().floating_nodes, true, config),
        window,
    );
}

proof fn lemma_all_scratchpad_found(
    outputs: Seq<NodeView>,
    config: ConfigView,
    at: int,
    window: WindowView,
)
    requires
        0 <= at < outputs.len(),
        capture::scratchpad_of(outputs[at].nodes, config).contains(window),
    ensures
        capture::all_scratchpad_of(outputs, config).contains(window),
    decreases outputs.len(),
{
    if at < outputs.len() - 1 {
        lemma_all_scratchpad_found(outputs.drop_last(), config, at, window);
    }
    lemma_either_contains(
        capture::all_scratchpad_of(outputs.drop_last(), config),
        capture::scratchpad_of(outputs.last().nodes, config),
        window,
    );
}

/// Every window of a floating container of the scratchpad is captured as one of the scratchpad,
/// whatever workspace the container is found on.
pub proof fn law_every_scratchpad_window_is_captured(
    tree: NodeView,
    config: ConfigView,
    output: int,
    workspace: int,
    at: int,
    window: WindowView,
)
    requires
        0 <= output < tree.nodes.len(),
        0 <= workspace < tree.nodes[output].nodes.len(),
        0 <= at < tree.nodes[output].nodes[workspace].floating_nodes.len(),
        ({
            let node = tree.nodes[output].nodes[workspace].floating_nodes[at];
            capture::in_scratchpad(node) && capture::floating_of(node, config).contains(window)
        }),
    ensures
        capture::captured(tree, config).scratchpad.contains(window),
{
    let workspaces = tree.nodes[output].nodes;
    law_every_floating_window_is_found(workspaces[workspace].floating_nodes, true, config, at, window);
    lemma_scratchpad_found(workspaces, config, workspace, window);
    lemma_all_scratchpad_found(tree.nodes, config, output, window);
}

/// Where every window appears, restoring a captured workspace rebuilds the tree that was captured.
pub proof fn law_captured_tree_is_rebuilt(
    tree: NodeView,
    config: ConfigView,
    at: int,
    ids: Seq<Option<i64>>,
)
    requires
        0 <= at < capture::captured(tree, config).workspaces.len(),
        restore::all_windows_of(capture::captured(tree, config).workspaces[at].tiles).len()
            <= ids.len(),
        forall|i: int| 0 <= i < ids.len() ==> (#[trigger] ids[i]) is Some,
    ensures
        ({
            let tiles = capture::captured(tree, config).workspaces[at].tiles;
            restore_laws::same_trees(restore::place_tiles(tiles, ids).0, tiles)
        }),
{
    law_captured_workspaces_may_stand(tree, config, at);
    restore_laws::law_tree_is_rebuilt(capture::captured(tree, config).workspaces[at].tiles, ids);
}

} // verus!

//! Capturing a session: what of sway's tree is saved.

use crate::config;
use crate::config::{Config, ConfigView};
use crate::process;
use crate::process::{Process, ProcessView};
use crate::session;
use crate::session::{
    Layout, Rect, Session, SessionView, Tile, TileView, Window, WindowView, Workspace,
    WorkspaceView,
};
use crate::text;
use vstd::prelude::*;

verus! {

/// The layout of a node of sway's tree
#[derive(Debug, Clone, Copy, PartialEq, Eq)]
pub enum NodeLayout {
    SplitH,
    SplitV,
    Stacked,
    Tabbed,
    /// Any other layout
    Other,
}

/// How a node of sway's tree belongs to the scratchpad
#[derive(Debug, Clone, Copy, PartialEq, Eq)]
pub enum ScratchpadState {
    Outside,
    Fresh,
    Changed,
}

/// A node of sway's tree, as far as it matters to a session
#[derive(Debug)]
pub struct Node {
    pub name: Option<String>,
    pub layout: NodeLayout,
    pub rect: Rect,
    pub focused: bool,
    pub fullscreen_mode: Option<u8>,
    pub scratchpad_state: Option<ScratchpadState>,
    pub app_id: Option<String>,
    /// The class among the X11 properties of the window
    pub class: Option<String>,
    /// The process that shows the window
    pub process: Option<Process>,
    pub nodes: Vec<Node>,
    pub floating_nodes: Vec<Node>,
}

/// What a [`Node`] holds.
pub struct NodeView {
    pub name: Option<Seq<char>>,
    pub layout: NodeLayout,
    pub rect: Rect,
    pub focused: bool,
    pub fullscreen_mode: Option<u8>,
    pub scratchpad_state: Option<ScratchpadState>,
    pub app_id: Option<Seq<char>>,
    pub class: Option<Seq<char>>,
    pub process: Option<ProcessView>,
    pub nodes: Seq<NodeView>,
    pub floating_nodes: Seq<NodeView>,
}

/// What `node` holds.
pub open spec fn node_view(node: Node) -> NodeView
    decreases node,
{
    NodeView {
        name: text::option_view(node.name),
        layout: node.layout,
        rect: node.rect,
        focused: node.focused,
        fullscreen_mode: node.fullscreen_mode,
        scratchpad_state: node.scratchpad_state,
        app_id: text::option_view(node.app_id),
        class: text::option_view(node.class),
        process: match node.process {
            Some(process) => Some(process@),
            None => None,
        },
        nodes: nodes_view(node.nodes@),
        floating_nodes: nodes_view(node.floating_nodes@),
    }
}

/// What each node of `nodes` holds.
pub open spec fn nodes_view(nodes: Seq<Node>) -> Seq<NodeView>
    decreases nodes,
{
    if nodes.len() == 0 {
        Seq::empty()
    } else {
        nodes_view(nodes.drop_last()).push(node_view(nodes.last()))
    }
}

impl View for Node {
    type V = NodeView;

    open spec fn view(&self) -> NodeView {
        node_view(*self)
    }
}

/// The view of a list of nodes has one entry for each of them, in the same order.
pub proof fn lemma_nodes_view(nodes: Seq<Node>)
    ensures
        nodes_view(nodes).len() == nodes.len(),
        forall|i: int|
            0 <= i < nodes.len() ==> #[trigger] nodes_view(nodes)[i] == node_view(nodes[i]),
    decreases nodes.len(),
{
    if nodes.len() > 0 {
        lemma_nodes_view(nodes.drop_last());
    }
}

// Single nodes

/// The layout that is saved for a node.
pub open spec fn layout_of_node(layout: NodeLayout) -> Layout {
    match layout {
        NodeLayout::SplitV => Layout::SplitV,
        NodeLayout::Stacked => Layout::Stacked,
        NodeLayout::Tabbed => Layout::Tabbed,
        NodeLayout::SplitH | NodeLayout::Other => Layout::SplitH,
    }
}

impl Layout {
    /// The layout that is saved for a node with `layout`
    pub fn from_node(layout: NodeLayout) -> (saved: Self)
        ensures
            saved == layout_of_node(layout),
    {
        match layout {
            NodeLayout::SplitV => Layout::SplitV,
            NodeLayout::Stacked => Layout::Stacked,
            NodeLayout::Tabbed => Layout::Tabbed,
            NodeLayout::SplitH | NodeLayout::Other => Layout::SplitH,
        }
    }
}

/// Whether a node belongs to the scratchpad.
pub open spec fn in_scratchpad(node: NodeView) -> bool {
    node.scratchpad_state == Some(ScratchpadState::Fresh) || node.scratchpad_state == Some(
        ScratchpadState::Changed,
    )
}

/// Whether `node` belongs to the scratchpad
pub fn is_scratchpad(node: &Node) -> (b: bool)
    ensures
        b == in_scratchpad(node@),
{
    match node.scratchpad_state {
        None | Some(ScratchpadState::Outside) => false,
        Some(ScratchpadState::Fresh) | Some(ScratchpadState::Changed) => true,
    }
}

/// A text that may be missing, or else the empty one.
pub open spec fn or_empty(s: Option<Seq<char>>) -> Seq<char> {
    match s {
        Some(s) => s,
        None => Seq::empty(),
    }
}

fn text_or_empty(s: &Option<String>) -> (text: String)
    ensures
        text@ == or_empty(text::option_view(*s)),
{
    match s {
        Some(s) => s.clone(),
        None => {
            let text = String::new();
            assert(text@ =~= Seq::empty());
            text
        },
    }
}

/// The application that a window belongs to: its id, or else the class of the window.
pub open spec fn application_of(node: NodeView) -> Seq<char> {
    match node.app_id {
        Some(app_id) => app_id,
        None => or_empty(node.class),
    }
}

/// The window that a node shows, given the command that starts its program again, unless it is to
/// be left out.
pub open spec fn window_from(
    node: NodeView,
    argv: Seq<Seq<char>>,
    left_out: bool,
    floating: bool,
) -> Option<WindowView> {
    if left_out {
        None
    } else {
        Some(
            WindowView {
                app_id: application_of(node),
                title: or_empty(node.name),
                argv,
                floating,
                fullscreen: node.fullscreen_mode == Some(1u8) || node.fullscreen_mode == Some(2u8),
                focused: node.focused,
                rect: node.rect,
            },
        )
    }
}

/// The window that a node shows, if it shows one whose program can be started again and no rule
/// leaves it out.
pub open spec fn window_of(node: NodeView, floating: bool, config: ConfigView) -> Option<
    WindowView,
> {
    let argv = match node.process {
        Some(process) => process::command_of(process),
        None => None,
    };
    if node.nodes.len() > 0 || node.floating_nodes.len() > 0 {
        None
    } else {
        match argv {
            Some(argv) => window_from(
                node,
                argv,
                config::skipped(
                    config,
                    application_of(node),
                    or_empty(node.name),
                    text::joined(argv, " "@),
                ),
                floating,
            ),
            None => None,
        }
    }
}

/// The view of what may be a window.
pub open spec fn option_window_view(window: Option<Window>) -> Option<WindowView> {
    match window {
        Some(window) => Some(window@),
        None => None,
    }
}

fn application(node: &Node) -> (app_id: String)
    ensures
        app_id@ == application_of(node@),
{
    match &node.app_id {
        Some(app_id) => app_id.clone(),
        None => text_or_empty(&node.class),
    }
}

/// The window that `node` shows, where `argv` starts its program again, unless it is to be left out
pub fn window(node: &Node, argv: Vec<String>, left_out: bool, floating: bool) -> (window: Option<
    Window,
>)
    ensures
        option_window_view(window) == window_from(
            node@,
            text::strings_view(argv@),
            left_out,
            floating,
        ),
{
    if left_out {
        return None;
    }
    let fullscreen = match node.fullscreen_mode {
        Some(mode) => mode == 1 || mode == 2,
        None => false,
    };
    Some(
        Window {
            app_id: application(node),
            title: text_or_empty(&node.name),
            argv,
            floating,
            fullscreen,
            focused: node.focused,
            rect: node.rect,
        },
    )
}

/// The window that `node` shows, if it is to be saved
pub fn view(node: &Node, floating: bool, config: &Config) -> (window: Option<Window>)
    ensures
        option_window_view(window) == window_of(node@, floating, config@),
{
    proof {
        lemma_nodes_view(node.nodes@);
        lemma_nodes_view(node.floating_nodes@);
    }
    if !node.nodes.is_empty() || !node.floating_nodes.is_empty() {
        return None;
    }
    let argv = match &node.process {
        Some(process) => process::command(process),
        None => None,
    };
    match argv {
        Some(argv) => {
            let app_id = application(node);
            let title = text_or_empty(&node.name);
            let command = text::join(&argv, " ");
            let left_out = config.skips(app_id.as_str(), title.as_str(), command.as_str());
            self::window(node, argv, left_out, floating)
        },
        None => None,
    }
}

// Trees

/// What a container comes to whose children are `children`: the only child stands for it, and
/// without children there is none.
pub open spec fn split_of(layout: Layout, children: Seq<TileView>) -> Option<TileView> {
    if children.len() == 0 {
        None
    } else if children.len() == 1 {
        Some(children[0])
    } else {
        Some(TileView::Split { layout, children })
    }
}

/// The tiling tree below a node, without the windows that are not saved.
pub open spec fn tile_of(node: NodeView, config: ConfigView) -> Option<TileView>
    decreases node,
{
    if node.nodes.len() == 0 {
        match window_of(node, false, config) {
            Some(window) => Some(TileView::Window(window)),
            None => None,
        }
    } else {
        split_of(layout_of_node(node.layout), tiles_of(node.nodes, config))
    }
}

/// The tiling tree below each node of a list.
pub open spec fn tiles_of(nodes: Seq<NodeView>, config: ConfigView) -> Seq<TileView>
    decreases nodes,
{
    if nodes.len() == 0 {
        Seq::empty()
    } else {
        match tile_of(nodes.last(), config) {
            Some(tile) => tiles_of(nodes.drop_last(), config).push(tile),
            None => tiles_of(nodes.drop_last(), config),
        }
    }
}

/// The view of what may be a tile.
pub open spec fn option_tile_view(tile: Option<Tile>) -> Option<TileView> {
    match tile {
        Some(tile) => Some(tile@),
        None => None,
    }
}

/// The tiling tree below `node`, without the windows that are not saved.
///
/// A container left with a single child is replaced by that child. Sway does not split a lone
/// container either, so such a container could not be restored anyway.
pub fn tile(node: &Node, config: &Config) -> (tile: Option<Tile>)
    ensures
        option_tile_view(tile) == tile_of(node@, config@),
    decreases node,
{
    proof {
        lemma_nodes_view(node.nodes@);
    }
    if node.nodes.is_empty() {
        return match view(node, false, config) {
            Some(window) => Some(Tile::Window(window)),
            None => None,
        };
    }
    let mut children = tiles(&node.nodes, config);
    proof {
        session::lemma_tiles_view(children@);
    }
    if children.len() < 2 {
        children.pop()
    } else {
        Some(Tile::Split { layout: Layout::from_node(node.layout), children })
    }
}

fn tiles(nodes: &Vec<Node>, config: &Config) -> (tiles: Vec<Tile>)
    ensures
        session::tiles_view(tiles@) == tiles_of(nodes_view(nodes@), config@),
    decreases nodes,
{
    let ghost views = nodes_view(nodes@);
    proof {
        lemma_nodes_view(nodes@);
    }
    let mut tiles: Vec<Tile> = Vec::new();
    for i in 0..nodes.len()
        invariant
            views.len() == nodes@.len(),
            forall|j: int| 0 <= j < nodes@.len() ==> #[trigger] views[j] == node_view(nodes@[j]),
            session::tiles_view(tiles@) == tiles_of(views.take(i as int), config@),
    {
        let ghost before = tiles@;
        let child = tile(&nodes[i], config);
        proof {
            assert(views.take(i + 1).drop_last() =~= views.take(i as int));
            assert(views.take(i + 1).last() == node_view(nodes@[i as int]));
        }
        if let Some(child) = child {
            tiles.push(child);
            assert(tiles@.drop_last() =~= before);
        }
    }
    assert(views.take(nodes.len() as int) =~= views);
    tiles
}

/// The windows of a floating container.
pub open spec fn floating_of(node: NodeView, config: ConfigView) -> Seq<WindowView>
    decreases node,
{
    match window_of(node, true, config) {
        Some(window) => seq![window],
        None => all_floating_of(node.nodes, config) + all_floating_of(node.floating_nodes, config),
    }
}

/// The windows of each floating container of a list.
pub open spec fn all_floating_of(nodes: Seq<NodeView>, config: ConfigView) -> Seq<WindowView>
    decreases nodes,
{
    if nodes.len() == 0 {
        Seq::empty()
    } else {
        all_floating_of(nodes.drop_last(), config) + floating_of(nodes.last(), config)
    }
}

/// Appends every window of the floating container `node` to `into`
pub fn collect_floating(node: &Node, into: &mut Vec<Window>, config: &Config)
    ensures
        session::windows_view(final(into)@) == session::windows_view(old(into)@) + floating_of(
            node@,
            config@,
        ),
    decreases node,
{
    let ghost before = session::windows_view(into@);
    if let Some(window) = view(node, true, config) {
        into.push(window);
        assert(session::windows_view(into@) =~= before + seq![window@]);
        return;
    }
    collect_all_floating(&node.nodes, into, config);
    collect_all_floating(&node.floating_nodes, into, config);
    assert(session::windows_view(into@) =~= before + floating_of(node@, config@));
}

fn collect_all_floating(nodes: &Vec<Node>, into: &mut Vec<Window>, config: &Config)
    ensures
        session::windows_view(final(into)@) == session::windows_view(old(into)@) + all_floating_of(
            nodes_view(nodes@),
            config@,
        ),
    decreases nodes,
{
    let ghost before = session::windows_view(into@);
    let ghost views = nodes_view(nodes@);
    proof {
        lemma_nodes_view(nodes@);
        assert(session::windows_view(into@) =~= before + all_floating_of(views.take(0), config@));
    }
    for i in 0..nodes.len()
        invariant
            views.len() == nodes@.len(),
            forall|j: int| 0 <= j < nodes@.len() ==> #[trigger] views[j] == node_view(nodes@[j]),
            session::windows_view(into@) == before + all_floating_of(views.take(i as int), config@),
    {
        collect_floating(&nodes[i], into, config);
        proof {
            assert(views.take(i + 1).drop_last() =~= views.take(i as int));
            assert(views.take(i + 1).last() == node_view(nodes@[i as int]));
            assert(session::windows_view(into@) =~= before + all_floating_of(
                views.take(i + 1),
                config@,
            ));
        }
    }
    assert(views.take(nodes.len() as int) =~= views);
}

// The whole tree

/// The windows of those floating containers of a list that belong to the scratchpad, or of those
/// that do not.
pub open spec fn gathered(
    nodes: Seq<NodeView>,
    scratchpad: bool,
    config: ConfigView,
) -> Seq<WindowView>
    decreases nodes.len(),
{
    if nodes.len() == 0 {
        Seq::empty()
    } else if in_scratchpad(nodes.last()) == scratchpad {
        gathered(nodes.drop_last(), scratchpad, config) + floating_of(nodes.last(), config)
    } else {
        gathered(nodes.drop_last(), scratchpad, config)
    }
}

/// What there is to save of a workspace on an output.
pub open spec fn workspace_of(
    output: NodeView,
    workspace: NodeView,
    config: ConfigView,
) -> WorkspaceView {
    WorkspaceView {
        name: or_empty(workspace.name),
        output: or_empty(output.name),
        layout: layout_of_node(workspace.layout),
        tiles: tiles_of(workspace.nodes, config),
        floating: gathered(workspace.floating_nodes, false, config),
    }
}

/// Whether a workspace is worth saving: it has a window, and is none that sway keeps for itself.
pub open spec fn worth_saving(workspace: WorkspaceView) -> bool {
    !"__i3"@.is_prefix_of(workspace.name) && (workspace.tiles.len() > 0 || workspace.floating.len()
        > 0)
}

/// The workspaces among `nodes`, on an output, that are saved.
pub open spec fn workspaces_of(
    output: NodeView,
    nodes: Seq<NodeView>,
    config: ConfigView,
) -> Seq<WorkspaceView>
    decreases nodes.len(),
{
    if nodes.len() == 0 {
        Seq::empty()
    } else {
        let workspace = workspace_of(output, nodes.last(), config);
        if worth_saving(workspace) {
            workspaces_of(output, nodes.drop_last(), config).push(workspace)
        } else {
            workspaces_of(output, nodes.drop_last(), config)
        }
    }
}

/// The workspaces of each output of a list that are saved.
pub open spec fn all_workspaces_of(outputs: Seq<NodeView>, config: ConfigView) -> Seq<WorkspaceView>
    decreases outputs.len(),
{
    if outputs.len() == 0 {
        Seq::empty()
    } else {
        all_workspaces_of(outputs.drop_last(), config) + workspaces_of(
            outputs.last(),
            outputs.last().nodes,
            config,
        )
    }
}

/// The windows of the scratchpad, found on each workspace of a list.
pub open spec fn scratchpad_of(workspaces: Seq<NodeView>, config: ConfigView) -> Seq<WindowView>
    decreases workspaces.len(),
{
    if workspaces.len() == 0 {
        Seq::empty()
    } else {
        scratchpad_of(workspaces.drop_last(), config) + gathered(
            workspaces.last().floating_nodes,
            true,
            config,
        )
    }
}

/// The windows of the scratchpad, found on each output of a list.
pub open spec fn all_scratchpad_of(outputs: Seq<NodeView>, config: ConfigView) -> Seq<WindowView>
    decreases outputs.len(),
{
    if outputs.len() == 0 {
        Seq::empty()
    } else {
        all_scratchpad_of(outputs.drop_last(), config) + scratchpad_of(outputs.last().nodes, config)
    }
}

/// The session that a tree shows: every workspace with at least one window, and the scratchpad.
pub open spec fn captured(tree: NodeView, config: ConfigView) -> SessionView {
    SessionView {
        workspaces: all_workspaces_of(tree.nodes, config),
        scratchpad: all_scratchpad_of(tree.nodes, config),
    }
}

/// Sorts the windows of floating containers into those of the scratchpad and the others.
fn sort_floating(nodes: &Vec<Node>, scratchpad: &mut Vec<Window>, config: &Config) -> (floating:
    Vec<Window>)
    ensures
        session::windows_view(floating@) == gathered(nodes_view(nodes@), false, config@),
        session::windows_view(final(scratchpad)@) == session::windows_view(old(scratchpad)@)
            + gathered(nodes_view(nodes@), true, config@),
{
    let ghost before = session::windows_view(scratchpad@);
    let ghost views = nodes_view(nodes@);
    let mut floating: Vec<Window> = Vec::new();
    proof {
        lemma_nodes_view(nodes@);
        assert(session::windows_view(scratchpad@) =~= before + gathered(
            views.take(0),
            true,
            config@,
        ));
        assert(session::windows_view(floating@) =~= gathered(views.take(0), false, config@));
    }
    for i in 0..nodes.len()
        invariant
            views.len() == nodes@.len(),
            forall|j: int| 0 <= j < nodes@.len() ==> #[trigger] views[j] == node_view(nodes@[j]),
            session::windows_view(floating@) == gathered(views.take(i as int), false, config@),
            session::windows_view(scratchpad@) == before + gathered(
                views.take(i as int),
                true,
                config@,
            ),
    {
        proof {
            assert(views.take(i + 1).drop_last() =~= views.take(i as int));
            assert(views.take(i + 1).last() == node_view(nodes@[i as int]));
        }
        if is_scratchpad(&nodes[i]) {
            collect_floating(&nodes[i], scratchpad, config);
        } else {
            collect_floating(&nodes[i], &mut floating, config);
        }
        assert(session::windows_view(scratchpad@) =~= before + gathered(
            views.take(i + 1),
            true,
            config@,
        ));
    }
    assert(views.take(nodes.len() as int) =~= views);
    floating
}

fn capture_output(
    output: &Node,
    workspaces: &mut Vec<Workspace>,
    scratchpad: &mut Vec<Window>,
    config: &Config,
)
    ensures
        session::workspaces_view(final(workspaces)@) == session::workspaces_view(old(workspaces)@)
            + workspaces_of(output@, output@.nodes, config@),
        session::windows_view(final(scratchpad)@) == session::windows_view(old(scratchpad)@)
            + scratchpad_of(output@.nodes, config@),
{
    let ghost before = session::workspaces_view(workspaces@);
    let ghost windows = session::windows_view(scratchpad@);
    let ghost views = nodes_view(output.nodes@);
    proof {
        lemma_nodes_view(output.nodes@);
        assert(before =~= before + workspaces_of(output@, views.take(0), config@));
        assert(windows =~= windows + scratchpad_of(views.take(0), config@));
    }
    for i in 0..output.nodes.len()
        invariant
            views.len() == output.nodes@.len(),
            forall|j: int|
                0 <= j < output.nodes@.len() ==> #[trigger] views[j] == node_view(output.nodes@[j]),
            session::workspaces_view(workspaces@) == before + workspaces_of(
                output@,
                views.take(i as int),
                config@,
            ),
            session::windows_view(scratchpad@) == windows + scratchpad_of(
                views.take(i as int),
                config@,
            ),
    {
        let ghost so_far = session::workspaces_view(workspaces@);
        let node = &output.nodes[i];
        let tiles = tiles(&node.nodes, config);
        let floating = sort_floating(&node.floating_nodes, scratchpad, config);
        let name = text_or_empty(&node.name);
        let ghost workspace = workspace_of(output@, node@, config@);
        proof {
            session::lemma_tiles_view(tiles@);
            assert(views.take(i + 1).drop_last() =~= views.take(i as int));
            assert(views.take(i + 1).last() == node@);
            assert(floating@.len() == workspace.floating.len());
            assert(session::windows_view(scratchpad@) =~= windows + scratchpad_of(
                views.take(i + 1),
                config@,
            ));
        }
        if text::strip_prefix(name.as_str(), "__i3").is_none() && !(tiles.is_empty()
            && floating.is_empty()) {
            let saved = Workspace {
                name,
                output: text_or_empty(&output.name),
                layout: Layout::from_node(node.layout),
                tiles,
                floating,
            };
            workspaces.push(saved);
            proof {
                assert(saved@ == workspace);
                assert(session::workspaces_view(workspaces@) =~= so_far.push(saved@));
            }
        }
        assert(session::workspaces_view(workspaces@) =~= before + workspaces_of(
            output@,
            views.take(i + 1),
            config@,
        ));
    }
    assert(views.take(output.nodes.len() as int) =~= views);
}

/// Captures every workspace with at least one window, as well as any scratchpads, from sway's tree
pub fn capture(tree: &Node, config: &Config) -> (session: Session)
    ensures
        session@ == captured(tree@, config@),
{
    let mut workspaces: Vec<Workspace> = Vec::new();
    let mut scratchpad: Vec<Window> = Vec::new();
    let ghost views = nodes_view(tree.nodes@);
    proof {
        lemma_nodes_view(tree.nodes@);
        assert(session::workspaces_view(workspaces@) =~= all_workspaces_of(views.take(0), config@));
        assert(session::windows_view(scratchpad@) =~= all_scratchpad_of(views.take(0), config@));
    }
    for i in 0..tree.nodes.len()
        invariant
            views.len() == tree.nodes@.len(),
            forall|j: int|
                0 <= j < tree.nodes@.len() ==> #[trigger] views[j] == node_view(tree.nodes@[j]),
            session::workspaces_view(workspaces@) == all_workspaces_of(
                views.take(i as int),
                config@,
            ),
            session::windows_view(scratchpad@) == all_scratchpad_of(views.take(i as int), config@),
    {
        capture_output(&tree.nodes[i], &mut workspaces, &mut scratchpad, config);
        proof {
            assert(views.take(i + 1).drop_last() =~= views.take(i as int));
            assert(views.take(i + 1).last() == node_view(tree.nodes@[i as int]));
        }
    }
    assert(views.take(tree.nodes.len() as int) =~= views);
    Session { workspaces, scratchpad }
}

} // verus!

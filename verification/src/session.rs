//! A sway session: its workspaces, the tree of tiles on each of them, and the scratchpad.

pub use crate::capture::capture;
use crate::path;
use crate::text;
use vstd::prelude::*;

verus! {

#[derive(Debug, PartialEq, Eq)]
pub struct Session {
    pub workspaces: Vec<Workspace>,
    pub scratchpad: Vec<Window>,
}

#[derive(Debug, PartialEq, Eq)]
pub struct Workspace {
    pub name: String,
    pub output: String,
    pub layout: Layout,
    /// The tiling windows, in the order sway lays them out
    pub tiles: Vec<Tile>,
    pub floating: Vec<Window>,
}

/// A node of a workspace's tiling tree
#[derive(Debug, PartialEq, Eq)]
pub enum Tile {
    Window(Window),
    /// A container holding at least two tiles
    Split { layout: Layout, children: Vec<Tile> },
}

#[derive(Debug, PartialEq, Eq)]
pub struct Window {
    pub app_id: String,
    pub title: String,
    /// The command line the process was started with, read from /proc
    pub argv: Vec<String>,
    pub floating: bool,
    pub fullscreen: bool,
    pub focused: bool,
    /// Position and size of floating window
    pub rect: Rect,
}

#[derive(Debug, Clone, Copy, PartialEq, Eq)]
pub struct Rect {
    pub x: i32,
    pub y: i32,
    pub width: i32,
    pub height: i32,
}

#[derive(Debug, Clone, Copy, PartialEq, Eq)]
pub enum Layout {
    SplitH,
    SplitV,
    Stacked,
    Tabbed,
}

/// The byte that stands for a layout.
pub open spec fn layout_byte(layout: Layout) -> u8 {
    match layout {
        Layout::SplitH => 0,
        Layout::SplitV => 1,
        Layout::Stacked => 2,
        Layout::Tabbed => 3,
    }
}

/// The layout that `value` stands for.
pub open spec fn layout_of(value: u8) -> Option<Layout> {
    if value == 0 {
        Some(Layout::SplitH)
    } else if value == 1 {
        Some(Layout::SplitV)
    } else if value == 2 {
        Some(Layout::Stacked)
    } else if value == 3 {
        Some(Layout::Tabbed)
    } else {
        None
    }
}

/// The name of sway's command that makes a container with the orientation of a layout.
pub open spec fn split_name(layout: Layout) -> Seq<char> {
    match layout {
        Layout::SplitH | Layout::Tabbed => "splith"@,
        Layout::SplitV | Layout::Stacked => "splitv"@,
    }
}

/// The name that sway's `layout` command uses for a layout.
pub open spec fn layout_name(layout: Layout) -> Seq<char> {
    match layout {
        Layout::SplitH => "splith"@,
        Layout::SplitV => "splitv"@,
        Layout::Stacked => "stacking"@,
        Layout::Tabbed => "tabbed"@,
    }
}

impl Layout {
    /// The byte that stands for this layout in a session file
    pub fn to_u8(self) -> (value: u8)
        ensures
            value == layout_byte(self),
    {
        match self {
            Layout::SplitH => 0,
            Layout::SplitV => 1,
            Layout::Stacked => 2,
            Layout::Tabbed => 3,
        }
    }

    pub fn from_u8(value: u8) -> (layout: Option<Self>)
        ensures
            layout == layout_of(value),
    {
        match value {
            0 => Some(Layout::SplitH),
            1 => Some(Layout::SplitV),
            2 => Some(Layout::Stacked),
            3 => Some(Layout::Tabbed),
            _ => None,
        }
    }

    /// The `split` command that makes a container with the orientation of this layout
    pub fn split_command(self) -> (name: &'static str)
        ensures
            name@ == split_name(self),
    {
        match self {
            Layout::SplitH | Layout::Tabbed => "splith",
            Layout::SplitV | Layout::Stacked => "splitv",
        }
    }

    /// The name sway's `layout` command uses
    pub fn as_command(self) -> (name: &'static str)
        ensures
            name@ == layout_name(self),
    {
        match self {
            Layout::SplitH => "splith",
            Layout::SplitV => "splitv",
            Layout::Stacked => "stacking",
            Layout::Tabbed => "tabbed",
        }
    }
}

/// What a [`Window`] holds, with its strings as sequences of characters.
#[verifier::ext_equal]
pub struct WindowView {
    pub app_id: Seq<char>,
    pub title: Seq<char>,
    pub argv: Seq<Seq<char>>,
    pub floating: bool,
    pub fullscreen: bool,
    pub focused: bool,
    pub rect: Rect,
}

/// What a [`Tile`] holds.
pub enum TileView {
    Window(WindowView),
    Split { layout: Layout, children: Seq<TileView> },
}

/// What a [`Workspace`] holds.
#[verifier::ext_equal]
pub struct WorkspaceView {
    pub name: Seq<char>,
    pub output: Seq<char>,
    pub layout: Layout,
    pub tiles: Seq<TileView>,
    pub floating: Seq<WindowView>,
}

/// What a [`Session`] holds.
#[verifier::ext_equal]
pub struct SessionView {
    pub workspaces: Seq<WorkspaceView>,
    pub scratchpad: Seq<WindowView>,
}

impl View for Window {
    type V = WindowView;

    open spec fn view(&self) -> WindowView {
        WindowView {
            app_id: self.app_id@,
            title: self.title@,
            argv: text::strings_view(self.argv@),
            floating: self.floating,
            fullscreen: self.fullscreen,
            focused: self.focused,
            rect: self.rect,
        }
    }
}

/// What each window of `windows` holds.
pub open spec fn windows_view(windows: Seq<Window>) -> Seq<WindowView> {
    windows.map_values(|w: Window| w@)
}

/// What `tile` holds.
pub open spec fn tile_view(tile: Tile) -> TileView
    decreases tile,
{
    match tile {
        Tile::Window(window) => TileView::Window(window@),
        Tile::Split { layout, children } => TileView::Split {
            layout,
            children: tiles_view(children@),
        },
    }
}

/// What each tile of `tiles` holds.
pub open spec fn tiles_view(tiles: Seq<Tile>) -> Seq<TileView>
    decreases tiles,
{
    if tiles.len() == 0 {
        Seq::empty()
    } else {
        tiles_view(tiles.drop_last()).push(tile_view(tiles.last()))
    }
}

impl View for Tile {
    type V = TileView;

    open spec fn view(&self) -> TileView {
        tile_view(*self)
    }
}

impl View for Workspace {
    type V = WorkspaceView;

    open spec fn view(&self) -> WorkspaceView {
        WorkspaceView {
            name: self.name@,
            output: self.output@,
            layout: self.layout,
            tiles: tiles_view(self.tiles@),
            floating: windows_view(self.floating@),
        }
    }
}

/// What each workspace of `workspaces` holds.
pub open spec fn workspaces_view(workspaces: Seq<Workspace>) -> Seq<WorkspaceView> {
    workspaces.map_values(|w: Workspace| w@)
}

impl View for Session {
    type V = SessionView;

    open spec fn view(&self) -> SessionView {
        SessionView {
            workspaces: workspaces_view(self.workspaces@),
            scratchpad: windows_view(self.scratchpad@),
        }
    }
}

/// The view of a list of tiles has one entry for each of them, in the same order.
pub proof fn lemma_tiles_view(tiles: Seq<Tile>)
    ensures
        tiles_view(tiles).len() == tiles.len(),
        forall|i: int|
            0 <= i < tiles.len() ==> #[trigger] tiles_view(tiles)[i] == tile_view(tiles[i]),
    decreases tiles.len(),
{
    if tiles.len() > 0 {
        lemma_tiles_view(tiles.drop_last());
    }
}

/// Whether each split within a tile has at least two children.
pub open spec fn proper(tile: TileView) -> bool
    decreases tile,
{
    match tile {
        TileView::Window(_) => true,
        TileView::Split { layout: _, children } => children.len() >= 2 && all_proper(children),
    }
}

/// Whether each split within each of a list of tiles has at least two children.
pub open spec fn all_proper(tiles: Seq<TileView>) -> bool
    decreases tiles,
{
    tiles.len() > 0 ==> all_proper(tiles.drop_last()) && proper(tiles.last())
}

impl Clone for Window {
    fn clone(&self) -> (copy: Self)
        ensures
            copy@ == self@,
    {
        let argv = self.argv.clone();
        assert(text::strings_view(argv@) =~= text::strings_view(self.argv@));
        Window {
            app_id: self.app_id.clone(),
            title: self.title.clone(),
            argv,
            floating: self.floating,
            fullscreen: self.fullscreen,
            focused: self.focused,
            rect: self.rect,
        }
    }
}

fn clone_windows(windows: &Vec<Window>) -> (copy: Vec<Window>)
    ensures
        windows_view(copy@) == windows_view(windows@),
{
    let mut copy: Vec<Window> = Vec::new();
    for i in 0..windows.len()
        invariant
            copy@.len() == i,
            forall|j: int| 0 <= j < i ==> (#[trigger] copy@[j])@ == windows@[j]@,
    {
        copy.push(windows[i].clone());
    }
    assert(windows_view(copy@) =~= windows_view(windows@));
    copy
}

fn clone_tiles(tiles: &Vec<Tile>) -> (copy: Vec<Tile>)
    ensures
        tiles_view(copy@) == tiles_view(tiles@),
    decreases tiles,
{
    let mut copy: Vec<Tile> = Vec::new();
    for i in 0..tiles.len()
        invariant
            copy@.len() == i,
            tiles_view(copy@) == tiles_view(tiles@.take(i as int)),
    {
        let tile = clone_tile(&tiles[i]);
        proof {
            assert(tiles@.take(i + 1).drop_last() =~= tiles@.take(i as int));
            assert(copy@.push(tile).drop_last() =~= copy@);
        }
        copy.push(tile);
    }
    assert(tiles@.take(tiles.len() as int) =~= tiles@);
    copy
}

fn clone_tile(tile: &Tile) -> (copy: Tile)
    ensures
        copy@ == tile@,
    decreases tile,
{
    match tile {
        Tile::Window(window) => Tile::Window(window.clone()),
        Tile::Split { layout, children } => Tile::Split {
            layout: *layout,
            children: clone_tiles(children),
        },
    }
}

impl Clone for Tile {
    fn clone(&self) -> (copy: Self)
        ensures
            copy@ == self@,
    {
        clone_tile(self)
    }
}

impl Clone for Workspace {
    fn clone(&self) -> (copy: Self)
        ensures
            copy@ == self@,
    {
        Workspace {
            name: self.name.clone(),
            output: self.output.clone(),
            layout: self.layout,
            tiles: clone_tiles(&self.tiles),
            floating: clone_windows(&self.floating),
        }
    }
}

impl Clone for Session {
    fn clone(&self) -> (copy: Self)
        ensures
            copy@ == self@,
    {
        let mut workspaces: Vec<Workspace> = Vec::new();
        for i in 0..self.workspaces.len()
            invariant
                workspaces@.len() == i,
                forall|j: int|
                    0 <= j < i ==> (#[trigger] workspaces@[j])@ == self.workspaces@[j]@,
        {
            workspaces.push(self.workspaces[i].clone());
        }
        assert(workspaces_view(workspaces@) =~= workspaces_view(self.workspaces@));
        Session { workspaces, scratchpad: clone_windows(&self.scratchpad) }
    }
}

// A session as text

/// What Rust's `{:?}` writes for a string: the string in double quotes, with escapes.
pub uninterp spec fn quoted_for_debug(s: Seq<char>) -> Seq<char>;

/// `format!` with `{:?}` on a `str`. What it writes depends on the string alone. Which characters
/// it escapes is not stated here.
#[verifier::external_body]
fn debug_str(s: &str) -> (text: String)
    ensures
        text@ == quoted_for_debug(s@),
{
    format!("{s:?}")
}

/// Each string as `{:?}` writes it.
pub open spec fn each_quoted(strings: Seq<Seq<char>>) -> Seq<Seq<char>> {
    strings.map_values(|s: Seq<char>| quoted_for_debug(s))
}

/// A list of strings as `{:?}` writes it.
pub open spec fn list_text(strings: Seq<Seq<char>>) -> Seq<char> {
    "["@ + text::joined(each_quoted(strings), ", "@) + "]"@
}

/// The size and the position of a window.
pub open spec fn geometry(rect: Rect) -> Seq<char> {
    text::decimal(rect.width as int) + "x"@ + text::decimal(rect.height as int) + "+"@
        + text::decimal(rect.x as int) + "+"@ + text::decimal(rect.y as int)
}

/// What is worth a remark about a window.
pub open spec fn remarks(window: WindowView) -> Seq<Seq<char>> {
    (if window.floating {
        seq!["floating "@ + geometry(window.rect)]
    } else {
        Seq::empty()
    }) + (if window.fullscreen {
        seq!["fullscreen"@]
    } else {
        Seq::empty()
    }) + (if window.focused {
        seq!["focused"@]
    } else {
        Seq::empty()
    })
}

/// The remarks on a window in brackets, if there are any.
pub open spec fn remarks_text(window: WindowView) -> Seq<char> {
    if remarks(window).len() == 0 {
        Seq::empty()
    } else {
        " ["@ + text::joined(remarks(window), ", "@) + "]"@
    }
}

/// The two lines about a window, given its title and its argument vector as `{:?}` writes them.
pub open spec fn window_lines(
    window: WindowView,
    title: Seq<char>,
    argv: Seq<char>,
    indent: Seq<char>,
) -> Seq<char> {
    indent + (if window.app_id.len() == 0 {
        "?"@
    } else {
        window.app_id
    }) + " "@ + title + remarks_text(window) + "\n"@ + indent + "  "@ + argv + "\n"@
}

/// The two lines about a window.
pub open spec fn window_text(window: WindowView, indent: Seq<char>) -> Seq<char> {
    window_lines(window, quoted_for_debug(window.title), list_text(window.argv), indent)
}

/// The lines about each window of a list.
pub open spec fn windows_text(windows: Seq<WindowView>, indent: Seq<char>) -> Seq<char>
    decreases windows.len(),
{
    if windows.len() == 0 {
        Seq::empty()
    } else {
        windows_text(windows.drop_last(), indent) + window_text(windows.last(), indent)
    }
}

/// The lines about a tile; what a split contains is indented below it.
pub open spec fn tile_text(tile: TileView, indent: Seq<char>) -> Seq<char>
    decreases tile,
{
    match tile {
        TileView::Window(window) => window_text(window, indent),
        TileView::Split { layout, children } => indent + layout_name(layout) + "\n"@ + tiles_text(
            children,
            indent + "  "@,
        ),
    }
}

/// The lines about each tile of a list.
pub open spec fn tiles_text(tiles: Seq<TileView>, indent: Seq<char>) -> Seq<char>
    decreases tiles,
{
    if tiles.len() == 0 {
        Seq::empty()
    } else {
        tiles_text(tiles.drop_last(), indent) + tile_text(tiles.last(), indent)
    }
}

/// The lines about a workspace.
pub open spec fn workspace_text(workspace: WorkspaceView) -> Seq<char> {
    "workspace "@ + workspace.name + " on "@ + workspace.output + " ["@ + layout_name(
        workspace.layout,
    ) + "]\n"@ + tiles_text(workspace.tiles, "  "@) + windows_text(workspace.floating, "  "@)
}

/// The lines about each workspace of a list.
pub open spec fn workspaces_text(workspaces: Seq<WorkspaceView>) -> Seq<char>
    decreases workspaces.len(),
{
    if workspaces.len() == 0 {
        Seq::empty()
    } else {
        workspaces_text(workspaces.drop_last()) + workspace_text(workspaces.last())
    }
}

/// The lines about a session.
pub open spec fn session_text(session: SessionView) -> Seq<char> {
    workspaces_text(session.workspaces) + (if session.scratchpad.len() == 0 {
        Seq::empty()
    } else {
        "scratchpad\n"@ + windows_text(session.scratchpad, "  "@)
    })
}

fn remarks_of(window: &Window) -> (list: Vec<String>)
    ensures
        text::strings_view(list@) == remarks(window@),
{
    let mut list: Vec<String> = Vec::new();
    if window.floating {
        let mut remark = String::new();
        remark.append("floating ");
        text::push_int(&mut remark, window.rect.width as i64);
        remark.append("x");
        text::push_int(&mut remark, window.rect.height as i64);
        remark.append("+");
        text::push_int(&mut remark, window.rect.x as i64);
        remark.append("+");
        text::push_int(&mut remark, window.rect.y as i64);
        assert(remark@ =~= "floating "@ + geometry(window.rect));
        list.push(remark);
    }
    if window.fullscreen {
        list.push("fullscreen".to_owned());
    }
    if window.focused {
        list.push("focused".to_owned());
    }
    assert(text::strings_view(list@) =~= remarks(window@));
    list
}

fn debug_strings(strings: &Vec<String>) -> (list: Vec<String>)
    ensures
        text::strings_view(list@) == each_quoted(text::strings_view(strings@)),
{
    let mut list: Vec<String> = Vec::new();
    for i in 0..strings.len()
        invariant
            list@.len() == i,
            forall|j: int| 0 <= j < i ==> (#[trigger] list@[j])@ == quoted_for_debug(strings@[j]@),
    {
        list.push(debug_str(strings[i].as_str()));
    }
    assert(text::strings_view(list@) =~= each_quoted(text::strings_view(strings@)));
    list
}

/// A list of strings as `{:?}` writes it
pub fn debug_list(strings: &Vec<String>) -> (list: String)
    ensures
        list@ == list_text(text::strings_view(strings@)),
{
    let mut list = String::new();
    list.append("[");
    list.append(text::join(&debug_strings(strings), ", ").as_str());
    list.append("]");
    assert(list@ =~= list_text(text::strings_view(strings@)));
    list
}

/// Appends the two lines about `window`, given its title and its argument vector as `{:?}` writes
/// them
pub fn put_window_lines(out: &mut String, window: &Window, title: &str, argv: &str, indent: &str)
    ensures
        final(out)@ == old(out)@ + window_lines(window@, title@, argv@, indent@),
{
    let remarks = remarks_of(window);
    out.append(indent);
    if window.app_id.as_str().is_empty() {
        out.append("?");
    } else {
        out.append(window.app_id.as_str());
    }
    out.append(" ");
    out.append(title);
    if !remarks.is_empty() {
        out.append(" [");
        out.append(text::join(&remarks, ", ").as_str());
        out.append("]");
    }
    out.append("\n");
    out.append(indent);
    out.append("  ");
    out.append(argv);
    out.append("\n");
    assert(out@ =~= old(out)@ + window_lines(window@, title@, argv@, indent@));
}

/// Dump a single window's info
pub fn dump_window(out: &mut String, window: &Window, indent: &str)
    ensures
        final(out)@ == old(out)@ + window_text(window@, indent@),
{
    let title = debug_str(window.title.as_str());
    let argv = debug_list(&window.argv);
    put_window_lines(out, window, title.as_str(), argv.as_str(), indent);
}

fn dump_windows(out: &mut String, windows: &Vec<Window>, indent: &str)
    ensures
        final(out)@ == old(out)@ + windows_text(windows_view(windows@), indent@),
{
    let ghost before = out@;
    let ghost views = windows_view(windows@);
    assert(out@ =~= before + windows_text(views.take(0), indent@));
    for i in 0..windows.len()
        invariant
            views == windows_view(windows@),
            out@ == before + windows_text(views.take(i as int), indent@),
    {
        dump_window(out, &windows[i], indent);
        proof {
            assert(views.take(i + 1).drop_last() =~= views.take(i as int));
            assert(views.take(i + 1).last() == windows[i as int]@);
            assert(out@ =~= before + windows_text(views.take(i + 1), indent@));
        }
    }
    assert(views.take(views.len() as int) =~= views);
}

/// Dump a tile's info, and that of the tiles in it
pub fn dump_tile(out: &mut String, tile: &Tile, indent: &str)
    ensures
        final(out)@ == old(out)@ + tile_text(tile@, indent@),
    decreases tile,
{
    match tile {
        Tile::Window(window) => dump_window(out, window, indent),
        Tile::Split { layout, children } => {
            out.append(indent);
            out.append(layout.as_command());
            out.append("\n");
            let mut deeper = indent.to_owned();
            deeper.append("  ");
            dump_tiles(out, children, deeper.as_str());
            assert(out@ =~= old(out)@ + tile_text(tile@, indent@));
        },
    }
}

fn dump_tiles(out: &mut String, tiles: &Vec<Tile>, indent: &str)
    ensures
        final(out)@ == old(out)@ + tiles_text(tiles_view(tiles@), indent@),
    decreases tiles,
{
    let ghost before = out@;
    let ghost views = tiles_view(tiles@);
    proof {
        lemma_tiles_view(tiles@);
    }
    assert(out@ =~= before + tiles_text(views.take(0), indent@));
    for i in 0..tiles.len()
        invariant
            views.len() == tiles@.len(),
            forall|j: int| 0 <= j < tiles@.len() ==> #[trigger] views[j] == tile_view(tiles@[j]),
            out@ == before + tiles_text(views.take(i as int), indent@),
    {
        dump_tile(out, &tiles[i], indent);
        proof {
            assert(views.take(i + 1).drop_last() =~= views.take(i as int));
            assert(views.take(i + 1).last() == tile_view(tiles@[i as int]));
            assert(out@ =~= before + tiles_text(views.take(i + 1), indent@));
        }
    }
    assert(views.take(views.len() as int) =~= views);
}

fn dump_workspace(out: &mut String, workspace: &Workspace)
    ensures
        final(out)@ == old(out)@ + workspace_text(workspace@),
{
    out.append("workspace ");
    out.append(workspace.name.as_str());
    out.append(" on ");
    out.append(workspace.output.as_str());
    out.append(" [");
    out.append(workspace.layout.as_command());
    out.append("]\n");
    dump_tiles(out, &workspace.tiles, "  ");
    dump_windows(out, &workspace.floating, "  ");
    assert(out@ =~= old(out)@ + workspace_text(workspace@));
}

impl Session {
    /// The path of the session file, where `data_home` and `home` are the values of the variables
    /// `XDG_DATA_HOME` and `HOME` of the environment
    pub fn default_path(data_home: &Option<Vec<u8>>, home: &Option<Vec<u8>>) -> (path: Vec<u8>)
        ensures
            path@ == path::base_joined(
                path::option_view(*data_home),
                path::option_view(*home),
                ".local/share"@,
                "swaymnesia/session.swmn"@,
            ),
    {
        path::join_base(data_home, home, ".local/share", "swaymnesia/session.swmn")
    }

    /// The session file that holds this session
    pub fn encode(&self) -> (bytes: Vec<u8>)
        ensures
            bytes@ == crate::format::session_bytes(self@),
    {
        crate::format::encode(self)
    }

    /// The session that a session file holds
    pub fn decode(bytes: &[u8]) -> (res: Result<Session, crate::format::Error>)
        ensures
            match crate::format::read_session(bytes@) {
                Ok((view, _)) => res matches Ok(session) && session@ == view,
                Err(e) => res == Err::<Session, crate::format::Error>(e),
            },
    {
        crate::format::decode(bytes)
    }

    /// Dump the whole session's info
    pub fn dump(&self) -> (text: String)
        ensures
            text@ == session_text(self@),
    {
        let mut out = String::new();
        let ghost views = workspaces_view(self.workspaces@);
        assert(out@ =~= workspaces_text(views.take(0)));
        for i in 0..self.workspaces.len()
            invariant
                views == workspaces_view(self.workspaces@),
                out@ == workspaces_text(views.take(i as int)),
        {
            dump_workspace(&mut out, &self.workspaces[i]);
            proof {
                assert(views.take(i + 1).drop_last() =~= views.take(i as int));
                assert(views.take(i + 1).last() == self.workspaces[i as int]@);
                assert(out@ =~= workspaces_text(views.take(i + 1)));
            }
        }
        assert(views.take(views.len() as int) =~= views);
        if !self.scratchpad.is_empty() {
            out.append("scratchpad\n");
            dump_windows(&mut out, &self.scratchpad, "  ");
        }
        assert(out@ =~= session_text(self@));
        out
    }
}

} // verus!

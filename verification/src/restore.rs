//! Restoring a session: the steps that it takes, and the commands for sway that each step asks for.
//!
//! [`restore`] lists the steps. To open a window is to start its program and to wait for the
//! window; every other step needs nothing from outside. [`Restorer::perform`] takes the steps one
//! by one, each with the container id of the window that it opened, and says which commands sway
//! has to run.

use crate::session;
use crate::session::{
    Layout, Rect, Session, SessionView, Tile, TileView, Window, WindowView, Workspace,
    WorkspaceView,
};
use crate::text;
use vstd::prelude::*;

verus! {

/// How long a respawned program gets to map its first window before it is given up on, in seconds
pub const SPAWN_TIMEOUT: u64 = 15;

/// How long to let the last windows settle before giving them their final geometry, in milliseconds
pub const SETTLE: u64 = 500;

/// Marks the window that the next one is moved behind while the tiling tree is rebuilt
pub const MARK: &'static str = "_swaymnesia";

// Quoting

/// A character as it stands in a quoted argument.
pub open spec fn escaped_char(c: char) -> Seq<char> {
    if c == '\\' {
        seq!['\\', '\\']
    } else if c == '"' {
        seq!['\\', '"']
    } else {
        seq![c]
    }
}

/// A text as it stands in a quoted argument.
pub open spec fn escaped(s: Seq<char>) -> Seq<char>
    decreases s.len(),
{
    if s.len() == 0 {
        Seq::empty()
    } else {
        escaped(s.drop_last()) + escaped_char(s.last())
    }
}

/// A text as a quoted argument of a command.
pub open spec fn quoted(s: Seq<char>) -> Seq<char> {
    seq!['"'] + escaped(s) + seq!['"']
}

/// `value` as a quoted argument of a command
pub fn quote(value: &str) -> (argument: String)
    ensures
        argument@ == quoted(value@),
{
    let chars = text::chars_of(value);
    let mut out = String::new();
    out.push('"');
    assert(out@ =~= seq!['"'] + escaped(value@.take(0)));
    for i in 0..chars.len()
        invariant
            chars@ == value@,
            out@ == seq!['"'] + escaped(value@.take(i as int)),
    {
        let c = chars[i];
        if c == '\\' || c == '"' {
            out.push('\\');
        }
        out.push(c);
        proof {
            assert(value@.take(i + 1).drop_last() =~= value@.take(i as int));
            assert(out@ =~= seq!['"'] + escaped(value@.take(i + 1)));
        }
    }
    out.push('"');
    assert(value@.take(value@.len() as int) =~= value@);
    assert(out@ =~= quoted(value@));
    out
}

// Placed tiles

/// A restored tile whose windows all appeared, identified by their sway container ids
#[derive(Debug)]
pub enum Placed {
    Window(i64),
    Split(Layout, Vec<Placed>),
}

/// What a [`Placed`] holds.
pub enum PlacedView {
    Window(i64),
    Split(Layout, Seq<PlacedView>),
}

/// What `placed` holds.
pub open spec fn placed_view(placed: Placed) -> PlacedView
    decreases placed,
{
    match placed {
        Placed::Window(id) => PlacedView::Window(id),
        Placed::Split(layout, children) => PlacedView::Split(layout, all_placed_view(children@)),
    }
}

/// What each of `placed` holds.
pub open spec fn all_placed_view(placed: Seq<Placed>) -> Seq<PlacedView>
    decreases placed,
{
    if placed.len() == 0 {
        Seq::empty()
    } else {
        all_placed_view(placed.drop_last()).push(placed_view(placed.last()))
    }
}

impl View for Placed {
    type V = PlacedView;

    open spec fn view(&self) -> PlacedView {
        placed_view(*self)
    }
}

/// The view of a list of placed tiles has one entry for each of them, in the same order.
pub proof fn lemma_all_placed_view(placed: Seq<Placed>)
    ensures
        all_placed_view(placed).len() == placed.len(),
        forall|i: int|
            0 <= i < placed.len() ==> #[trigger] all_placed_view(placed)[i] == placed_view(
                placed[i],
            ),
    decreases placed.len(),
{
    if placed.len() > 0 {
        lemma_all_placed_view(placed.drop_last());
    }
}

/// Whether each split within a placed tile has at least `count` children.
pub open spec fn splits_hold(placed: PlacedView, count: nat) -> bool
    decreases placed,
{
    match placed {
        PlacedView::Window(_) => true,
        PlacedView::Split(_, children) => children.len() >= count && all_splits_hold(
            children,
            count,
        ),
    }
}

/// Whether each split within each of a list of placed tiles has at least `count` children.
pub open spec fn all_splits_hold(placed: Seq<PlacedView>, count: nat) -> bool
    decreases placed,
{
    placed.len() > 0 ==> all_splits_hold(placed.drop_last(), count) && splits_hold(
        placed.last(),
        count,
    )
}

/// What holds of the splits of a list of placed tiles holds of those of each of them.
pub proof fn lemma_all_splits_hold(placed: Seq<PlacedView>, count: nat)
    ensures
        all_splits_hold(placed, count) <==> (forall|i: int|
            0 <= i < placed.len() ==> splits_hold(#[trigger] placed[i], count)),
    decreases placed.len(),
{
    if placed.len() > 0 {
        let rest = placed.drop_last();
        lemma_all_splits_hold(rest, count);
        if all_splits_hold(placed, count) {
            assert forall|i: int| 0 <= i < placed.len() implies splits_hold(
                #[trigger] placed[i],
                count,
            ) by {
                if i < rest.len() {
                    assert(rest[i] == placed[i]);
                }
            }
        }
        if forall|i: int| 0 <= i < placed.len() ==> splits_hold(#[trigger] placed[i], count) {
            assert forall|i: int| 0 <= i < rest.len() implies splits_hold(
                #[trigger] rest[i],
                count,
            ) by {
                assert(rest[i] == placed[i]);
            }
        }
    }
}

/// Whether a placed tile has a first window.
pub open spec fn has_first(placed: PlacedView) -> bool
    decreases placed,
{
    match placed {
        PlacedView::Window(_) => true,
        PlacedView::Split(_, children) => children.len() > 0 && has_first(children[0]),
    }
}

/// The first window of a placed tile that has one.
pub open spec fn first_of(placed: PlacedView) -> i64
    decreases placed,
{
    match placed {
        PlacedView::Window(id) => id,
        PlacedView::Split(_, children) => if children.len() > 0 {
            first_of(children[0])
        } else {
            arbitrary()
        },
    }
}

proof fn lemma_has_first(placed: PlacedView)
    requires
        splits_hold(placed, 1),
    ensures
        has_first(placed),
    decreases placed,
{
    match placed {
        PlacedView::Window(_) => {},
        PlacedView::Split(_, children) => {
            lemma_all_splits_hold(children, 1);
            assert(splits_hold(children[0], 1));
            lemma_has_first(children[0]);
        },
    }
}

proof fn lemma_all_have_first(placed: Seq<PlacedView>)
    requires
        all_splits_hold(placed, 1),
    ensures
        forall|i: int| 0 <= i < placed.len() ==> has_first(#[trigger] placed[i]),
{
    lemma_all_splits_hold(placed, 1);
    assert forall|i: int| 0 <= i < placed.len() implies has_first(#[trigger] placed[i]) by {
        lemma_has_first(placed[i]);
    }
}

impl Placed {
    /// The first window of this tile
    pub fn first_window(&self) -> (id: i64)
        requires
            has_first(self@),
        ensures
            id == first_of(self@),
        decreases self,
    {
        match self {
            Placed::Window(id) => *id,
            Placed::Split(_, children) => {
                proof {
                    lemma_all_placed_view(children@);
                    assert(placed_view(children@[0]) == all_placed_view(children@)[0]);
                }
                children[0].first_window()
            },
        }
    }
}

// Commands

/// A command for the container `id`.
pub open spec fn command_for(id: i64, what: Seq<char>) -> Seq<char> {
    "[con_id="@ + text::decimal(id as int) + "] "@ + what
}

fn command(id: i64, what: &str) -> (command: String)
    ensures
        command@ == command_for(id, what@),
{
    let mut out = String::new();
    out.append("[con_id=");
    text::push_int(&mut out, id);
    out.append("] ");
    out.append(what);
    assert(out@ =~= command_for(id, what@));
    out
}

fn append_to(before: &str, behind: &str) -> (both: String)
    ensures
        both@ == before@ + behind@,
{
    let mut both = before.to_owned();
    both.append(behind);
    both
}

/// Shows a workspace.
pub open spec fn show_workspace(name: Seq<char>) -> Seq<char> {
    "workspace --no-auto-back-and-forth "@ + quoted(name)
}

/// Moves the workspace that is shown to an output.
pub open spec fn move_to_output(output: Seq<char>) -> Seq<char> {
    "move workspace to output "@ + quoted(output)
}

/// Changes the layout.
pub open spec fn set_layout(layout: Layout) -> Seq<char> {
    "layout "@ + session::layout_name(layout)
}

/// Moves a window to a workspace.
pub open spec fn move_to_workspace(id: i64, name: Seq<char>) -> Seq<char> {
    command_for(id, "move container to workspace "@ + quoted(name))
}

/// Marks a window.
pub open spec fn mark(id: i64) -> Seq<char> {
    command_for(id, "mark "@ + MARK@)
}

/// Moves a window behind the marked one.
pub open spec fn move_to_mark(id: i64) -> Seq<char> {
    command_for(id, "move container to mark "@ + MARK@)
}

/// Takes the mark away.
pub open spec fn unmark() -> Seq<char> {
    "unmark "@ + MARK@
}

/// Sets the size of a window.
pub open spec fn resize(id: i64, rect: Rect) -> Seq<char> {
    command_for(
        id,
        "resize set width "@ + text::decimal(rect.width as int) + " px height "@ + text::decimal(
            rect.height as int,
        ) + " px"@,
    )
}

/// Sets the position of a window.
pub open spec fn move_to_position(id: i64, rect: Rect) -> Seq<char> {
    command_for(
        id,
        "move absolute position "@ + text::decimal(rect.x as int) + " "@ + text::decimal(
            rect.y as int,
        ),
    )
}

// Rebuilding the tiling tree

/// The commands that move the first window of each tile right behind the first window of the tile
/// before it.
pub open spec fn line_up_commands(tiles: Seq<PlacedView>) -> Seq<Seq<char>>
    decreases tiles.len(),
{
    if tiles.len() < 2 {
        Seq::empty()
    } else {
        line_up_commands(tiles.drop_last()) + seq![
            mark(first_of(tiles[tiles.len() - 2])),
            move_to_mark(first_of(tiles.last())),
        ]
    }
}

/// The commands that turn the first window of a tile into the split that it stands for, and then do
/// the same for each child of the split.
pub open spec fn arrange_commands(tile: PlacedView) -> Seq<Seq<char>>
    decreases tile,
{
    match tile {
        PlacedView::Window(_) => Seq::empty(),
        PlacedView::Split(layout, children) => seq![
            command_for(first_of(tile), session::split_name(layout)),
            command_for(first_of(tile), set_layout(layout)),
        ] + line_up_commands(children) + arrange_all_commands(children),
    }
}

/// The commands that arrange each tile of a list.
pub open spec fn arrange_all_commands(tiles: Seq<PlacedView>) -> Seq<Seq<char>>
    decreases tiles,
{
    if tiles.len() == 0 {
        Seq::empty()
    } else {
        arrange_all_commands(tiles.drop_last()) + arrange_commands(tiles.last())
    }
}

/// Moves the first window of each tile right behind the first window of the tile before it.
///
/// Moving a container to a marked window inserts it next to that window, so this gathers the
/// tiles in the container of the first one, in their order.
pub fn line_up(out: &mut Vec<String>, tiles: &Vec<Placed>)
    requires
        tiles@.len() >= 2 ==> forall|i: int|
            0 <= i < tiles@.len() ==> has_first(#[trigger] all_placed_view(tiles@)[i]),
    ensures
        text::strings_view(final(out)@) == text::strings_view(old(out)@) + line_up_commands(
            all_placed_view(tiles@),
        ),
{
    let ghost before = text::strings_view(out@);
    let ghost views = all_placed_view(tiles@);
    proof {
        lemma_all_placed_view(tiles@);
    }
    if tiles.is_empty() {
        assert(text::strings_view(out@) =~= before + line_up_commands(views));
        return;
    }
    let mut i: usize = 1;
    assert(text::strings_view(out@) =~= before + line_up_commands(views.take(1)));
    while i < tiles.len()
        invariant
            1 <= i <= tiles.len(),
            views.len() == tiles@.len(),
            forall|j: int| 0 <= j < tiles@.len() ==> #[trigger] views[j] == placed_view(tiles@[j]),
            views.len() >= 2 ==> forall|j: int|
                0 <= j < views.len() ==> has_first(#[trigger] views[j]),
            text::strings_view(out@) == before + line_up_commands(views.take(i as int)),
        decreases tiles.len() - i,
    {
        proof {
            assert(has_first(views[i - 1]));
            assert(has_first(views[i as int]));
        }
        let ghost so_far = text::strings_view(out@);
        let behind = tiles[i - 1].first_window();
        let window = tiles[i].first_window();
        let marking = command(behind, append_to("mark ", MARK).as_str());
        let moving = command(window, append_to("move container to mark ", MARK).as_str());
        out.push(marking);
        out.push(moving);
        proof {
            assert(text::strings_view(out@) =~= so_far + seq![marking@, moving@]);
            assert(views.take(i + 1).drop_last() =~= views.take(i as int));
            assert(text::strings_view(out@) =~= before + line_up_commands(views.take(i + 1)));
        }
        i = i + 1;
    }
    assert(views.take(tiles.len() as int) =~= views);
}

/// Turns the first window of `tile` into the split it stands for, then does the same for each
/// child of the split.
///
/// Every window of `tile` has to be a sibling of its first window, in the order of the tree.
pub fn arrange(out: &mut Vec<String>, tile: &Placed)
    requires
        splits_hold(tile@, 1),
    ensures
        text::strings_view(final(out)@) == text::strings_view(old(out)@) + arrange_commands(tile@),
    decreases tile,
{
    let ghost before = text::strings_view(out@);
    match tile {
        Placed::Window(_) => {
            assert(text::strings_view(out@) =~= before + arrange_commands(tile@));
        },
        Placed::Split(layout, children) => {
            proof {
                lemma_has_first(tile@);
            }
            let first = tile.first_window();
            let splitting = command(first, layout.split_command());
            // Applied to a window, `layout` changes the container the window is in
            let laying_out = command(first, append_to("layout ", layout.as_command()).as_str());
            out.push(splitting);
            out.push(laying_out);
            assert(text::strings_view(out@) =~= before + seq![splitting@, laying_out@]);
            proof {
                lemma_all_have_first(all_placed_view(children@));
                lemma_all_placed_view(children@);
            }
            line_up(out, children);
            arrange_all(out, children);
            assert(text::strings_view(out@) =~= before + arrange_commands(tile@));
        },
    }
}

fn arrange_all(out: &mut Vec<String>, tiles: &Vec<Placed>)
    requires
        all_splits_hold(all_placed_view(tiles@), 1),
    ensures
        text::strings_view(final(out)@) == text::strings_view(old(out)@) + arrange_all_commands(
            all_placed_view(tiles@),
        ),
    decreases tiles,
{
    let ghost before = text::strings_view(out@);
    let ghost views = all_placed_view(tiles@);
    proof {
        lemma_all_placed_view(tiles@);
        lemma_all_splits_hold(views, 1);
        assert(text::strings_view(out@) =~= before + arrange_all_commands(views.take(0)));
    }
    for i in 0..tiles.len()
        invariant
            views.len() == tiles@.len(),
            forall|j: int| 0 <= j < tiles@.len() ==> #[trigger] views[j] == placed_view(tiles@[j]),
            forall|j: int| 0 <= j < views.len() ==> splits_hold(#[trigger] views[j], 1),
            text::strings_view(out@) == before + arrange_all_commands(views.take(i as int)),
    {
        assert(splits_hold(views[i as int], 1));
        arrange(out, &tiles[i]);
        proof {
            assert(views.take(i + 1).drop_last() =~= views.take(i as int));
            assert(text::strings_view(out@) =~= before + arrange_all_commands(views.take(i + 1)));
        }
    }
    assert(views.take(tiles.len() as int) =~= views);
}

// From tiles to placed tiles

/// What became of the next window, by the ids of the windows that appeared, and the ids behind it.
pub open spec fn next_of(ids: Seq<Option<i64>>) -> (Option<i64>, Seq<Option<i64>>) {
    if ids.len() == 0 {
        (None, ids)
    } else {
        (ids[0], ids.drop_first())
    }
}

/// What a split comes to whose children are `children`: the only child stands for it, and without
/// children there is none.
pub open spec fn placed_split(layout: Layout, children: Seq<PlacedView>) -> Option<PlacedView> {
    if children.len() == 0 {
        None
    } else if children.len() == 1 {
        Some(children[0])
    } else {
        Some(PlacedView::Split(layout, children))
    }
}

/// The tile without the windows that did not appear and the splits that became empty, where `ids`
/// begins with what became of each window of the tile; and what follows in `ids`.
pub open spec fn place_tile(tile: TileView, ids: Seq<Option<i64>>) -> (
    Option<PlacedView>,
    Seq<Option<i64>>,
)
    decreases tile,
{
    match tile {
        TileView::Window(_) => match next_of(ids) {
            (Some(id), rest) => (Some(PlacedView::Window(id)), rest),
            (None, rest) => (None, rest),
        },
        TileView::Split { layout, children } => {
            let (placed, rest) = place_tiles(children, ids);
            (placed_split(layout, placed), rest)
        },
    }
}

/// The tiles of a list without the windows that did not appear and the splits that became empty.
pub open spec fn place_tiles(tiles: Seq<TileView>, ids: Seq<Option<i64>>) -> (
    Seq<PlacedView>,
    Seq<Option<i64>>,
)
    decreases tiles,
{
    if tiles.len() == 0 {
        (Seq::empty(), ids)
    } else {
        let (placed, rest) = place_tiles(tiles.drop_last(), ids);
        match place_tile(tiles.last(), rest) {
            (Some(last), rest) => (placed.push(last), rest),
            (None, rest) => (placed, rest),
        }
    }
}

/// What is known of each window that was started, as far as it was not used yet.
struct Ids<'a> {
    ids: &'a Vec<Option<i64>>,
    pos: usize,
}

impl<'a> Ids<'a> {
    spec fn wf(self) -> bool {
        self.pos <= self.ids@.len()
    }

    spec fn rest(self) -> Seq<Option<i64>> {
        self.ids@.skip(self.pos as int)
    }

    fn next(&mut self) -> (id: Option<i64>)
        requires
            old(self).wf(),
        ensures
            final(self).wf(),
            (id, final(self).rest()) == next_of(old(self).rest()),
    {
        if self.pos < self.ids.len() {
            let id = self.ids[self.pos];
            self.pos = self.pos + 1;
            assert(self.rest() =~= old(self).rest().drop_first());
            id
        } else {
            None
        }
    }
}

/// The view of what may be a placed tile.
pub open spec fn option_placed_view(placed: Option<Placed>) -> Option<PlacedView> {
    match placed {
        Some(placed) => Some(placed@),
        None => None,
    }
}

fn spawn_tile(tile: &Tile, ids: &mut Ids<'_>) -> (placed: Option<Placed>)
    requires
        old(ids).wf(),
    ensures
        final(ids).wf(),
        (option_placed_view(placed), final(ids).rest()) == place_tile(tile@, old(ids).rest()),
    decreases tile,
{
    match tile {
        Tile::Window(_) => match ids.next() {
            Some(id) => Some(Placed::Window(id)),
            None => None,
        },
        Tile::Split { layout, children } => {
            let mut placed = spawn_tiles(children, ids);
            proof {
                lemma_all_placed_view(placed@);
            }
            if placed.len() < 2 {
                placed.pop()
            } else {
                Some(Placed::Split(*layout, placed))
            }
        },
    }
}

fn spawn_tiles(tiles: &Vec<Tile>, ids: &mut Ids<'_>) -> (placed: Vec<Placed>)
    requires
        old(ids).wf(),
    ensures
        final(ids).wf(),
        (all_placed_view(placed@), final(ids).rest()) == place_tiles(
            session::tiles_view(tiles@),
            old(ids).rest(),
        ),
    decreases tiles,
{
    let ghost views = session::tiles_view(tiles@);
    let ghost start = ids.rest();
    proof {
        session::lemma_tiles_view(tiles@);
    }
    let mut placed: Vec<Placed> = Vec::new();
    for i in 0..tiles.len()
        invariant
            ids.wf(),
            views.len() == tiles@.len(),
            forall|j: int|
                0 <= j < tiles@.len() ==> #[trigger] views[j] == session::tile_view(tiles@[j]),
            (all_placed_view(placed@), ids.rest()) == place_tiles(views.take(i as int), start),
    {
        let ghost before = placed@;
        let child = spawn_tile(&tiles[i], ids);
        proof {
            assert(views.take(i + 1).drop_last() =~= views.take(i as int));
            assert(views.take(i + 1).last() == session::tile_view(tiles@[i as int]));
        }
        if let Some(child) = child {
            placed.push(child);
            assert(placed@.drop_last() =~= before);
        }
    }
    assert(views.take(tiles.len() as int) =~= views);
    placed
}

/// `tiles` without the windows that did not appear and the splits that became empty, given what
/// became of each window, in order
pub fn place(tiles: &Vec<Tile>, ids: &Vec<Option<i64>>) -> (placed: Vec<Placed>)
    ensures
        all_placed_view(placed@) == place_tiles(session::tiles_view(tiles@), ids@).0,
{
    let mut rest = Ids { ids, pos: 0 };
    assert(rest.rest() =~= ids@);
    spawn_tiles(tiles, &mut rest)
}

proof fn lemma_place_tile(tile: TileView, ids: Seq<Option<i64>>)
    ensures
        place_tile(tile, ids).0 matches Some(placed) ==> splits_hold(placed, 2),
    decreases tile,
{
    match tile {
        TileView::Window(_) => {},
        TileView::Split { layout, children } => {
            law_placed_splits_are_splits(children, ids);
            lemma_all_splits_hold(place_tiles(children, ids).0, 2);
        },
    }
}

/// Whatever windows appear, a split that is rebuilt has at least two children.
pub proof fn law_placed_splits_are_splits(tiles: Seq<TileView>, ids: Seq<Option<i64>>)
    ensures
        all_splits_hold(place_tiles(tiles, ids).0, 2),
    decreases tiles,
{
    if tiles.len() > 0 {
        let (placed, rest) = place_tiles(tiles.drop_last(), ids);
        law_placed_splits_are_splits(tiles.drop_last(), ids);
        lemma_place_tile(tiles.last(), rest);
        if let Some(last) = place_tile(tiles.last(), rest).0 {
            assert(placed.push(last).drop_last() =~= placed);
        }
    }
}

proof fn lemma_splits_hold_fewer(placed: PlacedView)
    requires
        splits_hold(placed, 2),
    ensures
        splits_hold(placed, 1),
    decreases placed,
{
    match placed {
        PlacedView::Window(_) => {},
        PlacedView::Split(_, children) => lemma_all_splits_hold_fewer(children),
    }
}

/// Splits with two children have one.
pub proof fn lemma_all_splits_hold_fewer(placed: Seq<PlacedView>)
    requires
        all_splits_hold(placed, 2),
    ensures
        all_splits_hold(placed, 1),
    decreases placed,
{
    if placed.len() > 0 {
        lemma_all_splits_hold_fewer(placed.drop_last());
        lemma_splits_hold_fewer(placed.last());
    }
}

// The steps

/// Where a window goes once it appears, on the workspace of the given name or off it
#[derive(Debug)]
pub enum Place<'a> {
    Tiled(&'a String),
    Floating(&'a String),
    Scratchpad,
}

/// What a [`Place`] holds.
pub enum PlaceView {
    Tiled(Seq<char>),
    Floating(Seq<char>),
    Scratchpad,
}

impl<'a> View for Place<'a> {
    type V = PlaceView;

    open spec fn view(&self) -> PlaceView {
        match self {
            Place::Tiled(name) => PlaceView::Tiled(name@),
            Place::Floating(name) => PlaceView::Floating(name@),
            Place::Scratchpad => PlaceView::Scratchpad,
        }
    }
}

/// A step of restoring a session
#[derive(Debug)]
pub enum Step<'a> {
    /// Run a command.
    Run(String),
    /// Start the program of a window and wait for the window.
    Open(&'a Window, Place<'a>),
    /// Nest the windows, which were opened side by side on the workspace, into their splits.
    Arrange(&'a Vec<Tile>),
    /// Let the last windows settle.
    Settle,
    /// Give the windows their final geometry and state.
    Finish,
}

/// What a [`Step`] holds.
pub enum StepView {
    Run(Seq<char>),
    Open(WindowView, PlaceView),
    Arrange(Seq<TileView>),
    Settle,
    Finish,
}

impl<'a> View for Step<'a> {
    type V = StepView;

    open spec fn view(&self) -> StepView {
        match self {
            Step::Run(command) => StepView::Run(command@),
            Step::Open(window, place) => StepView::Open(window@, place@),
            Step::Arrange(tiles) => StepView::Arrange(session::tiles_view(tiles@)),
            Step::Settle => StepView::Settle,
            Step::Finish => StepView::Finish,
        }
    }
}

/// What each step of `steps` holds.
pub open spec fn steps_view(steps: Seq<Step<'_>>) -> Seq<StepView> {
    steps.map_values(|step: Step<'_>| step@)
}

/// The windows of a tile, in order.
pub open spec fn windows_of(tile: TileView) -> Seq<WindowView>
    decreases tile,
{
    match tile {
        TileView::Window(window) => seq![window],
        TileView::Split { layout, children } => all_windows_of(children),
    }
}

/// The windows of each tile of a list, in order.
pub open spec fn all_windows_of(tiles: Seq<TileView>) -> Seq<WindowView>
    decreases tiles,
{
    if tiles.len() == 0 {
        Seq::empty()
    } else {
        all_windows_of(tiles.drop_last()) + windows_of(tiles.last())
    }
}

/// The steps that open each window of a list at the same place.
pub open spec fn open_steps(windows: Seq<WindowView>, place: PlaceView) -> Seq<StepView> {
    windows.map_values(|window: WindowView| StepView::Open(window, place))
}

/// The steps that show a workspace and open its tiling windows.
pub open spec fn workspace_opening(workspace: WorkspaceView) -> Seq<StepView> {
    seq![StepView::Run(show_workspace(workspace.name))] + (if workspace.output.len() == 0 {
        Seq::empty()
    } else {
        seq![StepView::Run(move_to_output(workspace.output))]
    }) + seq![StepView::Run(set_layout(workspace.layout))] + open_steps(
        all_windows_of(workspace.tiles),
        PlaceView::Tiled(workspace.name),
    )
}

/// The steps that restore a workspace.
pub open spec fn workspace_steps(workspace: WorkspaceView) -> Seq<StepView> {
    workspace_opening(workspace) + seq![StepView::Arrange(workspace.tiles)] + open_steps(
        workspace.floating,
        PlaceView::Floating(workspace.name),
    )
}

/// The steps that restore each workspace of a list.
pub open spec fn workspaces_steps(workspaces: Seq<WorkspaceView>) -> Seq<StepView>
    decreases workspaces.len(),
{
    if workspaces.len() == 0 {
        Seq::empty()
    } else {
        workspaces_steps(workspaces.drop_last()) + workspace_steps(workspaces.last())
    }
}

/// The steps that restore a session.
pub open spec fn session_steps(session: SessionView) -> Seq<StepView> {
    workspaces_steps(session.workspaces) + seq![StepView::Run(unmark())] + open_steps(
        session.scratchpad,
        PlaceView::Scratchpad,
    ) + seq![StepView::Settle, StepView::Finish]
}

proof fn lemma_steps_push(steps: Seq<Step<'_>>, step: Step<'_>)
    ensures
        steps_view(steps.push(step)) == steps_view(steps).push(step@),
{
    assert(steps_view(steps.push(step)) =~= steps_view(steps).push(step@));
}

fn add_tile<'a>(steps: &mut Vec<Step<'a>>, tile: &'a Tile, name: &'a String)
    ensures
        steps_view(final(steps)@) == steps_view(old(steps)@) + open_steps(
            windows_of(tile@),
            PlaceView::Tiled(name@),
        ),
    decreases tile,
{
    match tile {
        Tile::Window(window) => {
            let step = Step::Open(window, Place::Tiled(name));
            proof {
                lemma_steps_push(steps@, step);
            }
            steps.push(step);
            assert(steps_view(steps@) =~= steps_view(old(steps)@) + open_steps(
                windows_of(tile@),
                PlaceView::Tiled(name@),
            ));
        },
        Tile::Split { layout: _, children } => add_tiles(steps, children, name),
    }
}

fn add_tiles<'a>(steps: &mut Vec<Step<'a>>, tiles: &'a Vec<Tile>, name: &'a String)
    ensures
        steps_view(final(steps)@) == steps_view(old(steps)@) + open_steps(
            all_windows_of(session::tiles_view(tiles@)),
            PlaceView::Tiled(name@),
        ),
    decreases tiles,
{
    let ghost before = steps_view(steps@);
    let ghost views = session::tiles_view(tiles@);
    let ghost place = PlaceView::Tiled(name@);
    proof {
        session::lemma_tiles_view(tiles@);
        assert(steps_view(steps@) =~= before + open_steps(all_windows_of(views.take(0)), place));
    }
    for i in 0..tiles.len()
        invariant
            views.len() == tiles@.len(),
            place == PlaceView::Tiled(name@),
            forall|j: int|
                0 <= j < tiles@.len() ==> #[trigger] views[j] == session::tile_view(tiles@[j]),
            steps_view(steps@) == before + open_steps(all_windows_of(views.take(i as int)), place),
    {
        add_tile(steps, &tiles[i], name);
        proof {
            assert(views.take(i + 1).drop_last() =~= views.take(i as int));
            assert(views.take(i + 1).last() == session::tile_view(tiles@[i as int]));
            assert(steps_view(steps@) =~= before + open_steps(
                all_windows_of(views.take(i + 1)),
                place,
            ));
        }
    }
    assert(views.take(tiles.len() as int) =~= views);
}

fn add_workspace<'a>(steps: &mut Vec<Step<'a>>, workspace: &'a Workspace)
    ensures
        steps_view(final(steps)@) == steps_view(old(steps)@) + workspace_steps(workspace@),
{
    let ghost before = steps_view(steps@);
    let showing = append_to(
        "workspace --no-auto-back-and-forth ",
        quote(workspace.name.as_str()).as_str(),
    );
    steps.push(Step::Run(showing));
    if !workspace.output.as_str().is_empty() {
        let moving = append_to(
            "move workspace to output ",
            quote(workspace.output.as_str()).as_str(),
        );
        steps.push(Step::Run(moving));
    }
    let laying_out = append_to("layout ", workspace.layout.as_command());
    steps.push(Step::Run(laying_out));
    assert(steps_view(steps@) =~= before + (seq![StepView::Run(show_workspace(workspace@.name))] + (
    if workspace@.output.len() == 0 {
        Seq::empty()
    } else {
        seq![StepView::Run(move_to_output(workspace@.output))]
    }) + seq![StepView::Run(set_layout(workspace@.layout))]));

    add_tiles(steps, &workspace.tiles, &workspace.name);
    let ghost so_far = steps_view(steps@);
    let arranging = Step::Arrange(&workspace.tiles);
    proof {
        lemma_steps_push(steps@, arranging);
    }
    steps.push(arranging);

    let ghost start = steps_view(steps@);
    let ghost opened = open_steps(workspace@.floating, PlaceView::Floating(workspace@.name));
    assert(start =~= start + opened.take(0));
    for i in 0..workspace.floating.len()
        invariant
            opened == open_steps(workspace@.floating, PlaceView::Floating(workspace@.name)),
            steps_view(steps@) == start + opened.take(i as int),
    {
        let step = Step::Open(&workspace.floating[i], Place::Floating(&workspace.name));
        proof {
            lemma_steps_push(steps@, step);
            assert(opened.take(i + 1) =~= opened.take(i as int).push(opened[i as int]));
        }
        steps.push(step);
        assert(steps_view(steps@) =~= start + opened.take(i + 1));
    }
    assert(opened.take(opened.len() as int) =~= opened);
    assert(steps_view(steps@) =~= before + workspace_steps(workspace@));
}

/// The steps that restore `session`
pub fn restore<'a>(session: &'a Session) -> (steps: Vec<Step<'a>>)
    ensures
        steps_view(steps@) == session_steps(session@),
{
    let mut steps: Vec<Step<'a>> = Vec::new();
    let ghost views = session::workspaces_view(session.workspaces@);
    assert(steps_view(steps@) =~= workspaces_steps(views.take(0)));
    for i in 0..session.workspaces.len()
        invariant
            views == session::workspaces_view(session.workspaces@),
            steps_view(steps@) == workspaces_steps(views.take(i as int)),
    {
        add_workspace(&mut steps, &session.workspaces[i]);
        proof {
            assert(views.take(i + 1).drop_last() =~= views.take(i as int));
            assert(views.take(i + 1).last() == session.workspaces[i as int]@);
        }
    }
    assert(views.take(views.len() as int) =~= views);

    let unmarking = Step::Run(append_to("unmark ", MARK));
    proof {
        lemma_steps_push(steps@, unmarking);
    }
    steps.push(unmarking);

    let ghost start = steps_view(steps@);
    let ghost opened = open_steps(session@.scratchpad, PlaceView::Scratchpad);
    assert(start =~= start + opened.take(0));
    for i in 0..session.scratchpad.len()
        invariant
            opened == open_steps(session@.scratchpad, PlaceView::Scratchpad),
            steps_view(steps@) == start + opened.take(i as int),
    {
        let step = Step::Open(&session.scratchpad[i], Place::Scratchpad);
        proof {
            lemma_steps_push(steps@, step);
            assert(opened.take(i + 1) =~= opened.take(i as int).push(opened[i as int]));
        }
        steps.push(step);
        assert(steps_view(steps@) =~= start + opened.take(i + 1));
    }
    assert(opened.take(opened.len() as int) =~= opened);
    let ghost opened_all = steps_view(steps@);
    steps.push(Step::Settle);
    steps.push(Step::Finish);
    assert(steps_view(steps@) =~= opened_all + seq![StepView::Settle, StepView::Finish]);
    assert(steps_view(steps@) =~= session_steps(session@));
    steps
}

// Opening a window

/// What became of the program that was started for a window
#[derive(Debug)]
pub enum Attempt {
    /// The program could not be started.
    NotStarted(String),
    /// No window appeared in time.
    TimedOut,
    /// sway closed the event stream.
    Disconnected,
    /// The window with this container id appeared.
    Appeared(i64),
}

/// What there is to report about a window that is skipped, given the argument vector of its program
/// as `{:?}` writes it.
pub open spec fn skip_report(argv: Seq<char>, attempt: Attempt) -> Option<Seq<char>> {
    match attempt {
        Attempt::NotStarted(e) => Some("cannot start "@ + argv + ": "@ + e@),
        Attempt::TimedOut => Some("no window appeared for "@ + argv),
        Attempt::Disconnected | Attempt::Appeared(_) => None,
    }
}

/// Whether `outcome` is the one that an attempt to open a window comes to: the window that appeared,
/// or a report on why it is skipped, or the error that ends the restore.
pub open spec fn is_outcome(
    outcome: Result<(Option<i64>, Option<String>), String>,
    argv: Seq<char>,
    attempt: Attempt,
) -> bool {
    match outcome {
        Err(e) => attempt is Disconnected && e@ == "sway closed the event stream"@,
        Ok((id, report)) => {
            &&& attempt !is Disconnected
            &&& id == (match attempt {
                Attempt::Appeared(id) => Some(id),
                _ => None,
            })
            &&& text::option_view(report) == skip_report(argv, attempt)
        },
    }
}

/// What an attempt to open a window comes to, where `argv` is the argument vector of its program as
/// `{:?}` writes it
pub fn outcome_of(argv: &str, attempt: &Attempt) -> (outcome: Result<
    (Option<i64>, Option<String>),
    String,
>)
    ensures
        is_outcome(outcome, argv@, *attempt),
{
    match attempt {
        Attempt::NotStarted(e) => {
            let mut report = String::new();
            report.append("cannot start ");
            report.append(argv);
            report.append(": ");
            report.append(e.as_str());
            assert(report@ =~= "cannot start "@ + argv@ + ": "@ + e@);
            Ok((None, Some(report)))
        },
        Attempt::TimedOut => Ok((None, Some(append_to("no window appeared for ", argv)))),
        Attempt::Disconnected => Err("sway closed the event stream".to_owned()),
        Attempt::Appeared(id) => Ok((Some(*id), None)),
    }
}

/// The id of the window from sway for which the program was started that is recorded for `window`.
/// A program that cannot be started or never maps to a window is skipped, with a report.
pub fn spawn_and_wait(window: &Window, attempt: &Attempt) -> (outcome: Result<
    (Option<i64>, Option<String>),
    String,
>)
    ensures
        is_outcome(outcome, session::list_text(text::strings_view(window.argv@)), *attempt),
{
    outcome_of(session::debug_list(&window.argv).as_str(), attempt)
}

// Taking the steps

/// What a restore has come to: what became of the tiling windows of the workspace at hand, and the
/// windows whose state is applied once every window has been started
#[derive(Debug)]
pub struct Restorer {
    opened: Vec<Option<i64>>,
    floating: Vec<(i64, Rect)>,
    scratchpad: Vec<i64>,
    fullscreen: Vec<i64>,
    focused: Option<i64>,
}

/// What a [`Restorer`] holds.
pub struct RestorerView {
    pub opened: Seq<Option<i64>>,
    pub floating: Seq<(i64, Rect)>,
    pub scratchpad: Seq<i64>,
    pub fullscreen: Seq<i64>,
    pub focused: Option<i64>,
}

impl View for Restorer {
    type V = RestorerView;

    closed spec fn view(&self) -> RestorerView {
        RestorerView {
            opened: self.opened@,
            floating: self.floating@,
            scratchpad: self.scratchpad@,
            fullscreen: self.fullscreen@,
            focused: self.focused,
        }
    }
}

/// A restore that has not begun.
pub open spec fn fresh() -> RestorerView {
    RestorerView {
        opened: Seq::empty(),
        floating: Seq::empty(),
        scratchpad: Seq::empty(),
        fullscreen: Seq::empty(),
        focused: None,
    }
}

/// The state in which fullscreen and focus of a window that appeared on a workspace are remembered.
pub open spec fn remembered(state: RestorerView, window: WindowView, id: i64) -> RestorerView {
    RestorerView {
        fullscreen: if window.fullscreen {
            state.fullscreen.push(id)
        } else {
            state.fullscreen
        },
        focused: if window.focused {
            Some(id)
        } else {
            state.focused
        },
        ..state
    }
}

/// The state after a step, where `id` is the window that the step opened.
pub open spec fn after(state: RestorerView, step: StepView, id: Option<i64>) -> RestorerView {
    match (step, id) {
        (StepView::Open(window, PlaceView::Tiled(_)), Some(id)) => RestorerView {
            opened: state.opened.push(Some(id)),
            ..remembered(state, window, id)
        },
        (StepView::Open(_, PlaceView::Tiled(_)), None) => RestorerView {
            opened: state.opened.push(None),
            ..state
        },
        (StepView::Open(window, PlaceView::Floating(_)), Some(id)) => RestorerView {
            floating: state.floating.push((id, window.rect)),
            ..remembered(state, window, id)
        },
        (StepView::Open(window, PlaceView::Scratchpad), Some(id)) => RestorerView {
            floating: state.floating.push((id, window.rect)),
            scratchpad: state.scratchpad.push(id),
            ..state
        },
        (StepView::Arrange(_), _) => RestorerView { opened: Seq::empty(), ..state },
        _ => state,
    }
}

/// The commands that give each floating window its size and its position.
pub open spec fn geometry_commands(floating: Seq<(i64, Rect)>) -> Seq<Seq<char>>
    decreases floating.len(),
{
    if floating.len() == 0 {
        Seq::empty()
    } else {
        let (id, rect) = floating.last();
        geometry_commands(floating.drop_last()) + seq![resize(id, rect), move_to_position(id, rect)]
    }
}

/// The same command for each of a list of windows.
pub open spec fn each_command(ids: Seq<i64>, what: Seq<char>) -> Seq<Seq<char>> {
    ids.map_values(|id: i64| command_for(id, what))
}

/// The commands that give the windows their final geometry and state.
pub open spec fn finish_commands(state: RestorerView) -> Seq<Seq<char>> {
    geometry_commands(state.floating) + each_command(state.scratchpad, "move scratchpad"@)
        + each_command(state.fullscreen, "fullscreen enable"@) + (match state.focused {
        Some(id) => seq![command_for(id, "focus"@)],
        None => Seq::empty(),
    })
}

/// The commands that a step asks for, where `id` is the window that the step opened.
pub open spec fn asked(state: RestorerView, step: StepView, id: Option<i64>) -> Seq<Seq<char>> {
    match (step, id) {
        (StepView::Run(command), _) => seq![command],
        (StepView::Open(_, PlaceView::Tiled(name)), Some(id)) => seq![move_to_workspace(id, name)],
        (StepView::Open(_, PlaceView::Floating(name)), Some(id)) => seq![
            move_to_workspace(id, name),
            command_for(id, "floating enable"@),
        ],
        (StepView::Open(_, PlaceView::Scratchpad), Some(id)) => seq![
            command_for(id, "floating enable"@),
        ],
        (StepView::Open(..), None) => Seq::empty(),
        (StepView::Arrange(tiles), _) => {
            let placed = place_tiles(tiles, state.opened).0;
            line_up_commands(placed) + arrange_all_commands(placed)
        },
        (StepView::Settle, _) => Seq::empty(),
        (StepView::Finish, _) => finish_commands(state),
    }
}

impl Restorer {
    /// A restore that has not begun
    pub fn new() -> (restorer: Restorer)
        ensures
            restorer@ == fresh(),
    {
        Restorer {
            opened: Vec::new(),
            floating: Vec::new(),
            scratchpad: Vec::new(),
            fullscreen: Vec::new(),
            focused: None,
        }
    }

    fn remember(&mut self, window: &Window, id: i64)
        ensures
            final(self)@ == remembered(old(self)@, window@, id),
    {
        if window.fullscreen {
            self.fullscreen.push(id);
        }
        if window.focused {
            self.focused = Some(id);
        }
    }

    fn move_window(id: i64, name: &String) -> (moving: String)
        ensures
            moving@ == move_to_workspace(id, name@),
    {
        let target = quote(name.as_str());
        command(id, append_to("move container to workspace ", target.as_str()).as_str())
    }

    fn open(&mut self, window: &Window, place: &Place<'_>, id: i64) -> (commands: Vec<String>)
        ensures
            final(self)@ == after(old(self)@, StepView::Open(window@, place@), Some(id)),
            text::strings_view(commands@) == asked(
                old(self)@,
                StepView::Open(window@, place@),
                Some(id),
            ),
    {
        let mut commands: Vec<String> = Vec::new();
        match place {
            Place::Tiled(name) => {
                commands.push(Restorer::move_window(id, name));
                self.remember(window, id);
                self.opened.push(Some(id));
            },
            Place::Floating(name) => {
                commands.push(Restorer::move_window(id, name));
                commands.push(command(id, "floating enable"));
                self.remember(window, id);
                self.floating.push((id, window.rect));
            },
            Place::Scratchpad => {
                commands.push(command(id, "floating enable"));
                self.floating.push((id, window.rect));
                self.scratchpad.push(id);
            },
        }
        assert(text::strings_view(commands@) =~= asked(
            old(self)@,
            StepView::Open(window@, place@),
            Some(id),
        ));
        commands
    }

    fn finish(&self) -> (commands: Vec<String>)
        ensures
            text::strings_view(commands@) == finish_commands(self@),
    {
        let mut commands: Vec<String> = Vec::new();
        assert(text::strings_view(commands@) =~= geometry_commands(self.floating@.take(0)));
        for i in 0..self.floating.len()
            invariant
                text::strings_view(commands@) == geometry_commands(self.floating@.take(i as int)),
        {
            let ghost so_far = text::strings_view(commands@);
            let (id, rect) = self.floating[i];
            let mut size = String::new();
            size.append("resize set width ");
            text::push_int(&mut size, rect.width as i64);
            size.append(" px height ");
            text::push_int(&mut size, rect.height as i64);
            size.append(" px");
            let mut position = String::new();
            position.append("move absolute position ");
            text::push_int(&mut position, rect.x as i64);
            position.append(" ");
            text::push_int(&mut position, rect.y as i64);
            let resizing = command(id, size.as_str());
            let moving = command(id, position.as_str());
            commands.push(resizing);
            commands.push(moving);
            proof {
                assert(resizing@ =~= resize(id, rect));
                assert(moving@ =~= move_to_position(id, rect));
                assert(text::strings_view(commands@) =~= so_far + seq![resizing@, moving@]);
                assert(self.floating@.take(i + 1).drop_last() =~= self.floating@.take(i as int));
            }
        }
        assert(self.floating@.take(self.floating@.len() as int) =~= self.floating@);
        command_each(&mut commands, &self.scratchpad, "move scratchpad");
        command_each(&mut commands, &self.fullscreen, "fullscreen enable");
        if let Some(id) = self.focused {
            commands.push(command(id, "focus"));
        }
        assert(text::strings_view(commands@) =~= finish_commands(self@));
        commands
    }

    /// Takes `step`, where `id` is the window that it opened, and returns the commands that sway
    /// has to run
    pub fn perform(&mut self, step: &Step<'_>, id: Option<i64>) -> (commands: Vec<String>)
        ensures
            final(self)@ == after(old(self)@, step@, id),
            text::strings_view(commands@) == asked(old(self)@, step@, id),
    {
        let mut commands: Vec<String> = Vec::new();
        match step {
            Step::Run(command) => {
                commands.push(command.clone());
                assert(text::strings_view(commands@) =~= seq![command@]);
            },
            Step::Open(window, place) => match id {
                Some(id) => {
                    return self.open(window, place, id);
                },
                None => {
                    if let Place::Tiled(_) = place {
                        self.opened.push(None);
                    }
                    assert(text::strings_view(commands@) =~= Seq::empty());
                },
            },
            Step::Arrange(tiles) => {
                let placed = place(tiles, &self.opened);
                proof {
                    law_placed_splits_are_splits(session::tiles_view(tiles@), self.opened@);
                    lemma_all_splits_hold_fewer(all_placed_view(placed@));
                    lemma_all_have_first(all_placed_view(placed@));
                    lemma_all_placed_view(placed@);
                }
                assert(text::strings_view(commands@) =~= Seq::empty());
                line_up(&mut commands, &placed);
                arrange_all(&mut commands, &placed);
                self.opened = Vec::new();
                assert(text::strings_view(commands@) =~= asked(old(self)@, step@, id));
            },
            Step::Settle => {
                assert(text::strings_view(commands@) =~= Seq::empty());
            },
            Step::Finish => {
                return self.finish();
            },
        }
        commands
    }
}

fn command_each(out: &mut Vec<String>, ids: &Vec<i64>, what: &str)
    ensures
        text::strings_view(final(out)@) == text::strings_view(old(out)@) + each_command(
            ids@,
            what@,
        ),
{
    let ghost before = text::strings_view(out@);
    let ghost wanted = each_command(ids@, what@);
    assert(text::strings_view(out@) =~= before + wanted.take(0));
    for i in 0..ids.len()
        invariant
            wanted == each_command(ids@, what@),
            text::strings_view(out@) == before + wanted.take(i as int),
    {
        let ghost so_far = text::strings_view(out@);
        let next = command(ids[i], what);
        out.push(next);
        assert(text::strings_view(out@) =~= so_far.push(next@));
        assert(wanted.take(i + 1) =~= wanted.take(i as int).push(next@));
    }
    assert(wanted.take(ids@.len() as int) =~= wanted);
}

} // verus!

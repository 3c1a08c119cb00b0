//! What the commands that put the tiles of a workspace back are for: on a model of sway's tree they
//! turn windows that stand side by side into the tree that was saved.

use crate::restore;
use crate::restore::{PlacedView, RestorerView, StepView};
use crate::restore_laws;
use crate::session;
use crate::session::{Layout, TileView};
use crate::text;
use vstd::prelude::*;

verus! {

// A model of sway

/// A command of sway for the window with a given container id.
pub enum SwayCommand {
    /// Put the window into a container of its own, a vertical or a horizontal one.
    Split { id: i64, vertical: bool },
    /// Change the layout of the container that the window is in.
    Layout { id: i64, layout: Layout },
    /// Mark the window.
    Mark { id: i64 },
    /// Move the window right behind the marked one.
    MoveToMark { id: i64 },
}

/// The text of a command.
pub open spec fn text_of(command: SwayCommand) -> Seq<char> {
    match command {
        SwayCommand::Split { id, vertical } => "[con_id="@ + text::decimal(id as int) + (
        if vertical {
            "] splitv"@
        } else {
            "] splith"@
        }),
        SwayCommand::Layout { id, layout } => "[con_id="@ + text::decimal(id as int) + (
        match layout {
            Layout::SplitH => "] layout splith"@,
            Layout::SplitV => "] layout splitv"@,
            Layout::Stacked => "] layout stacking"@,
            Layout::Tabbed => "] layout tabbed"@,
        }),
        SwayCommand::Mark { id } => "[con_id="@ + text::decimal(id as int) + "] mark _swaymnesia"@,
        SwayCommand::MoveToMark { id } => "[con_id="@ + text::decimal(id as int)
            + "] move container to mark _swaymnesia"@,
    }
}

/// The texts of a list of commands.
pub open spec fn texts_of(commands: Seq<SwayCommand>) -> Seq<Seq<char>> {
    commands.map_values(|command: SwayCommand| text_of(command))
}

/// A workspace of sway: its layout, the containers on it, and the window that is marked.
pub struct Desk {
    pub layout: Layout,
    pub tree: Seq<PlacedView>,
    pub marked: Option<i64>,
}

/// What takes the place of a container, if `image` takes the place of each window in it.
pub open spec fn replaced(con: PlacedView, image: spec_fn(i64) -> Seq<PlacedView>) -> Seq<PlacedView>
    decreases con,
{
    match con {
        PlacedView::Window(id) => image(id),
        PlacedView::Split(layout, children) => seq![
            PlacedView::Split(layout, all_replaced(children, image)),
        ],
    }
}

/// What takes the place of containers, if `image` takes the place of each window in them.
pub open spec fn all_replaced(
    cons: Seq<PlacedView>,
    image: spec_fn(i64) -> Seq<PlacedView>,
) -> Seq<PlacedView>
    decreases cons,
{
    if cons.len() == 0 {
        Seq::empty()
    } else {
        all_replaced(cons.drop_last(), image) + replaced(cons.last(), image)
    }
}

/// Containers, with the layout changed of each of them that a window is directly in.
pub open spec fn relaid(con: PlacedView, id: i64, layout: Layout) -> PlacedView
    decreases con,
{
    match con {
        PlacedView::Window(_) => con,
        PlacedView::Split(before, children) => PlacedView::Split(
            if children.contains(PlacedView::Window(id)) {
                layout
            } else {
                before
            },
            all_relaid(children, id, layout),
        ),
    }
}

/// A list of containers, with the layout changed of each container below that a window is directly
/// in.
pub open spec fn all_relaid(cons: Seq<PlacedView>, id: i64, layout: Layout) -> Seq<PlacedView>
    decreases cons,
{
    if cons.len() == 0 {
        Seq::empty()
    } else {
        all_relaid(cons.drop_last(), id, layout).push(relaid(cons.last(), id, layout))
    }
}

/// Puts one window into a container of its own.
pub open spec fn wrapping(id: i64, layout: Layout) -> spec_fn(i64) -> Seq<PlacedView> {
    |x: i64|
        if x == id {
            seq![PlacedView::Split(layout, seq![PlacedView::Window(id)])]
        } else {
            seq![PlacedView::Window(x)]
        }
}

/// Takes one window away.
pub open spec fn removing(id: i64) -> spec_fn(i64) -> Seq<PlacedView> {
    |x: i64|
        if x == id {
            Seq::empty()
        } else {
            seq![PlacedView::Window(x)]
        }
}

/// Puts a window right behind another one.
pub open spec fn inserting(behind: i64, id: i64) -> spec_fn(i64) -> Seq<PlacedView> {
    |x: i64|
        if x == behind {
            seq![PlacedView::Window(behind), PlacedView::Window(id)]
        } else {
            seq![PlacedView::Window(x)]
        }
}

/// What sway does on a command.
pub open spec fn step(desk: Desk, command: SwayCommand) -> Desk {
    match command {
        SwayCommand::Split { id, vertical } => Desk {
            tree: all_replaced(
                desk.tree,
                wrapping(
                    id,
                    if vertical {
                        Layout::SplitV
                    } else {
                        Layout::SplitH
                    },
                ),
            ),
            ..desk
        },
        SwayCommand::Layout { id, layout } => Desk {
            layout: if desk.tree.contains(PlacedView::Window(id)) {
                layout
            } else {
                desk.layout
            },
            tree: all_relaid(desk.tree, id, layout),
            ..desk
        },
        SwayCommand::Mark { id } => Desk { marked: Some(id), ..desk },
        SwayCommand::MoveToMark { id } => match desk.marked {
            Some(behind) => if behind == id {
                desk
            } else {
                Desk {
                    tree: all_replaced(
                        all_replaced(desk.tree, removing(id)),
                        inserting(behind, id),
                    ),
                    ..desk
                }
            },
            None => desk,
        },
    }
}

/// What sway does on commands, one after the other.
pub open spec fn run(desk: Desk, commands: Seq<SwayCommand>) -> Desk
    decreases commands.len(),
{
    if commands.len() == 0 {
        desk
    } else {
        step(run(desk, commands.drop_last()), commands.last())
    }
}

/// Windows that stand side by side.
pub open spec fn side_by_side(ids: Seq<i64>) -> Seq<PlacedView> {
    ids.map_values(|id: i64| PlacedView::Window(id))
}

// Replacing windows

proof fn lemma_replaced_both(
    a: Seq<PlacedView>,
    b: Seq<PlacedView>,
    image: spec_fn(i64) -> Seq<PlacedView>,
)
    ensures
        all_replaced(a + b, image) == all_replaced(a, image) + all_replaced(b, image),
    decreases b.len(),
{
    if b.len() == 0 {
        assert(a + b =~= a);
        assert(all_replaced(a + b, image) =~= all_replaced(a, image) + all_replaced(b, image));
    } else {
        assert((a + b).drop_last() =~= a + b.drop_last());
        lemma_replaced_both(a, b.drop_last(), image);
        assert(all_replaced(a + b, image) =~= all_replaced(a, image) + all_replaced(b, image));
    }
}

proof fn lemma_replaced_one(con: PlacedView, image: spec_fn(i64) -> Seq<PlacedView>)
    ensures
        all_replaced(seq![con], image) == replaced(con, image),
{
    assert(seq![con].drop_last() =~= Seq::empty());
    assert(all_replaced(Seq::empty(), image) =~= Seq::empty());
    assert(all_replaced(seq![con], image) =~= replaced(con, image));
}

/// One replacement after another.
spec fn followed(
    first: spec_fn(i64) -> Seq<PlacedView>,
    second: spec_fn(i64) -> Seq<PlacedView>,
) -> spec_fn(i64) -> Seq<PlacedView> {
    |x: i64| all_replaced(first(x), second)
}

proof fn lemma_followed_one(
    con: PlacedView,
    first: spec_fn(i64) -> Seq<PlacedView>,
    second: spec_fn(i64) -> Seq<PlacedView>,
)
    ensures
        all_replaced(replaced(con, first), second) == replaced(con, followed(first, second)),
    decreases con,
{
    match con {
        PlacedView::Window(_) => {},
        PlacedView::Split(layout, children) => {
            lemma_followed(children, first, second);
            lemma_replaced_one(PlacedView::Split(layout, all_replaced(children, first)), second);
        },
    }
}

proof fn lemma_followed(
    cons: Seq<PlacedView>,
    first: spec_fn(i64) -> Seq<PlacedView>,
    second: spec_fn(i64) -> Seq<PlacedView>,
)
    ensures
        all_replaced(all_replaced(cons, first), second) == all_replaced(
            cons,
            followed(first, second),
        ),
    decreases cons,
{
    if cons.len() > 0 {
        lemma_followed(cons.drop_last(), first, second);
        lemma_followed_one(cons.last(), first, second);
        lemma_replaced_both(
            all_replaced(cons.drop_last(), first),
            replaced(cons.last(), first),
            second,
        );
    }
}

proof fn lemma_fixed_one(con: PlacedView, image: spec_fn(i64) -> Seq<PlacedView>)
    requires
        forall|x: i64| #[trigger]
            restore_laws::placed_windows(con).contains(x) ==> image(x) == seq![PlacedView::Window(x)],
    ensures
        replaced(con, image) == seq![con],
    decreases con,
{
    match con {
        PlacedView::Window(id) => {
            assert(restore_laws::placed_windows(con)[0] == id);
            assert(restore_laws::placed_windows(con).contains(id));
        },
        PlacedView::Split(_, children) => {
            assert(restore_laws::placed_windows(con) == restore_laws::all_placed_windows(children));
            lemma_fixed(children, image);
        },
    }
}

proof fn lemma_fixed(cons: Seq<PlacedView>, image: spec_fn(i64) -> Seq<PlacedView>)
    requires
        forall|x: i64| #[trigger]
            restore_laws::all_placed_windows(cons).contains(x) ==> image(x) == seq![
                PlacedView::Window(x),
            ],
    ensures
        all_replaced(cons, image) == cons,
    decreases cons,
{
    if cons.len() > 0 {
        let before = restore_laws::all_placed_windows(cons.drop_last());
        let here = restore_laws::placed_windows(cons.last());
        assert forall|x: i64| #[trigger] before.contains(x) implies image(x) == seq![
            PlacedView::Window(x),
        ] by {
            let i = choose|i: int| 0 <= i < before.len() && before[i] == x;
            assert((before + here)[i] == x);
            assert(restore_laws::all_placed_windows(cons).contains(x));
        }
        assert forall|x: i64| #[trigger] here.contains(x) implies image(x) == seq![
            PlacedView::Window(x),
        ] by {
            let i = choose|i: int| 0 <= i < here.len() && here[i] == x;
            assert((before + here)[before.len() + i] == x);
            assert(restore_laws::all_placed_windows(cons).contains(x));
        }
        lemma_fixed(cons.drop_last(), image);
        lemma_fixed_one(cons.last(), image);
        assert(cons.drop_last() + seq![cons.last()] =~= cons);
    } else {
        assert(cons =~= Seq::empty());
    }
}

// What commands come to

/// Whether commands, wherever they are run, do to the tree what `image` does, and keep the layout of
/// the workspace.
spec fn act_as(commands: Seq<SwayCommand>, image: spec_fn(i64) -> Seq<PlacedView>) -> bool {
    forall|desk: Desk|
        (#[trigger] run(desk, commands)).tree == all_replaced(desk.tree, image) && run(
            desk,
            commands,
        ).layout == desk.layout
}

proof fn lemma_run_both(desk: Desk, a: Seq<SwayCommand>, b: Seq<SwayCommand>)
    ensures
        run(desk, a + b) == run(run(desk, a), b),
    decreases b.len(),
{
    if b.len() == 0 {
        assert(a + b =~= a);
    } else {
        assert((a + b).drop_last() =~= a + b.drop_last());
        lemma_run_both(desk, a, b.drop_last());
    }
}

proof fn lemma_act_both(
    a: Seq<SwayCommand>,
    b: Seq<SwayCommand>,
    first: spec_fn(i64) -> Seq<PlacedView>,
    second: spec_fn(i64) -> Seq<PlacedView>,
)
    requires
        act_as(a, first),
        act_as(b, second),
    ensures
        act_as(a + b, followed(first, second)),
{
    assert forall|desk: Desk|
        (#[trigger] run(desk, a + b)).tree == all_replaced(desk.tree, followed(first, second))
            && run(desk, a + b).layout == desk.layout by {
        lemma_run_both(desk, a, b);
        let mid = run(desk, a);
        assert(run(mid, b).tree == all_replaced(mid.tree, second));
        lemma_followed(desk.tree, first, second);
    }
}

proof fn lemma_act_nothing()
    ensures
        act_as(Seq::empty(), |x: i64| seq![PlacedView::Window(x)]),
{
    let image = |x: i64| seq![PlacedView::Window(x)];
    assert forall|desk: Desk|
        (#[trigger] run(desk, Seq::empty())).tree == all_replaced(desk.tree, image) && run(
            desk,
            Seq::empty(),
        ).layout == desk.layout by {
        lemma_fixed(desk.tree, image);
    }
}

/// Moves one window right behind another one.
spec fn moving(behind: i64, id: i64) -> spec_fn(i64) -> Seq<PlacedView> {
    |x: i64|
        if x == id {
            Seq::empty()
        } else if x == behind {
            seq![PlacedView::Window(behind), PlacedView::Window(id)]
        } else {
            seq![PlacedView::Window(x)]
        }
}

proof fn lemma_act_move(behind: i64, id: i64)
    requires
        behind != id,
    ensures
        act_as(
            seq![SwayCommand::Mark { id: behind }, SwayCommand::MoveToMark { id }],
            moving(behind, id),
        ),
{
    let commands = seq![SwayCommand::Mark { id: behind }, SwayCommand::MoveToMark { id }];
    assert forall|desk: Desk|
        (#[trigger] run(desk, commands)).tree == all_replaced(desk.tree, moving(behind, id)) && run(
            desk,
            commands,
        ).layout == desk.layout by {
        assert(commands.drop_last() =~= seq![SwayCommand::Mark { id: behind }]);
        assert(seq![SwayCommand::Mark { id: behind }].drop_last() =~= Seq::empty());
        reveal_with_fuel(run, 3);
        assert(run(desk, commands.drop_last()) == (Desk { marked: Some(behind), ..desk }));
        lemma_followed(desk.tree, removing(id), inserting(behind, id));
        assert forall|x: i64|
            #[trigger] followed(removing(id), inserting(behind, id))(x) == moving(behind, id)(x) by {
            lemma_replaced_one(PlacedView::Window(x), inserting(behind, id));
        }
        assert(followed(removing(id), inserting(behind, id)) =~= moving(behind, id));
    }
}

proof fn lemma_relaid_one(con: PlacedView, id: i64, before: Layout, layout: Layout)
    ensures
        all_relaid(replaced(con, wrapping(id, before)), id, layout) == replaced(
            con,
            wrapping(id, layout),
        ),
        !replaced(con, wrapping(id, before)).contains(PlacedView::Window(id)),
    decreases con,
{
    let wrapped = replaced(con, wrapping(id, before));
    let inner = seq![PlacedView::Window(id)];
    reveal_with_fuel(all_relaid, 2);
    reveal_with_fuel(relaid, 2);
    assert(wrapped.len() == 1);
    assert(wrapped.drop_last() =~= Seq::empty());
    assert(inner.drop_last() =~= Seq::empty());
    assert(all_relaid(Seq::empty(), id, layout) =~= Seq::empty());
    match con {
        PlacedView::Window(x) => {
            if x == id {
                assert(inner[0] == PlacedView::Window(id));
                assert(inner.contains(PlacedView::Window(id)));
                assert(all_relaid(inner, id, layout) =~= inner);
            }
        },
        PlacedView::Split(_, children) => {
            lemma_relaid(children, id, before, layout);
        },
    }
    assert(all_relaid(wrapped, id, layout) =~= replaced(con, wrapping(id, layout)));
}

proof fn lemma_relaid_both(a: Seq<PlacedView>, b: Seq<PlacedView>, id: i64, layout: Layout)
    ensures
        all_relaid(a + b, id, layout) == all_relaid(a, id, layout) + all_relaid(b, id, layout),
    decreases b.len(),
{
    if b.len() == 0 {
        assert(a + b =~= a);
        assert(all_relaid(a + b, id, layout) =~= all_relaid(a, id, layout) + all_relaid(
            b,
            id,
            layout,
        ));
    } else {
        assert((a + b).drop_last() =~= a + b.drop_last());
        lemma_relaid_both(a, b.drop_last(), id, layout);
        assert(all_relaid(a + b, id, layout) =~= all_relaid(a, id, layout) + all_relaid(
            b,
            id,
            layout,
        ));
    }
}

proof fn lemma_relaid(cons: Seq<PlacedView>, id: i64, before: Layout, layout: Layout)
    ensures
        all_relaid(all_replaced(cons, wrapping(id, before)), id, layout) == all_replaced(
            cons,
            wrapping(id, layout),
        ),
        !all_replaced(cons, wrapping(id, before)).contains(PlacedView::Window(id)),
    decreases cons,
{
    if cons.len() > 0 {
        let a = all_replaced(cons.drop_last(), wrapping(id, before));
        let b = replaced(cons.last(), wrapping(id, before));
        lemma_relaid(cons.drop_last(), id, before, layout);
        lemma_relaid_one(cons.last(), id, before, layout);
        lemma_relaid_both(a, b, id, layout);
        if (a + b).contains(PlacedView::Window(id)) {
            let i = choose|i: int| 0 <= i < (a + b).len() && (a + b)[i] == PlacedView::Window(id);
            if i < a.len() {
                assert(a[i] == PlacedView::Window(id));
            } else {
                assert(b[i - a.len()] == PlacedView::Window(id));
            }
        }
    }
}

proof fn lemma_act_split(id: i64, vertical: bool, layout: Layout)
    ensures
        act_as(
            seq![SwayCommand::Split { id, vertical }, SwayCommand::Layout { id, layout }],
            wrapping(id, layout),
        ),
{
    let commands = seq![SwayCommand::Split { id, vertical }, SwayCommand::Layout { id, layout }];
    let before = if vertical {
        Layout::SplitV
    } else {
        Layout::SplitH
    };
    assert forall|desk: Desk|
        (#[trigger] run(desk, commands)).tree == all_replaced(desk.tree, wrapping(id, layout))
            && run(desk, commands).layout == desk.layout by {
        assert(commands.drop_last() =~= seq![SwayCommand::Split { id, vertical }]);
        assert(seq![SwayCommand::Split { id, vertical }].drop_last() =~= Seq::empty());
        reveal_with_fuel(run, 3);
        assert(run(desk, commands.drop_last()) == (Desk {
            tree: all_replaced(desk.tree, wrapping(id, before)),
            ..desk
        }));
        lemma_relaid(desk.tree, id, before, layout);
    }
}

// The windows of tiles

proof fn lemma_parts_distinct(a: Seq<i64>, b: Seq<i64>)
    requires
        (a + b).no_duplicates(),
    ensures
        a.no_duplicates(),
        b.no_duplicates(),
        forall|x: i64| a.contains(x) ==> !b.contains(x),
{
    assert forall|i: int, j: int| 0 <= i < a.len() && 0 <= j < a.len() && i != j implies a[i]
        != a[j] by {
        assert((a + b)[i] == a[i] && (a + b)[j] == a[j]);
    }
    assert forall|i: int, j: int| 0 <= i < b.len() && 0 <= j < b.len() && i != j implies b[i]
        != b[j] by {
        assert((a + b)[a.len() + i] == b[i] && (a + b)[a.len() + j] == b[j]);
    }
    assert forall|x: i64| a.contains(x) implies !b.contains(x) by {
        if b.contains(x) {
            let i = choose|i: int| 0 <= i < a.len() && a[i] == x;
            let j = choose|j: int| 0 <= j < b.len() && b[j] == x;
            assert((a + b)[i] == x && (a + b)[a.len() + j] == x);
        }
    }
}

proof fn lemma_either(a: Seq<i64>, b: Seq<i64>, x: i64)
    ensures
        (a + b).contains(x) <==> a.contains(x) || b.contains(x),
{
    if a.contains(x) {
        let i = choose|i: int| 0 <= i < a.len() && a[i] == x;
        assert((a + b)[i] == x);
    }
    if b.contains(x) {
        let i = choose|i: int| 0 <= i < b.len() && b[i] == x;
        assert((a + b)[a.len() + i] == x);
    }
    if (a + b).contains(x) {
        let i = choose|i: int| 0 <= i < (a + b).len() && (a + b)[i] == x;
        if i < a.len() {
            assert(a[i] == x);
        } else {
            assert(b[i - a.len()] == x);
        }
    }
}

proof fn lemma_first(tile: PlacedView)
    requires
        restore::splits_hold(tile, 1),
    ensures
        restore_laws::placed_windows(tile).len() > 0,
        restore_laws::placed_windows(tile)[0] == restore::first_of(tile),
        restore_laws::placed_windows(tile).contains(restore::first_of(tile)),
    decreases tile,
{
    match tile {
        PlacedView::Window(_) => {},
        PlacedView::Split(_, children) => {
            lemma_all_first(children);
        },
    }
    assert(restore_laws::placed_windows(tile)[0] == restore::first_of(tile));
}

proof fn lemma_all_first(tiles: Seq<PlacedView>)
    requires
        restore::all_splits_hold(tiles, 1),
    ensures
        tiles.len() > 0 ==> restore_laws::all_placed_windows(tiles).len() > 0
            && restore_laws::all_placed_windows(tiles)[0] == restore::first_of(tiles[0]),
    decreases tiles,
{
    if tiles.len() > 0 {
        lemma_all_first(tiles.drop_last());
        lemma_first(tiles.last());
        if tiles.len() == 1 {
            assert(tiles.drop_last() =~= Seq::empty());
            assert(restore_laws::all_placed_windows(tiles.drop_last()) =~= Seq::empty());
        } else {
            assert(tiles.drop_last()[0] == tiles[0]);
        }
    }
}

proof fn lemma_member(tiles: Seq<PlacedView>, i: int, x: i64)
    requires
        0 <= i < tiles.len(),
        restore_laws::placed_windows(tiles[i]).contains(x),
    ensures
        restore_laws::all_placed_windows(tiles).contains(x),
    decreases tiles.len(),
{
    let before = restore_laws::all_placed_windows(tiles.drop_last());
    lemma_either(before, restore_laws::placed_windows(tiles.last()), x);
    if i < tiles.len() - 1 {
        assert(tiles.drop_last()[i] == tiles[i]);
        lemma_member(tiles.drop_last(), i, x);
    }
}

/// What is known of the last tile of a list whose windows are all different.
proof fn lemma_last(tiles: Seq<PlacedView>)
    requires
        tiles.len() > 0,
        restore::all_splits_hold(tiles, 1),
        restore_laws::all_placed_windows(tiles).no_duplicates(),
    ensures
        restore::all_splits_hold(tiles.drop_last(), 1),
        restore::splits_hold(tiles.last(), 1),
        restore_laws::all_placed_windows(tiles.drop_last()).no_duplicates(),
        restore_laws::placed_windows(tiles.last()).no_duplicates(),
        forall|x: i64|
            restore_laws::all_placed_windows(tiles.drop_last()).contains(x)
                ==> !restore_laws::placed_windows(tiles.last()).contains(x),
        restore_laws::placed_windows(tiles.last()).contains(restore::first_of(tiles.last())),
{
    lemma_parts_distinct(
        restore_laws::all_placed_windows(tiles.drop_last()),
        restore_laws::placed_windows(tiles.last()),
    );
    lemma_first(tiles.last());
}

proof fn lemma_firsts_distinct(tiles: Seq<PlacedView>, i: int, j: int)
    requires
        restore::all_splits_hold(tiles, 1),
        restore_laws::all_placed_windows(tiles).no_duplicates(),
        0 <= i < j < tiles.len(),
    ensures
        restore::first_of(tiles[i]) != restore::first_of(tiles[j]),
    decreases tiles.len(),
{
    let rest = tiles.drop_last();
    lemma_last(tiles);
    assert(rest[i] == tiles[i]);
    if j < tiles.len() - 1 {
        assert(rest[j] == tiles[j]);
        lemma_firsts_distinct(rest, i, j);
    } else {
        restore::lemma_all_splits_hold(rest, 1);
        lemma_first(rest[i]);
        lemma_member(rest, i, restore::first_of(rest[i]));
    }
}

// Lining up

/// The first window of each tile.
spec fn firsts(tiles: Seq<PlacedView>) -> Seq<PlacedView> {
    tiles.map_values(|tile: PlacedView| PlacedView::Window(restore::first_of(tile)))
}

/// Whether a window is the first one of a tile of a list, but for the first tile.
spec fn leads_later(tiles: Seq<PlacedView>, x: i64) -> bool {
    exists|j: int| 1 <= j < tiles.len() && restore::first_of(#[trigger] tiles[j]) == x
}

/// Gathers the first window of each tile behind that of the first one.
spec fn gathering(tiles: Seq<PlacedView>) -> spec_fn(i64) -> Seq<PlacedView> {
    |x: i64|
        if tiles.len() > 0 && x == restore::first_of(tiles[0]) {
            firsts(tiles)
        } else if leads_later(tiles, x) {
            Seq::empty()
        } else {
            seq![PlacedView::Window(x)]
        }
}

spec fn line_up_of(tiles: Seq<PlacedView>) -> Seq<SwayCommand>
    decreases tiles.len(),
{
    if tiles.len() < 2 {
        Seq::empty()
    } else {
        line_up_of(tiles.drop_last()) + seq![
            SwayCommand::Mark { id: restore::first_of(tiles[tiles.len() - 2]) },
            SwayCommand::MoveToMark { id: restore::first_of(tiles.last()) },
        ]
    }
}

proof fn lemma_gathering(tiles: Seq<PlacedView>, x: i64)
    requires
        tiles.len() >= 2,
        restore::all_splits_hold(tiles, 1),
        restore_laws::all_placed_windows(tiles).no_duplicates(),
    ensures
        followed(
            gathering(tiles.drop_last()),
            moving(
                restore::first_of(tiles[tiles.len() - 2]),
                restore::first_of(tiles.last()),
            ),
        )(x) == gathering(tiles)(x),
{
    let rest = tiles.drop_last();
    let behind = restore::first_of(tiles[tiles.len() - 2]);
    let id = restore::first_of(tiles.last());
    let image = moving(behind, id);
    assert(rest[0] == tiles[0]);
    assert(rest[rest.len() - 1] == tiles[tiles.len() - 2]);
    assert forall|i: int, j: int| 0 <= i < j < tiles.len() implies restore::first_of(
        #[trigger] tiles[i],
    ) != restore::first_of(#[trigger] tiles[j]) by {
        lemma_firsts_distinct(tiles, i, j);
    }
    if x == restore::first_of(tiles[0]) {
        let before = firsts(rest).drop_last();
        assert(firsts(rest) =~= before + seq![PlacedView::Window(behind)]);
        lemma_replaced_both(before, seq![PlacedView::Window(behind)], image);
        lemma_replaced_one(PlacedView::Window(behind), image);
        assert(all_replaced(before, image) == before) by {
            lemma_untouched(before, image);
        }
        assert(firsts(tiles) =~= before + seq![
            PlacedView::Window(behind),
            PlacedView::Window(id),
        ]);
    } else if leads_later(rest, x) {
        let j = choose|j: int| 1 <= j < rest.len() && restore::first_of(#[trigger] rest[j]) == x;
        assert(restore::first_of(tiles[j]) == x);
        assert(all_replaced(Seq::empty(), image) =~= Seq::empty());
    } else {
        lemma_replaced_one(PlacedView::Window(x), image);
        if x == id {
            assert(restore::first_of(tiles[tiles.len() - 1]) == x);
        } else {
            if leads_later(tiles, x) {
                let j = choose|j: int|
                    1 <= j < tiles.len() && restore::first_of(#[trigger] tiles[j]) == x;
                assert(rest[j] == tiles[j]);
            }
            if x == behind {
                assert(restore::first_of(rest[rest.len() - 1]) == x);
            }
        }
    }
}

/// Windows that stand side by side stay as they are where none of them is touched.
proof fn lemma_untouched(cons: Seq<PlacedView>, image: spec_fn(i64) -> Seq<PlacedView>)
    requires
        forall|i: int|
            0 <= i < cons.len() ==> (#[trigger] cons[i] matches PlacedView::Window(x) && image(x)
                == seq![cons[i]]),
    ensures
        all_replaced(cons, image) == cons,
    decreases cons.len(),
{
    if cons.len() > 0 {
        assert forall|i: int| 0 <= i < cons.drop_last().len() implies (
        #[trigger] cons.drop_last()[i] matches PlacedView::Window(x) && image(x) == seq![
            cons.drop_last()[i],
        ]) by {
            assert(cons.drop_last()[i] == cons[i]);
        }
        lemma_untouched(cons.drop_last(), image);
        let _ = cons[cons.len() - 1];
        assert(replaced(cons.last(), image) == seq![cons.last()]);
        assert(cons.drop_last() + seq![cons.last()] =~= cons);
    } else {
        assert(cons =~= Seq::empty());
    }
}

proof fn lemma_line_up(tiles: Seq<PlacedView>)
    requires
        restore::all_splits_hold(tiles, 1),
        restore_laws::all_placed_windows(tiles).no_duplicates(),
    ensures
        act_as(line_up_of(tiles), gathering(tiles)),
    decreases tiles.len(),
{
    if tiles.len() < 2 {
        lemma_act_nothing();
        assert forall|x: i64| #[trigger] gathering(tiles)(x) == seq![PlacedView::Window(x)] by {
            if tiles.len() == 1 && x == restore::first_of(tiles[0]) {
                assert(firsts(tiles) =~= seq![PlacedView::Window(x)]);
            }
        }
        assert(gathering(tiles) =~= |x: i64| seq![PlacedView::Window(x)]);
    } else {
        let behind = restore::first_of(tiles[tiles.len() - 2]);
        let id = restore::first_of(tiles.last());
        lemma_last(tiles);
        lemma_line_up(tiles.drop_last());
        lemma_firsts_distinct(tiles, tiles.len() - 2, tiles.len() - 1);
        lemma_act_move(behind, id);
        lemma_act_both(
            line_up_of(tiles.drop_last()),
            seq![SwayCommand::Mark { id: behind }, SwayCommand::MoveToMark { id }],
            gathering(tiles.drop_last()),
            moving(behind, id),
        );
        assert forall|x: i64| #[trigger]
            followed(gathering(tiles.drop_last()), moving(behind, id))(x) == gathering(tiles)(x) by {
            lemma_gathering(tiles, x);
        }
        assert(followed(gathering(tiles.drop_last()), moving(behind, id)) =~= gathering(tiles));
    }
}

// Arranging

/// Puts a tile in the place of its first window, and takes its other windows away.
spec fn arranging(tile: PlacedView) -> spec_fn(i64) -> Seq<PlacedView> {
    |x: i64|
        if x == restore::first_of(tile) {
            seq![tile]
        } else if restore_laws::placed_windows(tile).contains(x) {
            Seq::empty()
        } else {
            seq![PlacedView::Window(x)]
        }
}

/// What takes the place of a window where each tile of a list takes the place of its first window.
spec fn placed_at(tiles: Seq<PlacedView>, x: i64) -> Seq<PlacedView>
    decreases tiles.len(),
{
    if tiles.len() == 0 {
        seq![PlacedView::Window(x)]
    } else if restore_laws::placed_windows(tiles.last()).contains(x) {
        arranging(tiles.last())(x)
    } else {
        placed_at(tiles.drop_last(), x)
    }
}

spec fn arranging_all(tiles: Seq<PlacedView>) -> spec_fn(i64) -> Seq<PlacedView> {
    |x: i64| placed_at(tiles, x)
}

spec fn arrange_of(tile: PlacedView) -> Seq<SwayCommand>
    decreases tile,
{
    match tile {
        PlacedView::Window(_) => Seq::empty(),
        PlacedView::Split(layout, children) => seq![
            SwayCommand::Split {
                id: restore::first_of(tile),
                vertical: layout is SplitV || layout is Stacked,
            },
            SwayCommand::Layout { id: restore::first_of(tile), layout },
        ] + line_up_of(children) + arrange_all_of(children),
    }
}

spec fn arrange_all_of(tiles: Seq<PlacedView>) -> Seq<SwayCommand>
    decreases tiles,
{
    if tiles.len() == 0 {
        Seq::empty()
    } else {
        arrange_all_of(tiles.drop_last()) + arrange_of(tiles.last())
    }
}

/// What takes the place of a window of the tiles holds no window of another tile.
proof fn lemma_placed_at(tiles: Seq<PlacedView>, x: i64)
    requires
        restore::all_splits_hold(tiles, 1),
        restore_laws::all_placed_windows(tiles).no_duplicates(),
    ensures
        !restore_laws::all_placed_windows(tiles).contains(x) ==> placed_at(tiles, x) == seq![
            PlacedView::Window(x),
        ],
        forall|i: int|
            0 <= i < tiles.len() && restore::first_of(#[trigger] tiles[i]) == x ==> placed_at(
                tiles,
                x,
            ) == seq![tiles[i]],
        restore_laws::all_placed_windows(tiles).contains(x) && (forall|i: int|
            0 <= i < tiles.len() ==> restore::first_of(#[trigger] tiles[i]) != x) ==> placed_at(
            tiles,
            x,
        ) == Seq::<PlacedView>::empty(),
        restore_laws::all_placed_windows(tiles).contains(x) ==> forall|y: i64| #[trigger]
            restore_laws::all_placed_windows(placed_at(tiles, x)).contains(y)
                ==> restore_laws::all_placed_windows(tiles).contains(y),
    decreases tiles.len(),
{
    if tiles.len() > 0 {
        let rest = tiles.drop_last();
        let before = restore_laws::all_placed_windows(rest);
        let here = restore_laws::placed_windows(tiles.last());
        lemma_last(tiles);
        lemma_placed_at(rest, x);
        lemma_either(before, here, x);
        if here.contains(x) {
            assert forall|i: int|
                0 <= i < tiles.len() && restore::first_of(#[trigger] tiles[i]) == x implies i
                == tiles.len() - 1 by {
                if i < tiles.len() - 1 {
                    restore::lemma_all_splits_hold(rest, 1);
                    assert(rest[i] == tiles[i]);
                    lemma_first(rest[i]);
                    lemma_member(rest, i, x);
                }
            }
            let one = seq![tiles.last()];
            assert(one.drop_last() =~= Seq::empty());
            assert(restore_laws::all_placed_windows(Seq::empty()) =~= Seq::empty());
            assert(restore_laws::all_placed_windows(one) =~= here);
            assert forall|y: i64| #[trigger]
                restore_laws::all_placed_windows(placed_at(tiles, x)).contains(y) implies
                restore_laws::all_placed_windows(tiles).contains(y) by {
                lemma_either(before, here, y);
            }
            if restore::first_of(tiles.last()) != x {
                assert(placed_at(tiles, x) == Seq::<PlacedView>::empty());
            } else {
                assert(tiles[tiles.len() - 1] == tiles.last());
            }
        } else {
            assert forall|i: int|
                0 <= i < tiles.len() && restore::first_of(#[trigger] tiles[i]) == x implies i
                < rest.len() && rest[i] == tiles[i] by {
                if i == tiles.len() - 1 {
                    assert(here.contains(x));
                }
            }
            if forall|i: int|
                0 <= i < tiles.len() ==> restore::first_of(#[trigger] tiles[i]) != x {
                assert forall|i: int| 0 <= i < rest.len() implies restore::first_of(
                    #[trigger] rest[i],
                ) != x by {
                    assert(rest[i] == tiles[i]);
                }
            }
            if before.contains(x) {
                assert forall|y: i64| #[trigger]
                    restore_laws::all_placed_windows(placed_at(tiles, x)).contains(y) implies
                    restore_laws::all_placed_windows(tiles).contains(y) by {
                    lemma_either(before, here, y);
                }
            }
        }
    }
}

proof fn lemma_arranging_next(tiles: Seq<PlacedView>, x: i64)
    requires
        tiles.len() > 0,
        restore::all_splits_hold(tiles, 1),
        restore_laws::all_placed_windows(tiles).no_duplicates(),
    ensures
        followed(arranging_all(tiles.drop_last()), arranging(tiles.last()))(x) == arranging_all(
            tiles,
        )(x),
{
    let rest = tiles.drop_last();
    let image = arranging(tiles.last());
    let here = restore_laws::placed_windows(tiles.last());
    lemma_last(tiles);
    lemma_placed_at(rest, x);
    if restore_laws::all_placed_windows(rest).contains(x) {
        assert forall|y: i64| #[trigger]
            restore_laws::all_placed_windows(placed_at(rest, x)).contains(y) implies image(y)
            == seq![PlacedView::Window(y)] by {
            assert(!here.contains(y));
        }
        lemma_fixed(placed_at(rest, x), image);
        assert(!here.contains(x));
    } else {
        lemma_replaced_one(PlacedView::Window(x), image);
        if !here.contains(x) {
            assert(x != restore::first_of(tiles.last()));
        }
    }
}

proof fn lemma_arrange_all(tiles: Seq<PlacedView>)
    requires
        restore::all_splits_hold(tiles, 1),
        restore_laws::all_placed_windows(tiles).no_duplicates(),
    ensures
        act_as(arrange_all_of(tiles), arranging_all(tiles)),
    decreases tiles,
{
    if tiles.len() == 0 {
        lemma_act_nothing();
        assert(arranging_all(tiles) =~= |x: i64| seq![PlacedView::Window(x)]);
    } else {
        lemma_last(tiles);
        lemma_arrange_all(tiles.drop_last());
        lemma_arrange(tiles.last());
        lemma_act_both(
            arrange_all_of(tiles.drop_last()),
            arrange_of(tiles.last()),
            arranging_all(tiles.drop_last()),
            arranging(tiles.last()),
        );
        assert forall|x: i64| #[trigger]
            followed(arranging_all(tiles.drop_last()), arranging(tiles.last()))(x)
                == arranging_all(tiles)(x) by {
            lemma_arranging_next(tiles, x);
        }
        assert(followed(arranging_all(tiles.drop_last()), arranging(tiles.last()))
            =~= arranging_all(tiles));
    }
}

/// Each first window that was gathered becomes its tile.
proof fn lemma_firsts_arranged(tiles: Seq<PlacedView>, count: int)
    requires
        restore::all_splits_hold(tiles, 1),
        restore_laws::all_placed_windows(tiles).no_duplicates(),
        0 <= count <= tiles.len(),
    ensures
        all_replaced(firsts(tiles).take(count), arranging_all(tiles)) == tiles.take(count),
    decreases count,
{
    if count == 0 {
        assert(all_replaced(firsts(tiles).take(0), arranging_all(tiles)) =~= tiles.take(0));
    } else {
        lemma_firsts_arranged(tiles, count - 1);
        let some = firsts(tiles).take(count);
        assert(some.drop_last() =~= firsts(tiles).take(count - 1));
        lemma_placed_at(tiles, restore::first_of(tiles[count - 1]));
        assert(some.last() == PlacedView::Window(restore::first_of(tiles[count - 1])));
        assert(replaced(some.last(), arranging_all(tiles)) == seq![tiles[count - 1]]);
        assert(tiles.take(count - 1) + seq![tiles[count - 1]] =~= tiles.take(count));
    }
}

/// What lining up and arranging come to: the tiles take the place of their very first window, and
/// their other windows are taken away.
spec fn rebuilding(tiles: Seq<PlacedView>) -> spec_fn(i64) -> Seq<PlacedView> {
    |x: i64|
        if tiles.len() > 0 && x == restore::first_of(tiles[0]) {
            tiles
        } else if restore_laws::all_placed_windows(tiles).contains(x) {
            Seq::empty()
        } else {
            seq![PlacedView::Window(x)]
        }
}

proof fn lemma_rebuilding(tiles: Seq<PlacedView>, x: i64)
    requires
        restore::all_splits_hold(tiles, 1),
        restore_laws::all_placed_windows(tiles).no_duplicates(),
    ensures
        followed(gathering(tiles), arranging_all(tiles))(x) == rebuilding(tiles)(x),
{
    lemma_placed_at(tiles, x);
    restore::lemma_all_splits_hold(tiles, 1);
    if tiles.len() > 0 && x == restore::first_of(tiles[0]) {
        lemma_firsts_arranged(tiles, tiles.len() as int);
        assert(firsts(tiles).take(tiles.len() as int) =~= firsts(tiles));
        assert(tiles.take(tiles.len() as int) =~= tiles);
    } else if leads_later(tiles, x) {
        let j = choose|j: int| 1 <= j < tiles.len() && restore::first_of(#[trigger] tiles[j]) == x;
        lemma_first(tiles[j]);
        lemma_member(tiles, j, x);
        assert(all_replaced(Seq::empty(), arranging_all(tiles)) =~= Seq::empty());
    } else {
        lemma_replaced_one(PlacedView::Window(x), arranging_all(tiles));
        assert forall|i: int| 0 <= i < tiles.len() implies restore::first_of(#[trigger] tiles[i])
            != x by {
            if i > 0 && restore::first_of(tiles[i]) == x {
                assert(leads_later(tiles, x));
            }
        }
    }
}

proof fn lemma_rebuild(tiles: Seq<PlacedView>)
    requires
        restore::all_splits_hold(tiles, 1),
        restore_laws::all_placed_windows(tiles).no_duplicates(),
    ensures
        act_as(line_up_of(tiles) + arrange_all_of(tiles), rebuilding(tiles)),
    decreases tiles, 1nat,
{
    lemma_line_up(tiles);
    lemma_arrange_all(tiles);
    lemma_act_both(
        line_up_of(tiles),
        arrange_all_of(tiles),
        gathering(tiles),
        arranging_all(tiles),
    );
    assert forall|x: i64| #[trigger]
        followed(gathering(tiles), arranging_all(tiles))(x) == rebuilding(tiles)(x) by {
        lemma_rebuilding(tiles, x);
    }
    assert(followed(gathering(tiles), arranging_all(tiles)) =~= rebuilding(tiles));
}

proof fn lemma_split_image(layout: Layout, children: Seq<PlacedView>, x: i64)
    requires
        children.len() > 0,
        restore::all_splits_hold(children, 1),
        restore_laws::all_placed_windows(children).no_duplicates(),
    ensures
        followed(
            wrapping(restore::first_of(PlacedView::Split(layout, children)), layout),
            rebuilding(children),
        )(x) == arranging(PlacedView::Split(layout, children))(x),
{
    let tile = PlacedView::Split(layout, children);
    let id = restore::first_of(tile);
    let image = rebuilding(children);
    assert(id == restore::first_of(children[0]));
    if x == id {
        lemma_replaced_one(PlacedView::Window(id), image);
        lemma_replaced_one(PlacedView::Split(layout, seq![PlacedView::Window(id)]), image);
    } else {
        lemma_replaced_one(PlacedView::Window(x), image);
    }
}

proof fn lemma_arrange(tile: PlacedView)
    requires
        restore::splits_hold(tile, 1),
        restore_laws::placed_windows(tile).no_duplicates(),
    ensures
        act_as(arrange_of(tile), arranging(tile)),
    decreases tile,
{
    match tile {
        PlacedView::Window(id) => {
            lemma_act_nothing();
            assert forall|x: i64| #[trigger] arranging(tile)(x) == seq![PlacedView::Window(x)] by {
                if restore_laws::placed_windows(tile).contains(x) {
                    assert(x == id);
                }
            }
            assert(arranging(tile) =~= |x: i64| seq![PlacedView::Window(x)]);
        },
        PlacedView::Split(layout, children) => {
            let id = restore::first_of(tile);
            let vertical = layout is SplitV || layout is Stacked;
            let wrap = seq![
                SwayCommand::Split { id, vertical },
                SwayCommand::Layout { id, layout },
            ];
            let rebuild = line_up_of(children) + arrange_all_of(children);
            lemma_act_split(id, vertical, layout);
            lemma_line_up(children);
            lemma_arrange_all(children);
            lemma_act_both(
                line_up_of(children),
                arrange_all_of(children),
                gathering(children),
                arranging_all(children),
            );
            assert forall|x: i64| #[trigger]
                followed(gathering(children), arranging_all(children))(x) == rebuilding(
                    children,
                )(x) by {
                lemma_rebuilding(children, x);
            }
            assert(followed(gathering(children), arranging_all(children)) =~= rebuilding(
                children,
            ));
            lemma_act_both(wrap, rebuild, wrapping(id, layout), rebuilding(children));
            assert(arrange_of(tile) =~= wrap + rebuild);
            assert forall|x: i64| #[trigger]
                followed(wrapping(id, layout), rebuilding(children))(x) == arranging(tile)(x) by {
                lemma_split_image(layout, children, x);
            }
            assert(followed(wrapping(id, layout), rebuilding(children)) =~= arranging(tile));
        },
    }
}

// The texts of the commands

proof fn lemma_text_of(id: i64, layout: Layout)
    ensures
        restore::mark(id) == text_of(SwayCommand::Mark { id }),
        restore::move_to_mark(id) == text_of(SwayCommand::MoveToMark { id }),
        restore::command_for(id, session::split_name(layout)) == text_of(
            SwayCommand::Split { id, vertical: layout is SplitV || layout is Stacked },
        ),
        restore::command_for(id, restore::set_layout(layout)) == text_of(
            SwayCommand::Layout { id, layout },
        ),
{
    reveal_strlit("] ");
    reveal_strlit("mark ");
    reveal_strlit("_swaymnesia");
    reveal_strlit("] mark _swaymnesia");
    reveal_strlit("move container to mark ");
    reveal_strlit("] move container to mark _swaymnesia");
    reveal_strlit("splith");
    reveal_strlit("splitv");
    reveal_strlit("stacking");
    reveal_strlit("tabbed");
    reveal_strlit("layout ");
    reveal_strlit("] splith");
    reveal_strlit("] splitv");
    reveal_strlit("] layout splith");
    reveal_strlit("] layout splitv");
    reveal_strlit("] layout stacking");
    reveal_strlit("] layout tabbed");
    assert(restore::mark(id) =~= text_of(SwayCommand::Mark { id }));
    assert(restore::move_to_mark(id) =~= text_of(SwayCommand::MoveToMark { id }));
    assert(restore::command_for(id, session::split_name(layout)) =~= text_of(
        SwayCommand::Split { id, vertical: layout is SplitV || layout is Stacked },
    ));
    assert(restore::command_for(id, restore::set_layout(layout)) =~= text_of(
        SwayCommand::Layout { id, layout },
    ));
}

proof fn lemma_texts_both(a: Seq<SwayCommand>, b: Seq<SwayCommand>)
    ensures
        texts_of(a + b) == texts_of(a) + texts_of(b),
{
    assert(texts_of(a + b) =~= texts_of(a) + texts_of(b));
}

proof fn lemma_line_up_texts(tiles: Seq<PlacedView>)
    ensures
        texts_of(line_up_of(tiles)) == restore::line_up_commands(tiles),
    decreases tiles.len(),
{
    if tiles.len() < 2 {
        assert(texts_of(line_up_of(tiles)) =~= restore::line_up_commands(tiles));
    } else {
        let behind = restore::first_of(tiles[tiles.len() - 2]);
        let id = restore::first_of(tiles.last());
        let pair = seq![SwayCommand::Mark { id: behind }, SwayCommand::MoveToMark { id }];
        lemma_line_up_texts(tiles.drop_last());
        lemma_texts_both(line_up_of(tiles.drop_last()), pair);
        lemma_text_of(behind, Layout::SplitH);
        lemma_text_of(id, Layout::SplitH);
        assert(texts_of(pair) =~= seq![restore::mark(behind), restore::move_to_mark(id)]);
    }
}

proof fn lemma_arrange_texts(tile: PlacedView)
    ensures
        texts_of(arrange_of(tile)) == restore::arrange_commands(tile),
    decreases tile,
{
    match tile {
        PlacedView::Window(_) => {
            assert(texts_of(arrange_of(tile)) =~= restore::arrange_commands(tile));
        },
        PlacedView::Split(layout, children) => {
            let id = restore::first_of(tile);
            let wrap = seq![
                SwayCommand::Split { id, vertical: layout is SplitV || layout is Stacked },
                SwayCommand::Layout { id, layout },
            ];
            lemma_line_up_texts(children);
            lemma_arrange_all_texts(children);
            lemma_texts_both(wrap + line_up_of(children), arrange_all_of(children));
            lemma_texts_both(wrap, line_up_of(children));
            lemma_text_of(id, layout);
            assert(texts_of(wrap) =~= seq![
                restore::command_for(id, session::split_name(layout)),
                restore::command_for(id, restore::set_layout(layout)),
            ]);
        },
    }
}

proof fn lemma_arrange_all_texts(tiles: Seq<PlacedView>)
    ensures
        texts_of(arrange_all_of(tiles)) == restore::arrange_all_commands(tiles),
    decreases tiles,
{
    if tiles.len() == 0 {
        assert(texts_of(arrange_all_of(tiles)) =~= restore::arrange_all_commands(tiles));
    } else {
        lemma_arrange_all_texts(tiles.drop_last());
        lemma_arrange_texts(tiles.last());
        lemma_texts_both(arrange_all_of(tiles.drop_last()), arrange_of(tiles.last()));
    }
}

// The law

proof fn lemma_all_but_first_gone(ids: Seq<i64>, tiles: Seq<PlacedView>, count: int)
    requires
        ids == restore_laws::all_placed_windows(tiles),
        ids.no_duplicates(),
        tiles.len() > 0,
        ids.len() > 0,
        ids[0] == restore::first_of(tiles[0]),
        1 <= count <= ids.len(),
    ensures
        all_replaced(side_by_side(ids).take(count), rebuilding(tiles)) == tiles,
    decreases count,
{
    let some = side_by_side(ids).take(count);
    if count == 1 {
        assert(some.drop_last() =~= Seq::empty());
        assert(all_replaced(some.drop_last(), rebuilding(tiles)) =~= Seq::empty());
        assert(some.last() == PlacedView::Window(ids[0]));
        assert(replaced(some.last(), rebuilding(tiles)) == tiles);
        assert(Seq::<PlacedView>::empty() + tiles =~= tiles);
    } else {
        assert(some.drop_last() =~= side_by_side(ids).take(count - 1));
        lemma_all_but_first_gone(ids, tiles, count - 1);
        assert(ids[count - 1] != ids[0]);
        assert(ids.contains(ids[count - 1]));
        assert(some.last() == PlacedView::Window(ids[count - 1]));
        assert(replaced(some.last(), rebuilding(tiles)) == Seq::<PlacedView>::empty());
        assert(tiles + Seq::<PlacedView>::empty() =~= tiles);
    }
}

/// The commands that put the tiles of a workspace back rebuild their tree: read as commands of sway
/// and run where the windows that appeared stand side by side, they end in the tree of the placed
/// tiles, which holds each of these windows in order; and in the tree that was saved, where every
/// window appeared. The layout of the workspace stays as it is.
pub proof fn law_commands_rebuild_the_tree(
    tiles: Seq<TileView>,
    state: RestorerView,
    layout: Layout,
    marked: Option<i64>,
)
    requires
        state.opened.len() == restore::all_windows_of(tiles).len(),
        restore_laws::appeared(state.opened).no_duplicates(),
    ensures
        exists|commands: Seq<SwayCommand>|
            {
                let start = Desk {
                    layout,
                    tree: side_by_side(restore_laws::appeared(state.opened)),
                    marked,
                };
                let end = run(start, commands);
                &&& #[trigger] texts_of(commands) == restore::asked(
                    state,
                    StepView::Arrange(tiles),
                    None,
                )
                &&& end.layout == layout
                &&& end.tree == restore::place_tiles(tiles, state.opened).0
                &&& restore_laws::all_placed_windows(end.tree) == restore_laws::appeared(
                    state.opened,
                )
                &&& session::all_proper(tiles) && (forall|i: int|
                    0 <= i < state.opened.len() ==> (#[trigger] state.opened[i]) is Some)
                    ==> restore_laws::same_trees(end.tree, tiles)
            },
{
    let placed = restore::place_tiles(tiles, state.opened).0;
    let ids = restore_laws::appeared(state.opened);
    let start = Desk { layout, tree: side_by_side(ids), marked };
    let commands = line_up_of(placed) + arrange_all_of(placed);
    restore::law_placed_splits_are_splits(tiles, state.opened);
    restore::lemma_all_splits_hold_fewer(placed);
    restore_laws::law_placed_windows_are_those_that_appeared(tiles, state.opened);
    assert(state.opened.take(state.opened.len() as int) =~= state.opened);
    lemma_line_up_texts(placed);
    lemma_arrange_all_texts(placed);
    lemma_texts_both(line_up_of(placed), arrange_all_of(placed));
    lemma_rebuild(placed);
    assert(run(start, commands).tree == all_replaced(start.tree, rebuilding(placed)));
    if placed.len() == 0 {
        assert(ids =~= Seq::empty());
        assert(all_replaced(start.tree, rebuilding(placed)) =~= placed);
    } else {
        lemma_all_first(placed);
        lemma_all_but_first_gone(ids, placed, ids.len() as int);
        assert(side_by_side(ids).take(ids.len() as int) =~= side_by_side(ids));
    }
    if session::all_proper(tiles) && (forall|i: int|
        0 <= i < state.opened.len() ==> (#[trigger] state.opened[i]) is Some) {
        restore_laws::law_tree_is_rebuilt(tiles, state.opened);
    }
    assert(texts_of(commands) == restore::asked(state, StepView::Arrange(tiles), None));
}

} // verus!

//! Laws of the session format: what reading gives back of what was written, what it does with a
//! file that is cut short or goes on behind its end, and what every session that was read has in
//! common.

use crate::session;
use crate::session::{Layout, Rect, SessionView, TileView, WindowView, WorkspaceView};
use crate::format::{Error, Parsed};
use vstd::prelude::*;
use vstd::utf8;

verus! {

// The sessions that a file can hold

/// Whether a count or a length fits into the four bytes that it is stored in.
pub open spec fn countable(count: nat) -> bool {
    count <= u32::MAX
}

/// Whether the byte length of a string can be stored.
pub open spec fn str_sized(value: Seq<char>) -> bool {
    countable(utf8::encode_utf8(value).len())
}

/// Whether each length and count within a window can be stored.
pub open spec fn window_sized(window: WindowView) -> bool {
    &&& str_sized(window.app_id)
    &&& str_sized(window.title)
    &&& countable(window.argv.len())
    &&& forall|i: int| 0 <= i < window.argv.len() ==> str_sized(#[trigger] window.argv[i])
}

/// Whether a list of windows can be stored, as far as lengths and counts go.
pub open spec fn windows_sized(windows: Seq<WindowView>) -> bool {
    &&& countable(windows.len())
    &&& forall|i: int| 0 <= i < windows.len() ==> window_sized(#[trigger] windows[i])
}

/// Whether each length and count within a tile can be stored.
pub open spec fn tile_sized(tile: TileView) -> bool
    decreases tile,
{
    match tile {
        TileView::Window(window) => window_sized(window),
        TileView::Split { layout, children } => countable(children.len()) && each_tile_sized(
            children,
        ),
    }
}

/// Whether each length and count within each tile of a list can be stored.
pub open spec fn each_tile_sized(tiles: Seq<TileView>) -> bool
    decreases tiles,
{
    tiles.len() > 0 ==> each_tile_sized(tiles.drop_last()) && tile_sized(tiles.last())
}

/// Whether each length and count within a workspace can be stored.
pub open spec fn workspace_sized(workspace: WorkspaceView) -> bool {
    &&& str_sized(workspace.name)
    &&& str_sized(workspace.output)
    &&& countable(workspace.tiles.len())
    &&& each_tile_sized(workspace.tiles)
    &&& windows_sized(workspace.floating)
}

/// Whether each length and count within a session can be stored.
pub open spec fn session_sized(session: SessionView) -> bool {
    &&& countable(session.workspaces.len())
    &&& forall|i: int|
        0 <= i < session.workspaces.len() ==> workspace_sized(#[trigger] session.workspaces[i])
    &&& windows_sized(session.scratchpad)
}

/// How deep splits nest in a tile.
pub open spec fn nesting(tile: TileView) -> nat
    decreases tile,
{
    match tile {
        TileView::Window(_) => 0,
        TileView::Split { layout, children } => 1 + deepest(children),
    }
}

/// How deep splits nest in the deepest tile of a list.
pub open spec fn deepest(tiles: Seq<TileView>) -> nat
    decreases tiles,
{
    if tiles.len() == 0 {
        0
    } else if deepest(tiles.drop_last()) < nesting(tiles.last()) {
        nesting(tiles.last())
    } else {
        deepest(tiles.drop_last())
    }
}

/// Whether no workspace nests splits deeper than a file may.
pub open spec fn within_depth(session: SessionView) -> bool {
    forall|i: int|
        0 <= i < session.workspaces.len() ==> deepest((#[trigger] session.workspaces[i]).tiles)
            <= crate::format::MAX_DEPTH
}

proof fn lemma_each_tile(tiles: Seq<TileView>)
    requires
        each_tile_sized(tiles),
    ensures
        forall|i: int| 0 <= i < tiles.len() ==> tile_sized(#[trigger] tiles[i]),
    decreases tiles.len(),
{
    if tiles.len() > 0 {
        lemma_each_tile(tiles.drop_last());
        assert forall|i: int| 0 <= i < tiles.len() implies tile_sized(#[trigger] tiles[i]) by {
            if i < tiles.len() - 1 {
                assert(tiles.drop_last()[i] == tiles[i]);
            }
        }
    }
}

proof fn lemma_deepest(tiles: Seq<TileView>, levels: nat)
    requires
        levels > 0,
    ensures
        deepest(tiles) < levels <==> (forall|i: int|
            0 <= i < tiles.len() ==> nesting(#[trigger] tiles[i]) < levels),
    decreases tiles.len(),
{
    if tiles.len() > 0 {
        let rest = tiles.drop_last();
        lemma_deepest(rest, levels);
        if deepest(tiles) < levels {
            assert forall|i: int| 0 <= i < tiles.len() implies nesting(#[trigger] tiles[i])
                < levels by {
                if i < tiles.len() - 1 {
                    assert(rest[i] == tiles[i]);
                }
            }
        }
        if forall|i: int| 0 <= i < tiles.len() ==> nesting(#[trigger] tiles[i]) < levels {
            assert forall|i: int| 0 <= i < rest.len() implies nesting(#[trigger] rest[i])
                < levels by {
                assert(rest[i] == tiles[i]);
            }
        }
    }
}

// Reading what was written

/// Whether `chunk` stands in `bytes` at `pos`.
pub open spec fn at(bytes: Seq<u8>, pos: int, chunk: Seq<u8>) -> bool {
    &&& 0 <= pos
    &&& pos + chunk.len() <= bytes.len()
    &&& bytes.subrange(pos, pos + chunk.len()) == chunk
}

proof fn lemma_at_split(bytes: Seq<u8>, pos: int, first: Seq<u8>, second: Seq<u8>)
    requires
        at(bytes, pos, first + second),
    ensures
        at(bytes, pos, first),
        at(bytes, pos + first.len(), second),
{
    let both = bytes.subrange(pos, pos + (first + second).len());
    assert(bytes.subrange(pos, pos + first.len()) =~= first) by {
        assert(first =~= (first + second).subrange(0, first.len() as int));
        assert(bytes.subrange(pos, pos + first.len()) =~= both.subrange(0, first.len() as int));
    }
    assert(bytes.subrange(pos + first.len(), pos + first.len() + second.len()) =~= second) by {
        assert(second =~= (first + second).subrange(
            first.len() as int,
            (first + second).len() as int,
        ));
        assert(bytes.subrange(pos + first.len(), pos + first.len() + second.len())
            =~= both.subrange(first.len() as int, (first + second).len() as int));
    }
}

proof fn lemma_u8(bytes: Seq<u8>, pos: int, value: u8)
    requires
        at(bytes, pos, seq![value]),
    ensures
        crate::format::read_u8(bytes, pos) == Ok::<(u8, int), Error>((value, pos + 1)),
{
    assert(bytes.subrange(pos, pos + 1)[0] == bytes[pos]);
}

proof fn lemma_four_bytes(value: int)
    requires
        0 <= value <= u32::MAX,
    ensures
        value == value % 256 + 256 * (value / 256 % 256) + 65536 * (value / 65536 % 256) + 16777216
            * (value / 16777216 % 256),
{
    let second = value / 256;
    let third = value / 65536;
    let fourth = value / 16777216;
    assert(third == second / 256);
    assert(fourth == third / 256);
    assert(fourth % 256 == fourth);
}

proof fn lemma_u32(bytes: Seq<u8>, pos: int, value: int)
    requires
        at(bytes, pos, crate::format::u32_bytes(value)),
        0 <= value <= u32::MAX,
    ensures
        crate::format::read_u32(bytes, pos) == Ok::<(u32, int), Error>((value as u32, pos + 4)),
{
    let chunk = bytes.subrange(pos, pos + 4);
    assert(bytes[pos] == chunk[0] && bytes[pos + 1] == chunk[1] && bytes[pos + 2] == chunk[2]
        && bytes[pos + 3] == chunk[3]);
    lemma_four_bytes(value);
}

proof fn lemma_i32(bytes: Seq<u8>, pos: int, value: i32)
    requires
        at(bytes, pos, crate::format::u32_bytes(value as int)),
    ensures
        crate::format::read_i32(bytes, pos) == Ok::<(i32, int), Error>((value, pos + 4)),
{
    if value >= 0 {
        lemma_u32(bytes, pos, value as int);
    } else {
        crate::format::lemma_u32_bytes_wrap(value as int);
        lemma_u32(bytes, pos, value + 4294967296);
    }
}

proof fn lemma_str(bytes: Seq<u8>, pos: int, value: Seq<char>)
    requires
        at(bytes, pos, crate::format::str_bytes(value)),
        str_sized(value),
    ensures
        crate::format::read_str(bytes, pos) == Ok::<(Seq<char>, int), Error>(
            (value, pos + crate::format::str_bytes(value).len()),
        ),
{
    let text = utf8::encode_utf8(value);
    lemma_at_split(bytes, pos, crate::format::u32_bytes(text.len() as int), text);
    lemma_u32(bytes, pos, text.len() as int);
    utf8::encode_utf8_valid_utf8(value);
    utf8::encode_utf8_decode_utf8(value);
}

/// Whether `item` reads back `values` from `chunks`: each value from its own chunk, but for those
/// that are not `good`, on which it fails with `error`.
spec fn reads_back<T>(
    bytes: Seq<u8>,
    item: spec_fn(int) -> Parsed<T>,
    chunks: Seq<Seq<u8>>,
    values: Seq<T>,
    good: spec_fn(T) -> bool,
    error: Error,
) -> bool {
    &&& chunks.len() == values.len()
    &&& forall|i: int, pos: int|
        0 <= i < chunks.len() && #[trigger] at(bytes, pos, chunks[i]) ==> item(pos) == if good(
            values[i],
        ) {
            Ok::<(T, int), Error>((values[i], pos + chunks[i].len()))
        } else {
            Err(error)
        }
}

spec fn all_good<T>(values: Seq<T>, good: spec_fn(T) -> bool) -> bool {
    forall|i: int| 0 <= i < values.len() ==> good(#[trigger] values[i])
}

proof fn lemma_repeat<T>(
    bytes: Seq<u8>,
    item: spec_fn(int) -> Parsed<T>,
    chunks: Seq<Seq<u8>>,
    values: Seq<T>,
    good: spec_fn(T) -> bool,
    error: Error,
    pos: int,
)
    requires
        reads_back(bytes, item, chunks, values, good, error),
        at(bytes, pos, crate::format::concat(chunks)),
    ensures
        crate::format::repeat(item, chunks.len(), pos) == if all_good(values, good) {
            Ok::<(Seq<T>, int), Error>((values, pos + crate::format::concat(chunks).len()))
        } else {
            Err(error)
        },
    decreases chunks.len(),
{
    if chunks.len() == 0 {
        assert(values =~= Seq::empty());
    } else {
        let rest = chunks.drop_last();
        let others = values.drop_last();
        assert(reads_back(bytes, item, rest, others, good, error)) by {
            assert forall|i: int, p: int|
                0 <= i < rest.len() && #[trigger] at(bytes, p, rest[i]) implies item(p) == if good(
                others[i],
            ) {
                Ok::<(T, int), Error>((others[i], p + rest[i].len()))
            } else {
                Err(error)
            } by {
                assert(rest[i] == chunks[i] && others[i] == values[i]);
                assert(at(bytes, p, chunks[i]));
            }
        }
        lemma_at_split(bytes, pos, crate::format::concat(rest), chunks.last());
        lemma_repeat(bytes, item, rest, others, good, error, pos);
        assert(at(bytes, pos + crate::format::concat(rest).len(), chunks[chunks.len() - 1]));
        assert(others.push(values.last()) =~= values);
        if all_good(values, good) {
            assert forall|i: int| 0 <= i < others.len() implies good(#[trigger] others[i]) by {
                assert(others[i] == values[i]);
            }
        }
        if all_good(others, good) && good(values.last()) {
            assert forall|i: int| 0 <= i < values.len() implies good(#[trigger] values[i]) by {
                if i < others.len() {
                    assert(others[i] == values[i]);
                }
            }
        }
    }
}

proof fn lemma_list<T>(
    bytes: Seq<u8>,
    item: spec_fn(int) -> Parsed<T>,
    chunks: Seq<Seq<u8>>,
    values: Seq<T>,
    good: spec_fn(T) -> bool,
    error: Error,
    pos: int,
)
    requires
        reads_back(bytes, item, chunks, values, good, error),
        countable(chunks.len()),
        at(bytes, pos, crate::format::list_bytes(chunks)),
    ensures
        crate::format::read_list(bytes, item, pos) == if all_good(values, good) {
            Ok::<(Seq<T>, int), Error>((values, pos + crate::format::list_bytes(chunks).len()))
        } else {
            Err(error)
        },
{
    let head = crate::format::u32_bytes(chunks.len() as int);
    lemma_at_split(bytes, pos, head, crate::format::concat(chunks));
    lemma_u32(bytes, pos, chunks.len() as int);
    lemma_repeat(bytes, item, chunks, values, good, error, pos + 4);
}

proof fn lemma_strs(bytes: Seq<u8>, pos: int, values: Seq<Seq<char>>)
    requires
        countable(values.len()),
        forall|i: int| 0 <= i < values.len() ==> str_sized(#[trigger] values[i]),
        at(bytes, pos, crate::format::list_bytes(crate::format::str_chunks(values))),
    ensures
        crate::format::read_list(bytes, crate::format::str_at(bytes), pos) == Ok::<
            (Seq<Seq<char>>, int),
            Error,
        >(
            (
                values,
                pos + crate::format::list_bytes(crate::format::str_chunks(values)).len(),
            ),
        ),
{
    let item = crate::format::str_at(bytes);
    let chunks = crate::format::str_chunks(values);
    let good = |value: Seq<char>| true;
    assert forall|i: int, p: int|
        0 <= i < chunks.len() && #[trigger] at(bytes, p, chunks[i]) implies item(p) == Ok::<
        (Seq<char>, int),
        Error,
    >((values[i], p + chunks[i].len())) by {
        lemma_str(bytes, p, values[i]);
    }
    lemma_list(bytes, item, chunks, values, good, Error::TooDeep, pos);
}

proof fn lemma_rect(bytes: Seq<u8>, pos: int, rect: Rect)
    requires
        at(bytes, pos, crate::format::rect_bytes(rect)),
    ensures
        crate::format::read_rect(bytes, pos) == Ok::<(Rect, int), Error>((rect, pos + 16)),
{
    let x = crate::format::u32_bytes(rect.x as int);
    let y = crate::format::u32_bytes(rect.y as int);
    let width = crate::format::u32_bytes(rect.width as int);
    let height = crate::format::u32_bytes(rect.height as int);
    lemma_at_split(bytes, pos, x + y + width, height);
    lemma_at_split(bytes, pos, x + y, width);
    lemma_at_split(bytes, pos, x, y);
    lemma_i32(bytes, pos, rect.x);
    lemma_i32(bytes, pos + 4, rect.y);
    lemma_i32(bytes, pos + 8, rect.width);
    lemma_i32(bytes, pos + 12, rect.height);
}

/// A `window` whose `flags` are given.
pub open spec fn window_bytes_with(window: WindowView, flags: u8) -> Seq<u8> {
    crate::format::str_bytes(window.app_id) + crate::format::str_bytes(window.title)
        + crate::format::list_bytes(crate::format::str_chunks(window.argv)) + seq![flags]
        + crate::format::rect_bytes(window.rect)
}

proof fn lemma_flags(window: WindowView, flags: u8)
    requires
        flags % 8 == crate::format::flags_byte(window),
    ensures
        crate::format::has_flag(flags, crate::format::FLAG_FLOATING) == window.floating,
        crate::format::has_flag(flags, crate::format::FLAG_FULLSCREEN) == window.fullscreen,
        crate::format::has_flag(flags, crate::format::FLAG_FOCUSED) == window.focused,
{
    assert(flags / 1 % 2 == flags % 8 / 1 % 2) by (bit_vector);
    assert(flags / 2 % 2 == flags % 8 / 2 % 2) by (bit_vector);
    assert(flags / 4 % 2 == flags % 8 / 4 % 2) by (bit_vector);
}

proof fn lemma_flags_byte(window: WindowView)
    ensures
        crate::format::flags_byte(window) % 8 == crate::format::flags_byte(window),
{
    let flags = crate::format::flags_byte(window);
    assert(flags < 8);
    assert(flags % 8 == flags) by (bit_vector)
        requires
            flags < 8,
    ;
}

/// A window is read back where its bytes stand, whatever its undefined flags are.
pub proof fn lemma_window_with(bytes: Seq<u8>, pos: int, window: WindowView, flags: u8)
    requires
        window_sized(window),
        flags % 8 == crate::format::flags_byte(window),
        at(bytes, pos, window_bytes_with(window, flags)),
    ensures
        crate::format::read_window(bytes, pos) == Ok::<(WindowView, int), Error>(
            (window, pos + window_bytes_with(window, flags).len()),
        ),
{
    let app_id = crate::format::str_bytes(window.app_id);
    let title = crate::format::str_bytes(window.title);
    let argv = crate::format::list_bytes(crate::format::str_chunks(window.argv));
    let rect = crate::format::rect_bytes(window.rect);
    lemma_at_split(bytes, pos, app_id + title + argv + seq![flags], rect);
    lemma_at_split(bytes, pos, app_id + title + argv, seq![flags]);
    lemma_at_split(bytes, pos, app_id + title, argv);
    lemma_at_split(bytes, pos, app_id, title);
    lemma_str(bytes, pos, window.app_id);
    lemma_str(bytes, pos + app_id.len(), window.title);
    lemma_strs(bytes, pos + (app_id + title).len(), window.argv);
    lemma_u8(bytes, pos + (app_id + title + argv).len(), flags);
    lemma_rect(bytes, pos + (app_id + title + argv + seq![flags]).len(), window.rect);
    lemma_flags(window, flags);
}

proof fn lemma_window(bytes: Seq<u8>, pos: int, window: WindowView)
    requires
        window_sized(window),
        at(bytes, pos, crate::format::window_bytes(window)),
    ensures
        crate::format::read_window(bytes, pos) == Ok::<(WindowView, int), Error>(
            (window, pos + crate::format::window_bytes(window).len()),
        ),
{
    let flags = crate::format::flags_byte(window);
    lemma_flags_byte(window);
    lemma_window_with(bytes, pos, window, flags);
}

/// The bytes of a window are read back as that window, wherever they stand, and nothing behind them
/// is read. The bits of its flags that stand for nothing may have any value.
pub proof fn law_window_is_read_back(
    window: WindowView,
    flags: u8,
    before: Seq<u8>,
    behind: Seq<u8>,
)
    requires
        window_sized(window),
        flags % 8 == crate::format::flags_byte(window),
    ensures
        window_bytes_with(window, crate::format::flags_byte(window))
            == crate::format::window_bytes(window),
        crate::format::read_window(
            before + window_bytes_with(window, flags) + behind,
            before.len() as int,
        ) == Ok::<(WindowView, int), Error>(
            (window, (before.len() + window_bytes_with(window, flags).len()) as int),
        ),
{
    let chunk = window_bytes_with(window, flags);
    let bytes = before + chunk + behind;
    let pos = before.len() as int;
    assert(bytes.subrange(pos, pos + chunk.len()) =~= chunk);
    lemma_window_with(bytes, pos, window, flags);
}

proof fn lemma_windows(bytes: Seq<u8>, pos: int, windows: Seq<WindowView>)
    requires
        windows_sized(windows),
        at(bytes, pos, crate::format::list_bytes(crate::format::window_chunks(windows))),
    ensures
        crate::format::read_windows(bytes, pos) == Ok::<(Seq<WindowView>, int), Error>(
            (
                windows,
                pos + crate::format::list_bytes(crate::format::window_chunks(windows)).len(),
            ),
        ),
{
    let item = crate::format::window_at(bytes);
    let chunks = crate::format::window_chunks(windows);
    let good = |window: WindowView| true;
    assert forall|i: int, p: int|
        0 <= i < chunks.len() && #[trigger] at(bytes, p, chunks[i]) implies item(p) == Ok::<
        (WindowView, int),
        Error,
    >((windows[i], p + chunks[i].len())) by {
        lemma_window(bytes, p, windows[i]);
    }
    lemma_list(bytes, item, chunks, windows, good, Error::TooDeep, pos);
}

proof fn lemma_layout(bytes: Seq<u8>, pos: int, layout: Layout)
    requires
        at(bytes, pos, seq![session::layout_byte(layout)]),
    ensures
        crate::format::read_layout(bytes, pos) == Ok::<(Layout, int), Error>((layout, pos + 1)),
{
    lemma_u8(bytes, pos, session::layout_byte(layout));
}

proof fn lemma_window_tile(bytes: Seq<u8>, pos: int, window: WindowView, levels: nat)
    requires
        window_sized(window),
        at(bytes, pos, crate::format::tile_bytes(TileView::Window(window))),
    ensures
        crate::format::read_tile(bytes, levels, pos) == Ok::<(TileView, int), Error>(
            (
                TileView::Window(window),
                pos + crate::format::tile_bytes(TileView::Window(window)).len(),
            ),
        ),
{
    let kind = seq![crate::format::TILE_WINDOW];
    let rest = crate::format::window_bytes(window);
    assert(crate::format::tile_bytes(TileView::Window(window)) == kind + rest);
    lemma_at_split(bytes, pos, kind, rest);
    lemma_u8(bytes, pos, crate::format::TILE_WINDOW);
    lemma_window(bytes, pos + 1, window);
}

/// What a split is read as is decided behind its kind and its layout.
proof fn lemma_split_head(bytes: Seq<u8>, pos: int, layout: Layout, levels: nat)
    requires
        levels > 0,
        at(bytes, pos, seq![crate::format::TILE_SPLIT]),
        at(bytes, pos + 1, seq![session::layout_byte(layout)]),
    ensures
        crate::format::read_tile(bytes, levels, pos) == match crate::format::read_tiles(
            bytes,
            (levels - 1) as nat,
            pos + 2,
        ) {
            Err(e) => Err::<(TileView, int), Error>(e),
            Ok((children, end)) => Ok((TileView::Split { layout, children }, end)),
        },
{
    lemma_u8(bytes, pos, crate::format::TILE_SPLIT);
    lemma_layout(bytes, pos + 1, layout);
}

proof fn lemma_tile(bytes: Seq<u8>, pos: int, tile: TileView, levels: nat)
    requires
        tile_sized(tile),
        levels > 0,
        at(bytes, pos, crate::format::tile_bytes(tile)),
    ensures
        crate::format::read_tile(bytes, levels, pos) == if nesting(tile) < levels {
            Ok::<(TileView, int), Error>((tile, pos + crate::format::tile_bytes(tile).len()))
        } else {
            Err(Error::TooDeep)
        },
    decreases tile,
{
    match tile {
        TileView::Window(window) => {
            lemma_window_tile(bytes, pos, window, levels);
        },
        TileView::Split { layout, children } => {
            let kind = seq![crate::format::TILE_SPLIT];
            let layout_bytes = seq![session::layout_byte(layout)];
            let list = crate::format::list_bytes(crate::format::tile_chunks(children));
            lemma_at_split(bytes, pos, kind + layout_bytes, list);
            lemma_tiles(bytes, pos + 2, children, (levels - 1) as nat);
            lemma_at_split(bytes, pos, kind, layout_bytes);
            lemma_split_head(bytes, pos, layout, levels);
        },
    }
}

proof fn lemma_tiles(bytes: Seq<u8>, pos: int, tiles: Seq<TileView>, levels: nat)
    requires
        countable(tiles.len()),
        each_tile_sized(tiles),
        at(bytes, pos, crate::format::list_bytes(crate::format::tile_chunks(tiles))),
    ensures
        crate::format::read_tiles(bytes, levels, pos) == if deepest(tiles) < levels {
            Ok::<(Seq<TileView>, int), Error>(
                (
                    tiles,
                    pos + crate::format::list_bytes(crate::format::tile_chunks(tiles)).len(),
                ),
            )
        } else {
            Err(Error::TooDeep)
        },
    decreases tiles,
{
    if levels > 0 {
        let item = crate::format::tile_at(bytes, levels);
        let chunks = crate::format::tile_chunks(tiles);
        let good = |tile: TileView| nesting(tile) < levels;
        crate::format::lemma_tile_chunks(tiles);
        lemma_each_tile(tiles);
        assert forall|i: int, p: int|
            0 <= i < chunks.len() && #[trigger] at(bytes, p, chunks[i]) implies item(p) == if good(
            tiles[i],
        ) {
            Ok::<(TileView, int), Error>((tiles[i], p + chunks[i].len()))
        } else {
            Err(Error::TooDeep)
        } by {
            lemma_tile(bytes, p, tiles[i], levels);
        }
        lemma_list(bytes, item, chunks, tiles, good, Error::TooDeep, pos);
        lemma_deepest(tiles, levels);
        assert(all_good(tiles, good) <==> deepest(tiles) < levels);
    }
}

/// Whether five chunks stand in `bytes` one behind the other, the first one at `pos`.
proof fn lemma_at_five(
    bytes: Seq<u8>,
    pos: int,
    first: Seq<u8>,
    second: Seq<u8>,
    third: Seq<u8>,
    fourth: Seq<u8>,
    fifth: Seq<u8>,
)
    requires
        at(bytes, pos, first + second + third + fourth + fifth),
    ensures
        at(bytes, pos, first),
        at(bytes, pos + first.len(), second),
        at(bytes, pos + first.len() + second.len(), third),
        at(bytes, pos + first.len() + second.len() + third.len(), fourth),
        at(bytes, pos + first.len() + second.len() + third.len() + fourth.len(), fifth),
{
    lemma_at_split(bytes, pos, first + second + third + fourth, fifth);
    lemma_at_split(bytes, pos, first + second + third, fourth);
    lemma_at_split(bytes, pos, first + second, third);
    lemma_at_split(bytes, pos, first, second);
}

proof fn lemma_contents(bytes: Seq<u8>, pos: int, tiles: Seq<TileView>, floating: Seq<WindowView>)
    requires
        countable(tiles.len()),
        each_tile_sized(tiles),
        windows_sized(floating),
        at(bytes, pos, crate::format::list_bytes(crate::format::tile_chunks(tiles))),
        at(
            bytes,
            pos + crate::format::list_bytes(crate::format::tile_chunks(tiles)).len(),
            crate::format::list_bytes(crate::format::window_chunks(floating)),
        ),
    ensures
        crate::format::read_contents(bytes, crate::format::VERSION, pos) == if deepest(tiles)
            <= crate::format::MAX_DEPTH {
            Ok::<((Seq<TileView>, Seq<WindowView>), int), Error>(
                (
                    (tiles, floating),
                    pos + crate::format::list_bytes(crate::format::tile_chunks(tiles)).len()
                        + crate::format::list_bytes(crate::format::window_chunks(floating)).len(),
                ),
            )
        } else {
            Err(Error::TooDeep)
        },
{
    lemma_tiles(bytes, pos, tiles, (crate::format::MAX_DEPTH + 1) as nat);
    lemma_windows(
        bytes,
        pos + crate::format::list_bytes(crate::format::tile_chunks(tiles)).len(),
        floating,
    );
}

proof fn lemma_workspace(bytes: Seq<u8>, pos: int, workspace: WorkspaceView)
    requires
        workspace_sized(workspace),
        at(bytes, pos, crate::format::workspace_bytes(workspace)),
    ensures
        crate::format::read_workspace(bytes, crate::format::VERSION, pos) == if deepest(
            workspace.tiles,
        ) <= crate::format::MAX_DEPTH {
            Ok::<(WorkspaceView, int), Error>(
                (workspace, pos + crate::format::workspace_bytes(workspace).len()),
            )
        } else {
            Err(Error::TooDeep)
        },
{
    let name = crate::format::str_bytes(workspace.name);
    let output = crate::format::str_bytes(workspace.output);
    let layout = seq![session::layout_byte(workspace.layout)];
    let tiles = crate::format::list_bytes(crate::format::tile_chunks(workspace.tiles));
    let floating = crate::format::list_bytes(crate::format::window_chunks(workspace.floating));
    lemma_at_five(bytes, pos, name, output, layout, tiles, floating);
    lemma_str(bytes, pos, workspace.name);
    lemma_str(bytes, pos + name.len(), workspace.output);
    lemma_layout(bytes, pos + name.len() + output.len(), workspace.layout);
    lemma_contents(
        bytes,
        pos + name.len() + output.len() + layout.len(),
        workspace.tiles,
        workspace.floating,
    );
}

proof fn lemma_header(bytes: Seq<u8>)
    requires
        at(bytes, 0, crate::format::MAGIC@),
        at(bytes, 4, crate::format::u16_bytes(crate::format::VERSION as int)),
    ensures
        crate::format::read_header(bytes) == Ok::<(u16, int), Error>((crate::format::VERSION, 6)),
{
    assert(bytes[4] == bytes.subrange(4, 6)[0] && bytes[5] == bytes.subrange(4, 6)[1]);
}

proof fn lemma_workspaces(bytes: Seq<u8>, pos: int, workspaces: Seq<WorkspaceView>)
    requires
        countable(workspaces.len()),
        forall|i: int| 0 <= i < workspaces.len() ==> workspace_sized(#[trigger] workspaces[i]),
        at(bytes, pos, crate::format::list_bytes(crate::format::workspace_chunks(workspaces))),
    ensures
        crate::format::read_list(
            bytes,
            crate::format::workspace_at(bytes, crate::format::VERSION),
            pos,
        ) == if (forall|i: int|
            0 <= i < workspaces.len() ==> deepest((#[trigger] workspaces[i]).tiles)
                <= crate::format::MAX_DEPTH) {
            Ok::<(Seq<WorkspaceView>, int), Error>(
                (
                    workspaces,
                    pos + crate::format::list_bytes(
                        crate::format::workspace_chunks(workspaces),
                    ).len(),
                ),
            )
        } else {
            Err(Error::TooDeep)
        },
{
    let item = crate::format::workspace_at(bytes, crate::format::VERSION);
    let chunks = crate::format::workspace_chunks(workspaces);
    let good = |workspace: WorkspaceView| deepest(workspace.tiles) <= crate::format::MAX_DEPTH;
    assert forall|i: int, p: int|
        0 <= i < chunks.len() && #[trigger] at(bytes, p, chunks[i]) implies item(p) == if good(
        workspaces[i],
    ) {
        Ok::<(WorkspaceView, int), Error>((workspaces[i], p + chunks[i].len()))
    } else {
        Err(Error::TooDeep)
    } by {
        lemma_workspace(bytes, p, workspaces[i]);
    }
    lemma_list(bytes, item, chunks, workspaces, good, Error::TooDeep, pos);
    assert(all_good(workspaces, good) <==> (forall|i: int|
        0 <= i < workspaces.len() ==> deepest((#[trigger] workspaces[i]).tiles)
            <= crate::format::MAX_DEPTH));
}

proof fn lemma_session(bytes: Seq<u8>, session: SessionView)
    requires
        session_sized(session),
        at(bytes, 0, crate::format::session_bytes(session)),
    ensures
        crate::format::read_session(bytes) == if within_depth(session) {
            Ok::<(SessionView, int), Error>(
                (session, crate::format::session_bytes(session).len() as int),
            )
        } else {
            Err(Error::TooDeep)
        },
{
    let magic = crate::format::MAGIC@;
    let version = crate::format::u16_bytes(crate::format::VERSION as int);
    let workspaces = crate::format::list_bytes(
        crate::format::workspace_chunks(session.workspaces),
    );
    let scratchpad = crate::format::list_bytes(crate::format::window_chunks(session.scratchpad));
    lemma_at_split(bytes, 0, magic + version + workspaces, scratchpad);
    lemma_at_split(bytes, 0, magic + version, workspaces);
    lemma_at_split(bytes, 0, magic, version);
    lemma_header(bytes);
    lemma_workspaces(bytes, 6, session.workspaces);
    lemma_windows(bytes, 6int + workspaces.len(), session.scratchpad);
}

/// Reading gives back what was written: the file of a session whose lengths and counts can be
/// stored is read as that very session, to the last byte, where no splits nest too deep, and is
/// refused as too deep where they do.
pub proof fn law_round_trip(session: SessionView)
    requires
        session_sized(session),
    ensures
        crate::format::read_session(crate::format::session_bytes(session)) == if within_depth(
            session,
        ) {
            Ok::<(SessionView, int), Error>(
                (session, crate::format::session_bytes(session).len() as int),
            )
        } else {
            Err(Error::TooDeep)
        },
{
    let bytes = crate::format::session_bytes(session);
    assert(bytes.subrange(0, bytes.len() as int) =~= bytes);
    lemma_session(bytes, session);
}

/// Two sessions that are stored as the same bytes are the same.
pub proof fn law_encoding_tells_sessions_apart(one: SessionView, other: SessionView)
    requires
        session_sized(one),
        within_depth(one),
        session_sized(other),
        within_depth(other),
        crate::format::session_bytes(one) == crate::format::session_bytes(other),
    ensures
        one == other,
{
    law_round_trip(one);
    law_round_trip(other);
}

// Files of version 1

/// A workspace of a version 1 file, which has its windows in one list.
pub struct OldWorkspace {
    pub name: Seq<char>,
    pub output: Seq<char>,
    pub layout: Layout,
    pub windows: Seq<WindowView>,
}

/// Whether each length and count within a version 1 workspace can be stored.
pub open spec fn old_workspace_sized(workspace: OldWorkspace) -> bool {
    str_sized(workspace.name) && str_sized(workspace.output) && windows_sized(workspace.windows)
}

/// The bytes of a workspace in a version 1 file.
pub open spec fn old_workspace_bytes(workspace: OldWorkspace) -> Seq<u8> {
    crate::format::str_bytes(workspace.name) + crate::format::str_bytes(workspace.output) + seq![
        session::layout_byte(workspace.layout),
    ] + crate::format::list_bytes(crate::format::window_chunks(workspace.windows))
}

/// The chunks of the workspaces of a version 1 file.
pub open spec fn old_workspace_chunks(workspaces: Seq<OldWorkspace>) -> Seq<Seq<u8>> {
    workspaces.map_values(|workspace: OldWorkspace| old_workspace_bytes(workspace))
}

/// The bytes of a version 1 file.
pub open spec fn old_session_bytes(
    workspaces: Seq<OldWorkspace>,
    scratchpad: Seq<WindowView>,
) -> Seq<u8> {
    seq![0x53u8, 0x57, 0x4d, 0x4e] + seq![1u8, 0] + crate::format::list_bytes(
        old_workspace_chunks(workspaces),
    ) + crate::format::list_bytes(crate::format::window_chunks(scratchpad))
}

spec fn from_old(workspace: OldWorkspace) -> WorkspaceView {
    WorkspaceView {
        name: workspace.name,
        output: workspace.output,
        layout: workspace.layout,
        tiles: workspace.windows.filter(|window: WindowView| !window.floating).map_values(
            |window: WindowView| TileView::Window(window),
        ),
        floating: workspace.windows.filter(|window: WindowView| window.floating),
    }
}

/// What every workspace begins with, in a file of either version, is read back, and leads to what
/// follows.
proof fn lemma_workspace_head(
    bytes: Seq<u8>,
    pos: int,
    name: Seq<char>,
    output: Seq<char>,
    layout: Layout,
    rest: Seq<u8>,
)
    requires
        str_sized(name),
        str_sized(output),
        at(
            bytes,
            pos,
            crate::format::str_bytes(name) + crate::format::str_bytes(output) + seq![
                session::layout_byte(layout),
            ] + rest,
        ),
    ensures
        ({
            let mid = pos + crate::format::str_bytes(name).len();
            let end = mid + crate::format::str_bytes(output).len();
            &&& crate::format::read_str(bytes, pos) == Ok::<(Seq<char>, int), Error>((name, mid))
            &&& crate::format::read_str(bytes, mid) == Ok::<(Seq<char>, int), Error>((output, end))
            &&& crate::format::read_layout(bytes, end) == Ok::<(Layout, int), Error>(
                (layout, end + 1),
            )
            &&& at(bytes, end + 1, rest)
        }),
{
    let first = crate::format::str_bytes(name);
    let second = crate::format::str_bytes(output);
    let third = seq![session::layout_byte(layout)];
    lemma_at_split(bytes, pos, first + second + third, rest);
    lemma_at_split(bytes, pos, first + second, third);
    lemma_at_split(bytes, pos, first, second);
    lemma_str(bytes, pos, name);
    lemma_str(bytes, pos + first.len(), output);
    lemma_layout(bytes, pos + first.len() + second.len(), layout);
}

proof fn lemma_read_old_workspace(
    bytes: Seq<u8>,
    pos: int,
    mid: int,
    end: int,
    behind: int,
    workspace: OldWorkspace,
)
    requires
        crate::format::read_str(bytes, pos) == Ok::<(Seq<char>, int), Error>((workspace.name, mid)),
        crate::format::read_str(bytes, mid) == Ok::<(Seq<char>, int), Error>(
            (workspace.output, end),
        ),
        crate::format::read_layout(bytes, end) == Ok::<(Layout, int), Error>(
            (workspace.layout, end + 1),
        ),
        crate::format::read_windows(bytes, end + 1) == Ok::<(Seq<WindowView>, int), Error>(
            (workspace.windows, behind),
        ),
    ensures
        crate::format::read_workspace(bytes, 1, pos) == Ok::<(WorkspaceView, int), Error>(
            (from_old(workspace), behind),
        ),
{
    let contents = crate::format::read_contents(bytes, 1, end + 1);
    assert(contents == Ok::<((Seq<TileView>, Seq<WindowView>), int), Error>(
        (crate::format::part_windows(workspace.windows), behind),
    ));
}

proof fn lemma_old_workspace(bytes: Seq<u8>, pos: int, workspace: OldWorkspace)
    requires
        old_workspace_sized(workspace),
        at(bytes, pos, old_workspace_bytes(workspace)),
    ensures
        crate::format::read_workspace(bytes, 1, pos) == Ok::<(WorkspaceView, int), Error>(
            (from_old(workspace), pos + old_workspace_bytes(workspace).len()),
        ),
{
    let name = crate::format::str_bytes(workspace.name);
    let output = crate::format::str_bytes(workspace.output);
    let layout = seq![session::layout_byte(workspace.layout)];
    let windows = crate::format::list_bytes(crate::format::window_chunks(workspace.windows));
    assert(old_workspace_bytes(workspace) == name + output + layout + windows);
    assert(old_workspace_bytes(workspace).len() == name.len() + output.len() + 1 + windows.len());
    lemma_workspace_head(
        bytes,
        pos,
        workspace.name,
        workspace.output,
        workspace.layout,
        windows,
    );
    let mid = pos + name.len();
    let end = mid + output.len();
    lemma_windows(bytes, end + 1, workspace.windows);
    lemma_read_old_workspace(bytes, pos, mid, end, end + 1 + windows.len(), workspace);
}

proof fn lemma_old_session(
    bytes: Seq<u8>,
    workspaces: Seq<OldWorkspace>,
    scratchpad: Seq<WindowView>,
)
    requires
        countable(workspaces.len()),
        forall|i: int| 0 <= i < workspaces.len() ==> old_workspace_sized(#[trigger] workspaces[i]),
        windows_sized(scratchpad),
        at(bytes, 0, old_session_bytes(workspaces, scratchpad)),
    ensures
        crate::format::read_session(bytes) == Ok::<(SessionView, int), Error>(
            (
                SessionView {
                    workspaces: workspaces.map_values(
                        |workspace: OldWorkspace| from_old(workspace),
                    ),
                    scratchpad,
                },
                old_session_bytes(workspaces, scratchpad).len() as int,
            ),
        ),
{
    let magic = seq![0x53u8, 0x57, 0x4d, 0x4e];
    let version = seq![1u8, 0];
    let chunks = old_workspace_chunks(workspaces);
    let list = crate::format::list_bytes(chunks);
    let rest = crate::format::list_bytes(crate::format::window_chunks(scratchpad));
    lemma_at_split(bytes, 0, magic + version + list, rest);
    lemma_at_split(bytes, 0, magic + version, list);
    lemma_at_split(bytes, 0, magic, version);
    assert(magic =~= crate::format::MAGIC@);
    assert(bytes[4] == bytes.subrange(4, 6)[0] && bytes[5] == bytes.subrange(4, 6)[1]);
    assert(crate::format::read_header(bytes) == Ok::<(u16, int), Error>((1, 6)));
    let item = crate::format::workspace_at(bytes, 1);
    let values = workspaces.map_values(|workspace: OldWorkspace| from_old(workspace));
    let good = |workspace: WorkspaceView| true;
    assert forall|i: int, p: int|
        0 <= i < chunks.len() && #[trigger] at(bytes, p, chunks[i]) implies item(p) == Ok::<
        (WorkspaceView, int),
        Error,
    >((values[i], p + chunks[i].len())) by {
        lemma_old_workspace(bytes, p, workspaces[i]);
    }
    lemma_list(bytes, item, chunks, values, good, Error::TooDeep, 6);
    lemma_windows(bytes, 6int + list.len(), scratchpad);
}

/// A version 1 file is read as the session that it was written of: each workspace with its name, its
/// output and its layout, with all its windows that are not floating as tiles, in order, and with all
/// that are floating, in order; and with its scratchpad.
pub proof fn law_version_1_files(workspaces: Seq<OldWorkspace>, scratchpad: Seq<WindowView>)
    requires
        countable(workspaces.len()),
        forall|i: int| 0 <= i < workspaces.len() ==> old_workspace_sized(#[trigger] workspaces[i]),
        windows_sized(scratchpad),
    ensures
        crate::format::read_session(old_session_bytes(workspaces, scratchpad)) matches Ok(
            (session, end),
        ) && {
            &&& end == old_session_bytes(workspaces, scratchpad).len()
            &&& session.scratchpad == scratchpad
            &&& session.workspaces.len() == workspaces.len()
            &&& forall|i: int|
                0 <= i < workspaces.len() ==> {
                    let old = workspaces[i];
                    let new = #[trigger] session.workspaces[i];
                    &&& new.name == old.name
                    &&& new.output == old.output
                    &&& new.layout == old.layout
                    &&& new.tiles == old.windows.filter(
                        |window: WindowView| !window.floating,
                    ).map_values(|window: WindowView| TileView::Window(window))
                    &&& new.floating == old.windows.filter(|window: WindowView| window.floating)
                }
        },
{
    let bytes = old_session_bytes(workspaces, scratchpad);
    assert(bytes.subrange(0, bytes.len() as int) =~= bytes);
    lemma_old_session(bytes, workspaces, scratchpad);
}

/// A file that does not begin with the four bytes of its kind, or whose version is neither 1 nor 2, is
/// refused for that, whatever follows; and one that ends before is truncated.
pub proof fn law_foreign_files(bytes: Seq<u8>)
    ensures
        ({
            let read = crate::format::read_session(bytes);
            let known = bytes.len() >= 4 && bytes.take(4) == seq![0x53u8, 0x57, 0x4d, 0x4e];
            let version = bytes[4] + 256 * bytes[5];
            &&& bytes.len() < 4 ==> read == Err::<(SessionView, int), Error>(Error::Truncated)
            &&& bytes.len() >= 4 && !known ==> read == Err::<(SessionView, int), Error>(
                Error::BadMagic,
            )
            &&& known && bytes.len() < 6 ==> read == Err::<(SessionView, int), Error>(
                Error::Truncated,
            )
            &&& known && bytes.len() >= 6 && version != 1 && version != 2 ==> read == Err::<
                (SessionView, int),
                Error,
            >(Error::UnsupportedVersion(version as u16))
        }),
{
    if bytes.len() >= 4 {
        assert(bytes.subrange(0, 4) =~= bytes.take(4));
        assert(crate::format::MAGIC@ =~= seq![0x53u8, 0x57, 0x4d, 0x4e]);
    }
}

// Reading a part of a file

/// Whether an item that is read from `pos` on in whole bytes is, in the first `len` of them, read
/// in the same way if it ends there, and is found to be cut short if it does not; and whether what
/// comes of the first `len` bytes, unless they are found to be cut short, also comes of all of them.
spec fn cut<T>(whole: Parsed<T>, part: Parsed<T>, pos: int, len: int) -> bool {
    &&& whole matches Ok((value, end)) ==> {
        &&& pos <= end
        &&& pos <= len ==> part == if end <= len {
            Ok::<(T, int), Error>((value, end))
        } else {
            Err(Error::Truncated)
        }
    }
    &&& part != Err::<(T, int), Error>(Error::Truncated) ==> whole == part
}

proof fn lemma_cut_u32(bytes: Seq<u8>, len: int, pos: int)
    requires
        0 <= pos,
        0 <= len <= bytes.len(),
    ensures
        cut(
            crate::format::read_u32(bytes, pos),
            crate::format::read_u32(bytes.take(len), pos),
            pos,
            len,
        ),
{
}

proof fn lemma_cut_u8(bytes: Seq<u8>, len: int, pos: int)
    requires
        0 <= pos,
        0 <= len <= bytes.len(),
    ensures
        cut(
            crate::format::read_u8(bytes, pos),
            crate::format::read_u8(bytes.take(len), pos),
            pos,
            len,
        ),
{
}

proof fn lemma_cut_str(bytes: Seq<u8>, len: int, pos: int)
    requires
        0 <= pos,
        0 <= len <= bytes.len(),
    ensures
        cut(
            crate::format::read_str(bytes, pos),
            crate::format::read_str(bytes.take(len), pos),
            pos,
            len,
        ),
{
    lemma_cut_u32(bytes, len, pos);
    if let Ok((count, start)) = crate::format::read_u32(bytes, pos) {
        let end = start + count;
        if end <= len {
            assert(bytes.take(len).subrange(start, end) =~= bytes.subrange(start, end));
        }
    }
}

proof fn lemma_cut_repeat<T>(
    whole: spec_fn(int) -> Parsed<T>,
    part: spec_fn(int) -> Parsed<T>,
    count: nat,
    pos: int,
    len: int,
)
    requires
        0 <= pos,
        forall|p: int| 0 <= p ==> cut(#[trigger] whole(p), part(p), p, len),
    ensures
        cut(
            crate::format::repeat(whole, count, pos),
            crate::format::repeat(part, count, pos),
            pos,
            len,
        ),
    decreases count,
{
    if count > 0 {
        lemma_cut_repeat(whole, part, (count - 1) as nat, pos, len);
        if let Ok((items, mid)) = crate::format::repeat(whole, (count - 1) as nat, pos) {
            assert(cut(whole(mid), part(mid), mid, len));
        }
    }
}

proof fn lemma_cut_list<T>(
    bytes: Seq<u8>,
    whole: spec_fn(int) -> Parsed<T>,
    part: spec_fn(int) -> Parsed<T>,
    len: int,
    pos: int,
)
    requires
        0 <= pos,
        0 <= len <= bytes.len(),
        forall|p: int| 0 <= p ==> cut(#[trigger] whole(p), part(p), p, len),
    ensures
        cut(
            crate::format::read_list(bytes, whole, pos),
            crate::format::read_list(bytes.take(len), part, pos),
            pos,
            len,
        ),
{
    lemma_cut_u32(bytes, len, pos);
    if let Ok((count, start)) = crate::format::read_u32(bytes, pos) {
        lemma_cut_repeat(whole, part, count as nat, start, len);
    }
}

proof fn lemma_cut_strs(bytes: Seq<u8>, len: int, pos: int)
    requires
        0 <= pos,
        0 <= len <= bytes.len(),
    ensures
        cut(
            crate::format::read_list(bytes, crate::format::str_at(bytes), pos),
            crate::format::read_list(bytes.take(len), crate::format::str_at(bytes.take(len)), pos),
            pos,
            len,
        ),
{
    let whole = crate::format::str_at(bytes);
    let part = crate::format::str_at(bytes.take(len));
    assert forall|p: int| 0 <= p implies cut(#[trigger] whole(p), part(p), p, len) by {
        lemma_cut_str(bytes, len, p);
    }
    lemma_cut_list(bytes, whole, part, len, pos);
}

proof fn lemma_cut_i32(bytes: Seq<u8>, len: int, pos: int)
    requires
        0 <= pos,
        0 <= len <= bytes.len(),
    ensures
        cut(
            crate::format::read_i32(bytes, pos),
            crate::format::read_i32(bytes.take(len), pos),
            pos,
            len,
        ),
{
    lemma_cut_u32(bytes, len, pos);
}

proof fn lemma_cut_rect(bytes: Seq<u8>, len: int, pos: int)
    requires
        0 <= pos,
        0 <= len <= bytes.len(),
    ensures
        cut(
            crate::format::read_rect(bytes, pos),
            crate::format::read_rect(bytes.take(len), pos),
            pos,
            len,
        ),
{
    lemma_cut_i32(bytes, len, pos);
    lemma_cut_i32(bytes, len, pos + 4);
    lemma_cut_i32(bytes, len, pos + 8);
    lemma_cut_i32(bytes, len, pos + 12);
}

proof fn lemma_cut_window(bytes: Seq<u8>, len: int, pos: int)
    requires
        0 <= pos,
        0 <= len <= bytes.len(),
    ensures
        cut(
            crate::format::read_window(bytes, pos),
            crate::format::read_window(bytes.take(len), pos),
            pos,
            len,
        ),
{
    lemma_cut_str(bytes, len, pos);
    if let Ok((_, pos)) = crate::format::read_str(bytes, pos) {
        lemma_cut_str(bytes, len, pos);
        if let Ok((_, pos)) = crate::format::read_str(bytes, pos) {
            lemma_cut_strs(bytes, len, pos);
            if let Ok((_, pos)) = crate::format::read_list(
                bytes,
                crate::format::str_at(bytes),
                pos,
            ) {
                lemma_cut_u8(bytes, len, pos);
                if let Ok((_, pos)) = crate::format::read_u8(bytes, pos) {
                    lemma_cut_rect(bytes, len, pos);
                }
            }
        }
    }
}

proof fn lemma_cut_windows(bytes: Seq<u8>, len: int, pos: int)
    requires
        0 <= pos,
        0 <= len <= bytes.len(),
    ensures
        cut(
            crate::format::read_windows(bytes, pos),
            crate::format::read_windows(bytes.take(len), pos),
            pos,
            len,
        ),
{
    let whole = crate::format::window_at(bytes);
    let part = crate::format::window_at(bytes.take(len));
    assert forall|p: int| 0 <= p implies cut(#[trigger] whole(p), part(p), p, len) by {
        lemma_cut_window(bytes, len, p);
    }
    lemma_cut_list(bytes, whole, part, len, pos);
}

proof fn lemma_cut_layout(bytes: Seq<u8>, len: int, pos: int)
    requires
        0 <= pos,
        0 <= len <= bytes.len(),
    ensures
        cut(
            crate::format::read_layout(bytes, pos),
            crate::format::read_layout(bytes.take(len), pos),
            pos,
            len,
        ),
{
    lemma_cut_u8(bytes, len, pos);
}

proof fn lemma_cut_tile(bytes: Seq<u8>, levels: nat, len: int, pos: int)
    requires
        0 <= pos,
        0 <= len <= bytes.len(),
    ensures
        cut(
            crate::format::read_tile(bytes, levels, pos),
            crate::format::read_tile(bytes.take(len), levels, pos),
            pos,
            len,
        ),
    decreases levels, 0nat,
{
    lemma_cut_u8(bytes, len, pos);
    lemma_cut_window(bytes, len, pos + 1);
    lemma_cut_layout(bytes, len, pos + 1);
    if levels > 0 {
        lemma_cut_tiles(bytes, (levels - 1) as nat, len, pos + 2);
    }
}

proof fn lemma_cut_tiles(bytes: Seq<u8>, levels: nat, len: int, pos: int)
    requires
        0 <= pos,
        0 <= len <= bytes.len(),
    ensures
        cut(
            crate::format::read_tiles(bytes, levels, pos),
            crate::format::read_tiles(bytes.take(len), levels, pos),
            pos,
            len,
        ),
    decreases levels, 1nat,
{
    if levels > 0 {
        let whole = crate::format::tile_at(bytes, levels);
        let part = crate::format::tile_at(bytes.take(len), levels);
        assert forall|p: int| 0 <= p implies cut(#[trigger] whole(p), part(p), p, len) by {
            lemma_cut_tile(bytes, levels, len, p);
        }
        lemma_cut_list(bytes, whole, part, len, pos);
    }
}

proof fn lemma_cut_contents(bytes: Seq<u8>, version: u16, len: int, pos: int)
    requires
        0 <= pos,
        0 <= len <= bytes.len(),
    ensures
        cut(
            crate::format::read_contents(bytes, version, pos),
            crate::format::read_contents(bytes.take(len), version, pos),
            pos,
            len,
        ),
{
    let levels = (crate::format::MAX_DEPTH + 1) as nat;
    lemma_cut_windows(bytes, len, pos);
    lemma_cut_tiles(bytes, levels, len, pos);
    if let Ok((_, pos)) = crate::format::read_tiles(bytes, levels, pos) {
        lemma_cut_windows(bytes, len, pos);
    }
}

proof fn lemma_cut_workspace(bytes: Seq<u8>, version: u16, len: int, pos: int)
    requires
        0 <= pos,
        0 <= len <= bytes.len(),
    ensures
        cut(
            crate::format::read_workspace(bytes, version, pos),
            crate::format::read_workspace(bytes.take(len), version, pos),
            pos,
            len,
        ),
{
    lemma_cut_str(bytes, len, pos);
    if let Ok((_, pos)) = crate::format::read_str(bytes, pos) {
        lemma_cut_str(bytes, len, pos);
        if let Ok((_, pos)) = crate::format::read_str(bytes, pos) {
            lemma_cut_layout(bytes, len, pos);
            if let Ok((_, pos)) = crate::format::read_layout(bytes, pos) {
                lemma_cut_contents(bytes, version, len, pos);
            }
        }
    }
}

proof fn lemma_cut_workspaces(bytes: Seq<u8>, version: u16, len: int, pos: int)
    requires
        0 <= pos,
        0 <= len <= bytes.len(),
    ensures
        cut(
            crate::format::read_list(bytes, crate::format::workspace_at(bytes, version), pos),
            crate::format::read_list(
                bytes.take(len),
                crate::format::workspace_at(bytes.take(len), version),
                pos,
            ),
            pos,
            len,
        ),
{
    let whole = crate::format::workspace_at(bytes, version);
    let part = crate::format::workspace_at(bytes.take(len), version);
    assert forall|p: int| 0 <= p implies cut(#[trigger] whole(p), part(p), p, len) by {
        lemma_cut_workspace(bytes, version, len, p);
    }
    lemma_cut_list(bytes, whole, part, len, pos);
}

proof fn lemma_cut_header(bytes: Seq<u8>, len: int)
    requires
        0 <= len <= bytes.len(),
    ensures
        cut(
            crate::format::read_header(bytes),
            crate::format::read_header(bytes.take(len)),
            0,
            len,
        ),
{
    if 4 <= len {
        assert(bytes.take(len).subrange(0, 4) =~= bytes.subrange(0, 4));
    }
}

/// A file that is read as a session ending at `end` is read as the same session however much of
/// what lies behind `end` is left of it, and is found to be truncated wherever else it is cut.
pub proof fn law_prefix(bytes: Seq<u8>, session: SessionView, end: int, len: int)
    requires
        crate::format::read_session(bytes) == Ok::<(SessionView, int), Error>((session, end)),
        0 <= len <= bytes.len(),
    ensures
        crate::format::read_session(bytes.take(len)) == if end <= len {
            Ok::<(SessionView, int), Error>((session, end))
        } else {
            Err(Error::Truncated)
        },
{
    lemma_cut_header(bytes, len);
    if let Ok((version, pos)) = crate::format::read_header(bytes) {
        lemma_cut_workspaces(bytes, version, len, pos);
        if let Ok((_, pos)) = crate::format::read_list(
            bytes,
            crate::format::workspace_at(bytes, version),
            pos,
        ) {
            lemma_cut_windows(bytes, len, pos);
        }
    }
}

/// What follows the end of a session, or the place where a file is found to be wrong, is not looked
/// at: whatever is appended to a file, the same session is read of it, or the same error comes,
/// unless the file is found to be truncated.
pub proof fn law_trailing_bytes(bytes: Seq<u8>, more: Seq<u8>)
    requires
        crate::format::read_session(bytes) != Err::<(SessionView, int), Error>(Error::Truncated),
    ensures
        crate::format::read_session(bytes + more) == crate::format::read_session(bytes),
{
    let all = bytes + more;
    let len = bytes.len() as int;
    assert(all.take(len) =~= bytes);
    lemma_cut_header(all, len);
    if let Ok((version, pos)) = crate::format::read_header(bytes) {
        lemma_cut_workspaces(all, version, len, pos);
        if let Ok((_, pos)) = crate::format::read_list(
            bytes,
            crate::format::workspace_at(bytes, version),
            pos,
        ) {
            lemma_cut_windows(all, len, pos);
        }
    }
}

/// A file that lost its end, be it a single byte, is refused as truncated.
pub proof fn law_truncated(session: SessionView, len: int)
    requires
        session_sized(session),
        within_depth(session),
        0 <= len < crate::format::session_bytes(session).len(),
    ensures
        crate::format::read_session(crate::format::session_bytes(session).take(len)) == Err::<
            (SessionView, int),
            Error,
        >(Error::Truncated),
{
    law_round_trip(session);
    let bytes = crate::format::session_bytes(session);
    law_prefix(bytes, session, bytes.len() as int, len);
}

// What every session that was read has in common

/// Whether `item` only goes forward and only gives values that are `good`.
spec fn gives<T>(item: spec_fn(int) -> Parsed<T>, good: spec_fn(T) -> bool) -> bool {
    forall|p: int|
        0 <= p ==> (#[trigger] item(p) matches Ok((value, end)) ==> p <= end && good(value))
}

proof fn lemma_gives_repeat<T>(
    item: spec_fn(int) -> Parsed<T>,
    good: spec_fn(T) -> bool,
    count: nat,
    pos: int,
)
    requires
        0 <= pos,
        gives(item, good),
    ensures
        crate::format::repeat(item, count, pos) matches Ok((values, end)) ==> pos <= end
            && values.len() == count && all_good(values, good),
    decreases count,
{
    if count > 0 {
        lemma_gives_repeat(item, good, (count - 1) as nat, pos);
        if let Ok((values, mid)) = crate::format::repeat(item, (count - 1) as nat, pos) {
            if let Ok((value, _)) = item(mid) {
                assert forall|i: int| 0 <= i < count implies good(
                    #[trigger] values.push(value)[i],
                ) by {
                    if i < values.len() {
                        assert(good(values[i]));
                    }
                }
            }
        }
    }
}

proof fn lemma_gives_list<T>(
    bytes: Seq<u8>,
    item: spec_fn(int) -> Parsed<T>,
    good: spec_fn(T) -> bool,
    pos: int,
)
    requires
        0 <= pos,
        gives(item, good),
    ensures
        crate::format::read_list(bytes, item, pos) matches Ok((values, end)) ==> pos <= end
            && countable(values.len()) && all_good(values, good),
{
    if let Ok((count, start)) = crate::format::read_u32(bytes, pos) {
        lemma_gives_repeat(item, good, count as nat, start);
    }
}

proof fn lemma_gives_str(bytes: Seq<u8>, pos: int)
    requires
        0 <= pos,
    ensures
        crate::format::read_str(bytes, pos) matches Ok((value, end)) ==> pos <= end && str_sized(
            value,
        ),
{
    if let Ok((len, start)) = crate::format::read_u32(bytes, pos) {
        if start + len <= bytes.len() {
            let text = bytes.subrange(start, start + len);
            if utf8::valid_utf8(text) {
                utf8::decode_utf8_encode_utf8(text);
            }
        }
    }
}

proof fn lemma_gives_window(bytes: Seq<u8>, pos: int)
    requires
        0 <= pos,
    ensures
        crate::format::read_window(bytes, pos) matches Ok((window, end)) ==> pos <= end
            && window_sized(window),
{
    lemma_cut_window(bytes, 0, pos);
    lemma_gives_str(bytes, pos);
    if let Ok((_, pos)) = crate::format::read_str(bytes, pos) {
        lemma_gives_str(bytes, pos);
        if let Ok((_, pos)) = crate::format::read_str(bytes, pos) {
            let item = crate::format::str_at(bytes);
            let good = |value: Seq<char>| str_sized(value);
            assert(gives(item, good)) by {
                assert forall|p: int| 0 <= p implies (#[trigger] item(p) matches Ok((value, end))
                    ==> p <= end && good(value)) by {
                    lemma_gives_str(bytes, p);
                }
            }
            lemma_gives_list(bytes, item, good, pos);
            if let Ok((argv, _)) = crate::format::read_list(bytes, item, pos) {
                assert forall|i: int| 0 <= i < argv.len() implies str_sized(#[trigger] argv[i]) by {
                    assert(good(argv[i]));
                }
            }
        }
    }
}

proof fn lemma_gives_windows(bytes: Seq<u8>, pos: int)
    requires
        0 <= pos,
    ensures
        crate::format::read_windows(bytes, pos) matches Ok((windows, end)) ==> pos <= end
            && windows_sized(windows),
{
    let item = crate::format::window_at(bytes);
    let good = |window: WindowView| window_sized(window);
    assert(gives(item, good)) by {
        assert forall|p: int| 0 <= p implies (#[trigger] item(p) matches Ok((window, end)) ==> p
            <= end && good(window)) by {
            lemma_gives_window(bytes, p);
        }
    }
    lemma_gives_list(bytes, item, good, pos);
    if let Ok((windows, _)) = crate::format::read_windows(bytes, pos) {
        assert forall|i: int| 0 <= i < windows.len() implies window_sized(
            #[trigger] windows[i],
        ) by {
            assert(good(windows[i]));
        }
    }
}

proof fn lemma_collect_tiles(tiles: Seq<TileView>, levels: nat)
    requires
        levels > 0,
        forall|i: int|
            0 <= i < tiles.len() ==> tile_sized(#[trigger] tiles[i]) && nesting(tiles[i]) < levels,
    ensures
        each_tile_sized(tiles),
        deepest(tiles) < levels,
    decreases tiles.len(),
{
    if tiles.len() > 0 {
        let rest = tiles.drop_last();
        assert forall|i: int| 0 <= i < rest.len() implies tile_sized(#[trigger] rest[i]) && nesting(
            rest[i],
        ) < levels by {
            assert(rest[i] == tiles[i]);
        }
        lemma_collect_tiles(rest, levels);
    }
}

proof fn lemma_gives_tile(bytes: Seq<u8>, levels: nat, pos: int)
    requires
        0 <= pos,
    ensures
        crate::format::read_tile(bytes, levels, pos) matches Ok((tile, end)) ==> pos <= end
            && tile_sized(tile) && (levels > 0 ==> nesting(tile) < levels),
    decreases levels, 0nat,
{
    lemma_cut_tile(bytes, levels, 0, pos);
    lemma_gives_window(bytes, pos + 1);
    if levels > 0 {
        lemma_gives_tiles(bytes, (levels - 1) as nat, pos + 2);
    }
}

proof fn lemma_gives_tiles(bytes: Seq<u8>, levels: nat, pos: int)
    requires
        0 <= pos,
    ensures
        crate::format::read_tiles(bytes, levels, pos) matches Ok((tiles, end)) ==> pos <= end
            && countable(tiles.len()) && each_tile_sized(tiles) && deepest(tiles) < levels,
    decreases levels, 1nat,
{
    if levels > 0 {
        let item = crate::format::tile_at(bytes, levels);
        let good = |tile: TileView| tile_sized(tile) && nesting(tile) < levels;
        assert(gives(item, good)) by {
            assert forall|p: int| 0 <= p implies (#[trigger] item(p) matches Ok((tile, end)) ==> p
                <= end && good(tile)) by {
                lemma_gives_tile(bytes, levels, p);
            }
        }
        lemma_gives_list(bytes, item, good, pos);
        if let Ok((tiles, _)) = crate::format::read_tiles(bytes, levels, pos) {
            assert forall|i: int| 0 <= i < tiles.len() implies tile_sized(#[trigger] tiles[i])
                && nesting(tiles[i]) < levels by {
                assert(good(tiles[i]));
            }
            lemma_collect_tiles(tiles, levels);
        }
    }
}

/// Parting the windows of a version 1 workspace keeps each of them, in the place that its
/// `floating` flag asks for, and makes no splits.
pub proof fn law_version_1_windows(windows: Seq<WindowView>)
    ensures
        ({
            let (tiles, floating) = crate::format::part_windows(windows);
            &&& tiles.len() + floating.len() == windows.len()
            &&& forall|i: int|
                0 <= i < tiles.len() ==> (#[trigger] tiles[i] matches TileView::Window(window)
                    && windows.contains(window) && !window.floating)
            &&& forall|i: int|
                0 <= i < floating.len() ==> windows.contains(#[trigger] floating[i])
                    && floating[i].floating
            &&& forall|i: int|
                0 <= i < windows.len() ==> if (#[trigger] windows[i]).floating {
                    floating.contains(windows[i])
                } else {
                    tiles.contains(TileView::Window(windows[i]))
                }
        }),
    decreases windows.len(),
{
    let (tiles, floating) = crate::format::part_windows(windows);
    if windows.len() == 0 {
        reveal(Seq::filter);
    } else {
        let rest = windows.drop_last();
        let last = windows.last();
        let (fewer_tiles, fewer_floating) = crate::format::part_windows(rest);
        law_version_1_windows(rest);
        assert(rest.push(last) =~= windows);
        crate::format::lemma_part_push(rest, last);
        assert forall|i: int| 0 <= i < tiles.len() implies (
        #[trigger] tiles[i] matches TileView::Window(window) && windows.contains(window)
            && !window.floating) by {
            if i < fewer_tiles.len() {
                assert(tiles[i] == fewer_tiles[i]);
                let at = choose|k: int|
                    0 <= k < rest.len() && TileView::Window(rest[k]) == fewer_tiles[i];
                assert(windows[at] == rest[at]);
            } else {
                assert(windows[windows.len() - 1] == last);
            }
        }
        assert forall|i: int| 0 <= i < floating.len() implies windows.contains(
            #[trigger] floating[i],
        ) && floating[i].floating by {
            if i < fewer_floating.len() {
                assert(floating[i] == fewer_floating[i]);
                let at = choose|k: int| 0 <= k < rest.len() && rest[k] == fewer_floating[i];
                assert(windows[at] == rest[at]);
            } else {
                assert(windows[windows.len() - 1] == last);
            }
        }
        assert forall|i: int| 0 <= i < windows.len() implies if (#[trigger] windows[i]).floating {
            floating.contains(windows[i])
        } else {
            tiles.contains(TileView::Window(windows[i]))
        } by {
            if i < rest.len() {
                assert(rest[i] == windows[i]);
                if windows[i].floating {
                    let at = choose|k: int|
                        0 <= k < fewer_floating.len() && fewer_floating[k] == rest[i];
                    assert(floating[at] == rest[i]);
                } else {
                    let at = choose|k: int|
                        0 <= k < fewer_tiles.len() && fewer_tiles[k] == TileView::Window(rest[i]);
                    assert(tiles[at] == TileView::Window(rest[i]));
                }
            } else if last.floating {
                assert(floating[floating.len() - 1] == last);
            } else {
                assert(tiles[tiles.len() - 1] == TileView::Window(last));
            }
        }
    }
}

proof fn lemma_gives_contents(bytes: Seq<u8>, version: u16, pos: int)
    requires
        0 <= pos,
    ensures
        crate::format::read_contents(bytes, version, pos) matches Ok(((tiles, floating), end))
            ==> pos <= end && countable(tiles.len()) && each_tile_sized(tiles) && deepest(tiles)
            <= crate::format::MAX_DEPTH && windows_sized(floating),
{
    let levels = (crate::format::MAX_DEPTH + 1) as nat;
    lemma_cut_contents(bytes, version, 0, pos);
    lemma_gives_windows(bytes, pos);
    lemma_gives_tiles(bytes, levels, pos);
    if version == 1 {
        if let Ok((windows, _)) = crate::format::read_windows(bytes, pos) {
            let (tiles, floating) = crate::format::part_windows(windows);
            law_version_1_windows(windows);
            assert forall|i: int| 0 <= i < tiles.len() implies tile_sized(#[trigger] tiles[i])
                && nesting(tiles[i]) < levels by {
                let at = choose|k: int|
                    0 <= k < windows.len() && TileView::Window(windows[k]) == tiles[i];
                assert(window_sized(windows[at]));
            }
            lemma_collect_tiles(tiles, levels);
            assert forall|i: int| 0 <= i < floating.len() implies window_sized(
                #[trigger] floating[i],
            ) by {
                let at = choose|k: int| 0 <= k < windows.len() && windows[k] == floating[i];
                assert(window_sized(windows[at]));
            }
        }
    } else if let Ok((_, pos)) = crate::format::read_tiles(bytes, levels, pos) {
        lemma_gives_windows(bytes, pos);
    }
}

proof fn lemma_gives_workspace(bytes: Seq<u8>, version: u16, pos: int)
    requires
        0 <= pos,
    ensures
        crate::format::read_workspace(bytes, version, pos) matches Ok((workspace, end)) ==> pos
            <= end && workspace_sized(workspace) && deepest(workspace.tiles)
            <= crate::format::MAX_DEPTH,
{
    lemma_gives_str(bytes, pos);
    if let Ok((_, pos)) = crate::format::read_str(bytes, pos) {
        lemma_gives_str(bytes, pos);
        if let Ok((_, pos)) = crate::format::read_str(bytes, pos) {
            if let Ok((_, pos)) = crate::format::read_layout(bytes, pos) {
                lemma_gives_contents(bytes, version, pos);
            }
        }
    }
}

/// Every session that is read, from a file of either version, can be written and read again: its
/// lengths and counts can be stored and its splits do not nest too deep, and the file that is
/// written of it is read as the same session.
pub proof fn law_read_sessions_round_trip(bytes: Seq<u8>)
    ensures
        crate::format::read_session(bytes) matches Ok((session, _)) ==> {
            &&& session_sized(session)
            &&& within_depth(session)
            &&& crate::format::read_session(crate::format::session_bytes(session)) == Ok::<
                (SessionView, int),
                Error,
            >((session, crate::format::session_bytes(session).len() as int))
        },
{
    if let Ok((session, _)) = crate::format::read_session(bytes) {
        let (version, pos) = crate::format::read_header(bytes)->Ok_0;
        let item = crate::format::workspace_at(bytes, version);
        let good = |workspace: WorkspaceView|
            workspace_sized(workspace) && deepest(workspace.tiles) <= crate::format::MAX_DEPTH;
        assert(gives(item, good)) by {
            assert forall|p: int| 0 <= p implies (#[trigger] item(p) matches Ok((workspace, end))
                ==> p <= end && good(workspace)) by {
                lemma_gives_workspace(bytes, version, p);
            }
        }
        lemma_gives_list(bytes, item, good, pos);
        let (workspaces, end) = crate::format::read_list(bytes, item, pos)->Ok_0;
        assert forall|i: int| 0 <= i < workspaces.len() implies workspace_sized(
            #[trigger] workspaces[i],
        ) && deepest(workspaces[i].tiles) <= crate::format::MAX_DEPTH by {
            assert(good(workspaces[i]));
        }
        lemma_gives_windows(bytes, end);
        law_round_trip(session);
    }
}

} // verus!

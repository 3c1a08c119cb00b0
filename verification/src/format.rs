//! Binary encoding of a session file.
//!
//! All integers are little-endian. A `str` is a u32 byte length followed by that many bytes of
//! UTF-8.
//!
//! ```text
//! header     magic [4]u8 = "SWMN"
//!            version u16 = 2
//!            workspace count u32
//! workspace  name str
//!            output str
//!            layout u8, one of 0 splith, 1 splitv, 2 stacked, 3 tabbed
//!            tile count u32, followed by that many tile
//!            floating window count u32, followed by that many window
//! tile       kind u8, 0 window or 1 split
//!            window, for a window
//!            layout u8 and tile count u32 followed by that many tile, for a split
//! window     app_id str, empty when the view reports none
//!            title str
//!            argv count u32, followed by that many str
//!            flags u8, bit 0 floating, bit 1 fullscreen, bit 2 focused
//!            rect i32 x, y, width, height, only meaningful when floating
//! trailer    scratchpad window count u32
//!            window, repeated that many times
//! ```
//!
//! Version 1 differs in the workspace: in place of the tiles and the floating windows it has one
//! list of windows, `window count u32, followed by that many window`.
//!
//! Workspaces, tiles and windows are stored in the order sway reports them, which is the order
//! they are recreated in.

use crate::format_laws;
use crate::session;
use crate::session::{
    Layout, Rect, Session, SessionView, Tile, TileView, Window, WindowView, Workspace,
    WorkspaceView,
};
use crate::text;
use vstd::arithmetic::div_mod;
use vstd::prelude::*;
use vstd::slice::{slice_subrange, slice_to_vec};
use vstd::utf8;

verus! {

pub const MAGIC: [u8; 4] = [0x53, 0x57, 0x4d, 0x4e];

pub const VERSION: u16 = 2;

pub const TILE_WINDOW: u8 = 0;

pub const TILE_SPLIT: u8 = 1;

/// How deep splits may nest in a session file, to keep a corrupt one from exhausting the stack
pub const MAX_DEPTH: usize = 64;

pub const FLAG_FLOATING: u8 = 1;

pub const FLAG_FULLSCREEN: u8 = 2;

pub const FLAG_FOCUSED: u8 = 4;

#[derive(Debug)]
pub enum Error {
    BadMagic,
    UnsupportedVersion(u16),
    Truncated,
    BadLayout(u8),
    BadTile(u8),
    TooDeep,
    BadUtf8,
}

/// What there is to say about an error.
pub open spec fn error_text(e: Error) -> Seq<char> {
    match e {
        Error::BadMagic => "not a swaymnesia session file"@,
        Error::UnsupportedVersion(v) => "unsupported session format version "@ + text::decimal(
            v as int,
        ),
        Error::Truncated => "session file truncated"@,
        Error::BadLayout(v) => "unknown layout "@ + text::decimal(v as int),
        Error::BadTile(v) => "unknown tile kind "@ + text::decimal(v as int),
        Error::TooDeep => "splits nested deeper than "@ + text::decimal(MAX_DEPTH as int),
        Error::BadUtf8 => "session file contains invalid UTF-8"@,
    }
}

impl Error {
    /// What there is to say about this error
    pub fn message(&self) -> (message: String)
        ensures
            message@ == error_text(*self),
    {
        let mut message = String::new();
        match self {
            Error::BadMagic => message.append("not a swaymnesia session file"),
            Error::UnsupportedVersion(v) => {
                message.append("unsupported session format version ");
                text::push_nat(&mut message, *v as u64);
            },
            Error::Truncated => message.append("session file truncated"),
            Error::BadLayout(v) => {
                message.append("unknown layout ");
                text::push_nat(&mut message, *v as u64);
            },
            Error::BadTile(v) => {
                message.append("unknown tile kind ");
                text::push_nat(&mut message, *v as u64);
            },
            Error::TooDeep => {
                message.append("splits nested deeper than ");
                text::push_nat(&mut message, MAX_DEPTH as u64);
            },
            Error::BadUtf8 => message.append("session file contains invalid UTF-8"),
        }
        assert(message@ =~= error_text(*self));
        message
    }
}

// What is written

/// The chunks of `chunks`, one after the other.
pub open spec fn concat(chunks: Seq<Seq<u8>>) -> Seq<u8>
    decreases chunks.len(),
{
    if chunks.len() == 0 {
        Seq::empty()
    } else {
        concat(chunks.drop_last()) + chunks.last()
    }
}

/// The two low bytes of `value`, the lowest one first.
pub open spec fn u16_bytes(value: int) -> Seq<u8> {
    seq![(value % 256) as u8, (value / 256 % 256) as u8]
}

/// The four low bytes of `value` in two's complement, the lowest one first.
pub open spec fn u32_bytes(value: int) -> Seq<u8> {
    seq![
        (value % 256) as u8,
        (value / 256 % 256) as u8,
        (value / 65536 % 256) as u8,
        (value / 16777216 % 256) as u8,
    ]
}

/// A count of chunks, followed by the chunks.
pub open spec fn list_bytes(chunks: Seq<Seq<u8>>) -> Seq<u8> {
    u32_bytes(chunks.len() as int) + concat(chunks)
}

/// A `str`.
pub open spec fn str_bytes(value: Seq<char>) -> Seq<u8> {
    u32_bytes(utf8::encode_utf8(value).len() as int) + utf8::encode_utf8(value)
}

/// The chunks of a list of `str`.
pub open spec fn str_chunks(values: Seq<Seq<char>>) -> Seq<Seq<u8>> {
    values.map_values(|value: Seq<char>| str_bytes(value))
}

/// The `flags` of a window.
pub open spec fn flags_byte(window: WindowView) -> u8 {
    ((if window.floating { FLAG_FLOATING as int } else { 0 })
        + (if window.fullscreen { FLAG_FULLSCREEN as int } else { 0 })
        + (if window.focused { FLAG_FOCUSED as int } else { 0 })) as u8
}

/// The `rect` of a window.
pub open spec fn rect_bytes(rect: Rect) -> Seq<u8> {
    u32_bytes(rect.x as int) + u32_bytes(rect.y as int) + u32_bytes(rect.width as int)
        + u32_bytes(rect.height as int)
}

/// A `window`.
pub open spec fn window_bytes(window: WindowView) -> Seq<u8> {
    str_bytes(window.app_id) + str_bytes(window.title) + list_bytes(str_chunks(window.argv))
        + seq![flags_byte(window)] + rect_bytes(window.rect)
}

/// The chunks of a list of `window`.
pub open spec fn window_chunks(windows: Seq<WindowView>) -> Seq<Seq<u8>> {
    windows.map_values(|window: WindowView| window_bytes(window))
}

/// A `tile`.
pub open spec fn tile_bytes(tile: TileView) -> Seq<u8>
    decreases tile,
{
    match tile {
        TileView::Window(window) => seq![TILE_WINDOW] + window_bytes(window),
        TileView::Split { layout, children } => seq![TILE_SPLIT] + seq![session::layout_byte(layout)]
            + list_bytes(tile_chunks(children)),
    }
}

/// The chunks of a list of `tile`.
pub open spec fn tile_chunks(tiles: Seq<TileView>) -> Seq<Seq<u8>>
    decreases tiles,
{
    if tiles.len() == 0 {
        Seq::empty()
    } else {
        tile_chunks(tiles.drop_last()).push(tile_bytes(tiles.last()))
    }
}

/// A `workspace`.
pub open spec fn workspace_bytes(workspace: WorkspaceView) -> Seq<u8> {
    str_bytes(workspace.name) + str_bytes(workspace.output) + seq![session::layout_byte(workspace.layout)]
        + list_bytes(tile_chunks(workspace.tiles)) + list_bytes(window_chunks(workspace.floating))
}

/// The chunks of a list of `workspace`.
pub open spec fn workspace_chunks(workspaces: Seq<WorkspaceView>) -> Seq<Seq<u8>> {
    workspaces.map_values(|workspace: WorkspaceView| workspace_bytes(workspace))
}

/// A whole session file.
pub open spec fn session_bytes(session: SessionView) -> Seq<u8> {
    MAGIC@ + u16_bytes(VERSION as int) + list_bytes(workspace_chunks(session.workspaces))
        + list_bytes(window_chunks(session.scratchpad))
}

proof fn lemma_concat_push(chunks: Seq<Seq<u8>>, chunk: Seq<u8>)
    ensures
        concat(chunks.push(chunk)) == concat(chunks) + chunk,
{
    assert(chunks.push(chunk).drop_last() =~= chunks);
}

fn extend(out: &mut Vec<u8>, bytes: &[u8])
    ensures
        final(out)@ == old(out)@ + bytes@,
{
    out.extend_from_slice(bytes);
    assert(out@ =~= old(out)@ + bytes@);
}

/// Appends the four low bytes of `value`.
pub fn put_u32(out: &mut Vec<u8>, value: usize)
    ensures
        final(out)@ == old(out)@ + u32_bytes(value as int),
{
    out.push((value % 256) as u8);
    out.push((value / 256 % 256) as u8);
    out.push((value / 65536 % 256) as u8);
    out.push((value / 16777216 % 256) as u8);
    assert(out@ =~= old(out)@ + u32_bytes(value as int));
}

/// The digit of `value` to the base 256 that stands before `unit` does not change with a multiple of
/// the next higher unit.
proof fn lemma_digit_wraps(value: int, unit: int, times: int)
    requires
        unit > 0,
    ensures
        (value + 256 * times * unit) / unit % 256 == value / unit % 256,
{
    div_mod::lemma_hoist_over_denominator(value, 256 * times, unit as nat);
    div_mod::lemma_mod_multiples_vanish(times, value / unit, 256);
}

/// Four bytes do not tell `value` from `value` plus two to the power of 32.
pub proof fn lemma_u32_bytes_wrap(value: int)
    ensures
        u32_bytes(value + 4294967296) == u32_bytes(value),
{
    lemma_digit_wraps(value, 1, 16777216);
    lemma_digit_wraps(value, 256, 65536);
    lemma_digit_wraps(value, 65536, 256);
    lemma_digit_wraps(value, 16777216, 1);
}

fn put_i32(out: &mut Vec<u8>, value: i32)
    ensures
        final(out)@ == old(out)@ + u32_bytes(value as int),
{
    let low: u32 = if value >= 0 {
        value as u32
    } else {
        (value as i64 + 4294967296) as u32
    };
    proof {
        lemma_u32_bytes_wrap(value as int);
    }
    put_u32(out, low as usize);
}

/// Appends a `str`.
pub fn put_str(out: &mut Vec<u8>, value: &str)
    ensures
        final(out)@ == old(out)@ + str_bytes(value@),
{
    let bytes = value.as_bytes();
    put_u32(out, bytes.len());
    extend(out, bytes);
    assert(out@ =~= old(out)@ + str_bytes(value@));
}

fn put_strs(out: &mut Vec<u8>, values: &Vec<String>)
    ensures
        final(out)@ == old(out)@ + list_bytes(str_chunks(text::strings_view(values@))),
{
    let ghost chunks = str_chunks(text::strings_view(values@));
    put_u32(out, values.len());
    let ghost start = out@;
    assert(start + concat(chunks.take(0)) =~= start);
    for i in 0..values.len()
        invariant
            chunks == str_chunks(text::strings_view(values@)),
            out@ == start + concat(chunks.take(i as int)),
    {
        put_str(out, values[i].as_str());
        proof {
            assert(chunks.take(i + 1) =~= chunks.take(i as int).push(chunks[i as int]));
            lemma_concat_push(chunks.take(i as int), chunks[i as int]);
            assert(out@ =~= start + concat(chunks.take(i + 1)));
        }
    }
    assert(chunks.take(values.len() as int) =~= chunks);
    assert(out@ =~= old(out)@ + list_bytes(chunks));
}

/// Appends a `window`.
pub fn put_window(out: &mut Vec<u8>, window: &Window)
    ensures
        final(out)@ == old(out)@ + window_bytes(window@),
{
    put_str(out, window.app_id.as_str());
    put_str(out, window.title.as_str());
    put_strs(out, &window.argv);

    let mut flags: u8 = 0;
    if window.floating {
        flags |= FLAG_FLOATING;
    }
    if window.fullscreen {
        flags |= FLAG_FULLSCREEN;
    }
    if window.focused {
        flags |= FLAG_FOCUSED;
    }
    assert(flags == flags_byte(window@)) by {
        assert(0u8 | 1 == 1 && 0u8 | 2 == 2 && 0u8 | 4 == 4 && 1u8 | 2 == 3 && 1u8 | 4 == 5 && 2u8
            | 4 == 6 && 3u8 | 4 == 7) by (bit_vector);
    }
    out.push(flags);

    put_i32(out, window.rect.x);
    put_i32(out, window.rect.y);
    put_i32(out, window.rect.width);
    put_i32(out, window.rect.height);
    assert(out@ =~= old(out)@ + window_bytes(window@));
}

/// Appends a list of `window`.
pub fn put_windows(out: &mut Vec<u8>, windows: &[Window])
    ensures
        final(out)@ == old(out)@ + list_bytes(window_chunks(session::windows_view(windows@))),
{
    let ghost chunks = window_chunks(session::windows_view(windows@));
    put_u32(out, windows.len());
    let ghost start = out@;
    assert(start + concat(chunks.take(0)) =~= start);
    for i in 0..windows.len()
        invariant
            chunks == window_chunks(session::windows_view(windows@)),
            out@ == start + concat(chunks.take(i as int)),
    {
        put_window(out, &windows[i]);
        proof {
            assert(chunks.take(i + 1) =~= chunks.take(i as int).push(chunks[i as int]));
            lemma_concat_push(chunks.take(i as int), chunks[i as int]);
            assert(out@ =~= start + concat(chunks.take(i + 1)));
        }
    }
    assert(chunks.take(windows.len() as int) =~= chunks);
    assert(out@ =~= old(out)@ + list_bytes(chunks));
}

/// A list of tiles has one chunk for each of them, in the same order.
pub proof fn lemma_tile_chunks(tiles: Seq<TileView>)
    ensures
        tile_chunks(tiles).len() == tiles.len(),
        forall|i: int|
            0 <= i < tiles.len() ==> #[trigger] tile_chunks(tiles)[i] == tile_bytes(tiles[i]),
    decreases tiles.len(),
{
    if tiles.len() > 0 {
        lemma_tile_chunks(tiles.drop_last());
    }
}

fn put_tile(out: &mut Vec<u8>, tile: &Tile)
    ensures
        final(out)@ == old(out)@ + tile_bytes(tile@),
    decreases tile,
{
    match tile {
        Tile::Window(window) => {
            out.push(TILE_WINDOW);
            put_window(out, window);
        },
        Tile::Split { layout, children } => {
            out.push(TILE_SPLIT);
            out.push(layout.to_u8());
            put_tiles(out, children.as_slice());
        },
    }
    assert(out@ =~= old(out)@ + tile_bytes(tile@));
}

/// Appends a list of `tile`.
pub fn put_tiles(out: &mut Vec<u8>, tiles: &[Tile])
    ensures
        final(out)@ == old(out)@ + list_bytes(tile_chunks(session::tiles_view(tiles@))),
    decreases tiles@,
{
    let ghost chunks = tile_chunks(session::tiles_view(tiles@));
    proof {
        session::lemma_tiles_view(tiles@);
        lemma_tile_chunks(session::tiles_view(tiles@));
    }
    put_u32(out, tiles.len());
    let ghost start = out@;
    assert(start + concat(chunks.take(0)) =~= start);
    for i in 0..tiles.len()
        invariant
            chunks.len() == tiles.len(),
            forall|j: int|
                0 <= j < tiles.len() ==> #[trigger] chunks[j] == tile_bytes(session::tile_view(tiles@[j])),
            out@ == start + concat(chunks.take(i as int)),
    {
        put_tile(out, &tiles[i]);
        proof {
            assert(chunks.take(i + 1) =~= chunks.take(i as int).push(chunks[i as int]));
            lemma_concat_push(chunks.take(i as int), chunks[i as int]);
            assert(out@ =~= start + concat(chunks.take(i + 1)));
        }
    }
    assert(chunks.take(tiles.len() as int) =~= chunks);
    assert(out@ =~= old(out)@ + list_bytes(chunks));
}

fn put_workspace(out: &mut Vec<u8>, workspace: &Workspace)
    ensures
        final(out)@ == old(out)@ + workspace_bytes(workspace@),
{
    put_str(out, workspace.name.as_str());
    put_str(out, workspace.output.as_str());
    out.push(workspace.layout.to_u8());
    put_tiles(out, workspace.tiles.as_slice());
    put_windows(out, workspace.floating.as_slice());
    assert(out@ =~= old(out)@ + workspace_bytes(workspace@));
}

/// The session file that holds `session`.
pub fn encode(session: &Session) -> (bytes: Vec<u8>)
    ensures
        bytes@ == session_bytes(session@),
{
    let ghost chunks = workspace_chunks(session::workspaces_view(session.workspaces@));
    let mut out: Vec<u8> = Vec::new();
    extend(&mut out, MAGIC.as_slice());
    out.push((VERSION % 256) as u8);
    out.push((VERSION / 256) as u8);
    assert(out@ =~= MAGIC@ + u16_bytes(VERSION as int));
    put_u32(&mut out, session.workspaces.len());

    let ghost start = out@;
    assert(start + concat(chunks.take(0)) =~= start);
    for i in 0..session.workspaces.len()
        invariant
            chunks == workspace_chunks(session::workspaces_view(session.workspaces@)),
            out@ == start + concat(chunks.take(i as int)),
    {
        put_workspace(&mut out, &session.workspaces[i]);
        proof {
            assert(chunks.take(i + 1) =~= chunks.take(i as int).push(chunks[i as int]));
            lemma_concat_push(chunks.take(i as int), chunks[i as int]);
            assert(out@ =~= start + concat(chunks.take(i + 1)));
        }
    }
    assert(chunks.take(session.workspaces.len() as int) =~= chunks);

    put_windows(&mut out, session.scratchpad.as_slice());
    assert(out@ =~= session_bytes(session@));
    out
}

// What is read

/// What reading one item gives: the item and the position behind it, or what is wrong.
pub type Parsed<T> = Result<(T, int), Error>;

/// The `len` bytes at `pos`.
pub open spec fn read_bytes(bytes: Seq<u8>, pos: int, len: int) -> Parsed<Seq<u8>> {
    if pos + len <= bytes.len() {
        Ok((bytes.subrange(pos, pos + len), pos + len))
    } else {
        Err(Error::Truncated)
    }
}

/// A `u8`.
pub open spec fn read_u8(bytes: Seq<u8>, pos: int) -> Parsed<u8> {
    if pos + 1 <= bytes.len() {
        Ok((bytes[pos], pos + 1))
    } else {
        Err(Error::Truncated)
    }
}

/// A `u16`.
pub open spec fn read_u16(bytes: Seq<u8>, pos: int) -> Parsed<u16> {
    if pos + 2 <= bytes.len() {
        Ok(((bytes[pos] + 256 * bytes[pos + 1]) as u16, pos + 2))
    } else {
        Err(Error::Truncated)
    }
}

/// A `u32`.
pub open spec fn read_u32(bytes: Seq<u8>, pos: int) -> Parsed<u32> {
    if pos + 4 <= bytes.len() {
        Ok(
            (
                (bytes[pos] + 256 * bytes[pos + 1] + 65536 * bytes[pos + 2] + 16777216 * bytes[pos
                    + 3]) as u32,
                pos + 4,
            ),
        )
    } else {
        Err(Error::Truncated)
    }
}

/// An `i32`: a `u32` whose upper half stands for the negative numbers.
pub open spec fn read_i32(bytes: Seq<u8>, pos: int) -> Parsed<i32> {
    match read_u32(bytes, pos) {
        Err(e) => Err(e),
        Ok((value, pos)) => Ok(
            ((if value < 0x8000_0000 { value as int } else { value - 0x1_0000_0000 }) as i32, pos),
        ),
    }
}

/// A `str`.
pub open spec fn read_str(bytes: Seq<u8>, pos: int) -> Parsed<Seq<char>> {
    match read_u32(bytes, pos) {
        Err(e) => Err(e),
        Ok((len, pos)) => match read_bytes(bytes, pos, len as int) {
            Err(e) => Err(e),
            Ok((text, pos)) => if utf8::valid_utf8(text) {
                Ok((utf8::decode_utf8(text), pos))
            } else {
                Err(Error::BadUtf8)
            },
        },
    }
}

/// Where the reading of a `str` stops: behind the `str`, or where there are too few bytes for what
/// comes next, its length or its text.
pub open spec fn str_stop(bytes: Seq<u8>, pos: int) -> int {
    match read_u32(bytes, pos) {
        Err(_) => pos,
        Ok((len, pos)) => match read_bytes(bytes, pos, len as int) {
            Err(_) => pos,
            Ok((_, pos)) => pos,
        },
    }
}

/// A `layout`.
pub open spec fn read_layout(bytes: Seq<u8>, pos: int) -> Parsed<Layout> {
    match read_u8(bytes, pos) {
        Err(e) => Err(e),
        Ok((raw, pos)) => match session::layout_of(raw) {
            Some(layout) => Ok((layout, pos)),
            None => Err(Error::BadLayout(raw)),
        },
    }
}

/// `count` items in a row, each read by `item` from the position that it is given.
pub open spec fn repeat<T>(item: spec_fn(int) -> Parsed<T>, count: nat, pos: int) -> Parsed<Seq<T>>
    decreases count,
{
    if count == 0 {
        Ok((Seq::empty(), pos))
    } else {
        match repeat(item, (count - 1) as nat, pos) {
            Err(e) => Err(e),
            Ok((items, pos)) => match item(pos) {
                Err(e) => Err(e),
                Ok((last, pos)) => Ok((items.push(last), pos)),
            },
        }
    }
}

/// A count, followed by that many items.
pub open spec fn read_list<T>(bytes: Seq<u8>, item: spec_fn(int) -> Parsed<T>, pos: int) -> Parsed<
    Seq<T>,
> {
    match read_u32(bytes, pos) {
        Err(e) => Err(e),
        Ok((count, pos)) => repeat(item, count as nat, pos),
    }
}

/// Reads a `str` wherever it is told to.
pub open spec fn str_at(bytes: Seq<u8>) -> spec_fn(int) -> Parsed<Seq<char>> {
    |pos: int| read_str(bytes, pos)
}

/// A `rect`.
pub open spec fn read_rect(bytes: Seq<u8>, pos: int) -> Parsed<Rect> {
    match read_i32(bytes, pos) {
        Err(e) => Err(e),
        Ok((x, pos)) => match read_i32(bytes, pos) {
            Err(e) => Err(e),
            Ok((y, pos)) => match read_i32(bytes, pos) {
                Err(e) => Err(e),
                Ok((width, pos)) => match read_i32(bytes, pos) {
                    Err(e) => Err(e),
                    Ok((height, pos)) => Ok((Rect { x, y, width, height }, pos)),
                },
            },
        },
    }
}

/// Whether `flags` has the bit whose weight is `flag`.
pub open spec fn has_flag(flags: u8, flag: u8) -> bool {
    flags as int / flag as int % 2 == 1
}

/// A `window`.
pub open spec fn read_window(bytes: Seq<u8>, pos: int) -> Parsed<WindowView> {
    match read_str(bytes, pos) {
        Err(e) => Err(e),
        Ok((app_id, pos)) => match read_str(bytes, pos) {
            Err(e) => Err(e),
            Ok((title, pos)) => match read_list(bytes, str_at(bytes), pos) {
                Err(e) => Err(e),
                Ok((argv, pos)) => match read_u8(bytes, pos) {
                    Err(e) => Err(e),
                    Ok((flags, pos)) => match read_rect(bytes, pos) {
                        Err(e) => Err(e),
                        Ok((rect, pos)) => Ok(
                            (
                                WindowView {
                                    app_id,
                                    title,
                                    argv,
                                    floating: has_flag(flags, FLAG_FLOATING),
                                    fullscreen: has_flag(flags, FLAG_FULLSCREEN),
                                    focused: has_flag(flags, FLAG_FOCUSED),
                                    rect,
                                },
                                pos,
                            ),
                        ),
                    },
                },
            },
        },
    }
}

/// Reads a `window` wherever it is told to.
pub open spec fn window_at(bytes: Seq<u8>) -> spec_fn(int) -> Parsed<WindowView> {
    |pos: int| read_window(bytes, pos)
}

/// A list of `window`.
pub open spec fn read_windows(bytes: Seq<u8>, pos: int) -> Parsed<Seq<WindowView>> {
    read_list(bytes, window_at(bytes), pos)
}

/// A `tile` in which splits may nest less than `levels` deep.
pub open spec fn read_tile(bytes: Seq<u8>, levels: nat, pos: int) -> Parsed<TileView>
    decreases levels, 0nat,
{
    match read_u8(bytes, pos) {
        Err(e) => Err(e),
        Ok((kind, pos)) => if kind == TILE_WINDOW {
            match read_window(bytes, pos) {
                Err(e) => Err(e),
                Ok((window, pos)) => Ok((TileView::Window(window), pos)),
            }
        } else if kind == TILE_SPLIT {
            match read_layout(bytes, pos) {
                Err(e) => Err(e),
                Ok((layout, pos)) => if levels == 0 {
                    Err(Error::TooDeep)
                } else {
                    match read_tiles(bytes, (levels - 1) as nat, pos) {
                        Err(e) => Err(e),
                        Ok((children, pos)) => Ok((TileView::Split { layout, children }, pos)),
                    }
                },
            }
        } else {
            Err(Error::BadTile(kind))
        },
    }
}

/// Reads a `tile` wherever it is told to.
pub open spec fn tile_at(bytes: Seq<u8>, levels: nat) -> spec_fn(int) -> Parsed<TileView>
    decreases levels, 1nat,
{
    |pos: int| read_tile(bytes, levels, pos)
}

/// A list of `tile` in which splits may nest less than `levels` deep; where `levels` is none, not
/// even the list itself is allowed.
pub open spec fn read_tiles(bytes: Seq<u8>, levels: nat, pos: int) -> Parsed<Seq<TileView>>
    decreases levels, 2nat,
{
    if levels == 0 {
        Err(Error::TooDeep)
    } else {
        read_list(bytes, tile_at(bytes, levels), pos)
    }
}

/// The tiles and the floating windows of a workspace of a version 1 file, which has both in one
/// list.
pub open spec fn part_windows(windows: Seq<WindowView>) -> (Seq<TileView>, Seq<WindowView>) {
    (
        windows.filter(|window: WindowView| !window.floating).map_values(
            |window: WindowView| TileView::Window(window),
        ),
        windows.filter(|window: WindowView| window.floating),
    )
}

/// The tiles and the floating windows of a workspace.
pub open spec fn read_contents(bytes: Seq<u8>, version: u16, pos: int) -> Parsed<
    (Seq<TileView>, Seq<WindowView>),
> {
    if version == 1 {
        match read_windows(bytes, pos) {
            Err(e) => Err(e),
            Ok((windows, pos)) => Ok((part_windows(windows), pos)),
        }
    } else {
        match read_tiles(bytes, (MAX_DEPTH + 1) as nat, pos) {
            Err(e) => Err(e),
            Ok((tiles, pos)) => match read_windows(bytes, pos) {
                Err(e) => Err(e),
                Ok((floating, pos)) => Ok(((tiles, floating), pos)),
            },
        }
    }
}

/// A `workspace` of a file of `version`.
pub open spec fn read_workspace(bytes: Seq<u8>, version: u16, pos: int) -> Parsed<WorkspaceView> {
    match read_str(bytes, pos) {
        Err(e) => Err(e),
        Ok((name, pos)) => match read_str(bytes, pos) {
            Err(e) => Err(e),
            Ok((output, pos)) => match read_layout(bytes, pos) {
                Err(e) => Err(e),
                Ok((layout, pos)) => match read_contents(bytes, version, pos) {
                    Err(e) => Err(e),
                    Ok(((tiles, floating), pos)) => Ok(
                        (WorkspaceView { name, output, layout, tiles, floating }, pos),
                    ),
                },
            },
        },
    }
}

/// Reads a `workspace` wherever it is told to.
pub open spec fn workspace_at(bytes: Seq<u8>, version: u16) -> spec_fn(int) -> Parsed<
    WorkspaceView,
> {
    |pos: int| read_workspace(bytes, version, pos)
}

/// The version of a session file, behind its magic.
pub open spec fn read_header(bytes: Seq<u8>) -> Parsed<u16> {
    match read_bytes(bytes, 0, 4) {
        Err(e) => Err(e),
        Ok((magic, pos)) => if magic != MAGIC@ {
            Err(Error::BadMagic)
        } else {
            match read_u16(bytes, pos) {
                Err(e) => Err(e),
                Ok((version, pos)) => if 1 <= version <= VERSION {
                    Ok((version, pos))
                } else {
                    Err(Error::UnsupportedVersion(version))
                },
            }
        },
    }
}

/// A whole session file. What follows the trailer is not looked at.
pub open spec fn read_session(bytes: Seq<u8>) -> Parsed<SessionView> {
    match read_header(bytes) {
        Err(e) => Err(e),
        Ok((version, pos)) => match read_list(bytes, workspace_at(bytes, version), pos) {
            Err(e) => Err(e),
            Ok((workspaces, pos)) => match read_windows(bytes, pos) {
                Err(e) => Err(e),
                Ok((scratchpad, pos)) => Ok((SessionView { workspaces, scratchpad }, pos)),
            },
        },
    }
}

/// Where `item` fails within the first `done` items, it fails in the same way for more of them.
proof fn lemma_repeat_fails<T>(item: spec_fn(int) -> Parsed<T>, done: nat, count: nat, pos: int)
    requires
        done <= count,
        repeat(item, done, pos) is Err,
    ensures
        repeat(item, count, pos) == repeat(item, done, pos),
    decreases count,
{
    if done < count {
        lemma_repeat_fails(item, done, (count - 1) as nat, pos);
    }
}

/// `String::from_utf8` turns bytes into the string that they encode, and fails on bytes that are
/// not valid UTF-8.
#[verifier::external_body]
fn string_from_utf8(bytes: Vec<u8>) -> (string: Option<String>)
    ensures
        string is Some <==> utf8::valid_utf8(bytes@),
        string matches Some(s) ==> s@ == utf8::decode_utf8(bytes@),
{
    String::from_utf8(bytes).ok()
}

/// Session data, read from a position on
pub struct Reader<'a> {
    pub bytes: &'a [u8],
    pub pos: usize,
}

impl<'a> Reader<'a> {
    /// The position lies within the bytes or right behind them.
    pub open spec fn wf(self) -> bool {
        self.pos <= self.bytes@.len()
    }

    /// The bytes are still the same, and the position is `pos`.
    pub open spec fn moved_to(self, old: Reader<'a>, pos: int) -> bool {
        self.wf() && self.bytes@ == old.bytes@ && self.pos == pos
    }

    /// The bytes are still the same, and the position has not gone back.
    pub open spec fn kept(self, old: Reader<'a>) -> bool {
        self.wf() && self.bytes@ == old.bytes@ && old.pos <= self.pos
    }

    fn take(&mut self, len: usize) -> (res: Result<&'a [u8], Error>)
        requires
            old(self).wf(),
        ensures
            match read_bytes(old(self).bytes@, old(self).pos as int, len as int) {
                Ok((bytes, pos)) => res matches Ok(slice) && slice@ == bytes && final(self).moved_to(*old(self), pos),
                Err(e) => res == Err::<&'a [u8], Error>(e) && final(self).moved_to(
                    *old(self),
                    old(self).pos as int,
                ),
            },
    {
        if len > self.bytes.len() - self.pos {
            return Err(Error::Truncated);
        }
        let end = self.pos + len;
        let slice = slice_subrange(self.bytes, self.pos, end);
        self.pos = end;
        Ok(slice)
    }

    fn u8(&mut self) -> (res: Result<u8, Error>)
        requires
            old(self).wf(),
        ensures
            match read_u8(old(self).bytes@, old(self).pos as int) {
                Ok((value, pos)) => res == Ok::<u8, Error>(value) && final(self).moved_to(
                    *old(self),
                    pos,
                ),
                Err(e) => res == Err::<u8, Error>(e) && final(self).moved_to(
                    *old(self),
                    old(self).pos as int,
                ),
            },
    {
        let slice = self.take(1)?;
        Ok(slice[0])
    }

    fn u16(&mut self) -> (res: Result<u16, Error>)
        requires
            old(self).wf(),
        ensures
            match read_u16(old(self).bytes@, old(self).pos as int) {
                Ok((value, pos)) => res == Ok::<u16, Error>(value) && final(self).moved_to(
                    *old(self),
                    pos,
                ),
                Err(e) => res == Err::<u16, Error>(e) && final(self).moved_to(
                    *old(self),
                    old(self).pos as int,
                ),
            },
    {
        let slice = self.take(2)?;
        Ok(slice[0] as u16 + 256 * slice[1] as u16)
    }

    fn u32(&mut self) -> (res: Result<u32, Error>)
        requires
            old(self).wf(),
        ensures
            match read_u32(old(self).bytes@, old(self).pos as int) {
                Ok((value, pos)) => res == Ok::<u32, Error>(value) && final(self).moved_to(
                    *old(self),
                    pos,
                ),
                Err(e) => res == Err::<u32, Error>(e) && final(self).moved_to(
                    *old(self),
                    old(self).pos as int,
                ),
            },
    {
        let slice = self.take(4)?;
        Ok(
            slice[0] as u32 + 256 * slice[1] as u32 + 65536 * slice[2] as u32 + 16777216
                * slice[3] as u32,
        )
    }

    fn i32(&mut self) -> (res: Result<i32, Error>)
        requires
            old(self).wf(),
        ensures
            match read_i32(old(self).bytes@, old(self).pos as int) {
                Ok((value, pos)) => res == Ok::<i32, Error>(value) && final(self).moved_to(
                    *old(self),
                    pos,
                ),
                Err(e) => res == Err::<i32, Error>(e) && final(self).moved_to(
                    *old(self),
                    old(self).pos as int,
                ),
            },
    {
        let value = self.u32()?;
        if value < 0x8000_0000 {
            Ok(value as i32)
        } else {
            Ok((value as i64 - 0x1_0000_0000) as i32)
        }
    }

    fn str(&mut self) -> (res: Result<String, Error>)
        requires
            old(self).wf(),
        ensures
            match read_str(old(self).bytes@, old(self).pos as int) {
                Ok((value, pos)) => res matches Ok(string) && string@ == value && final(self).moved_to(*old(self), pos),
                Err(e) => res == Err::<String, Error>(e) && final(self).moved_to(
                    *old(self),
                    str_stop(old(self).bytes@, old(self).pos as int),
                ),
            },
    {
        let len = self.u32()? as usize;
        let bytes = slice_to_vec(self.take(len)?);
        match string_from_utf8(bytes) {
            Some(string) => Ok(string),
            None => Err(Error::BadUtf8),
        }
    }
}

fn take_layout(r: &mut Reader<'_>) -> (res: Result<Layout, Error>)
    requires
        old(r).wf(),
    ensures
        match read_layout(old(r).bytes@, old(r).pos as int) {
            Ok((layout, pos)) => res == Ok::<Layout, Error>(layout) && final(r).moved_to(
                *old(r),
                pos,
            ),
            Err(e) => res == Err::<Layout, Error>(e) && final(r).moved_to(
                *old(r),
                old(r).pos + if e is Truncated {
                    0int
                } else {
                    1
                },
            ),
        },
{
    let raw = r.u8()?;
    match Layout::from_u8(raw) {
        Some(layout) => Ok(layout),
        None => Err(Error::BadLayout(raw)),
    }
}

fn take_strs(r: &mut Reader<'_>) -> (res: Result<Vec<String>, Error>)
    requires
        old(r).wf(),
    ensures
        match read_list(old(r).bytes@, str_at(old(r).bytes@), old(r).pos as int) {
            Ok((values, pos)) => res matches Ok(strings) && text::strings_view(strings@)
                == values && final(r).moved_to(*old(r), pos),
            Err(e) => res == Err::<Vec<String>, Error>(e),
        },
        final(r).kept(*old(r)),
{
    let ghost bytes = r.bytes@;
    let count = r.u32()?;
    let ghost start = r.pos as int;
    let mut strings: Vec<String> = Vec::new();
    let mut done: u32 = 0;
    assert(text::strings_view(strings@) =~= Seq::empty());
    while done < count
        invariant
            done <= count,
            r.kept(*old(r)),
            r.bytes@ == bytes,
            bytes == old(r).bytes@,
            read_u32(bytes, old(r).pos as int) == Ok::<(u32, int), Error>((count, start)),
            repeat(str_at(bytes), done as nat, start) == Ok::<(Seq<Seq<char>>, int), Error>(
                (text::strings_view(strings@), r.pos as int),
            ),
        decreases count - done,
    {
        let ghost before = text::strings_view(strings@);
        proof {
            if read_str(bytes, r.pos as int) is Err {
                lemma_repeat_fails(str_at(bytes), (done + 1) as nat, count as nat, start);
            }
        }
        let string = r.str()?;
        strings.push(string);
        assert(text::strings_view(strings@) =~= before.push(string@));
        done = done + 1;
    }
    Ok(strings)
}

fn take_rect(r: &mut Reader<'_>) -> (res: Result<Rect, Error>)
    requires
        old(r).wf(),
    ensures
        match read_rect(old(r).bytes@, old(r).pos as int) {
            Ok((rect, pos)) => res == Ok::<Rect, Error>(rect) && final(r).moved_to(*old(r), pos),
            Err(e) => res == Err::<Rect, Error>(e),
        },
        final(r).kept(*old(r)),
{
    Ok(Rect { x: r.i32()?, y: r.i32()?, width: r.i32()?, height: r.i32()? })
}

proof fn lemma_flags(flags: u8)
    ensures
        (flags & FLAG_FLOATING != 0) == has_flag(flags, FLAG_FLOATING),
        (flags & FLAG_FULLSCREEN != 0) == has_flag(flags, FLAG_FULLSCREEN),
        (flags & FLAG_FOCUSED != 0) == has_flag(flags, FLAG_FOCUSED),
{
    assert((flags & 1 != 0) == (flags / 1 % 2 == 1)) by (bit_vector);
    assert((flags & 2 != 0) == (flags / 2 % 2 == 1)) by (bit_vector);
    assert((flags & 4 != 0) == (flags / 4 % 2 == 1)) by (bit_vector);
}

/// Reads a window. The bits of its flags that stand for nothing are ignored.
pub fn take_window(r: &mut Reader<'_>) -> (res: Result<Window, Error>)
    requires
        old(r).wf(),
    ensures
        match read_window(old(r).bytes@, old(r).pos as int) {
            Ok((view, pos)) => res matches Ok(window) && window@ == view && final(r).moved_to(
                *old(r),
                pos,
            ),
            Err(e) => res == Err::<Window, Error>(e),
        },
        final(r).kept(*old(r)),
        forall|window: WindowView, flags: u8|
            format_laws::window_sized(window) && flags % 8 == flags_byte(window) && format_laws::at(
                old(r).bytes@,
                old(r).pos as int,
                #[trigger] format_laws::window_bytes_with(window, flags),
            ) ==> (res matches Ok(found) && found@ == window && final(r).moved_to(
                *old(r),
                old(r).pos + format_laws::window_bytes_with(window, flags).len(),
            )),
{
    proof {
        assert forall|window: WindowView, flags: u8|
            format_laws::window_sized(window) && flags % 8 == flags_byte(window) && format_laws::at(
                r.bytes@,
                r.pos as int,
                #[trigger] format_laws::window_bytes_with(window, flags),
            ) implies read_window(r.bytes@, r.pos as int) == Ok::<(WindowView, int), Error>(
            (window, r.pos + format_laws::window_bytes_with(window, flags).len()),
        ) by {
            format_laws::lemma_window_with(r.bytes@, r.pos as int, window, flags);
        }
    }
    let app_id = r.str()?;
    let title = r.str()?;
    let argv = take_strs(r)?;
    let flags = r.u8()?;
    let rect = take_rect(r)?;
    proof {
        lemma_flags(flags);
    }
    Ok(
        Window {
            app_id,
            title,
            argv,
            floating: flags & FLAG_FLOATING != 0,
            fullscreen: flags & FLAG_FULLSCREEN != 0,
            focused: flags & FLAG_FOCUSED != 0,
            rect,
        },
    )
}

fn take_windows(r: &mut Reader<'_>) -> (res: Result<Vec<Window>, Error>)
    requires
        old(r).wf(),
    ensures
        match read_windows(old(r).bytes@, old(r).pos as int) {
            Ok((views, pos)) => res matches Ok(windows) && session::windows_view(windows@) == views
                && final(r).moved_to(*old(r), pos),
            Err(e) => res == Err::<Vec<Window>, Error>(e),
        },
        final(r).kept(*old(r)),
{
    let ghost bytes = r.bytes@;
    let count = r.u32()?;
    let ghost start = r.pos as int;
    // the count may be corrupt, so no memory is set aside for that many windows
    let mut windows: Vec<Window> = Vec::new();
    let mut done: u32 = 0;
    assert(session::windows_view(windows@) =~= Seq::empty());
    while done < count
        invariant
            done <= count,
            r.kept(*old(r)),
            r.bytes@ == bytes,
            bytes == old(r).bytes@,
            read_u32(bytes, old(r).pos as int) == Ok::<(u32, int), Error>((count, start)),
            repeat(window_at(bytes), done as nat, start) == Ok::<(Seq<WindowView>, int), Error>(
                (session::windows_view(windows@), r.pos as int),
            ),
        decreases count - done,
    {
        let ghost before = session::windows_view(windows@);
        proof {
            if read_window(bytes, r.pos as int) is Err {
                lemma_repeat_fails(window_at(bytes), (done + 1) as nat, count as nat, start);
            }
        }
        let window = take_window(r)?;
        windows.push(window);
        assert(session::windows_view(windows@) =~= before.push(window@));
        done = done + 1;
    }
    Ok(windows)
}

fn take_tile(r: &mut Reader<'_>, depth: usize) -> (res: Result<Tile, Error>)
    requires
        old(r).wf(),
        depth <= MAX_DEPTH,
    ensures
        match read_tile(old(r).bytes@, (MAX_DEPTH + 1 - depth) as nat, old(r).pos as int) {
            Ok((view, pos)) => res matches Ok(tile) && tile@ == view && final(r).moved_to(
                *old(r),
                pos,
            ),
            Err(e) => res == Err::<Tile, Error>(e),
        },
        final(r).kept(*old(r)),
    decreases MAX_DEPTH + 1 - depth, 0nat,
{
    let kind = r.u8()?;
    if kind == TILE_WINDOW {
        Ok(Tile::Window(take_window(r)?))
    } else if kind == TILE_SPLIT {
        let layout = take_layout(r)?;
        let children = take_tiles(r, depth + 1)?;
        Ok(Tile::Split { layout, children })
    } else {
        Err(Error::BadTile(kind))
    }
}

fn take_tiles(r: &mut Reader<'_>, depth: usize) -> (res: Result<Vec<Tile>, Error>)
    requires
        old(r).wf(),
        depth <= MAX_DEPTH + 1,
    ensures
        match read_tiles(old(r).bytes@, (MAX_DEPTH + 1 - depth) as nat, old(r).pos as int) {
            Ok((views, pos)) => res matches Ok(tiles) && session::tiles_view(tiles@) == views
                && final(r).moved_to(*old(r), pos),
            Err(e) => res == Err::<Vec<Tile>, Error>(e),
        },
        final(r).kept(*old(r)),
        depth > MAX_DEPTH ==> final(r).moved_to(*old(r), old(r).pos as int),
    decreases MAX_DEPTH + 1 - depth, 1nat,
{
    if depth > MAX_DEPTH {
        return Err(Error::TooDeep);
    }
    let ghost bytes = r.bytes@;
    let ghost levels = (MAX_DEPTH + 1 - depth) as nat;
    let count = r.u32()?;
    let ghost start = r.pos as int;
    let mut tiles: Vec<Tile> = Vec::new();
    let mut done: u32 = 0;
    while done < count
        invariant
            done <= count,
            depth <= MAX_DEPTH,
            r.kept(*old(r)),
            r.bytes@ == bytes,
            bytes == old(r).bytes@,
            levels == MAX_DEPTH + 1 - depth,
            read_u32(bytes, old(r).pos as int) == Ok::<(u32, int), Error>((count, start)),
            repeat(tile_at(bytes, levels), done as nat, start) == Ok::<(Seq<TileView>, int), Error>(
                (session::tiles_view(tiles@), r.pos as int),
            ),
        decreases count - done,
    {
        let ghost before = tiles@;
        proof {
            if read_tile(bytes, levels, r.pos as int) is Err {
                lemma_repeat_fails(tile_at(bytes, levels), (done + 1) as nat, count as nat, start);
            }
        }
        let tile = take_tile(r, depth)?;
        tiles.push(tile);
        assert(tiles@.drop_last() =~= before);
        done = done + 1;
    }
    Ok(tiles)
}

pub proof fn lemma_part_push(windows: Seq<WindowView>, window: WindowView)
    ensures
        part_windows(windows.push(window)) == if window.floating {
            (part_windows(windows).0, part_windows(windows).1.push(window))
        } else {
            (part_windows(windows).0.push(TileView::Window(window)), part_windows(windows).1)
        },
{
    reveal(Seq::filter);
    assert(windows.push(window).drop_last() =~= windows);
    assert(part_windows(windows.push(window)).0 =~= if window.floating {
        part_windows(windows).0
    } else {
        part_windows(windows).0.push(TileView::Window(window))
    });
}

/// Parts the windows of a version 1 workspace into tiles and floating windows.
fn part(windows: Vec<Window>) -> (parts: (Vec<Tile>, Vec<Window>))
    ensures
        session::tiles_view(parts.0@) == part_windows(session::windows_view(windows@)).0,
        session::windows_view(parts.1@) == part_windows(session::windows_view(windows@)).1,
{
    let ghost views = session::windows_view(windows@);
    let mut tiles: Vec<Tile> = Vec::new();
    let mut floating: Vec<Window> = Vec::new();
    proof {
        reveal(Seq::filter);
        assert(session::tiles_view(tiles@) =~= part_windows(views.take(0)).0);
        assert(session::windows_view(floating@) =~= part_windows(views.take(0)).1);
    }
    for window in it: windows.into_iter()
        invariant
            it.seq() == windows@,
            views == session::windows_view(windows@),
            session::tiles_view(tiles@) == part_windows(views.take(it.index())).0,
            session::windows_view(floating@) == part_windows(views.take(it.index())).1,
    {
        let ghost tiles_before = tiles@;
        let ghost floating_before = floating@;
        proof {
            assert(views.take(it.index() + 1) =~= views.take(it.index()).push(window@));
            lemma_part_push(views.take(it.index()), window@);
        }
        if window.floating {
            floating.push(window);
            assert(session::windows_view(floating@) =~= session::windows_view(floating_before).push(
                window@,
            ));
        } else {
            tiles.push(Tile::Window(window));
            assert(tiles@.drop_last() =~= tiles_before);
            assert(session::tile_view(tiles@.last()) == TileView::Window(window@));
        }
    }
    assert(views.take(views.len() as int) =~= views);
    (tiles, floating)
}

fn take_workspace(r: &mut Reader<'_>, version: u16) -> (res: Result<Workspace, Error>)
    requires
        old(r).wf(),
    ensures
        match read_workspace(old(r).bytes@, version, old(r).pos as int) {
            Ok((view, pos)) => res matches Ok(workspace) && workspace@ == view && final(r).moved_to(
                *old(r),
                pos,
            ),
            Err(e) => res == Err::<Workspace, Error>(e),
        },
        final(r).kept(*old(r)),
{
    let name = r.str()?;
    let output = r.str()?;
    let layout = take_layout(r)?;
    let (tiles, floating) = if version == 1 {
        part(take_windows(r)?)
    } else {
        (take_tiles(r, 0)?, take_windows(r)?)
    };
    Ok(Workspace { name, output, layout, tiles, floating })
}

/// The session that a session file holds.
pub fn decode(bytes: &[u8]) -> (res: Result<Session, Error>)
    ensures
        match read_session(bytes@) {
            Ok((view, _)) => res matches Ok(session) && session@ == view,
            Err(e) => res == Err::<Session, Error>(e),
        },
{
    let mut r = Reader { bytes, pos: 0 };
    let magic = r.take(4)?;
    if magic[0] != MAGIC[0] || magic[1] != MAGIC[1] || magic[2] != MAGIC[2] || magic[3]
        != MAGIC[3] {
        return Err(Error::BadMagic);
    }
    assert(magic@ =~= MAGIC@);
    let version = r.u16()?;
    if version < 1 || version > VERSION {
        return Err(Error::UnsupportedVersion(version));
    }
    let count = r.u32()?;
    let ghost start = r.pos as int;
    // do not allocate with the count in case the file is corrupt
    let mut workspaces: Vec<Workspace> = Vec::new();
    let mut done: u32 = 0;
    assert(session::workspaces_view(workspaces@) =~= Seq::empty());
    while done < count
        invariant
            done <= count,
            r.wf(),
            r.bytes@ == bytes@,
            read_header(bytes@) == Ok::<(u16, int), Error>((version, 6)),
            read_u32(bytes@, 6) == Ok::<(u32, int), Error>((count, start)),
            repeat(workspace_at(bytes@, version), done as nat, start) == Ok::<
                (Seq<WorkspaceView>, int),
                Error,
            >((session::workspaces_view(workspaces@), r.pos as int)),
        decreases count - done,
    {
        let ghost before = session::workspaces_view(workspaces@);
        proof {
            if read_workspace(bytes@, version, r.pos as int) is Err {
                lemma_repeat_fails(
                    workspace_at(bytes@, version),
                    (done + 1) as nat,
                    count as nat,
                    start,
                );
            }
        }
        let workspace = take_workspace(&mut r, version)?;
        workspaces.push(workspace);
        assert(session::workspaces_view(workspaces@) =~= before.push(workspace@));
        done = done + 1;
    }
    let scratchpad = take_windows(&mut r)?;
    Ok(Session { workspaces, scratchpad })
}

} // verus!

//! What the bytes of a session file are: how a session is laid out in a file, and that a file which is
//! accepted is laid out like that.

use crate::format::{Error, Parsed};
use crate::format_laws;
use crate::session;
use crate::session::{Layout, SessionView, TileView, WindowView, WorkspaceView};
use vstd::prelude::*;
use vstd::utf8;

verus! {

// How a session is laid out

/// The number that four bytes stand for, the lowest one first.
pub open spec fn number_in(bytes: Seq<u8>) -> int {
    bytes[0] + 256 * bytes[1] + 65536 * bytes[2] + 16777216 * bytes[3]
}

/// A number takes four bytes, the lowest one first; a negative one as if it were that much below the
/// first number that does not fit.
pub proof fn law_numbers_in_files(value: int)
    requires
        -0x8000_0000 <= value < 0x1_0000_0000,
    ensures
        crate::format::u32_bytes(value).len() == 4,
        number_in(crate::format::u32_bytes(value)) == if value >= 0 {
            value
        } else {
            value + 0x1_0000_0000
        },
{
    if value < 0 {
        crate::format::lemma_u32_bytes_wrap(value);
        lemma_number(value + 0x1_0000_0000);
    } else {
        lemma_number(value);
    }
}

proof fn lemma_number(value: int)
    requires
        0 <= value < 0x1_0000_0000,
    ensures
        number_in(crate::format::u32_bytes(value)) == value,
{
    let bytes = crate::format::u32_bytes(value);
    assert(value / 65536 == value / 256 / 256);
    assert(value / 16777216 == value / 256 / 256 / 256);
    assert(value / 16777216 < 256);
    assert(bytes[0] == value % 256);
    assert(bytes[1] == value / 256 % 256);
    assert(bytes[2] == value / 65536 % 256);
    assert(bytes[3] == value / 16777216 % 256);
}

proof fn lemma_concat_both(a: Seq<Seq<u8>>, b: Seq<Seq<u8>>)
    ensures
        crate::format::concat(a + b) == crate::format::concat(a) + crate::format::concat(b),
    decreases b.len(),
{
    if b.len() == 0 {
        assert(a + b =~= a);
    } else {
        assert((a + b).drop_last() =~= a + b.drop_last());
        assert((a + b).last() == b.last());
        lemma_concat_both(a, b.drop_last());
    }
    assert(crate::format::concat(a + b) =~= crate::format::concat(a) + crate::format::concat(b));
}

proof fn lemma_concat_one(chunk: Seq<u8>)
    ensures
        crate::format::concat(seq![chunk]) == chunk,
{
    let one = seq![chunk];
    assert(one.drop_last() =~= Seq::empty());
    assert(crate::format::concat(one.drop_last()) =~= Seq::empty());
    assert(crate::format::concat(one) =~= chunk);
}

/// The bytes of strings, one after the other.
pub open spec fn strings_stored(values: Seq<Seq<char>>) -> Seq<u8> {
    crate::format::concat(crate::format::str_chunks(values))
}

/// The bytes of windows, one after the other.
pub open spec fn windows_stored(windows: Seq<WindowView>) -> Seq<u8> {
    crate::format::concat(crate::format::window_chunks(windows))
}

/// The bytes of tiles, one after the other.
pub open spec fn tiles_stored(tiles: Seq<TileView>) -> Seq<u8> {
    crate::format::concat(crate::format::tile_chunks(tiles))
}

/// The bytes of workspaces, one after the other.
pub open spec fn workspaces_stored(workspaces: Seq<WorkspaceView>) -> Seq<u8> {
    crate::format::concat(crate::format::workspace_chunks(workspaces))
}

/// A number.
pub open spec fn number(value: int) -> Seq<u8> {
    crate::format::u32_bytes(value)
}

/// The byte of a layout.
pub open spec fn layout_stored(layout: Layout) -> u8 {
    match layout {
        Layout::SplitH => 0,
        Layout::SplitV => 1,
        Layout::Stacked => 2,
        Layout::Tabbed => 3,
    }
}

/// Strings are stored one after the other, each with its length in bytes before it.
pub proof fn law_strings_in_files(a: Seq<Seq<char>>, b: Seq<Seq<char>>, value: Seq<char>)
    ensures
        strings_stored(a + b) == strings_stored(a) + strings_stored(b),
        strings_stored(seq![value]) == number(utf8::encode_utf8(value).len() as int)
            + utf8::encode_utf8(value),
{
    lemma_concat_both(crate::format::str_chunks(a), crate::format::str_chunks(b));
    assert(crate::format::str_chunks(a + b) =~= crate::format::str_chunks(a)
        + crate::format::str_chunks(b));
    lemma_concat_one(crate::format::str_bytes(value));
    assert(crate::format::str_chunks(seq![value]) =~= seq![crate::format::str_bytes(value)]);
}

proof fn lemma_regroup<T>(a: Seq<T>, b: Seq<T>, c: Seq<T>, d: Seq<T>, e: Seq<T>)
    ensures
        a + (b + c) == a + b + c,
        a + (b + c + d + e) == a + b + c + d + e,
{
    assert(a + (b + c) =~= a + b + c);
    assert(a + (b + c + d + e) =~= a + b + c + d + e);
}

proof fn lemma_two_strings(one: Seq<char>, other: Seq<char>)
    ensures
        strings_stored(seq![one, other]) == crate::format::str_bytes(one)
            + crate::format::str_bytes(other),
{
    let first = crate::format::str_bytes(one);
    let second = crate::format::str_bytes(other);
    lemma_concat_both(seq![first], seq![second]);
    lemma_concat_one(first);
    lemma_concat_one(second);
    assert(crate::format::str_chunks(seq![one, other]) =~= seq![first] + seq![second]);
}

/// Windows are stored one after the other, each as its application, its title, the count of its
/// arguments and the arguments, a byte with a bit for each of its flags, and its rectangle.
pub proof fn law_windows_in_files(a: Seq<WindowView>, b: Seq<WindowView>, window: WindowView)
    ensures
        windows_stored(a + b) == windows_stored(a) + windows_stored(b),
        ({
            let floating = if window.floating {
                1int
            } else {
                0
            };
            let fullscreen = if window.fullscreen {
                2int
            } else {
                0
            };
            let focused = if window.focused {
                4int
            } else {
                0
            };
            windows_stored(seq![window]) == strings_stored(seq![window.app_id, window.title])
                + number(window.argv.len() as int) + strings_stored(window.argv) + seq![
                (floating + fullscreen + focused) as u8,
            ] + number(window.rect.x as int) + number(window.rect.y as int) + number(
                window.rect.width as int,
            ) + number(window.rect.height as int)
        }),
{
    lemma_concat_both(crate::format::window_chunks(a), crate::format::window_chunks(b));
    assert(crate::format::window_chunks(a + b) =~= crate::format::window_chunks(a)
        + crate::format::window_chunks(b));
    lemma_concat_one(crate::format::window_bytes(window));
    assert(crate::format::window_chunks(seq![window]) =~= seq![
        crate::format::window_bytes(window),
    ]);
    lemma_two_strings(window.app_id, window.title);
    let names = strings_stored(seq![window.app_id, window.title]);
    let count = number(window.argv.len() as int);
    let argv = strings_stored(window.argv);
    let flags = seq![crate::format::flags_byte(window)];
    lemma_regroup(names, count, argv, flags, flags);
    lemma_regroup(
        names + count + argv + flags,
        number(window.rect.x as int),
        number(window.rect.y as int),
        number(window.rect.width as int),
        number(window.rect.height as int),
    );
}

proof fn lemma_tile_chunks_both(a: Seq<TileView>, b: Seq<TileView>)
    ensures
        crate::format::tile_chunks(a + b) == crate::format::tile_chunks(a)
            + crate::format::tile_chunks(b),
    decreases b.len(),
{
    if b.len() == 0 {
        assert(a + b =~= a);
    } else {
        assert((a + b).drop_last() =~= a + b.drop_last());
        assert((a + b).last() == b.last());
        lemma_tile_chunks_both(a, b.drop_last());
    }
    assert(crate::format::tile_chunks(a + b) =~= crate::format::tile_chunks(a)
        + crate::format::tile_chunks(b));
}

proof fn lemma_one_tile(tile: TileView)
    ensures
        tiles_stored(seq![tile]) == crate::format::tile_bytes(tile),
{
    let one = seq![tile];
    assert(one.drop_last() =~= Seq::empty());
    assert(one.last() == tile);
    assert(crate::format::tile_chunks(one.drop_last()) =~= Seq::empty());
    assert(crate::format::tile_chunks(one) =~= seq![crate::format::tile_bytes(tile)]);
    lemma_concat_one(crate::format::tile_bytes(tile));
}

/// Tiles are stored one after the other: a window behind a zero, and a split behind a one, as its
/// layout, the count of its children and the children.
pub proof fn law_tiles_in_files(
    a: Seq<TileView>,
    b: Seq<TileView>,
    window: WindowView,
    layout: Layout,
)
    ensures
        tiles_stored(a + b) == tiles_stored(a) + tiles_stored(b),
        tiles_stored(seq![TileView::Window(window)]) == seq![0u8] + windows_stored(seq![window]),
        tiles_stored(seq![TileView::Split { layout, children: a }]) == seq![
            1u8,
            layout_stored(layout),
        ] + number(a.len() as int) + tiles_stored(a),
{
    lemma_tile_chunks_both(a, b);
    lemma_concat_both(crate::format::tile_chunks(a), crate::format::tile_chunks(b));
    lemma_one_tile(TileView::Window(window));
    lemma_one_tile(TileView::Split { layout, children: a });
    lemma_concat_one(crate::format::window_bytes(window));
    assert(crate::format::window_chunks(seq![window]) =~= seq![
        crate::format::window_bytes(window),
    ]);
    crate::format::lemma_tile_chunks(a);
    let split = TileView::Split { layout, children: a };
    assert(crate::format::tile_bytes(TileView::Window(window)) == seq![0u8]
        + crate::format::window_bytes(window));
    assert(crate::format::tile_bytes(split) =~= seq![1u8, layout_stored(layout)] + number(
        a.len() as int,
    ) + tiles_stored(a));
}

/// Workspaces are stored one after the other, each as its name, its output, its layout, the count of
/// its tiles and the tiles, and the count of its floating windows and those windows.
pub proof fn law_workspaces_in_files(
    a: Seq<WorkspaceView>,
    b: Seq<WorkspaceView>,
    workspace: WorkspaceView,
)
    ensures
        workspaces_stored(a + b) == workspaces_stored(a) + workspaces_stored(b),
        workspaces_stored(seq![workspace]) == strings_stored(
            seq![workspace.name, workspace.output],
        ) + seq![layout_stored(workspace.layout)] + number(workspace.tiles.len() as int)
            + tiles_stored(workspace.tiles) + number(workspace.floating.len() as int)
            + windows_stored(workspace.floating),
{
    lemma_concat_both(crate::format::workspace_chunks(a), crate::format::workspace_chunks(b));
    assert(crate::format::workspace_chunks(a + b) =~= crate::format::workspace_chunks(a)
        + crate::format::workspace_chunks(b));
    lemma_concat_one(crate::format::workspace_bytes(workspace));
    assert(crate::format::workspace_chunks(seq![workspace]) =~= seq![
        crate::format::workspace_bytes(workspace),
    ]);
    lemma_two_strings(workspace.name, workspace.output);
    crate::format::lemma_tile_chunks(workspace.tiles);
    let head = strings_stored(seq![workspace.name, workspace.output]) + seq![
        layout_stored(workspace.layout),
    ];
    let count = number(workspace.tiles.len() as int);
    let tiles = tiles_stored(workspace.tiles);
    lemma_regroup(head, count, tiles, tiles, tiles);
    lemma_regroup(
        head + count + tiles,
        number(workspace.floating.len() as int),
        windows_stored(workspace.floating),
        tiles,
        tiles,
    );
}

/// A session file begins with the letters `SWMN` and the version, which is 2. The count of the
/// workspaces and the workspaces follow, and then the count of the windows of the scratchpad and those
/// windows.
pub proof fn law_session_files(session: SessionView)
    ensures
        crate::format::session_bytes(session) == seq![0x53u8, 0x57, 0x4d, 0x4e, 2, 0] + number(
            session.workspaces.len() as int,
        ) + workspaces_stored(session.workspaces) + number(session.scratchpad.len() as int)
            + windows_stored(session.scratchpad),
{
    assert(crate::format::u16_bytes(2) =~= seq![2u8, 0]);
    assert(crate::format::session_bytes(session) =~= seq![0x53u8, 0x57, 0x4d, 0x4e, 2, 0] + number(
        session.workspaces.len() as int,
    ) + workspaces_stored(session.workspaces) + number(session.scratchpad.len() as int)
        + windows_stored(session.scratchpad));
}

// Files that are accepted

/// Whether a byte of a file is the one that is stored, or that one with bits set that no flag has.
pub open spec fn like(found: u8, stored: u8) -> bool {
    found == stored || stored < 8 && found % 8 == stored
}

/// Whether the bytes of a file from `pos` to `end` are like those that are stored.
pub open spec fn agrees(bytes: Seq<u8>, pos: int, end: int, stored: Seq<u8>) -> bool {
    &&& 0 <= pos <= end <= bytes.len()
    &&& stored.len() == end - pos
    &&& forall|i: int| 0 <= i < stored.len() ==> like(bytes[pos + i], #[trigger] stored[i])
}

/// Whether what was read at `pos` is like what is stored of it.
spec fn kept<T>(bytes: Seq<u8>, pos: int, read: Parsed<T>, store: spec_fn(T) -> Seq<u8>) -> bool {
    read matches Ok((value, end)) ==> agrees(bytes, pos, end, store(value))
}

proof fn lemma_agrees_both(
    bytes: Seq<u8>,
    pos: int,
    mid: int,
    end: int,
    a: Seq<u8>,
    b: Seq<u8>,
)
    requires
        agrees(bytes, pos, mid, a),
        agrees(bytes, mid, end, b),
    ensures
        agrees(bytes, pos, end, a + b),
{
    assert forall|i: int| 0 <= i < (a + b).len() implies like(
        bytes[pos + i],
        #[trigger] (a + b)[i],
    ) by {
        if i < a.len() {
            assert((a + b)[i] == a[i]);
        } else {
            let k = i - a.len();
            assert((a + b)[i] == b[k]);
            assert(like(bytes[mid + k], b[k]));
        }
    }
}

proof fn lemma_four_digits(b0: int, b1: int, b2: int, b3: int)
    requires
        0 <= b0 < 256,
        0 <= b1 < 256,
        0 <= b2 < 256,
        0 <= b3 < 256,
    ensures
        ({
            let value = b0 + 256 * b1 + 65536 * b2 + 16777216 * b3;
            &&& 0 <= value < 0x1_0000_0000
            &&& value % 256 == b0
            &&& value / 256 % 256 == b1
            &&& value / 65536 % 256 == b2
            &&& value / 16777216 % 256 == b3
        }),
{
    let value = b0 + 256 * b1 + 65536 * b2 + 16777216 * b3;
    assert(value / 256 == b1 + 256 * b2 + 65536 * b3);
    assert(value / 65536 == b2 + 256 * b3);
    assert(value / 16777216 == b3);
}

proof fn lemma_kept_u32(bytes: Seq<u8>, pos: int)
    requires
        0 <= pos,
    ensures
        crate::format::read_u32(bytes, pos) matches Ok((value, end)) ==> agrees(
            bytes,
            pos,
            end,
            number(value as int),
        ),
{
    if let Ok((value, end)) = crate::format::read_u32(bytes, pos) {
        lemma_four_digits(
            bytes[pos] as int,
            bytes[pos + 1] as int,
            bytes[pos + 2] as int,
            bytes[pos + 3] as int,
        );
        let stored = number(value as int);
        assert(stored[0] == bytes[pos]);
        assert(stored[1] == bytes[pos + 1]);
        assert(stored[2] == bytes[pos + 2]);
        assert(stored[3] == bytes[pos + 3]);
        assert forall|i: int| 0 <= i < stored.len() implies like(
            bytes[pos + i],
            #[trigger] stored[i],
        ) by {
            assert(i == 0 || i == 1 || i == 2 || i == 3);
        }
    }
}

proof fn lemma_kept_number(bytes: Seq<u8>, pos: int)
    requires
        0 <= pos,
    ensures
        crate::format::read_u32(bytes, pos) matches Ok((value, end)) ==> agrees(
            bytes,
            pos,
            end,
            number(value as int),
        ),
        crate::format::read_i32(bytes, pos) matches Ok((value, end)) ==> agrees(
            bytes,
            pos,
            end,
            number(value as int),
        ),
{
    lemma_kept_u32(bytes, pos);
    if let Ok((signed, _)) = crate::format::read_i32(bytes, pos) {
        crate::format::lemma_u32_bytes_wrap(signed as int);
    }
}

proof fn lemma_kept_str(bytes: Seq<u8>, pos: int)
    requires
        0 <= pos,
    ensures
        crate::format::read_str(bytes, pos) matches Ok((value, end)) ==> agrees(
            bytes,
            pos,
            end,
            crate::format::str_bytes(value),
        ),
{
    lemma_kept_number(bytes, pos);
    if let Ok((len, start)) = crate::format::read_u32(bytes, pos) {
        if let Ok((value, end)) = crate::format::read_str(bytes, pos) {
            let text = bytes.subrange(start, start + len);
            utf8::decode_utf8_encode_utf8(text);
            assert(agrees(bytes, start, end, text));
            lemma_agrees_both(bytes, pos, start, end, number(len as int), text);
        }
    }
}

proof fn lemma_kept_items<T>(
    bytes: Seq<u8>,
    item: spec_fn(int) -> Parsed<T>,
    store: spec_fn(T) -> Seq<u8>,
    count: nat,
    pos: int,
)
    requires
        0 <= pos <= bytes.len(),
        forall|p: int| 0 <= p <= bytes.len() ==> kept(bytes, p, #[trigger] item(p), store),
    ensures
        crate::format::repeat(item, count, pos) matches Ok((values, end)) ==> values.len() == count
            && agrees(bytes, pos, end, crate::format::concat(values.map_values(store))),
    decreases count,
{
    if count == 0 {
        assert(Seq::<T>::empty().map_values(store) =~= Seq::empty());
    } else {
        lemma_kept_items(bytes, item, store, (count - 1) as nat, pos);
        if let Ok((values, end)) = crate::format::repeat(item, count, pos) {
            let (fewer, mid) = crate::format::repeat(item, (count - 1) as nat, pos)->Ok_0;
            let last = values.last();
            assert(item(mid) == Ok::<(T, int), Error>((last, end)));
            assert(kept(bytes, mid, item(mid), store));
            let chunks = values.map_values(store);
            assert(chunks.drop_last() =~= fewer.map_values(store));
            assert(chunks.last() == store(last));
            lemma_agrees_both(
                bytes,
                pos,
                mid,
                end,
                crate::format::concat(fewer.map_values(store)),
                store(last),
            );
        }
    }
}

proof fn lemma_kept_list<T>(
    bytes: Seq<u8>,
    item: spec_fn(int) -> Parsed<T>,
    store: spec_fn(T) -> Seq<u8>,
    pos: int,
)
    requires
        0 <= pos,
        forall|p: int| 0 <= p <= bytes.len() ==> kept(bytes, p, #[trigger] item(p), store),
    ensures
        crate::format::read_list(bytes, item, pos) matches Ok((values, end)) ==> agrees(
            bytes,
            pos,
            end,
            crate::format::list_bytes(values.map_values(store)),
        ),
{
    lemma_kept_number(bytes, pos);
    if let Ok((count, start)) = crate::format::read_u32(bytes, pos) {
        lemma_kept_items(bytes, item, store, count as nat, start);
        if let Ok((values, end)) = crate::format::repeat(item, count as nat, start) {
            lemma_agrees_both(
                bytes,
                pos,
                start,
                end,
                number(count as int),
                crate::format::concat(values.map_values(store)),
            );
        }
    }
}

proof fn lemma_kept_strs(bytes: Seq<u8>, pos: int)
    requires
        0 <= pos,
    ensures
        crate::format::read_list(bytes, crate::format::str_at(bytes), pos) matches Ok(
            (values, end),
        ) ==> agrees(
            bytes,
            pos,
            end,
            crate::format::list_bytes(crate::format::str_chunks(values)),
        ),
{
    let item = crate::format::str_at(bytes);
    let store = |value: Seq<char>| crate::format::str_bytes(value);
    assert forall|p: int| 0 <= p <= bytes.len() implies kept(
        bytes,
        p,
        #[trigger] item(p),
        store,
    ) by {
        lemma_kept_str(bytes, p);
    }
    lemma_kept_list(bytes, item, store, pos);
    if let Ok((values, _)) = crate::format::read_list(bytes, item, pos) {
        assert(values.map_values(store) =~= crate::format::str_chunks(values));
    }
}

proof fn lemma_kept_rect(bytes: Seq<u8>, pos: int)
    requires
        0 <= pos,
    ensures
        crate::format::read_rect(bytes, pos) matches Ok((rect, end)) ==> agrees(
            bytes,
            pos,
            end,
            crate::format::rect_bytes(rect),
        ),
{
    if let Ok((rect, end)) = crate::format::read_rect(bytes, pos) {
        lemma_kept_number(bytes, pos);
        lemma_kept_number(bytes, pos + 4);
        lemma_kept_number(bytes, pos + 8);
        lemma_kept_number(bytes, pos + 12);
        let x = number(rect.x as int);
        let y = number(rect.y as int);
        let width = number(rect.width as int);
        let height = number(rect.height as int);
        lemma_agrees_both(bytes, pos, pos + 4, pos + 8, x, y);
        lemma_agrees_both(bytes, pos, pos + 8, pos + 12, x + y, width);
        lemma_agrees_both(bytes, pos, pos + 12, pos + 16, x + y + width, height);
    }
}

proof fn lemma_kept_flags(bytes: Seq<u8>, pos: int, window: WindowView)
    requires
        0 <= pos < bytes.len(),
        window.floating == crate::format::has_flag(bytes[pos], 1),
        window.fullscreen == crate::format::has_flag(bytes[pos], 2),
        window.focused == crate::format::has_flag(bytes[pos], 4),
    ensures
        agrees(bytes, pos, pos + 1, seq![crate::format::flags_byte(window)]),
{
    let flags = bytes[pos];
    assert(flags % 8 == flags % 2 + 2 * (flags / 2 % 2) + 4 * (flags / 4 % 2));
    assert(crate::format::flags_byte(window) == flags % 8);
    let stored = seq![crate::format::flags_byte(window)];
    assert(like(bytes[pos + 0], stored[0]));
}

proof fn lemma_kept_window(bytes: Seq<u8>, pos: int)
    requires
        0 <= pos,
    ensures
        crate::format::read_window(bytes, pos) matches Ok((window, end)) ==> agrees(
            bytes,
            pos,
            end,
            crate::format::window_bytes(window),
        ),
{
    if let Ok((window, end)) = crate::format::read_window(bytes, pos) {
        let (app_id, a) = crate::format::read_str(bytes, pos)->Ok_0;
        lemma_kept_str(bytes, pos);
        let (title, b) = crate::format::read_str(bytes, a)->Ok_0;
        lemma_kept_str(bytes, a);
        let (argv, c) = crate::format::read_list(bytes, crate::format::str_at(bytes), b)->Ok_0;
        lemma_kept_strs(bytes, b);
        lemma_kept_flags(bytes, c, window);
        lemma_kept_rect(bytes, c + 1);
        let s = crate::format::str_bytes(app_id);
        let t = crate::format::str_bytes(title);
        let v = crate::format::list_bytes(crate::format::str_chunks(argv));
        let f = seq![crate::format::flags_byte(window)];
        lemma_agrees_both(bytes, pos, a, b, s, t);
        lemma_agrees_both(bytes, pos, b, c, s + t, v);
        lemma_agrees_both(bytes, pos, c, c + 1, s + t + v, f);
        lemma_agrees_both(
            bytes,
            pos,
            c + 1,
            end,
            s + t + v + f,
            crate::format::rect_bytes(window.rect),
        );
    }
}

proof fn lemma_kept_windows(bytes: Seq<u8>, pos: int)
    requires
        0 <= pos,
    ensures
        crate::format::read_windows(bytes, pos) matches Ok((windows, end)) ==> agrees(
            bytes,
            pos,
            end,
            crate::format::list_bytes(crate::format::window_chunks(windows)),
        ),
{
    let item = crate::format::window_at(bytes);
    let store = |window: WindowView| crate::format::window_bytes(window);
    assert forall|p: int| 0 <= p <= bytes.len() implies kept(
        bytes,
        p,
        #[trigger] item(p),
        store,
    ) by {
        lemma_kept_window(bytes, p);
    }
    lemma_kept_list(bytes, item, store, pos);
    if let Ok((windows, _)) = crate::format::read_list(bytes, item, pos) {
        assert(windows.map_values(store) =~= crate::format::window_chunks(windows));
    }
}

proof fn lemma_kept_layout(bytes: Seq<u8>, pos: int)
    requires
        0 <= pos,
    ensures
        crate::format::read_layout(bytes, pos) matches Ok((layout, end)) ==> agrees(
            bytes,
            pos,
            end,
            seq![session::layout_byte(layout)],
        ),
{
    if let Ok((layout, end)) = crate::format::read_layout(bytes, pos) {
        let stored = seq![session::layout_byte(layout)];
        assert(like(bytes[pos + 0], stored[0]));
    }
}

proof fn lemma_kept_tile(bytes: Seq<u8>, levels: nat, pos: int)
    requires
        0 <= pos,
    ensures
        crate::format::read_tile(bytes, levels, pos) matches Ok((tile, end)) ==> agrees(
            bytes,
            pos,
            end,
            crate::format::tile_bytes(tile),
        ),
    decreases levels, 0nat,
{
    if let Ok((tile, end)) = crate::format::read_tile(bytes, levels, pos) {
        let kind = seq![bytes[pos]];
        assert(like(bytes[pos + 0], kind[0]));
        assert(agrees(bytes, pos, pos + 1, kind));
        match tile {
            TileView::Window(window) => {
                lemma_kept_window(bytes, pos + 1);
                lemma_agrees_both(
                    bytes,
                    pos,
                    pos + 1,
                    end,
                    kind,
                    crate::format::window_bytes(window),
                );
            },
            TileView::Split { layout, children } => {
                lemma_kept_layout(bytes, pos + 1);
                lemma_kept_tiles(bytes, (levels - 1) as nat, pos + 2);
                let second = seq![session::layout_byte(layout)];
                lemma_agrees_both(bytes, pos, pos + 1, pos + 2, kind, second);
                lemma_agrees_both(
                    bytes,
                    pos,
                    pos + 2,
                    end,
                    kind + second,
                    crate::format::list_bytes(crate::format::tile_chunks(children)),
                );
            },
        }
    }
}

proof fn lemma_kept_tiles(bytes: Seq<u8>, levels: nat, pos: int)
    requires
        0 <= pos,
    ensures
        crate::format::read_tiles(bytes, levels, pos) matches Ok((tiles, end)) ==> agrees(
            bytes,
            pos,
            end,
            crate::format::list_bytes(crate::format::tile_chunks(tiles)),
        ),
    decreases levels, 1nat,
{
    if levels > 0 {
        let item = crate::format::tile_at(bytes, levels);
        let store = |tile: TileView| crate::format::tile_bytes(tile);
        assert forall|p: int| 0 <= p <= bytes.len() implies kept(
            bytes,
            p,
            #[trigger] item(p),
            store,
        ) by {
            lemma_kept_tile(bytes, levels, p);
        }
        lemma_kept_list(bytes, item, store, pos);
        if let Ok((tiles, _)) = crate::format::read_list(bytes, item, pos) {
            crate::format::lemma_tile_chunks(tiles);
            assert(tiles.map_values(store) =~= crate::format::tile_chunks(tiles));
        }
    }
}

proof fn lemma_kept_workspace(bytes: Seq<u8>, pos: int)
    requires
        0 <= pos,
    ensures
        crate::format::read_workspace(bytes, 2, pos) matches Ok((workspace, end)) ==> agrees(
            bytes,
            pos,
            end,
            crate::format::workspace_bytes(workspace),
        ),
{
    if let Ok((workspace, end)) = crate::format::read_workspace(bytes, 2, pos) {
        let (name, a) = crate::format::read_str(bytes, pos)->Ok_0;
        lemma_kept_str(bytes, pos);
        let (output, b) = crate::format::read_str(bytes, a)->Ok_0;
        lemma_kept_str(bytes, a);
        let (layout, c) = crate::format::read_layout(bytes, b)->Ok_0;
        lemma_kept_layout(bytes, b);
        let levels = (crate::format::MAX_DEPTH + 1) as nat;
        let (tiles, d) = crate::format::read_tiles(bytes, levels, c)->Ok_0;
        lemma_kept_tiles(bytes, levels, c);
        lemma_kept_windows(bytes, d);
        let n = crate::format::str_bytes(name);
        let o = crate::format::str_bytes(output);
        let l = seq![session::layout_byte(layout)];
        let t = crate::format::list_bytes(crate::format::tile_chunks(tiles));
        let f = crate::format::list_bytes(crate::format::window_chunks(workspace.floating));
        lemma_agrees_both(bytes, pos, a, b, n, o);
        lemma_agrees_both(bytes, pos, b, c, n + o, l);
        lemma_agrees_both(bytes, pos, c, d, n + o + l, t);
        lemma_agrees_both(bytes, pos, d, end, n + o + l + t, f);
    }
}

proof fn lemma_kept_workspaces(bytes: Seq<u8>, pos: int)
    requires
        0 <= pos,
    ensures
        crate::format::read_list(bytes, crate::format::workspace_at(bytes, 2), pos) matches Ok(
            (workspaces, end),
        ) ==> agrees(
            bytes,
            pos,
            end,
            crate::format::list_bytes(crate::format::workspace_chunks(workspaces)),
        ),
{
    let item = crate::format::workspace_at(bytes, 2);
    let store = |workspace: WorkspaceView| crate::format::workspace_bytes(workspace);
    assert forall|p: int| 0 <= p <= bytes.len() implies kept(
        bytes,
        p,
        #[trigger] item(p),
        store,
    ) by {
        lemma_kept_workspace(bytes, p);
    }
    lemma_kept_list(bytes, item, store, pos);
    if let Ok((workspaces, _)) = crate::format::read_list(bytes, item, pos) {
        assert(workspaces.map_values(store) =~= crate::format::workspace_chunks(workspaces));
    }
}

proof fn lemma_kept_header(bytes: Seq<u8>)
    requires
        bytes.len() >= 6,
        bytes[4] == 2,
        bytes[5] == 0,
        crate::format::read_header(bytes) is Ok,
    ensures
        crate::format::read_header(bytes) == Ok::<(u16, int), Error>((2, 6)),
        agrees(bytes, 0, 6, crate::format::MAGIC@ + crate::format::u16_bytes(2)),
{
    let magic = crate::format::MAGIC@;
    let version = crate::format::u16_bytes(2);
    assert(bytes.subrange(0, 4) == magic);
    assert forall|i: int| 0 <= i < 6 implies like(bytes[0 + i], #[trigger] (magic + version)[i]) by {
        if i < 4 {
            assert(bytes.subrange(0, 4)[i] == bytes[i]);
        } else {
            assert((magic + version)[i] == version[i - 4]);
            assert(i == 4 || i == 5);
        }
    }
}

/// A file of version 2 that is accepted holds, up to where its reading ends, the very bytes that are
/// written of the session that it is read as, but for bits of the flags of a window that mean nothing.
pub proof fn law_accepted_files(bytes: Seq<u8>)
    requires
        bytes.len() >= 6,
        bytes[4] == 2,
        bytes[5] == 0,
    ensures
        crate::format::read_session(bytes) matches Ok((session, end)) ==> agrees(
            bytes,
            0,
            end,
            crate::format::session_bytes(session),
        ),
{
    if let Ok((session, end)) = crate::format::read_session(bytes) {
        lemma_kept_header(bytes);
        let item = crate::format::workspace_at(bytes, 2);
        let (workspaces, mid) = crate::format::read_list(bytes, item, 6)->Ok_0;
        lemma_kept_workspaces(bytes, 6);
        lemma_kept_windows(bytes, mid);
        let head = crate::format::MAGIC@ + crate::format::u16_bytes(2);
        let list = crate::format::list_bytes(crate::format::workspace_chunks(workspaces));
        let rest = crate::format::list_bytes(crate::format::window_chunks(session.scratchpad));
        lemma_agrees_both(bytes, 0, 6, mid, head, list);
        lemma_agrees_both(bytes, 0, mid, end, head + list, rest);
    }
}

/// A layout that is none of the four, a tile that is neither a window nor a split and a text that is
/// no UTF-8 are refused for that; and what is cut off, as truncated.
pub proof fn law_bad_parts_are_refused(bytes: Seq<u8>, pos: int, levels: nat, len: int)
    requires
        0 <= pos < bytes.len(),
    ensures
        bytes[pos] > 3 ==> crate::format::read_layout(bytes, pos) == Err::<(Layout, int), Error>(
            Error::BadLayout(bytes[pos]),
        ),
        bytes[pos] <= 3 ==> crate::format::read_layout(bytes, pos) is Ok,
        bytes[pos] > 1 ==> crate::format::read_tile(bytes, levels, pos) == Err::<
            (TileView, int),
            Error,
        >(Error::BadTile(bytes[pos])),
        pos + 4 <= bytes.len() && len == number_in(bytes.skip(pos)) ==> {
            let read = crate::format::read_str(bytes, pos);
            let text = bytes.subrange(pos + 4, pos + 4 + len);
            if pos + 4 + len > bytes.len() {
                read == Err::<(Seq<char>, int), Error>(Error::Truncated)
            } else if !utf8::valid_utf8(text) {
                read == Err::<(Seq<char>, int), Error>(Error::BadUtf8)
            } else {
                read matches Ok((value, end)) && utf8::encode_utf8(value) == text && end == pos + 4
                    + len
            }
        },
{
    if pos + 4 <= bytes.len() && len == number_in(bytes.skip(pos)) {
        assert(bytes.skip(pos)[0] == bytes[pos] && bytes.skip(pos)[1] == bytes[pos + 1]
            && bytes.skip(pos)[2] == bytes[pos + 2] && bytes.skip(pos)[3] == bytes[pos + 3]);
        let text = bytes.subrange(pos + 4, pos + 4 + len);
        if pos + 4 + len <= bytes.len() && utf8::valid_utf8(text) {
            utf8::decode_utf8_encode_utf8(text);
        }
    }
}

/// The first fault counts: what is wrong with the header of a file, or with the first part of a
/// workspace or of a window that cannot be read, is what is wrong with the whole.
pub proof fn law_first_fault_counts(bytes: Seq<u8>, version: u16, levels: nat, pos: int)
    ensures
        crate::format::read_header(bytes) matches Err(e) ==> crate::format::read_session(bytes)
            == Err::<(SessionView, int), Error>(e),
        crate::format::read_header(bytes) matches Ok((version, start)) ==> (
        crate::format::read_list(
            bytes,
            crate::format::workspace_at(bytes, version),
            start,
        ) matches Err(e) ==> crate::format::read_session(bytes) == Err::<(SessionView, int), Error>(
            e,
        )),
        crate::format::read_str(bytes, pos) matches Err(e) ==> {
            &&& crate::format::read_window(bytes, pos) == Err::<(WindowView, int), Error>(e)
            &&& crate::format::read_workspace(bytes, version, pos) == Err::<
                (WorkspaceView, int),
                Error,
            >(e)
        },
        crate::format::read_str(bytes, pos) matches Ok((_, mid)) ==> (
        crate::format::read_str(bytes, mid) matches Err(e) ==> {
            &&& crate::format::read_window(bytes, pos) == Err::<(WindowView, int), Error>(e)
            &&& crate::format::read_workspace(bytes, version, pos) == Err::<
                (WorkspaceView, int),
                Error,
            >(e)
        }),
        crate::format::read_str(bytes, pos) matches Ok((_, mid)) ==> (
        crate::format::read_str(bytes, mid) matches Ok((_, end)) ==> {
            &&& crate::format::read_list(bytes, crate::format::str_at(bytes), end) matches Err(e)
                ==> crate::format::read_window(bytes, pos) == Err::<(WindowView, int), Error>(e)
            &&& crate::format::read_layout(bytes, end) matches Err(e)
                ==> crate::format::read_workspace(bytes, version, pos) == Err::<
                (WorkspaceView, int),
                Error,
            >(e)
        }),
        pos < bytes.len() && bytes[pos] == 0 ==> (crate::format::read_window(
            bytes,
            pos + 1,
        ) matches Err(e) ==> crate::format::read_tile(bytes, levels, pos) == Err::<
            (TileView, int),
            Error,
        >(e)),
        pos < bytes.len() && bytes[pos] == 1 ==> (crate::format::read_layout(
            bytes,
            pos + 1,
        ) matches Err(e) ==> crate::format::read_tile(bytes, levels, pos) == Err::<
            (TileView, int),
            Error,
        >(e)),
{
}

/// A `str` that is read, or that is no UTF-8, is behind the reader. Where it is cut off, so is its
/// length, if that is there, and nothing else.
pub proof fn law_where_strings_end(bytes: Seq<u8>, pos: int)
    ensures
        ({
            let stop = crate::format::str_stop(bytes, pos);
            match crate::format::read_str(bytes, pos) {
                Ok((_, end)) => stop == end,
                Err(Error::BadUtf8) => stop == pos + 4 + crate::format::read_u32(
                    bytes,
                    pos,
                )->Ok_0.0,
                Err(_) => stop == if pos + 4 <= bytes.len() {
                    pos + 4
                } else {
                    pos
                },
            }
        }),
{
}

/// Splits may nest 64 deep in a session file, and no deeper.
pub proof fn law_nesting_of_splits(session: SessionView)
    requires
        format_laws::session_sized(session),
    ensures
        crate::format::read_session(crate::format::session_bytes(session)) == if forall|i: int|
            0 <= i < session.workspaces.len() ==> format_laws::deepest(
                (#[trigger] session.workspaces[i]).tiles,
            ) <= 64 {
            Ok::<(SessionView, int), Error>(
                (session, crate::format::session_bytes(session).len() as int),
            )
        } else {
            Err(Error::TooDeep)
        },
{
    format_laws::law_round_trip(session);
}

} // verus!

use swaymnesia::format::{
    decode, encode, put_str, put_u32, put_window, put_windows, take_window, Error, Reader, MAGIC,
    MAX_DEPTH,
};
use swaymnesia::session::{Layout, Rect, Session, Tile, Window, Workspace};

fn window(title: &str) -> Window {
    Window {
        app_id: "kitty".to_string(),
        title: title.to_string(),
        argv: vec!["kitty".to_string()],
        floating: false,
        fullscreen: false,
        focused: false,
        rect: Rect {
            x: 0,
            y: 0,
            width: 0,
            height: 0,
        },
    }
}

fn sample() -> Session {
    Session {
        workspaces: vec![
            Workspace {
                name: "1".to_string(),
                output: "eDP-1".to_string(),
                layout: Layout::Tabbed,
                tiles: vec![
                    Tile::Window(Window {
                        app_id: "foot".to_string(),
                        title: "zsh".to_string(),
                        argv: vec!["foot".to_string(), "-e".to_string(), "top".to_string()],
                        floating: false,
                        fullscreen: true,
                        focused: true,
                        rect: Rect {
                            x: 0,
                            y: 0,
                            width: 1920,
                            height: 1080,
                        },
                    }),
                    Tile::Split {
                        layout: Layout::SplitV,
                        children: vec![
                            Tile::Window(window("left")),
                            Tile::Split {
                                layout: Layout::Stacked,
                                children: vec![
                                    Tile::Window(window("a")),
                                    Tile::Window(window("b")),
                                    Tile::Window(window("c")),
                                ],
                            },
                        ],
                    },
                ],
                floating: vec![Window {
                    app_id: String::new(),
                    title: "it's a \u{e9}dge case; rm -rf".to_string(),
                    argv: vec!["sh".to_string(), "-c".to_string(), "echo 'hi'".to_string()],
                    floating: true,
                    fullscreen: false,
                    focused: false,
                    rect: Rect {
                        x: -20,
                        y: 40,
                        width: 800,
                        height: 600,
                    },
                }],
            },
            Workspace {
                name: "web".to_string(),
                output: "HDMI-A-1".to_string(),
                layout: Layout::SplitV,
                tiles: Vec::new(),
                floating: Vec::new(),
            },
        ],
        scratchpad: vec![Window {
            app_id: "signal".to_string(),
            title: "Signal".to_string(),
            argv: vec!["signal-desktop".to_string()],
            floating: true,
            fullscreen: false,
            focused: false,
            rect: Rect {
                x: 639,
                y: 207,
                width: 1309,
                height: 1077,
            },
        }],
    }
}

fn with_tiles(tiles: Vec<Tile>) -> Session {
    Session {
        workspaces: vec![Workspace {
            name: "1".to_string(),
            output: String::new(),
            layout: Layout::SplitH,
            tiles,
            floating: Vec::new(),
        }],
        scratchpad: Vec::new(),
    }
}

fn nested(splits: usize) -> Session {
    let mut tile = Tile::Window(window("x"));
    for _ in 0..splits {
        tile = Tile::Split {
            layout: Layout::SplitH,
            children: vec![tile],
        };
    }
    with_tiles(vec![tile])
}

#[test]
fn round_trips() {
    assert_eq!(decode(&encode(&sample())).unwrap(), sample());
}

#[test]
fn round_trips_empty_session() {
    let empty = Session {
        workspaces: Vec::new(),
        scratchpad: Vec::new(),
    };
    assert_eq!(decode(&encode(&empty)).unwrap(), empty);
}

#[test]
fn keeps_scratchpad_apart_from_workspaces() {
    let decoded = decode(&encode(&sample())).unwrap();
    assert_eq!(decoded.scratchpad, sample().scratchpad);
    assert!(decoded
        .workspaces
        .iter()
        .all(|w| w.floating.iter().all(|v| v.app_id != "signal")));
}

#[test]
fn rejects_foreign_data() {
    assert!(matches!(decode(b"nope"), Err(Error::BadMagic)));
}

#[test]
fn rejects_unknown_version() {
    let mut bytes = encode(&sample());
    bytes[4..6].copy_from_slice(&99u16.to_le_bytes());
    assert!(matches!(decode(&bytes), Err(Error::UnsupportedVersion(99))));
}

#[test]
fn rejects_truncated() {
    let bytes = encode(&sample());
    assert!(matches!(
        decode(&bytes[..bytes.len() - 4]),
        Err(Error::Truncated)
    ));
}

#[test]
fn rejects_oversized_count() {
    let mut bytes = encode(&sample());
    bytes[6..10].copy_from_slice(&u32::MAX.to_le_bytes());
    assert!(matches!(decode(&bytes), Err(Error::Truncated)));
}

#[test]
fn reads_version_1() {
    let tiling = window("tiling");
    let floating = Window {
        floating: true,
        ..window("floating")
    };
    let mut bytes = Vec::new();
    bytes.extend_from_slice(&MAGIC);
    bytes.extend_from_slice(&1u16.to_le_bytes());
    put_u32(&mut bytes, 1);
    put_str(&mut bytes, "1");
    put_str(&mut bytes, "eDP-1");
    bytes.push(Layout::Tabbed as u8);
    put_windows(&mut bytes, &[tiling.clone(), floating.clone()]);
    put_windows(&mut bytes, &[]);

    let session = decode(&bytes).unwrap();
    assert_eq!(
        session.workspaces,
        vec![Workspace {
            name: "1".to_string(),
            output: "eDP-1".to_string(),
            layout: Layout::Tabbed,
            tiles: vec![Tile::Window(tiling)],
            floating: vec![floating],
        }]
    );
}

#[test]
fn rejects_unknown_tile() {
    let mut bytes = encode(&with_tiles(vec![Tile::Window(window("x"))]));
    // header, workspace count, name "1", empty output, layout, tile count
    let kind = 4 + 2 + 4 + 5 + 4 + 1 + 4;
    bytes[kind] = 7;
    assert!(matches!(decode(&bytes), Err(Error::BadTile(7))));
}

#[test]
fn rejects_deep_nesting() {
    let mut tile = Tile::Window(window("x"));
    for _ in 0..=MAX_DEPTH + 1 {
        tile = Tile::Split {
            layout: Layout::SplitH,
            children: vec![tile],
        };
    }
    let bytes = encode(&Session {
        workspaces: vec![Workspace {
            name: "1".to_string(),
            output: String::new(),
            layout: Layout::SplitH,
            tiles: vec![tile],
            floating: Vec::new(),
        }],
        scratchpad: Vec::new(),
    });
    assert!(matches!(decode(&bytes), Err(Error::TooDeep)));
}

#[test]
fn deepest_nesting_is_read() {
    let deepest = nested(MAX_DEPTH);
    assert_eq!(decode(&encode(&deepest)).unwrap(), deepest);
    assert!(matches!(
        decode(&encode(&nested(MAX_DEPTH + 1))),
        Err(Error::TooDeep)
    ));
}

#[test]
fn bytes_of_an_empty_session() {
    let empty = Session {
        workspaces: Vec::new(),
        scratchpad: Vec::new(),
    };
    assert_eq!(
        empty.encode(),
        vec![b'S', b'W', b'M', b'N', 2, 0, 0, 0, 0, 0, 0, 0, 0, 0]
    );
}

#[test]
fn bytes_of_a_small_session() {
    let session = Session {
        workspaces: vec![Workspace {
            name: "\u{e9}".to_string(),
            output: String::new(),
            layout: Layout::Tabbed,
            tiles: vec![Tile::Split {
                layout: Layout::SplitV,
                children: Vec::new(),
            }],
            floating: vec![Window {
                app_id: "a".to_string(),
                title: String::new(),
                argv: vec!["b".to_string()],
                floating: true,
                fullscreen: false,
                focused: true,
                rect: Rect {
                    x: -1,
                    y: 256,
                    width: 2,
                    height: 3,
                },
            }],
        }],
        scratchpad: Vec::new(),
    };
    let expected: Vec<u8> = vec![
        0x53, 0x57, 0x4d, 0x4e, 2, 0, 1, 0, 0, 0, // header and workspace count
        2, 0, 0, 0, 0xc3, 0xa9, 0, 0, 0, 0, 3, // name, output and layout
        1, 0, 0, 0, 1, 1, 0, 0, 0, 0, // a split without children
        1, 0, 0, 0, 1, 0, 0, 0, b'a', 0, 0, 0, 0, // one window, app_id and title
        1, 0, 0, 0, 1, 0, 0, 0, b'b', 5, // argv and flags
        255, 255, 255, 255, 0, 1, 0, 0, 2, 0, 0, 0, 3, 0, 0, 0, // rect
        0, 0, 0, 0, // scratchpad
    ];
    assert_eq!(session.encode(), expected);
    assert_eq!(Session::decode(&expected).unwrap(), session);
}

#[test]
fn every_cut_is_rejected() {
    let bytes = encode(&sample());
    for len in 0..bytes.len() {
        assert!(matches!(decode(&bytes[..len]), Err(Error::Truncated)), "{len}");
    }
}

#[test]
fn what_follows_a_session_is_not_read() {
    let mut bytes = encode(&sample());
    bytes.extend_from_slice(b"more");
    assert_eq!(decode(&bytes).unwrap(), sample());
}

#[test]
fn what_follows_an_error_is_not_read() {
    let mut bytes = encode(&with_tiles(vec![Tile::Window(window("x"))]));
    bytes[4 + 2 + 4 + 5 + 4 + 1 + 4] = 7;
    bytes.extend_from_slice(b"more");
    assert!(matches!(decode(&bytes), Err(Error::BadTile(7))));
    assert!(matches!(decode(b"nope and more"), Err(Error::BadMagic)));
}

#[test]
fn undefined_flags_are_ignored() {
    let shown = Window {
        floating: true,
        focused: true,
        ..window("x")
    };
    let session = Session {
        workspaces: Vec::new(),
        scratchpad: vec![shown],
    };
    let bytes = encode(&session);
    // flags, rect
    let flags = bytes.len() - 17;
    assert_eq!(bytes[flags], 5);
    for high in 0..32u8 {
        let mut other = bytes.clone();
        other[flags] = high * 8 + 5;
        assert_eq!(decode(&other).unwrap(), session);
    }
}

#[test]
fn a_window_is_read_where_it_stands() {
    let shown = Window {
        fullscreen: true,
        ..window("x")
    };
    let mut bytes = b"before".to_vec();
    put_window(&mut bytes, &shown);
    let end = bytes.len();
    bytes[end - 17] |= 0xf8;
    bytes.extend_from_slice(b"behind");
    let mut r = Reader {
        bytes: &bytes,
        pos: 6,
    };
    assert_eq!(take_window(&mut r).unwrap(), shown);
    assert_eq!(r.pos, end);
}

#[test]
fn different_sessions_have_different_bytes() {
    let mut other = sample();
    other.workspaces[0].floating[0].rect.height = 601;
    assert_ne!(encode(&other), encode(&sample()));
}

#[test]
fn rejects_unknown_layout() {
    let mut bytes = encode(&with_tiles(Vec::new()));
    bytes[4 + 2 + 4 + 5 + 4] = 4;
    assert!(matches!(decode(&bytes), Err(Error::BadLayout(4))));
}

#[test]
fn rejects_invalid_utf8() {
    let mut bytes = encode(&with_tiles(Vec::new()));
    bytes[4 + 2 + 4 + 4] = 0xff;
    assert!(matches!(decode(&bytes), Err(Error::BadUtf8)));
}

#[test]
fn version_0_is_rejected() {
    let mut bytes = encode(&sample());
    bytes[4..6].copy_from_slice(&0u16.to_le_bytes());
    assert!(matches!(decode(&bytes), Err(Error::UnsupportedVersion(0))));
}

#[test]
fn error_messages() {
    assert_eq!(Error::BadMagic.message(), "not a swaymnesia session file");
    assert_eq!(
        Error::UnsupportedVersion(65535).message(),
        "unsupported session format version 65535"
    );
    assert_eq!(Error::Truncated.message(), "session file truncated");
    assert_eq!(Error::BadLayout(0).message(), "unknown layout 0");
    assert_eq!(Error::BadTile(255).message(), "unknown tile kind 255");
    assert_eq!(Error::TooDeep.message(), "splits nested deeper than 64");
    assert_eq!(
        Error::BadUtf8.message(),
        "session file contains invalid UTF-8"
    );
}

use swaymnesia::session::{debug_list, dump_window, put_window_lines, Layout, Rect, Session, Tile, Window, Workspace};
use swaymnesia::{load_session, path};

fn window(app_id: &str, title: &str, argv: &[&str]) -> Window {
    Window {
        app_id: app_id.to_string(),
        title: title.to_string(),
        argv: argv.iter().map(|arg| arg.to_string()).collect(),
        floating: false,
        fullscreen: false,
        focused: false,
        rect: Rect {
            x: 0,
            y: 0,
            width: 0,
            height: 0,
        },
    }
}

fn sample() -> Session {
    Session {
        workspaces: vec![Workspace {
            name: "1".to_string(),
            output: "eDP-1".to_string(),
            layout: Layout::Stacked,
            tiles: vec![
                Tile::Window(Window {
                    fullscreen: true,
                    focused: true,
                    ..window("foot", "say \"hi\"\n", &["foot", "-e", "top"])
                }),
                Tile::Split {
                    layout: Layout::SplitV,
                    children: vec![
                        Tile::Window(window("", "a", &["x"])),
                        Tile::Window(window("b", "", &[])),
                    ],
                },
            ],
            floating: vec![Window {
                floating: true,
                rect: Rect {
                    x: -20,
                    y: 40,
                    width: 800,
                    height: -2147483648,
                },
                ..window("c", "\u{e9}\u{1b}", &["it's"])
            }],
        }],
        scratchpad: vec![window("d", "D", &["d"])],
    }
}

#[test]
fn dump_prints_the_whole_session() {
    assert_eq!(
        sample().dump(),
        "workspace 1 on eDP-1 [stacking]\n\
         \x20 foot \"say \\\"hi\\\"\\n\" [fullscreen, focused]\n\
         \x20   [\"foot\", \"-e\", \"top\"]\n\
         \x20 splitv\n\
         \x20   ? \"a\"\n\
         \x20     [\"x\"]\n\
         \x20   b \"\"\n\
         \x20     []\n\
         \x20 c \"\u{e9}\\u{1b}\" [floating 800x-2147483648+-20+40]\n\
         \x20   [\"it's\"]\n\
         scratchpad\n\
         \x20 d \"D\"\n\
         \x20   [\"d\"]\n"
    );
}

#[test]
fn dump_of_an_empty_session_is_empty() {
    let empty = Session {
        workspaces: Vec::new(),
        scratchpad: Vec::new(),
    };
    assert_eq!(empty.dump(), "");
}

#[test]
fn dumped_window_follows_what_is_there() {
    let mut out = "before\n".to_string();
    dump_window(&mut out, &window("a", "b", &["c"]), ">");
    assert_eq!(out, "before\n>a \"b\"\n>  [\"c\"]\n");
}

#[test]
fn layout_bytes() {
    for (byte, layout) in [
        (0u8, Layout::SplitH),
        (1, Layout::SplitV),
        (2, Layout::Stacked),
        (3, Layout::Tabbed),
    ] {
        assert_eq!(Layout::from_u8(byte), Some(layout));
        assert_eq!(layout.to_u8(), byte);
    }
    for byte in 4..=255u8 {
        assert_eq!(Layout::from_u8(byte), None);
    }
}

#[test]
fn layout_commands() {
    assert_eq!(Layout::SplitH.as_command(), "splith");
    assert_eq!(Layout::SplitV.as_command(), "splitv");
    assert_eq!(Layout::Stacked.as_command(), "stacking");
    assert_eq!(Layout::Tabbed.as_command(), "tabbed");
    assert_eq!(Layout::SplitH.split_command(), "splith");
    assert_eq!(Layout::SplitV.split_command(), "splitv");
    assert_eq!(Layout::Stacked.split_command(), "splitv");
    assert_eq!(Layout::Tabbed.split_command(), "splith");
}

#[test]
fn copies_are_equal() {
    assert_eq!(sample().clone(), sample());
}

#[test]
fn default_path_prefers_the_data_directory() {
    let some = |s: &str| Some(s.as_bytes().to_vec());
    assert_eq!(
        Session::default_path(&some("/data"), &some("/home/me")),
        b"/data/swaymnesia/session.swmn"
    );
    assert_eq!(
        Session::default_path(&None, &some("/home/me/")),
        b"/home/me/.local/share/swaymnesia/session.swmn"
    );
    assert_eq!(
        Session::default_path(&None, &None),
        b".local/share/swaymnesia/session.swmn"
    );
    assert_eq!(
        Session::default_path(&some(""), &some("/home/me")),
        b"swaymnesia/session.swmn"
    );
}

#[test]
fn joined_paths_agree_with_std() {
    for base in ["", "/", "a", "a/", "/a/b"] {
        for rest in ["", "b", "b/c", "/b"] {
            let joined = std::path::Path::new(base).join(rest);
            assert_eq!(
                path::join(base.as_bytes(), rest.as_bytes()),
                joined.to_str().unwrap().as_bytes()
            );
        }
    }
}

#[test]
fn loads_what_was_saved() {
    let bytes = sample().encode();
    assert_eq!(load_session("a.swmn", &Ok(bytes)), Ok(sample()));
}

#[test]
fn load_errors_name_the_file() {
    assert_eq!(
        load_session("a.swmn", &Ok(b"nope".to_vec())),
        Err("a.swmn: not a swaymnesia session file".to_string())
    );
    assert_eq!(
        load_session("/b", &Err("permission denied".to_string())),
        Err("/b: permission denied".to_string())
    );
}

#[test]
fn window_lines_take_the_quoted_texts_as_they_are() {
    let mut out = String::new();
    let shown = Window {
        floating: true,
        focused: true,
        ..window("", "ignored", &["ignored"])
    };
    put_window_lines(&mut out, &shown, "<title>", "<argv>", "  ");
    assert_eq!(
        out,
        "  ? <title> [floating 0x0+0+0, focused]\n    <argv>\n"
    );
}

#[test]
fn lists_are_written_as_std_does() {
    for list in [vec![], vec!["a".to_string()], vec!["\t\u{7f}".to_string(), "'".to_string()]] {
        assert_eq!(debug_list(&list), format!("{list:?}"));
    }
}

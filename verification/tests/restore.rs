use swaymnesia::restore::{
    arrange, line_up, outcome_of, place, quote, restore, spawn_and_wait, Attempt, Place, Placed, Restorer, Step,
    MARK, SETTLE, SPAWN_TIMEOUT,
};
use swaymnesia::session::{Layout, Rect, Session, Tile, Window, Workspace};

fn window(name: &str) -> Window {
    Window {
        app_id: name.to_string(),
        title: name.to_string(),
        argv: vec![name.to_string()],
        floating: false,
        fullscreen: false,
        focused: false,
        rect: Rect {
            x: -1,
            y: 2,
            width: 300,
            height: 400,
        },
    }
}

fn split(layout: Layout, children: Vec<Tile>) -> Tile {
    Tile::Split { layout, children }
}

fn tile(name: &str) -> Tile {
    Tile::Window(window(name))
}

fn sample() -> Session {
    Session {
        workspaces: vec![
            Workspace {
                name: "1: \"web\"".to_string(),
                output: "eDP-1".to_string(),
                layout: Layout::Tabbed,
                tiles: vec![
                    tile("a"),
                    split(
                        Layout::SplitV,
                        vec![
                            tile("b"),
                            split(Layout::Stacked, vec![tile("c"), tile("d")]),
                        ],
                    ),
                ],
                floating: vec![Window {
                    fullscreen: true,
                    focused: true,
                    ..window("e")
                }],
            },
            Workspace {
                name: "2".to_string(),
                output: String::new(),
                layout: Layout::SplitH,
                tiles: vec![Tile::Window(Window {
                    fullscreen: true,
                    ..window("f")
                })],
                floating: Vec::new(),
            },
        ],
        scratchpad: vec![Window {
            focused: true,
            fullscreen: true,
            ..window("g")
        }],
    }
}

/// The commands of a whole restore, where `appears` says which window appears for a program.
fn commands(session: &Session, appears: &dyn Fn(&str) -> Option<i64>) -> Vec<String> {
    let mut restorer = Restorer::new();
    let mut commands = Vec::new();
    for step in restore(session) {
        let id = match &step {
            Step::Open(window, _) => appears(&window.argv[0]),
            _ => None,
        };
        commands.append(&mut restorer.perform(&step, id));
    }
    commands
}

fn by_letter(name: &str) -> Option<i64> {
    Some(name.as_bytes()[0] as i64 - 'a' as i64 + 1)
}

#[test]
fn constants() {
    assert_eq!(MARK, "_swaymnesia");
    assert_eq!(SPAWN_TIMEOUT, 15);
    assert_eq!(SETTLE, 500);
}

#[test]
fn restores_a_whole_session() {
    assert_eq!(
        commands(&sample(), &by_letter),
        vec![
            "workspace --no-auto-back-and-forth \"1: \\\"web\\\"\"",
            "move workspace to output \"eDP-1\"",
            "layout tabbed",
            "[con_id=1] move container to workspace \"1: \\\"web\\\"\"",
            "[con_id=2] move container to workspace \"1: \\\"web\\\"\"",
            "[con_id=3] move container to workspace \"1: \\\"web\\\"\"",
            "[con_id=4] move container to workspace \"1: \\\"web\\\"\"",
            "[con_id=1] mark _swaymnesia",
            "[con_id=2] move container to mark _swaymnesia",
            "[con_id=2] splitv",
            "[con_id=2] layout splitv",
            "[con_id=2] mark _swaymnesia",
            "[con_id=3] move container to mark _swaymnesia",
            "[con_id=3] splitv",
            "[con_id=3] layout stacking",
            "[con_id=3] mark _swaymnesia",
            "[con_id=4] move container to mark _swaymnesia",
            "[con_id=5] move container to workspace \"1: \\\"web\\\"\"",
            "[con_id=5] floating enable",
            "workspace --no-auto-back-and-forth \"2\"",
            "layout splith",
            "[con_id=6] move container to workspace \"2\"",
            "unmark _swaymnesia",
            "[con_id=7] floating enable",
            "[con_id=5] resize set width 300 px height 400 px",
            "[con_id=5] move absolute position -1 2",
            "[con_id=7] resize set width 300 px height 400 px",
            "[con_id=7] move absolute position -1 2",
            "[con_id=7] move scratchpad",
            "[con_id=5] fullscreen enable",
            "[con_id=6] fullscreen enable",
            "[con_id=5] focus",
        ]
    );
}

#[test]
fn windows_that_do_not_appear_are_skipped() {
    let only = |name: &str| match name {
        "a" | "d" => by_letter(name),
        _ => None,
    };
    assert_eq!(
        commands(&sample(), &only),
        vec![
            "workspace --no-auto-back-and-forth \"1: \\\"web\\\"\"",
            "move workspace to output \"eDP-1\"",
            "layout tabbed",
            "[con_id=1] move container to workspace \"1: \\\"web\\\"\"",
            "[con_id=4] move container to workspace \"1: \\\"web\\\"\"",
            "[con_id=1] mark _swaymnesia",
            "[con_id=4] move container to mark _swaymnesia",
            "workspace --no-auto-back-and-forth \"2\"",
            "layout splith",
            "unmark _swaymnesia",
        ]
    );
}

#[test]
fn steps_open_every_window_once() {
    let session = sample();
    let steps = restore(&session);
    let opened: Vec<&str> = steps
        .iter()
        .filter_map(|step| match step {
            Step::Open(window, _) => Some(window.argv[0].as_str()),
            _ => None,
        })
        .collect();
    assert_eq!(opened, vec!["a", "b", "c", "d", "e", "f", "g"]);
    assert!(matches!(steps[steps.len() - 2], Step::Settle));
    assert!(matches!(steps[steps.len() - 1], Step::Finish));
}

#[test]
fn steps_of_an_empty_session() {
    let empty = Session {
        workspaces: Vec::new(),
        scratchpad: Vec::new(),
    };
    let steps = restore(&empty);
    assert_eq!(steps.len(), 3);
    assert!(matches!(&steps[0], Step::Run(command) if command == "unmark _swaymnesia"));
    assert_eq!(commands(&empty, &by_letter), vec!["unmark _swaymnesia"]);
}

#[test]
fn each_workspace_gets_its_own_windows() {
    let first = window("a");
    let tiles = vec![tile("a"), tile("b")];
    let name = "1".to_string();
    let mut restorer = Restorer::new();
    for id in [1, 2] {
        restorer.perform(&Step::Open(&first, Place::Tiled(&name)), Some(id));
    }
    assert_eq!(restorer.perform(&Step::Arrange(&tiles), None).len(), 2);
    assert_eq!(
        restorer.perform(&Step::Arrange(&tiles), None),
        Vec::<String>::new()
    );
}

#[test]
fn the_last_focused_window_gets_the_focus() {
    let focused = Window {
        focused: true,
        ..window("a")
    };
    let name = "1".to_string();
    let mut restorer = Restorer::new();
    restorer.perform(&Step::Open(&focused, Place::Tiled(&name)), Some(1));
    restorer.perform(&Step::Open(&focused, Place::Floating(&name)), Some(2));
    restorer.perform(&Step::Open(&focused, Place::Floating(&name)), None);
    restorer.perform(&Step::Open(&focused, Place::Scratchpad), Some(3));
    let commands = restorer.perform(&Step::Finish, None);
    assert_eq!(commands.last().unwrap(), "[con_id=2] focus");
}

#[test]
fn placed_tiles() {
    let tiles = vec![
        split(Layout::Tabbed, vec![tile("a"), tile("b"), tile("c")]),
        split(Layout::SplitV, vec![tile("d"), tile("e")]),
        split(Layout::SplitH, vec![tile("f")]),
        tile("g"),
    ];
    let ids = vec![Some(1), None, Some(3), None, None, Some(6), Some(7), Some(8)];
    let placed = place(&tiles, &ids);
    assert_eq!(placed.len(), 3);
    assert!(matches!(
        &placed[0],
        Placed::Split(Layout::Tabbed, children)
            if matches!(children.as_slice(), [Placed::Window(1), Placed::Window(3)])
    ));
    assert!(matches!(placed[1], Placed::Window(6)));
    assert!(matches!(placed[2], Placed::Window(7)));
    assert_eq!(place(&tiles, &Vec::new()).len(), 0);
}

#[test]
fn arranging_single_tiles() {
    let mut out = vec!["before".to_string()];
    arrange(&mut out, &Placed::Window(1));
    assert_eq!(out, vec!["before"]);
    let pair = Placed::Split(
        Layout::Stacked,
        vec![Placed::Window(-5), Placed::Window(9)],
    );
    assert_eq!(pair.first_window(), -5);
    arrange(&mut out, &pair);
    assert_eq!(
        out,
        vec![
            "before",
            "[con_id=-5] splitv",
            "[con_id=-5] layout stacking",
            "[con_id=-5] mark _swaymnesia",
            "[con_id=9] move container to mark _swaymnesia",
        ]
    );
}

#[test]
fn lining_up_tiles() {
    let mut out = Vec::new();
    line_up(&mut out, &Vec::new());
    line_up(&mut out, &vec![Placed::Window(1)]);
    line_up(&mut out, &vec![Placed::Split(Layout::SplitH, Vec::new())]);
    assert_eq!(out, Vec::<String>::new());
    line_up(
        &mut out,
        &vec![Placed::Window(1), Placed::Window(2), Placed::Window(3)],
    );
    assert_eq!(
        out,
        vec![
            "[con_id=1] mark _swaymnesia",
            "[con_id=2] move container to mark _swaymnesia",
            "[con_id=2] mark _swaymnesia",
            "[con_id=3] move container to mark _swaymnesia",
        ]
    );
}

#[test]
fn arguments_are_quoted() {
    assert_eq!(quote(""), "\"\"");
    assert_eq!(quote("a b"), "\"a b\"");
    assert_eq!(quote("a\\\"b\\"), "\"a\\\\\\\"b\\\\\"");
    assert_eq!(quote("\u{e9}; exec rm"), "\"\u{e9}; exec rm\"");
}

#[test]
fn outcomes_of_starting_a_program() {
    let foot = Window {
        argv: vec!["foot".to_string(), "it's \"it\"".to_string()],
        ..window("foot")
    };
    assert_eq!(
        spawn_and_wait(&foot, &Attempt::Appeared(9)),
        Ok((Some(9), None))
    );
    assert_eq!(
        spawn_and_wait(&foot, &Attempt::TimedOut),
        Ok((
            None,
            Some("no window appeared for [\"foot\", \"it's \\\"it\\\"\"]".to_string())
        ))
    );
    assert_eq!(
        spawn_and_wait(&foot, &Attempt::NotStarted("no such file".to_string())),
        Ok((
            None,
            Some("cannot start [\"foot\", \"it's \\\"it\\\"\"]: no such file".to_string())
        ))
    );
    assert_eq!(
        spawn_and_wait(&foot, &Attempt::Disconnected),
        Err("sway closed the event stream".to_string())
    );
}

#[test]
fn outcomes_name_the_program() {
    assert_eq!(
        outcome_of("[x]", &Attempt::NotStarted("e".to_string())),
        Ok((None, Some("cannot start [x]: e".to_string())))
    );
    assert_eq!(
        outcome_of("[x]", &Attempt::TimedOut),
        Ok((None, Some("no window appeared for [x]".to_string())))
    );
    assert_eq!(outcome_of("[x]", &Attempt::Appeared(-1)), Ok((Some(-1), None)));
}

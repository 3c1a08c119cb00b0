use swaymnesia::capture::{is_scratchpad, tile, view, window, Node, NodeLayout, ScratchpadState};
use swaymnesia::config::Config;
use swaymnesia::process::Process;
use swaymnesia::restore::{place, Placed};
use swaymnesia::session::{capture, Layout, Rect, Session, Tile, Window, Workspace};

fn node(name: &str) -> Node {
    Node {
        name: Some(name.to_string()),
        layout: NodeLayout::Other,
        rect: Rect {
            x: 1,
            y: 2,
            width: 3,
            height: 4,
        },
        focused: false,
        fullscreen_mode: Some(0),
        scratchpad_state: None,
        app_id: None,
        class: None,
        process: None,
        nodes: Vec::new(),
        floating_nodes: Vec::new(),
    }
}

fn leaf(title: &str) -> Node {
    Node {
        app_id: Some(format!("app.{title}")),
        process: Some(Process {
            flatpak_info: None,
            cmdline: Some(format!("run\0{title}\0").into_bytes()),
            programs: Vec::new(),
        }),
        ..node(title)
    }
}

fn container(layout: NodeLayout, nodes: Vec<Node>) -> Node {
    Node {
        layout,
        nodes,
        ..node("container")
    }
}

fn saved(title: &str, floating: bool) -> Window {
    Window {
        app_id: format!("app.{title}"),
        title: title.to_string(),
        argv: vec!["run".to_string(), title.to_string()],
        floating,
        fullscreen: false,
        focused: false,
        rect: Rect {
            x: 1,
            y: 2,
            width: 3,
            height: 4,
        },
    }
}

fn tree(workspaces: Vec<Node>) -> Node {
    Node {
        nodes: vec![Node {
            nodes: workspaces,
            ..node("eDP-1")
        }],
        ..node("root")
    }
}

fn rules(text: &str) -> Config {
    Config::parse(text).unwrap()
}

#[test]
fn captures_a_tree() {
    let shown = Node {
        scratchpad_state: Some(ScratchpadState::Fresh),
        ..leaf("shown")
    };
    let hidden = Node {
        scratchpad_state: Some(ScratchpadState::Changed),
        ..container(NodeLayout::SplitH, vec![leaf("h1"), leaf("h2")])
    };
    let workspace = Node {
        layout: NodeLayout::Tabbed,
        nodes: vec![
            leaf("a"),
            container(
                NodeLayout::SplitV,
                vec![
                    container(NodeLayout::Stacked, vec![leaf("b")]),
                    leaf("c"),
                    node("no process"),
                ],
            ),
            container(NodeLayout::SplitV, Vec::new()),
        ],
        floating_nodes: vec![leaf("f"), shown],
        ..node("1")
    };
    let scratch = Node {
        floating_nodes: vec![hidden],
        nodes: vec![leaf("never")],
        ..node("__i3_scratch")
    };
    let session = capture(
        &tree(vec![scratch, workspace, node("empty")]),
        &Config::default(),
    );
    assert_eq!(
        session,
        Session {
            workspaces: vec![Workspace {
                name: "1".to_string(),
                output: "eDP-1".to_string(),
                layout: Layout::Tabbed,
                tiles: vec![
                    Tile::Window(saved("a", false)),
                    Tile::Split {
                        layout: Layout::SplitV,
                        children: vec![
                            Tile::Window(saved("b", false)),
                            Tile::Window(saved("c", false)),
                        ],
                    },
                ],
                floating: vec![saved("f", true)],
            }],
            scratchpad: vec![saved("h1", true), saved("h2", true), saved("shown", true)],
        }
    );
}

#[test]
fn ignored_windows_are_left_out() {
    let config = rules("[[ignore]]\ncommand = '^run b$'");
    let workspace = Node {
        nodes: vec![container(
            NodeLayout::SplitV,
            vec![leaf("a"), leaf("b")],
        )],
        ..node("1")
    };
    let session = capture(&tree(vec![workspace]), &config);
    assert_eq!(
        session.workspaces[0].tiles,
        vec![Tile::Window(saved("a", false))]
    );
}

#[test]
fn a_workspace_of_ignored_windows_is_not_saved() {
    let config = rules("[[ignore]]\napp_id = '^app'");
    let workspace = Node {
        nodes: vec![leaf("a")],
        floating_nodes: vec![leaf("b")],
        ..node("1")
    };
    let session = capture(&tree(vec![workspace]), &config);
    assert_eq!(session.workspaces, Vec::new());
}

#[test]
fn workspaces_of_several_outputs() {
    let output = |name: &str, workspace: &str| Node {
        nodes: vec![Node {
            nodes: vec![leaf("x")],
            ..node(workspace)
        }],
        ..node(name)
    };
    let mut nameless = output("", "");
    nameless.name = None;
    nameless.nodes[0].name = None;
    let root = Node {
        nodes: vec![output("A", "1"), output("B", "2"), nameless],
        ..node("root")
    };
    let session = capture(&root, &Config::default());
    let names: Vec<(&str, &str)> = session
        .workspaces
        .iter()
        .map(|w| (w.output.as_str(), w.name.as_str()))
        .collect();
    assert_eq!(names, vec![("A", "1"), ("B", "2"), ("", "")]);
}

#[test]
fn windows_and_their_properties() {
    let x11 = Node {
        name: None,
        app_id: None,
        class: Some("XTerm".to_string()),
        focused: true,
        fullscreen_mode: Some(2),
        ..leaf("x")
    };
    let found = view(&x11, false, &Config::default()).unwrap();
    assert_eq!(found.app_id, "XTerm");
    assert_eq!(found.title, "");
    assert!(found.focused && found.fullscreen && !found.floating);

    let unknown = Node {
        app_id: None,
        fullscreen_mode: None,
        ..leaf("x")
    };
    let found = view(&unknown, true, &Config::default()).unwrap();
    assert_eq!(found.app_id, "");
    assert!(!found.focused && !found.fullscreen && found.floating);

    for (mode, expected) in [(0u8, false), (1, true), (2, true), (3, false)] {
        let node = Node {
            fullscreen_mode: Some(mode),
            ..leaf("x")
        };
        let found = view(&node, false, &Config::default()).unwrap();
        assert_eq!(found.fullscreen, expected);
    }
    assert_eq!(view(&node("x"), false, &Config::default()), None);
    let with_floating = Node {
        floating_nodes: vec![leaf("y")],
        ..leaf("x")
    };
    assert_eq!(view(&with_floating, false, &Config::default()), None);
}

#[test]
fn a_window_that_is_left_out_is_none() {
    let argv = vec!["run".to_string(), "x".to_string()];
    assert_eq!(
        window(&leaf("x"), argv.clone(), false, true),
        Some(saved("x", true))
    );
    assert_eq!(window(&leaf("x"), argv, true, true), None);
}

#[test]
fn lone_children_stand_for_their_container() {
    let lone = container(
        NodeLayout::Tabbed,
        vec![container(NodeLayout::Stacked, vec![leaf("a")])],
    );
    assert_eq!(
        tile(&lone, &Config::default()),
        Some(Tile::Window(saved("a", false)))
    );
    let none = container(NodeLayout::Tabbed, vec![node("x"), node("y")]);
    assert_eq!(tile(&none, &Config::default()), None);
}

#[test]
fn layouts_of_nodes() {
    for (layout, expected) in [
        (NodeLayout::SplitH, Layout::SplitH),
        (NodeLayout::SplitV, Layout::SplitV),
        (NodeLayout::Stacked, Layout::Stacked),
        (NodeLayout::Tabbed, Layout::Tabbed),
        (NodeLayout::Other, Layout::SplitH),
    ] {
        assert_eq!(Layout::from_node(layout), expected);
    }
}

#[test]
fn scratchpad_states() {
    for (state, expected) in [
        (None, false),
        (Some(ScratchpadState::Outside), false),
        (Some(ScratchpadState::Fresh), true),
        (Some(ScratchpadState::Changed), true),
    ] {
        let node = Node {
            scratchpad_state: state,
            ..node("x")
        };
        assert_eq!(is_scratchpad(&node), expected);
    }
}

#[test]
fn captured_trees_are_rebuilt() {
    let workspace = Node {
        nodes: vec![container(
            NodeLayout::Tabbed,
            vec![
                leaf("a"),
                container(NodeLayout::SplitV, vec![leaf("b"), leaf("c")]),
            ],
        )],
        ..node("1")
    };
    let session = capture(&tree(vec![workspace]), &Config::default());
    let placed = place(
        &session.workspaces[0].tiles,
        &vec![Some(1), Some(2), Some(3)],
    );
    let [Placed::Split(Layout::Tabbed, outer)] = placed.as_slice() else {
        panic!("{placed:?}");
    };
    let [Placed::Window(1), Placed::Split(Layout::SplitV, inner)] = outer.as_slice() else {
        panic!("{placed:?}");
    };
    assert!(matches!(
        inner.as_slice(),
        [Placed::Window(2), Placed::Window(3)]
    ));
}

use swaymnesia::process::{
    candidates, cmdline, command, flatpak_app_id, flatpak_command, is_executable, is_program,
    program_paths, repair_argv, Process,
};

fn strings(list: &[&str]) -> Vec<String> {
    list.iter().map(|s| s.to_string()).collect()
}

#[test]
fn flatpak_app_id_from_application_group() {
    let info = "[Application]\nname=com.discordapp.Discord\nruntime=runtime/x/y/z\n\n\
                [Instance]\nname=not-this\nbranch=stable\n";
    assert_eq!(flatpak_app_id(info), Some("com.discordapp.Discord"));
}

#[test]
fn flatpak_app_id_ignores_other_groups() {
    assert_eq!(flatpak_app_id("[Instance]\nname=org.example.App\n"), None);
    assert_eq!(flatpak_app_id("[Application]\nname=\n"), None);
}

#[test]
fn flatpak_app_id_of_odd_files() {
    assert_eq!(flatpak_app_id(""), None);
    assert_eq!(flatpak_app_id("name=a\n"), None);
    assert_eq!(flatpak_app_id("[Application]"), None);
    assert_eq!(
        flatpak_app_id("  [Application]\t\r\n\r\n \u{3000}name = \u{e9} b \r\n"),
        Some("\u{e9} b")
    );
    assert_eq!(
        flatpak_app_id("[Application]\nruntime\nname=a=b\nname=c"),
        Some("a=b")
    );
    assert_eq!(flatpak_app_id("[Application]\nname=\nname=c"), None);
    assert_eq!(
        flatpak_app_id("[Application]\n[Other]\nname=b\n[Application]\nname=c"),
        Some("c")
    );
}

#[test]
fn flatpak_apps_run_through_flatpak() {
    assert_eq!(
        flatpak_command("[Application]\nname=org.example.App"),
        Some(strings(&["flatpak", "run", "org.example.App"]))
    );
    assert_eq!(flatpak_command("[Instance]"), None);
}

#[test]
fn command_lines_are_split_at_nul() {
    assert_eq!(
        cmdline(b"foot\0-e\0\0top\0", &Vec::new()),
        Some(strings(&["foot", "-e", "", "top"]))
    );
    assert_eq!(
        cmdline(b"\0\0a b\0c", &Vec::new()),
        Some(strings(&["", "", "a b", "c"]))
    );
    assert_eq!(
        cmdline(b"grep\0\0f.txt\0", &Vec::new()),
        Some(strings(&["grep", "", "f.txt"]))
    );
    assert_eq!(
        cmdline(b"grep\0\0", &Vec::new()),
        Some(strings(&["grep", ""]))
    );
    assert_eq!(
        cmdline(b"grep\0\0\0", &strings(&["grep"])),
        Some(strings(&["grep", "", ""]))
    );
    assert_eq!(cmdline(b"foot", &Vec::new()), Some(strings(&["foot"])));
    assert_eq!(cmdline(b"", &Vec::new()), None);
    assert_eq!(cmdline(b"\0\0", &Vec::new()), None);
}

#[test]
fn invalid_utf8_is_replaced() {
    assert_eq!(
        cmdline(b"caf\xc3\xa9\0a\xffb\0", &Vec::new()),
        Some(strings(&["caf\u{e9}", "a\u{fffd}b"]))
    );
}

#[test]
fn overwritten_command_lines_are_repaired() {
    let raw = b"/usr/lib/signal-desktop/signal-desktop --\0";
    let program = strings(&["/usr/lib/signal-desktop/signal-desktop"]);
    assert_eq!(
        cmdline(raw, &program),
        Some(strings(&["/usr/lib/signal-desktop/signal-desktop", "--"]))
    );
    assert_eq!(
        cmdline(raw, &Vec::new()),
        Some(strings(&["/usr/lib/signal-desktop/signal-desktop --"]))
    );
    let cleared = b"/usr/lib/signal-desktop/signal-desktop --\0\0\0\0";
    assert_eq!(
        cmdline(cleared, &program),
        Some(strings(&["/usr/lib/signal-desktop/signal-desktop", "--"]))
    );
}

#[test]
fn argument_vectors_that_work_are_kept() {
    let whole = strings(&["my program"]);
    assert_eq!(
        repair_argv(whole.clone(), &strings(&["my", "my program"])),
        whole
    );
    let two = strings(&["a b", "c"]);
    assert_eq!(repair_argv(two.clone(), &strings(&["a"])), two);
    let blank = strings(&["  "]);
    assert_eq!(repair_argv(blank.clone(), &strings(&["a"])), blank);
    assert_eq!(
        repair_argv(strings(&[" a\t b\u{2003}c "]), &strings(&["a"])),
        strings(&["a", "b", "c"])
    );
    assert_eq!(repair_argv(Vec::new(), &Vec::new()), Vec::<String>::new());
}

#[test]
fn candidates_are_the_names_that_matter() {
    assert_eq!(candidates(b"a b\0"), strings(&["a b", "a"]));
    assert_eq!(candidates(b"a\0"), strings(&["a", "a"]));
    assert_eq!(candidates(b"a b\0\0\0"), strings(&["a b", "a"]));
    assert_eq!(candidates(b" \0"), strings(&[" "]));
    assert_eq!(candidates(b"a\0b\0"), Vec::<String>::new());
    assert_eq!(candidates(b""), Vec::<String>::new());

    let raw = b"a b\0";
    assert_eq!(
        cmdline(raw, &strings(&["a", "z"])),
        cmdline(raw, &strings(&["a"]))
    );
}

#[test]
fn programs_are_looked_up() {
    let dirs = vec![b"/bin".to_vec(), b"".to_vec(), b"/opt/".to_vec()];
    assert_eq!(
        program_paths("foot", &dirs),
        vec![b"/bin/foot".to_vec(), b"foot".to_vec(), b"/opt/foot".to_vec()]
    );
    assert_eq!(program_paths("./foot", &dirs), vec![b"./foot".to_vec()]);
    assert_eq!(
        program_paths("caf\u{e9}", &vec![b"/".to_vec()]),
        vec!["/caf\u{e9}".as_bytes().to_vec()]
    );
    assert!(is_program("b", &strings(&["a", "b"])));
    assert!(!is_program("c", &strings(&["a", "b"])));
}

#[test]
fn executables_are_told_by_their_mode() {
    assert!(is_executable(true, 0o100755));
    assert!(is_executable(true, 0o100100));
    assert!(is_executable(true, 0o010));
    assert!(is_executable(true, 0o001));
    assert!(!is_executable(true, 0o100666));
    assert!(!is_executable(false, 0o040755));
}

#[test]
fn sandboxed_processes_are_started_through_flatpak() {
    let sandboxed = Process {
        flatpak_info: Some("[Application]\nname=org.example.App".to_string()),
        cmdline: Some(b"/app/bin/foo\0--bar\0".to_vec()),
        programs: Vec::new(),
    };
    assert_eq!(
        command(&sandboxed),
        Some(strings(&["flatpak", "run", "org.example.App"]))
    );
    let broken = Process {
        flatpak_info: Some("[Instance]".to_string()),
        ..sandboxed
    };
    assert_eq!(command(&broken), Some(strings(&["/app/bin/foo", "--bar"])));
    let unknown = Process {
        flatpak_info: None,
        cmdline: None,
        programs: Vec::new(),
    };
    assert_eq!(command(&unknown), None);
}

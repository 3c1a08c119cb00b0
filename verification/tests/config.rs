use swaymnesia::config::{self, fields_match, leaves_out, unquote, Config, FileText, Rule};

fn parse_error(text: &str) -> String {
    match Config::parse(text) {
        Ok(_) => panic!("{text:?} was accepted"),
        Err(e) => e.message(),
    }
}

#[test]
fn rules_are_regular_expressions() {
    let config = Config::parse(
        "[[ignore]]\napp_id = \"^fire\"\n\n[[ignore]]\ntitle = 'pass(word)?$'\ncommand = \"pinentry\"\n",
    )
    .unwrap();
    assert!(config.skips("firefox", "", ""));
    assert!(!config.skips("xfire", "", ""));
    assert!(config.skips("x", "the password", "pinentry-gtk"));
    assert!(!config.skips("x", "the password", "foot"));
    assert!(!config.skips("x", "passwords", "pinentry"));
}

#[test]
fn allowed_windows_are_saved() {
    let config = Config::parse(
        "[[ignore]]\napp_id = \".*\"\n[[allow]]\napp_id = \"^foot$\"\n[[allow]]\ntitle = \"keep\"\n",
    )
    .unwrap();
    assert!(config.skips("firefox", "x", "firefox"));
    assert!(!config.skips("foot", "x", "foot"));
    assert!(!config.skips("firefox", "keep me", "firefox"));
}

#[test]
fn without_rules_everything_is_saved() {
    assert!(!Config::default().skips("", "", ""));
    let blank = Config::parse("\n  \r\n\t\n").unwrap();
    assert!(!blank.skips("a", "b", "c"));
    assert!(!Config::parse("").unwrap().skips("a", "b", "c"));
}

#[test]
fn white_space_around_everything_is_ignored() {
    let config = Config::parse("  [[ ignore ]]  \r\n\tapp_id\u{a0}=   'a b'  ").unwrap();
    assert!(config.skips("a b", "", ""));
    assert!(!config.skips("ab", "", ""));
}

#[test]
fn escaped_patterns() {
    let config = Config::parse("[[ignore]]\ntitle = \"^a\\\\.b\\t$\"").unwrap();
    assert!(config.skips("", "a.b\t", ""));
    assert!(!config.skips("", "axb\t", ""));
}

#[test]
fn parse_errors() {
    assert_eq!(
        parse_error("\n[[deny]]\n"),
        "line 2: unknown table [[deny]]"
    );
    assert_eq!(
        parse_error("[[ignore]]\napp_id\n"),
        "line 2: expected a key = \"value\" pair"
    );
    assert_eq!(
        parse_error("app_id = 'a'"),
        "line 1: a rule has to start with [[ignore]] or [[allow]]"
    );
    assert_eq!(
        parse_error("[[allow]]\napp_id = a"),
        "line 2: value is not a quoted string"
    );
    assert_eq!(
        parse_error("[[allow]]\nclass = 'a'"),
        "line 2: unknown field 'class'"
    );
    assert_eq!(
        parse_error("[[allow]]\ntitle = 'a'\n\n title = 'b'"),
        "line 4: 'title' is set twice"
    );
    assert_eq!(
        parse_error("[[ignore]]\n\n[[allow]]\ntitle = 'a'"),
        "line 1: rule has no app_id, title or command to match on"
    );
    assert_eq!(
        parse_error("[[ignore]]\ntitle = 'a'\n[[allow]]\n"),
        "line 3: rule has no app_id, title or command to match on"
    );
    assert_eq!(
        parse_error("[[ignore]\ntitle = 'a'"),
        "line 1: expected a key = \"value\" pair"
    );
}

#[test]
fn bad_patterns_are_reported_with_their_error() {
    let error = regex::Regex::new("a(").unwrap_err().to_string();
    assert_eq!(
        parse_error("[[ignore]]\ncommand = 'a('"),
        format!("line 2: bad pattern: {error}")
    );
    // the pattern is looked at before the name of the field
    assert_eq!(
        parse_error("[[ignore]]\nclass = 'a('"),
        format!("line 2: bad pattern: {error}")
    );
}

#[test]
fn an_unknown_table_hides_an_empty_rule() {
    assert_eq!(
        parse_error("[[ignore]]\n[[deny]]"),
        "line 2: unknown table [[deny]]"
    );
}

#[test]
fn strings_are_unquoted() {
    assert_eq!(unquote("'a\\n\"'"), Some("a\\n\"".to_string()));
    assert_eq!(unquote("''"), Some(String::new()));
    assert_eq!(unquote("'"), None);
    assert_eq!(unquote("\"\""), Some(String::new()));
    assert_eq!(unquote("\""), None);
    assert_eq!(
        unquote("\"\\n\\t\\r\\\"\\\\\u{e9}\""),
        Some("\n\t\r\"\\\u{e9}".to_string())
    );
    assert_eq!(unquote("\"a\"b\""), None);
    assert_eq!(unquote("'a'b'"), None);
    assert_eq!(unquote("\"\\x\""), None);
    assert_eq!(unquote("\"a\\\""), None);
    assert_eq!(unquote("a"), None);
    assert_eq!(unquote("'a\""), None);
    assert_eq!(unquote(""), None);
}

#[test]
fn single_rules() {
    let rule = Rule {
        app_id: None,
        title: None,
        command: None,
    };
    let rule = rule.set(1, "title", "b+".to_string(), None).unwrap();
    assert!(rule.matches("anything", "abbc", ""));
    assert!(!rule.matches("anything", "ac", ""));
    let rule = rule.set(2, "command", "^x".to_string(), None).unwrap();
    assert!(rule.matches("", "b", "x"));
    assert!(!rule.matches("", "b", "yx"));
    let twice = rule.set(3, "title", "c".to_string(), None).unwrap_err();
    assert_eq!(twice.message(), "line 3: 'title' is set twice");
    let empty = Rule {
        app_id: None,
        title: None,
        command: None,
    };
    let bad = empty.set(4, "title", "(".to_string(), Some("no".to_string()));
    assert_eq!(bad.unwrap_err().message(), "line 4: bad pattern: no");
}

#[test]
fn decisions() {
    assert!(fields_match(None, None, None));
    assert!(fields_match(Some(true), None, Some(true)));
    assert!(!fields_match(Some(true), Some(false), None));
    assert!(leaves_out(true, false));
    assert!(!leaves_out(true, true));
    assert!(!leaves_out(false, false));
    assert!(!leaves_out(false, true));
}

#[test]
fn loading_a_configuration() {
    let text = FileText::Text("[[ignore]]\napp_id = 'a'".to_string());
    assert!(Config::load("c", text).unwrap().skips("a", "", ""));
    assert!(!Config::load("c", FileText::NotFound)
        .unwrap()
        .skips("a", "", ""));
    assert_eq!(
        Config::load("c", FileText::Failed("denied".to_string())).unwrap_err(),
        "c: denied"
    );
    assert_eq!(
        Config::load("c", FileText::Text("x".to_string())).unwrap_err(),
        "c: line 1: expected a key = \"value\" pair"
    );
}

#[test]
fn path_of_the_configuration() {
    let some = |s: &str| Some(s.as_bytes().to_vec());
    assert_eq!(
        config::path(&some("/c"), &some("/home/me")),
        b"/c/swaymnesia/config.toml"
    );
    assert_eq!(
        config::path(&None, &some("/home/me")),
        b"/home/me/.config/swaymnesia/config.toml"
    );
    assert_eq!(
        config::path(&None, &None),
        b".config/swaymnesia/config.toml"
    );
}

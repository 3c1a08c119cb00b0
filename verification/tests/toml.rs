use swaymnesia::config::Config;
use swaymnesia::toml::unquote;

#[test]
fn unicode_escapes() {
    let read = |s: &str| Some(s.to_string());
    assert_eq!(unquote(r#""\u0041""#), read("A"));
    assert_eq!(unquote(r#""\u00e9\u00E9b""#), read("\u{e9}\u{e9}b"));
    assert_eq!(unquote(r#""\U0001F600""#), read("\u{1f600}"));
    assert_eq!(unquote(r#""\U0010ffff""#), read("\u{10ffff}"));
    assert_eq!(unquote(r#""\U00110000""#), None);
    assert_eq!(unquote(r#""\Uffffffff""#), None);
    assert_eq!(unquote(r#""\ud7ff\ue000""#), read("\u{d7ff}\u{e000}"));
    assert_eq!(unquote(r#""\ud800""#), None);
    assert_eq!(unquote(r#""\udfff""#), None);
    assert_eq!(unquote(r#""\u004""#), None);
    assert_eq!(unquote(r#""\u00g1""#), None);
    assert_eq!(unquote(r#""\U0041""#), None);
    assert_eq!(unquote(r#""\b\f""#), read("\u{8}\u{c}"));
    assert_eq!(unquote(r#"'\u0041'"#), read(r"\u0041"));
}

#[test]
fn control_characters_have_to_be_escaped() {
    for n in 0..0x80u32 {
        let c = char::from_u32(n).unwrap();
        let allowed = c == '\t' || !c.is_control();
        if c != '"' && c != '\\' {
            assert_eq!(unquote(&format!("\"{c}\"")).is_some(), allowed, "{c:?}");
        }
        if c != '\'' {
            assert_eq!(unquote(&format!("'{c}'")).is_some(), allowed, "{c:?}");
        }
        assert_eq!(unquote(&format!("\"\\u{n:04x}\"")), Some(c.to_string()));
    }
}

#[test]
fn strings_between_three_double_quotes() {
    let read = |s: &str| Some(s.to_string());
    assert_eq!(unquote(r#""""""""#), read(""));
    assert_eq!(unquote(r#""""a""b\n""""#), read("a\"\"b\n"));
    assert_eq!(unquote("\"\"\"a\"\"\"\"\""), read("a\"\""));
    assert_eq!(unquote(r#"""""a""""#), read("\"a"));
    assert_eq!(unquote(r#""""a"""b""""#), None);
    assert_eq!(unquote(r#""""a\""""#), None);
    assert_eq!(unquote(r#""""""#), None);
    assert_eq!(
        unquote("\"\"\"\r\na\nb\r\n\"\"\""),
        read("a\nb\r\n")
    );
    assert_eq!(unquote("\"\"\"a \\ \t\n\r\n  b\"\"\""), read("a b"));
    assert_eq!(unquote("\"\"\"a \\ b\"\"\""), None);
    assert_eq!(unquote("\"\"\"a\rb\"\"\""), None);
    assert_eq!(unquote("\"a\nb\""), None);
}

#[test]
fn strings_between_three_single_quotes() {
    let read = |s: &str| Some(s.to_string());
    assert_eq!(unquote("''''''"), read(""));
    assert_eq!(unquote("'''a''\\b'''"), read("a''\\b"));
    assert_eq!(unquote("'''\na'''"), read("a"));
    assert_eq!(unquote("'''a'''b'''"), None);
    assert_eq!(unquote("'''a\"\"\""), None);
    let config = Config::parse("[[ignore]]\ntitle = '''it's'''").unwrap();
    assert!(config.skips("", "it's", ""));
}

use swaymnesia::text;

const WHITE_SPACE: [char; 25] = [
    '\u{9}', '\u{a}', '\u{b}', '\u{c}', '\u{d}', '\u{20}', '\u{85}', '\u{a0}', '\u{1680}',
    '\u{2000}', '\u{2001}', '\u{2002}', '\u{2003}', '\u{2004}', '\u{2005}', '\u{2006}', '\u{2007}',
    '\u{2008}', '\u{2009}', '\u{200a}', '\u{2028}', '\u{2029}', '\u{202f}', '\u{205f}', '\u{3000}',
];

#[test]
fn every_character_is_white_space_or_not() {
    for c in '\u{0}'..=char::MAX {
        let trimmed = text::trim(c.encode_utf8(&mut [0; 4])).is_empty();
        assert_eq!(trimmed, WHITE_SPACE.contains(&c), "{c:?}");
    }
}

#[test]
fn trimming_agrees_with_std() {
    for s in ["", " ", "a", " a ", "\u{3000}\ta b\u{85}\n", "\u{200b}a"] {
        assert_eq!(text::trim(s), s.trim());
    }
}

#[test]
fn lines_agree_with_std() {
    for s in [
        "", "\n", "a", "a\n", "a\nb", "a\r\nb\r", "\r\n\r\n", "a\n\n\u{e9}\n", "\r", "a\rb\n",
    ] {
        assert_eq!(text::lines(s), s.lines().collect::<Vec<&str>>(), "{s:?}");
    }
}

#[test]
fn words_agree_with_std() {
    for s in ["", "  ", "a", " a  b ", "\u{e9}\u{2003}b\tc\n"] {
        assert_eq!(
            text::split_whitespace(s),
            s.split_whitespace().collect::<Vec<&str>>(),
            "{s:?}"
        );
    }
}

#[test]
fn parts_agree_with_std() {
    for s in ["", "=", "a=b", "a=b=c", "\u{e9}=\u{e9}", "ab"] {
        assert_eq!(text::split_once(s, '='), s.split_once('='));
        assert_eq!(text::contains(s, '='), s.contains('='));
        assert_eq!(text::strip_prefix(s, "a"), s.strip_prefix("a"));
        assert_eq!(text::strip_suffix(s, "=b"), s.strip_suffix("=b"));
        assert_eq!(text::strip_prefix(s, ""), Some(s));
        for t in ["", "=", "a=b", "b"] {
            assert_eq!(text::same(s, t), s == t);
        }
    }
}

#[test]
fn numbers_agree_with_std() {
    for n in [0i64, 7, 10, 99, 100, -1, -10, i64::MAX, i64::MIN] {
        let mut out = "n".to_string();
        text::push_int(&mut out, n);
        assert_eq!(out, format!("n{n}"));
    }
    for n in [0u64, 9, 10, u64::MAX] {
        let mut out = String::new();
        text::push_nat(&mut out, n);
        assert_eq!(out, n.to_string());
    }
}

#[test]
fn joined_strings_agree_with_std() {
    let list = |parts: &[&str]| -> Vec<String> { parts.iter().map(|s| s.to_string()).collect() };
    for parts in [list(&[]), list(&["a"]), list(&["a", "", "b"])] {
        assert_eq!(text::join(&parts, ", "), parts.join(", "));
    }
}

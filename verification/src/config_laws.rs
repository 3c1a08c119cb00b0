//! What the rules are for: which windows they leave out, and how a configuration is written down.

use crate::config;
use crate::config::{ConfigView, DraftView, ParseErrorView, RuleView, Table};
use crate::text;
use crate::text_laws;
use crate::toml;
use vstd::prelude::*;

verus! {

// Which windows are left out

/// Whether the regular expression of a field does not match a value. A field that is not set has
/// none.
pub open spec fn fails(pattern: Option<Seq<char>>, value: Seq<char>) -> bool {
    pattern matches Some(p) && config::pattern_matches(p, value) != Some(true)
}

/// A rule matches a window unless one of its fields does not: where the regular expression of any
/// field that is set does not match, the rule does not, whatever the other fields are; and where each
/// of them matches, the rule does.
pub proof fn law_rule_needs_every_field(
    rule: RuleView,
    app_id: Seq<char>,
    title: Seq<char>,
    command: Seq<char>,
)
    ensures
        fails(rule.app_id, app_id) ==> !config::rule_matches(rule, app_id, title, command),
        fails(rule.title, title) ==> !config::rule_matches(rule, app_id, title, command),
        fails(rule.command, command) ==> !config::rule_matches(rule, app_id, title, command),
        !config::rule_matches(rule, app_id, title, command) ==> fails(rule.app_id, app_id)
            || fails(rule.title, title) || fails(rule.command, command),
{
}

/// A window is left out only if some rule to ignore it has every field that it sets match, and each
/// rule to allow it has one that does not; and then it is left out.
pub proof fn law_left_out(
    config: ConfigView,
    app_id: Seq<char>,
    title: Seq<char>,
    command: Seq<char>,
)
    ensures
        config::skipped(config, app_id, title, command) <==> (exists|i: int|
            0 <= i < config.ignore.len() && !fails((#[trigger] config.ignore[i]).app_id, app_id)
                && !fails(config.ignore[i].title, title) && !fails(
                config.ignore[i].command,
                command,
            )) && (forall|i: int|
            0 <= i < config.allow.len() ==> fails((#[trigger] config.allow[i]).app_id, app_id)
                || fails(config.allow[i].title, title) || fails(config.allow[i].command, command)),
{
    assert forall|i: int| 0 <= i < config.ignore.len() implies (config::rule_matches(
        #[trigger] config.ignore[i],
        app_id,
        title,
        command,
    ) <==> !fails(config.ignore[i].app_id, app_id) && !fails(config.ignore[i].title, title)
        && !fails(config.ignore[i].command, command)) by {
        law_rule_needs_every_field(config.ignore[i], app_id, title, command);
    }
    assert forall|i: int| 0 <= i < config.allow.len() implies (config::rule_matches(
        #[trigger] config.allow[i],
        app_id,
        title,
        command,
    ) <==> !fails(config.allow[i].app_id, app_id) && !fails(config.allow[i].title, title) && !fails(
        config.allow[i].command,
        command,
    )) by {
        law_rule_needs_every_field(config.allow[i], app_id, title, command);
    }
    if config::any_matches(config.ignore, app_id, title, command) {
        let i = choose|i: int|
            0 <= i < config.ignore.len() && config::rule_matches(
                #[trigger] config.ignore[i],
                app_id,
                title,
                command,
            );
        assert(!fails(config.ignore[i].app_id, app_id));
    }
    if config::any_matches(config.allow, app_id, title, command) {
        let i = choose|i: int|
            0 <= i < config.allow.len() && config::rule_matches(
                #[trigger] config.allow[i],
                app_id,
                title,
                command,
            );
        assert(!fails(config.allow[i].app_id, app_id));
    }
}

// Writing a configuration

/// A rule as a configuration holds it, with the list that it goes to.
pub struct Entry {
    pub ignore: bool,
    pub rule: RuleView,
}

/// A line that sets a field.
pub open spec fn field_line(key: Seq<char>, pattern: Seq<char>) -> Seq<char> {
    key + " = \""@ + toml::written(pattern) + "\""@
}

/// The line that sets a field, if it is set.
pub open spec fn field_lines(key: Seq<char>, pattern: Option<Seq<char>>) -> Seq<Seq<char>> {
    match pattern {
        Some(pattern) => seq![field_line(key, pattern)],
        None => Seq::empty(),
    }
}

/// The lines of a rule.
pub open spec fn entry_lines(entry: Entry) -> Seq<Seq<char>> {
    seq![
        if entry.ignore {
            "[[ignore]]"@
        } else {
            "[[allow]]"@
        },
    ] + field_lines("app_id"@, entry.rule.app_id) + field_lines("title"@, entry.rule.title)
        + field_lines("command"@, entry.rule.command)
}

/// The lines of a list of rules.
pub open spec fn entries_lines(entries: Seq<Entry>) -> Seq<Seq<char>>
    decreases entries.len(),
{
    if entries.len() == 0 {
        Seq::empty()
    } else {
        entries_lines(entries.drop_last()) + entry_lines(entries.last())
    }
}

/// Lines as a text.
pub open spec fn text_of_lines(lines: Seq<Seq<char>>) -> Seq<char>
    decreases lines.len(),
{
    if lines.len() == 0 {
        Seq::empty()
    } else {
        lines[0] + seq!['\n'] + text_of_lines(lines.drop_first())
    }
}

/// The rules that go to one of the two lists, in order.
pub open spec fn listed(entries: Seq<Entry>, ignore: bool) -> Seq<RuleView>
    decreases entries.len(),
{
    if entries.len() == 0 {
        Seq::empty()
    } else if entries.last().ignore == ignore {
        listed(entries.drop_last(), ignore).push(entries.last().rule)
    } else {
        listed(entries.drop_last(), ignore)
    }
}

/// Whether a rule sets a field, and only to regular expressions.
pub open spec fn usable(rule: RuleView) -> bool {
    &&& rule.app_id is Some || rule.title is Some || rule.command is Some
    &&& rule.app_id matches Some(p) ==> config::pattern_error(p) is None
    &&& rule.title matches Some(p) ==> config::pattern_error(p) is None
    &&& rule.command matches Some(p) ==> config::pattern_error(p) is None
}

proof fn lemma_trimmed(s: Seq<char>)
    requires
        s.len() > 0,
        !text::is_white_space(s[0]),
        !text::is_white_space(s.last()),
    ensures
        text::trimmed(s) == s,
{
}

proof fn lemma_no_equals(s: Seq<char>, behind: Seq<char>)
    requires
        !s.contains('='),
    ensures
        text::split_at_first(s + seq!['='] + behind, '=') == Some((s, behind)),
{
    let whole = s + seq!['='] + behind;
    assert(whole[s.len() as int] == '=');
    assert(whole.contains('='));
    text_laws::law_split_at_first(whole, '=');
    let (before, rest) = text::split_at_first(whole, '=')->0;
    if before.len() < s.len() {
        assert(whole[before.len() as int] == '=');
        assert(s[before.len() as int] == '=');
        assert(s.contains('='));
    } else if before.len() > s.len() {
        assert(before[s.len() as int] == whole[s.len() as int]);
        assert(before.contains('='));
    }
    assert(before =~= whole.take(before.len() as int));
    assert(before =~= s);
    assert(rest =~= whole.skip((before.len() + 1) as int));
    assert(rest =~= behind);
}

proof fn lemma_keys()
    ensures
        "app_id"@.len() == 6 && "title"@.len() == 5 && "command"@.len() == 7,
        "app_id"@ != "title"@ && "app_id"@ != "command"@ && "title"@ != "command"@,
{
    reveal_strlit("app_id");
    reveal_strlit("title");
    reveal_strlit("command");
    let (a, b, c) = ("app_id"@, "title"@, "command"@);
    assert(a.len() == 6 && b.len() == 5 && c.len() == 7);
    assert(a != b && a != c && b != c);
}

/// Whether a key is that of a field.
spec fn is_key(key: Seq<char>) -> bool {
    key == "app_id"@ || key == "title"@ || key == "command"@
}

proof fn lemma_key(key: Seq<char>)
    requires
        is_key(key),
    ensures
        key.len() > 0,
        key[0] != '[',
        !(key + seq![' ']).contains('='),
        !text::is_white_space(key[0]),
        text::trimmed(key + seq![' ']) == key,
{
    reveal_strlit("app_id");
    reveal_strlit("title");
    reveal_strlit("command");
    let spaced = key + seq![' '];
    assert forall|i: int| 0 <= i < spaced.len() implies spaced[i] != '=' by {}
    assert(spaced.drop_last() =~= key);
    assert(!text::is_white_space(key.last()));
    assert(text::trim_start(spaced) == spaced);
    assert(text::trim_end(spaced) == text::trim_end(key));
}

proof fn lemma_field_line(draft: DraftView, line: nat, key: Seq<char>, pattern: Seq<char>)
    requires
        is_key(key),
    ensures
        config::with_line(draft, line, field_line(key, pattern)) == match draft.open {
            None => Err(
                ParseErrorView {
                    line,
                    message: "a rule has to start with [[ignore]] or [[allow]]"@,
                },
            ),
            Some((table, rule, start)) => match config::with_field(
                rule,
                line,
                key,
                pattern,
                config::pattern_error(pattern),
            ) {
                Err(e) => Err(e),
                Ok(rule) => Ok(
                    DraftView { config: draft.config, open: Some((table, rule, start)) },
                ),
            },
        },
{
    let raw = field_line(key, pattern);
    let quoted = seq!['"'] + toml::written(pattern) + seq!['"'];
    reveal_strlit(" = \"");
    reveal_strlit("\"");
    reveal_strlit("[[");
    lemma_key(key);
    assert(raw =~= (key + seq![' ']) + seq!['='] + (seq![' '] + quoted));
    assert(raw[0] == key[0]);
    assert(raw.last() == '"');
    lemma_trimmed(raw);
    assert(!"[["@.is_prefix_of(raw)) by {
        if "[["@.is_prefix_of(raw) {
            assert(raw[0] == "[["@[0]);
        }
    }
    lemma_no_equals(key + seq![' '], seq![' '] + quoted);
    let spaced = seq![' '] + quoted;
    assert(spaced.drop_first() =~= quoted);
    assert(text::trim_start(spaced) == text::trim_start(quoted));
    lemma_trimmed(quoted);
    assert(text::trimmed(spaced) == quoted);
    toml::law_every_text_can_be_written(pattern);
}

proof fn lemma_header_line(draft: DraftView, line: nat, ignore: bool)
    ensures
        config::with_line(
            draft,
            line,
            if ignore {
                "[[ignore]]"@
            } else {
                "[[allow]]"@
            },
        ) == match config::closed(draft) {
            Err(e) => Err(e),
            Ok(config) => Ok(
                DraftView {
                    config,
                    open: Some(
                        (
                            if ignore {
                                Table::Ignore
                            } else {
                                Table::Allow
                            },
                            RuleView { app_id: None, title: None, command: None },
                            line,
                        ),
                    ),
                },
            ),
        },
{
    reveal_strlit("[[ignore]]");
    reveal_strlit("[[allow]]");
    reveal_strlit("[[");
    reveal_strlit("]]");
    reveal_strlit("ignore");
    reveal_strlit("allow");
    let raw = if ignore {
        "[[ignore]]"@
    } else {
        "[[allow]]"@
    };
    let name = if ignore {
        "ignore"@
    } else {
        "allow"@
    };
    lemma_trimmed(raw);
    assert(raw =~= "[["@ + (name + "]]"@));
    text_laws::law_affixes(raw, "[["@, name + "]]"@);
    text_laws::law_affixes(name + "]]"@, "]]"@, name);
    lemma_trimmed(name);
    assert("ignore"@.len() != "allow"@.len());
}

/// The draft after one line, where the line stands at `at` in a list of lines.
proof fn lemma_next(lines: Seq<Seq<char>>, at: int, draft: DraftView)
    requires
        0 <= at < lines.len(),
        config::after_lines(lines, at as nat) == Ok::<DraftView, ParseErrorView>(draft),
    ensures
        config::after_lines(lines, (at + 1) as nat) == config::with_line(
            draft,
            (at + 1) as nat,
            lines[at],
        ),
{
}

/// The draft after the lines of one field, which may be none.
proof fn lemma_field(
    lines: Seq<Seq<char>>,
    at: int,
    draft: DraftView,
    key: Seq<char>,
    pattern: Option<Seq<char>>,
    table: Table,
    rule: RuleView,
    start: nat,
    next: RuleView,
)
    requires
        is_key(key),
        0 <= at,
        at + field_lines(key, pattern).len() <= lines.len(),
        lines.subrange(at, at + field_lines(key, pattern).len()) == field_lines(key, pattern),
        config::after_lines(lines, at as nat) == Ok::<DraftView, ParseErrorView>(draft),
        draft.open == Some((table, rule, start)),
        pattern is None ==> next == rule,
        pattern matches Some(p) ==> config::pattern_error(p) is None && config::with_field(
            rule,
            (at + 1) as nat,
            key,
            p,
            None,
        ) == Ok::<RuleView, ParseErrorView>(next),
    ensures
        config::after_lines(lines, (at + field_lines(key, pattern).len()) as nat) == Ok::<
            DraftView,
            ParseErrorView,
        >(DraftView { config: draft.config, open: Some((table, next, start)) }),
{
    match pattern {
        Some(p) => {
            assert(lines.subrange(at, at + 1)[0] == lines[at]);
            lemma_next(lines, at, draft);
            lemma_field_line(draft, (at + 1) as nat, key, p);
        },
        None => {},
    }
}

proof fn lemma_entry(lines: Seq<Seq<char>>, at: int, draft: DraftView, entry: Entry, config: ConfigView)
    requires
        usable(entry.rule),
        0 <= at,
        at + entry_lines(entry).len() <= lines.len(),
        lines.subrange(at, at + entry_lines(entry).len()) == entry_lines(entry),
        config::after_lines(lines, at as nat) == Ok::<DraftView, ParseErrorView>(draft),
        config::closed(draft) == Ok::<ConfigView, ParseErrorView>(config),
    ensures
        config::after_lines(lines, (at + entry_lines(entry).len()) as nat) matches Ok(end)
            && end.config == config && (end.open matches Some((table, rule, _)) && rule
            == entry.rule && (table is Ignore <==> entry.ignore)),
{
    let all = entry_lines(entry);
    let part = lines.subrange(at, at + all.len());
    let rule = entry.rule;
    let first = field_lines("app_id"@, rule.app_id);
    let second = field_lines("title"@, rule.title);
    let third = field_lines("command"@, rule.command);
    let table = if entry.ignore {
        Table::Ignore
    } else {
        Table::Allow
    };
    let r0 = RuleView { app_id: None, title: None, command: None };
    let r1 = RuleView { app_id: rule.app_id, ..r0 };
    let r2 = RuleView { title: rule.title, ..r1 };
    let start = (at + 1) as nat;
    let d0 = DraftView { config, open: Some((table, r0, start)) };
    let d1 = DraftView { config, open: Some((table, r1, start)) };
    let d2 = DraftView { config, open: Some((table, r2, start)) };
    lemma_keys();
    assert(part[0] == lines[at]);
    lemma_next(lines, at, draft);
    lemma_header_line(draft, start, entry.ignore);
    let a1 = at + 1;
    assert(lines.subrange(a1, a1 + first.len()) =~= first) by {
        assert(first =~= all.subrange(1, 1int + first.len()));
        assert(lines.subrange(a1, a1 + first.len()) =~= part.subrange(1, 1int + first.len()));
    }
    lemma_field(lines, a1, d0, "app_id"@, rule.app_id, table, r0, start, r1);
    let a2 = a1 + first.len();
    assert(lines.subrange(a2, a2 + second.len()) =~= second) by {
        assert(second =~= all.subrange(1int + first.len(), 1int + first.len() + second.len()));
        assert(lines.subrange(a2, a2 + second.len()) =~= part.subrange(
            1int + first.len(),
            1int + first.len() + second.len(),
        ));
    }
    lemma_field(lines, a2, d1, "title"@, rule.title, table, r1, start, r2);
    let a3 = a2 + second.len();
    assert(lines.subrange(a3, a3 + third.len()) =~= third) by {
        let from = 1int + first.len() + second.len();
        assert(third =~= all.subrange(from, from + third.len()));
        assert(lines.subrange(a3, a3 + third.len()) =~= part.subrange(from, from + third.len()));
    }
    lemma_field(lines, a3, d2, "command"@, rule.command, table, r2, start, rule);
}

proof fn lemma_entries(lines: Seq<Seq<char>>, entries: Seq<Entry>, count: int)
    requires
        lines == entries_lines(entries),
        0 <= count <= entries.len(),
        forall|i: int| 0 <= i < entries.len() ==> usable((#[trigger] entries[i]).rule),
    ensures
        entries_lines(entries.take(count)).is_prefix_of(lines),
        config::after_lines(lines, entries_lines(entries.take(count)).len()) matches Ok(draft)
            && config::closed(draft) == Ok::<ConfigView, ParseErrorView>(
            ConfigView {
                ignore: listed(entries.take(count), true),
                allow: listed(entries.take(count), false),
            },
        ),
    decreases count,
{
    lemma_entries_prefix(entries, count);
    if count == 0 {
        assert(entries.take(0) =~= Seq::empty());
        assert(listed(entries.take(0), true) =~= Seq::empty());
        assert(listed(entries.take(0), false) =~= Seq::empty());
        assert(entries_lines(entries.take(0)) =~= Seq::empty());
    } else {
        lemma_entries(lines, entries, count - 1);
        lemma_entries_prefix(entries, count - 1);
        let before = entries.take(count - 1);
        let entry = entries[count - 1];
        let upto = entries.take(count);
        assert(upto.drop_last() =~= before);
        assert(upto.last() == entry);
        let at = entries_lines(before).len() as int;
        let draft = config::after_lines(lines, at as nat)->Ok_0;
        let config = ConfigView { ignore: listed(before, true), allow: listed(before, false) };
        let all = entry_lines(entry);
        assert(lines.subrange(at, at + all.len()) =~= all) by {
            assert(entries_lines(upto) =~= lines.take(at + all.len()));
            assert(all =~= entries_lines(upto).subrange(at, at + all.len()));
            assert(lines.subrange(at, at + all.len()) =~= lines.take(at + all.len()).subrange(
                at,
                at + all.len(),
            ));
        }
        lemma_entry(lines, at, draft, entry, config);
        assert(entry.rule != RuleView { app_id: None, title: None, command: None });
    }
}

proof fn lemma_entries_prefix(entries: Seq<Entry>, count: int)
    requires
        0 <= count <= entries.len(),
    ensures
        entries_lines(entries.take(count)).is_prefix_of(entries_lines(entries)),
    decreases entries.len() - count,
{
    if count == entries.len() {
        assert(entries.take(count) =~= entries);
    } else {
        lemma_entries_prefix(entries, count + 1);
        assert(entries.take(count + 1).drop_last() =~= entries.take(count));
        let a = entries_lines(entries.take(count));
        let b = entries_lines(entries.take(count + 1));
        assert(a.is_prefix_of(b));
        assert(a =~= entries_lines(entries).take(a.len() as int)) by {
            assert forall|i: int| 0 <= i < a.len() implies a[i] == entries_lines(entries)[i] by {
                assert(a[i] == b[i]);
            }
        }
    }
}

// Lines as a text

/// Whether a line can stand in a text as it is.
spec fn plain(line: Seq<char>) -> bool {
    !line.contains('\n') && !(line.len() > 0 && line.last() == '\r')
}

proof fn lemma_lines_of(lines: Seq<Seq<char>>)
    requires
        forall|i: int| 0 <= i < lines.len() ==> plain(#[trigger] lines[i]),
    ensures
        text::lines_of(text_of_lines(lines)) == lines,
    decreases lines.len(),
{
    if lines.len() == 0 {
        assert(lines =~= Seq::empty());
    } else {
        let rest = lines.drop_first();
        assert forall|i: int| 0 <= i < rest.len() implies plain(#[trigger] rest[i]) by {
            assert(rest[i] == lines[i + 1]);
        }
        lemma_lines_of(rest);
        assert(plain(lines[0]));
        text_laws::law_lines(lines[0], text_of_lines(rest));
        assert(seq![lines[0]] + rest =~= lines);
    }
}

proof fn lemma_char_plain(c: char, i: int)
    requires
        0 <= i < toml::written_char(c).len(),
    ensures
        toml::written_char(c)[i] != '\n',
{
    if toml::is_control(c) {
        assert(0 <= c as int / 16 < 16 && 0 <= c as int % 16 < 16);
    }
}

proof fn lemma_written_plain(s: Seq<char>)
    ensures
        !toml::written(s).contains('\n'),
    decreases s.len(),
{
    if s.len() > 0 {
        lemma_written_plain(s.skip(1));
        let first = toml::written_char(s[0]);
        let rest = toml::written(s.skip(1));
        assert forall|i: int| 0 <= i < (first + rest).len() implies (first + rest)[i] != '\n' by {
            if i >= first.len() {
                assert(rest.contains(rest[i - first.len()]));
            } else {
                lemma_char_plain(s[0], i);
            }
        }
    }
}

proof fn lemma_field_plain(key: Seq<char>, pattern: Seq<char>)
    requires
        is_key(key),
    ensures
        plain(field_line(key, pattern)),
{
    reveal_strlit("app_id");
    reveal_strlit("title");
    reveal_strlit("command");
    reveal_strlit(" = \"");
    reveal_strlit("\"");
    lemma_written_plain(pattern);
    let written = toml::written(pattern);
    let line = field_line(key, pattern);
    assert forall|i: int| 0 <= i < line.len() implies line[i] != '\n' by {
        let from = key.len() + 4;
        if from <= i < from + written.len() {
            assert(line[i] == written[i - from]);
            assert(written.contains(written[i - from]));
        }
    }
}

proof fn lemma_entry_plain(entry: Entry, i: int)
    requires
        0 <= i < entry_lines(entry).len(),
    ensures
        plain(entry_lines(entry)[i]),
{
    reveal_strlit("[[ignore]]");
    reveal_strlit("[[allow]]");
    let rule = entry.rule;
    if let Some(p) = rule.app_id {
        lemma_field_plain("app_id"@, p);
    }
    if let Some(p) = rule.title {
        lemma_field_plain("title"@, p);
    }
    if let Some(p) = rule.command {
        lemma_field_plain("command"@, p);
    }
    assert(forall|j: int| 0 <= j < "[[ignore]]"@.len() ==> "[[ignore]]"@[j] != '\n');
    assert(forall|j: int| 0 <= j < "[[allow]]"@.len() ==> "[[allow]]"@[j] != '\n');
}

proof fn lemma_entries_plain(entries: Seq<Entry>, i: int)
    requires
        0 <= i < entries_lines(entries).len(),
    ensures
        plain(entries_lines(entries)[i]),
    decreases entries.len(),
{
    let before = entries_lines(entries.drop_last());
    if i < before.len() {
        lemma_entries_plain(entries.drop_last(), i);
    } else {
        lemma_entry_plain(entries.last(), i - before.len());
    }
}

/// A configuration is read as it was written: each rule with exactly the fields that were set, each
/// with its own pattern, in the list that its header names, in order.
pub proof fn law_configuration_reads_back(entries: Seq<Entry>)
    requires
        forall|i: int| 0 <= i < entries.len() ==> usable((#[trigger] entries[i]).rule),
    ensures
        config::parsed(text_of_lines(entries_lines(entries))) == Ok::<ConfigView, ParseErrorView>(
            ConfigView { ignore: listed(entries, true), allow: listed(entries, false) },
        ),
{
    let lines = entries_lines(entries);
    assert forall|i: int| 0 <= i < lines.len() implies plain(#[trigger] lines[i]) by {
        lemma_entries_plain(entries, i);
    }
    lemma_lines_of(lines);
    lemma_entries(lines, entries, entries.len() as int);
    assert(entries.take(entries.len() as int) =~= entries);
}

// What is refused

/// A complaint about a line.
pub open spec fn refused(line: nat, message: Seq<char>) -> Result<DraftView, ParseErrorView> {
    Err(ParseErrorView { line, message })
}

/// A line that cannot be read is refused, with its number and the reason, whatever was read before;
/// an empty one is passed over.
pub proof fn law_refused_lines(draft: DraftView, line: nat, raw: Seq<char>, name: Seq<char>)
    ensures
        ({
            let content = text::trimmed(raw);
            let read = config::with_line(draft, line, raw);
            let header = content == "[["@ + name + "]]"@;
            let trimmed = text::trimmed(name);
            &&& content.len() == 0 ==> read == Ok::<DraftView, ParseErrorView>(draft)
            &&& header && trimmed != "ignore"@ && trimmed != "allow"@ ==> read == refused(
                line,
                "unknown table [["@ + trimmed + "]]"@,
            )
            &&& content.len() > 0 && !"[["@.is_prefix_of(content) && !content.contains('=')
                ==> read == refused(line, "expected a key = \"value\" pair"@)
            &&& !"[["@.is_prefix_of(content) && content.contains('=') && draft.open is None
                ==> read == refused(line, "a rule has to start with [[ignore]] or [[allow]]"@)
        }),
{
    let content = text::trimmed(raw);
    if content == "[["@ + name + "]]"@ {
        reveal_strlit("[[");
        assert(content =~= "[["@ + (name + "]]"@));
        text_laws::law_affixes(content, "[["@, name + "]]"@);
        text_laws::law_affixes(name + "]]"@, "]]"@, name);
    }
}

/// A field takes its pattern once: a pattern that is no regular expression is refused, with the error
/// that the `regex` crate has for it; so are a field that no rule has, and one that is set already.
/// The other fields stay as they are.
pub proof fn law_setting_a_field(
    rule: RuleView,
    line: nat,
    key: Seq<char>,
    pattern: Seq<char>,
    error: Option<Seq<char>>,
)
    ensures
        ({
            let set = config::with_field(rule, line, key, pattern, error);
            let twice = Err::<RuleView, ParseErrorView>(
                ParseErrorView { line, message: "'"@ + key + "' is set twice"@ },
            );
            &&& error matches Some(e) ==> set == Err::<RuleView, ParseErrorView>(
                ParseErrorView { line, message: "bad pattern: "@ + e },
            )
            &&& error is None && key == "app_id"@ ==> set == if rule.app_id is Some {
                twice
            } else {
                Ok(
                    RuleView {
                        app_id: Some(pattern),
                        title: rule.title,
                        command: rule.command,
                    },
                )
            }
            &&& error is None && key == "title"@ ==> set == if rule.title is Some {
                twice
            } else {
                Ok(
                    RuleView {
                        app_id: rule.app_id,
                        title: Some(pattern),
                        command: rule.command,
                    },
                )
            }
            &&& error is None && key == "command"@ ==> set == if rule.command is Some {
                twice
            } else {
                Ok(
                    RuleView {
                        app_id: rule.app_id,
                        title: rule.title,
                        command: Some(pattern),
                    },
                )
            }
            &&& error is None && key != "app_id"@ && key != "title"@ && key != "command"@ ==> set
                == Err::<RuleView, ParseErrorView>(
                ParseErrorView { line, message: "unknown field '"@ + key + "'"@ },
            )
        }),
{
    lemma_keys();
}

/// What is wrong with the first lines of a text is what is wrong with the text, whatever follows.
pub proof fn law_first_error_counts(lines: Seq<Seq<char>>, count: nat, text: Seq<char>)
    requires
        count <= lines.len(),
        lines == text::lines_of(text),
    ensures
        config::after_lines(lines, count) matches Err(e) ==> config::parsed(text) == Err::<
            ConfigView,
            ParseErrorView,
        >(e),
    decreases lines.len() - count,
{
    if count < lines.len() && config::after_lines(lines, count) is Err {
        law_first_error_counts(lines, count + 1, text);
    }
}

/// A value has to be a TOML string, without the white space around it; and if it is one, the field
/// that stands before the first `=` takes what it stands for, and nothing else changes.
pub proof fn law_values_are_strings(
    draft: DraftView,
    line: nat,
    key: Seq<char>,
    value: Seq<char>,
    table: Table,
    rule: RuleView,
    start: nat,
)
    requires
        draft.open == Some((table, rule, start)),
        !key.contains('='),
        text::trimmed(key + seq!['='] + value) == key + seq!['='] + value,
        !"[["@.is_prefix_of(key + seq!['='] + value),
    ensures
        ({
            let read = config::with_line(draft, line, key + seq!['='] + value);
            match toml::unquoted(text::trimmed(value)) {
                None => read == refused(line, "value is not a quoted string"@),
                Some(pattern) => match config::with_field(
                    rule,
                    line,
                    text::trimmed(key),
                    pattern,
                    config::pattern_error(pattern),
                ) {
                    Err(e) => read == Err::<DraftView, ParseErrorView>(e),
                    Ok(rule) => read == Ok::<DraftView, ParseErrorView>(
                        DraftView { config: draft.config, open: Some((table, rule, start)) },
                    ),
                },
            }
        }),
{
    let content = key + seq!['='] + value;
    reveal_strlit("[[");
    text::lemma_position(content, '=');
    let at = text::position(content, '=');
    assert(content[key.len() as int] == '=');
    assert(at == key.len()) by {
        if at < key.len() {
            assert(key[at] == content[at]);
            assert(key.contains('='));
        }
    }
    assert(content.take(at) =~= key);
    assert(content.skip(at + 1) =~= value);
}

/// A complaint has the number of the line that it is about, counted from one: where all lines before
/// it could be read, and a line is neither empty nor a header nor a pair, the text is refused for it.
pub proof fn law_errors_have_line_numbers(text: Seq<char>, k: int)
    requires
        0 <= k < text::lines_of(text).len(),
        config::after_lines(text::lines_of(text), k as nat) is Ok,
        text::trimmed(text::lines_of(text)[k]).len() > 0,
        !"[["@.is_prefix_of(text::trimmed(text::lines_of(text)[k])),
        !text::trimmed(text::lines_of(text)[k]).contains('='),
    ensures
        config::parsed(text) == Err::<ConfigView, ParseErrorView>(
            ParseErrorView {
                line: (k + 1) as nat,
                message: "expected a key = \"value\" pair"@,
            },
        ),
{
    let lines = text::lines_of(text);
    let draft = config::after_lines(lines, k as nat)->Ok_0;
    law_refused_lines(draft, (k + 1) as nat, lines[k], Seq::empty());
    assert(config::after_lines(lines, (k + 1) as nat) == config::with_line(
        draft,
        (k + 1) as nat,
        lines[k],
    ));
    law_first_error_counts(lines, (k + 1) as nat, text);
}

/// Whether a line is a header of a rule.
pub open spec fn begins_rule(line: Seq<char>) -> bool {
    text::trimmed(line) == "[[ignore]]"@ || text::trimmed(line) == "[[allow]]"@
}

proof fn lemma_begins_rule(draft: DraftView, line: nat, raw: Seq<char>)
    requires
        begins_rule(raw),
    ensures
        match config::closed(draft) {
            Err(e) => config::with_line(draft, line, raw) == Err::<DraftView, ParseErrorView>(e),
            Ok(config) => {
                &&& config::with_line(draft, line, raw) matches Ok(read)
                &&& read.config == config
                &&& read.open matches Some((_, rule, start))
                &&& start == line
                &&& rule == config::no_fields()
            },
        },
{
    reveal_strlit("[[ignore]]");
    reveal_strlit("[[allow]]");
    reveal_strlit("[[");
    reveal_strlit("]]");
    reveal_strlit("ignore");
    reveal_strlit("allow");
    let content = text::trimmed(raw);
    let name = if content == "[[ignore]]"@ {
        "ignore"@
    } else {
        "allow"@
    };
    assert(content =~= "[["@ + (name + "]]"@));
    text_laws::law_affixes(content, "[["@, name + "]]"@);
    text_laws::law_affixes(name + "]]"@, "]]"@, name);
    assert(config::header_name(content) == Some(name));
    assert(name.len() > 0 && !text::is_white_space(name[0]) && !text::is_white_space(name.last()));
    assert(text::trimmed(name) == name);
}

proof fn lemma_blank_lines(lines: Seq<Seq<char>>, k: int, j: int)
    requires
        0 <= k <= j <= lines.len(),
        forall|i: int| k <= i < j ==> text::trimmed(#[trigger] lines[i]).len() == 0,
    ensures
        config::after_lines(lines, j as nat) == config::after_lines(lines, k as nat),
    decreases j - k,
{
    if k < j {
        lemma_blank_lines(lines, k, j - 1);
        assert(text::trimmed(lines[j - 1]).len() == 0);
    }
}

/// A rule needs a field: where a header is followed by nothing but empty lines up to the next header
/// or the end, the text is refused with the number of the line of the header.
pub proof fn law_rules_need_a_field(text: Seq<char>, k: int, j: int)
    requires
        0 <= k < j <= text::lines_of(text).len(),
        config::after_lines(text::lines_of(text), (k + 1) as nat) is Ok,
        begins_rule(text::lines_of(text)[k]),
        forall|i: int|
            k < i < j ==> text::trimmed(#[trigger] text::lines_of(text)[i]).len() == 0,
        j < text::lines_of(text).len() ==> begins_rule(text::lines_of(text)[j]),
    ensures
        config::parsed(text) == Err::<ConfigView, ParseErrorView>(
            ParseErrorView {
                line: (k + 1) as nat,
                message: "rule has no app_id, title or command to match on"@,
            },
        ),
{
    let lines = text::lines_of(text);
    let before = config::after_lines(lines, k as nat)->Ok_0;
    assert(config::after_lines(lines, (k + 1) as nat) == config::with_line(
        before,
        (k + 1) as nat,
        lines[k],
    ));
    lemma_begins_rule(before, (k + 1) as nat, lines[k]);
    lemma_blank_lines(lines, k + 1, j);
    let draft = config::after_lines(lines, j as nat)->Ok_0;
    if j < lines.len() {
        lemma_begins_rule(draft, (j + 1) as nat, lines[j]);
        assert(config::after_lines(lines, (j + 1) as nat) == config::with_line(
            draft,
            (j + 1) as nat,
            lines[j],
        ));
        law_first_error_counts(lines, (j + 1) as nat, text);
    }
}

} // verus!

//! Rules to determine which windows to save to the session.

use crate::path;
use crate::text;
use crate::toml;
pub use crate::toml::unquote;
use vstd::prelude::*;

verus! {

/// What the `regex` crate finds wrong with a pattern: its message, or nothing where the pattern is
/// a regular expression that it can compile.
pub uninterp spec fn pattern_error(pattern: Seq<char>) -> Option<Seq<char>>;

/// Whether a regular expression matches anywhere in a text, for a pattern that is one.
pub uninterp spec fn pattern_matches(pattern: Seq<char>, text: Seq<char>) -> Option<bool>;

/// `regex::Regex::new` on `pattern`, and the message of the `regex::Error` that it may return.
/// Both depend on the pattern alone.
#[verifier::external_body]
fn compile(pattern: &str) -> (error: Option<String>)
    ensures
        match pattern_error(pattern@) {
            Some(message) => error matches Some(found) && found@ == message,
            None => error is None,
        },
{
    match regex::Regex::new(pattern) {
        Ok(_) => None,
        Err(error) => Some(error.to_string()),
    }
}

/// `regex::Regex::is_match` on `text`, of the regular expression that `regex::Regex::new` makes of
/// `pattern`; nothing where it makes none, which is where it reports an error. The outcome depends
/// on the pattern and the text alone.
#[verifier::external_body]
fn is_match(pattern: &str, text: &str) -> (found: Option<bool>)
    ensures
        found == pattern_matches(pattern@, text@),
        found is Some <==> pattern_error(pattern@) is None,
{
    match regex::Regex::new(pattern) {
        Ok(regex) => Some(regex.is_match(text)),
        Err(_) => None,
    }
}

/// What a window has to match, each as a regular expression
#[derive(Debug)]
pub struct Rule {
    pub app_id: Option<String>,
    pub title: Option<String>,
    pub command: Option<String>,
}

/// What a [`Rule`] holds.
#[verifier::ext_equal]
pub struct RuleView {
    pub app_id: Option<Seq<char>>,
    pub title: Option<Seq<char>>,
    pub command: Option<Seq<char>>,
}

impl View for Rule {
    type V = RuleView;

    open spec fn view(&self) -> RuleView {
        RuleView {
            app_id: text::option_view(self.app_id),
            title: text::option_view(self.title),
            command: text::option_view(self.command),
        }
    }
}

/// What each rule of `rules` holds.
pub open spec fn rules_view(rules: Seq<Rule>) -> Seq<RuleView> {
    rules.map_values(|rule: Rule| rule@)
}

/// The rules for the windows that are not saved, and for those that are saved all the same
#[derive(Debug)]
pub struct Config {
    ignore: Vec<Rule>,
    allow: Vec<Rule>,
}

/// What a [`Config`] holds.
#[verifier::ext_equal]
pub struct ConfigView {
    pub ignore: Seq<RuleView>,
    pub allow: Seq<RuleView>,
}

impl View for Config {
    type V = ConfigView;

    closed spec fn view(&self) -> ConfigView {
        ConfigView { ignore: rules_view(self.ignore@), allow: rules_view(self.allow@) }
    }
}

/// A configuration without rules.
pub open spec fn no_rules() -> ConfigView {
    ConfigView { ignore: Seq::empty(), allow: Seq::empty() }
}

impl Default for Config {
    fn default() -> (config: Self)
        ensures
            config@ == no_rules(),
    {
        let config = Config { ignore: Vec::new(), allow: Vec::new() };
        assert(config@ =~= no_rules());
        config
    }
}

// Which windows are skipped

/// Whether a field of a rule, if it is there, matches what a window has.
pub open spec fn field_matches(pattern: Option<Seq<char>>, text: Seq<char>) -> bool {
    pattern matches Some(pattern) ==> pattern_matches(pattern, text) == Some(true)
}

/// Whether each field that a rule has matches.
pub open spec fn rule_matches(
    rule: RuleView,
    app_id: Seq<char>,
    title: Seq<char>,
    command: Seq<char>,
) -> bool {
    &&& field_matches(rule.app_id, app_id)
    &&& field_matches(rule.title, title)
    &&& field_matches(rule.command, command)
}

/// Whether some rule of a list matches.
pub open spec fn any_matches(
    rules: Seq<RuleView>,
    app_id: Seq<char>,
    title: Seq<char>,
    command: Seq<char>,
) -> bool {
    exists|i: int|
        0 <= i < rules.len() && rule_matches(#[trigger] rules[i], app_id, title, command)
}

/// Whether a window is left out: some rule says to ignore it, and none to allow it.
pub open spec fn skipped(
    config: ConfigView,
    app_id: Seq<char>,
    title: Seq<char>,
    command: Seq<char>,
) -> bool {
    any_matches(config.ignore, app_id, title, command) && !any_matches(
        config.allow,
        app_id,
        title,
        command,
    )
}

/// Whether a rule matches, given for each of its fields whether that one does; a field that the
/// rule does not have is none.
pub fn fields_match(app_id: Option<bool>, title: Option<bool>, command: Option<bool>) -> (b: bool)
    ensures
        b <==> app_id != Some(false) && title != Some(false) && command != Some(false),
{
    app_id.unwrap_or(true) && title.unwrap_or(true) && command.unwrap_or(true)
}

/// Whether a window is left out, given whether a rule says to ignore it and one to allow it.
pub fn leaves_out(ignored: bool, allowed: bool) -> (b: bool)
    ensures
        b <==> ignored && !allowed,
{
    ignored && !allowed
}

fn match_field(pattern: &Option<String>, text: &str) -> (found: Option<bool>)
    ensures
        found is Some <==> pattern is Some,
        found != Some(false) <==> field_matches(text::option_view(*pattern), text@),
{
    match pattern {
        Some(pattern) => Some(is_match(pattern.as_str(), text).unwrap_or(false)),
        None => None,
    }
}

impl Rule {
    /// Whether each field that the rule has matches
    pub fn matches(&self, app_id: &str, title: &str, command: &str) -> (b: bool)
        ensures
            b == rule_matches(self@, app_id@, title@, command@),
    {
        fields_match(
            match_field(&self.app_id, app_id),
            match_field(&self.title, title),
            match_field(&self.command, command),
        )
    }
}

fn any(rules: &Vec<Rule>, app_id: &str, title: &str, command: &str) -> (b: bool)
    ensures
        b == any_matches(rules_view(rules@), app_id@, title@, command@),
{
    let ghost views = rules_view(rules@);
    for i in 0..rules.len()
        invariant
            views == rules_view(rules@),
            forall|j: int|
                0 <= j < i ==> !rule_matches(#[trigger] views[j], app_id@, title@, command@),
    {
        if rules[i].matches(app_id, title, command) {
            assert(rule_matches(views[i as int], app_id@, title@, command@));
            return true;
        }
    }
    false
}

impl Config {
    /// Whether a window should be ignored or allowed
    pub fn skips(&self, app_id: &str, title: &str, command: &str) -> (b: bool)
        ensures
            b == skipped(self@, app_id@, title@, command@),
    {
        leaves_out(
            any(&self.ignore, app_id, title, command),
            any(&self.allow, app_id, title, command),
        )
    }
}

// Reading the configuration

/// What is wrong with a configuration, and on which line
#[derive(Debug)]
pub struct ParseError {
    line: usize,
    message: String,
}

/// What a [`ParseError`] holds.
#[verifier::ext_equal]
pub struct ParseErrorView {
    pub line: nat,
    pub message: Seq<char>,
}

impl View for ParseError {
    type V = ParseErrorView;

    closed spec fn view(&self) -> ParseErrorView {
        ParseErrorView { line: self.line as nat, message: self.message@ }
    }
}

impl ParseError {
    fn at(line: usize, message: String) -> (error: Self)
        ensures
            error@ == (ParseErrorView { line: line as nat, message: message@ }),
    {
        ParseError { line, message }
    }

    /// The error as a line of text
    pub fn message(&self) -> (message: String)
        ensures
            message@ == "line "@ + text::decimal(self@.line as int) + ": "@ + self@.message,
    {
        let mut message = String::new();
        message.append("line ");
        text::push_nat(&mut message, self.line as u64);
        message.append(": ");
        message.append(self.message.as_str());
        assert(message@ =~= "line "@ + text::decimal(self@.line as int) + ": "@ + self@.message);
        message
    }
}

/// The list that a rule goes to
#[derive(Debug, Clone, Copy)]
pub enum Table {
    Ignore,
    Allow,
}

/// What was read of a configuration so far: the rules that are complete, and the one that is not,
/// with the list that it goes to and the line that it began on.
#[verifier::ext_equal]
pub struct DraftView {
    pub config: ConfigView,
    pub open: Option<(Table, RuleView, nat)>,
}

/// A rule without fields.
pub open spec fn no_fields() -> RuleView {
    RuleView { app_id: None, title: None, command: None }
}

/// The rules, once the rule that is not complete is taken to be so.
pub open spec fn closed(draft: DraftView) -> Result<ConfigView, ParseErrorView> {
    match draft.open {
        None => Ok(draft.config),
        Some((table, rule, line)) => if rule == no_fields() {
            Err(
                ParseErrorView {
                    line,
                    message: "rule has no app_id, title or command to match on"@,
                },
            )
        } else {
            match table {
                Table::Ignore => Ok(
                    ConfigView {
                        ignore: draft.config.ignore.push(rule),
                        allow: draft.config.allow,
                    },
                ),
                Table::Allow => Ok(
                    ConfigView {
                        ignore: draft.config.ignore,
                        allow: draft.config.allow.push(rule),
                    },
                ),
            }
        },
    }
}

/// What stands between `[[` and `]]`.
pub open spec fn header_name(line: Seq<char>) -> Option<Seq<char>> {
    match text::without_prefix(line, "[["@) {
        Some(rest) => text::without_suffix(rest, "]]"@),
        None => None,
    }
}

/// The list that a header names.
pub open spec fn table_of(name: Seq<char>) -> Option<Table> {
    if name == "ignore"@ {
        Some(Table::Ignore)
    } else if name == "allow"@ {
        Some(Table::Allow)
    } else {
        None
    }
}

/// The complaint that a field is set twice.
pub open spec fn set_twice(line: nat, key: Seq<char>) -> ParseErrorView {
    ParseErrorView { line, message: "'"@ + key + "' is set twice"@ }
}

/// A rule with one more field, given what is wrong with the pattern for it, if anything is.
pub open spec fn with_field(
    rule: RuleView,
    line: nat,
    key: Seq<char>,
    pattern: Seq<char>,
    error: Option<Seq<char>>,
) -> Result<RuleView, ParseErrorView> {
    if error is Some {
        Err(ParseErrorView { line, message: "bad pattern: "@ + error->0 })
    } else if key == "app_id"@ {
        if rule.app_id is Some {
            Err(set_twice(line, key))
        } else {
            Ok(RuleView { app_id: Some(pattern), ..rule })
        }
    } else if key == "title"@ {
        if rule.title is Some {
            Err(set_twice(line, key))
        } else {
            Ok(RuleView { title: Some(pattern), ..rule })
        }
    } else if key == "command"@ {
        if rule.command is Some {
            Err(set_twice(line, key))
        } else {
            Ok(RuleView { command: Some(pattern), ..rule })
        }
    } else {
        Err(ParseErrorView { line, message: "unknown field '"@ + key + "'"@ })
    }
}

/// What was read of a configuration, with the header `[[name]]` added to it.
pub open spec fn with_header(draft: DraftView, line: nat, name: Seq<char>) -> Result<
    DraftView,
    ParseErrorView,
> {
    match table_of(name) {
        None => Err(ParseErrorView { line, message: "unknown table [["@ + name + "]]"@ }),
        Some(table) => match closed(draft) {
            Err(e) => Err(e),
            Ok(config) => Ok(DraftView { config, open: Some((table, no_fields(), line)) }),
        },
    }
}

/// What was read of a configuration, with a line that is no header and not empty added to it.
pub open spec fn with_pair(draft: DraftView, line: nat, content: Seq<char>) -> Result<
    DraftView,
    ParseErrorView,
> {
    match text::split_at_first(content, '=') {
        None => Err(ParseErrorView { line, message: "expected a key = \"value\" pair"@ }),
        Some((key, value)) => match draft.open {
            None => Err(
                ParseErrorView {
                    line,
                    message: "a rule has to start with [[ignore]] or [[allow]]"@,
                },
            ),
            Some((table, rule, start)) => match toml::unquoted(text::trimmed(value)) {
                None => Err(ParseErrorView { line, message: "value is not a quoted string"@ }),
                Some(pattern) => match with_field(
                    rule,
                    line,
                    text::trimmed(key),
                    pattern,
                    pattern_error(pattern),
                ) {
                    Err(e) => Err(e),
                    Ok(rule) => Ok(
                        DraftView { config: draft.config, open: Some((table, rule, start)) },
                    ),
                },
            },
        },
    }
}

/// What was read of a configuration, with one more line added to it.
pub open spec fn with_line(draft: DraftView, line: nat, raw: Seq<char>) -> Result<
    DraftView,
    ParseErrorView,
> {
    let content = text::trimmed(raw);
    if content.len() == 0 {
        Ok(draft)
    } else {
        match header_name(content) {
            Some(name) => with_header(draft, line, text::trimmed(name)),
            None => with_pair(draft, line, content),
        }
    }
}

/// What was read of a configuration after its first `count` lines.
pub open spec fn after_lines(lines: Seq<Seq<char>>, count: nat) -> Result<DraftView, ParseErrorView>
    decreases count,
{
    if count == 0 {
        Ok(DraftView { config: no_rules(), open: None })
    } else {
        match after_lines(lines, (count - 1) as nat) {
            Err(e) => Err(e),
            Ok(draft) => with_line(draft, count, lines[count - 1]),
        }
    }
}

/// The rules that a text holds.
pub open spec fn parsed(text: Seq<char>) -> Result<ConfigView, ParseErrorView> {
    let lines = text::lines_of(text);
    match after_lines(lines, lines.len()) {
        Err(e) => Err(e),
        Ok(draft) => closed(draft),
    }
}

fn complain(line: usize, before: &str, about: &str, behind: &str) -> (error: ParseError)
    ensures
        error@ == (ParseErrorView { line: line as nat, message: before@ + about@ + behind@ }),
{
    let mut message = String::new();
    message.append(before);
    message.append(about);
    message.append(behind);
    assert(message@ =~= before@ + about@ + behind@);
    ParseError::at(line, message)
}

impl Rule {
    fn new() -> (rule: Rule)
        ensures
            rule@ == no_fields(),
    {
        Rule { app_id: None, title: None, command: None }
    }

    /// Adds a field to the rule, given what is wrong with the pattern for it, if anything is
    pub fn set(self, line: usize, key: &str, pattern: String, error: Option<String>) -> (res: Result<
        Rule,
        ParseError,
    >)
        ensures
            match with_field(self@, line as nat, key@, pattern@, text::option_view(error)) {
                Ok(rule) => res matches Ok(found) && found@ == rule,
                Err(e) => res matches Err(found) && found@ == e,
            },
    {
        if let Some(error) = error {
            let complaint = complain(line, "bad pattern: ", error.as_str(), "");
            proof {
                reveal_strlit("");
                assert(complaint@.message =~= "bad pattern: "@ + error@);
            }
            return Err(complaint);
        }
        let mut rule = self;
        let twice;
        if text::same(key, "app_id") {
            twice = rule.app_id.is_some();
            rule.app_id = Some(pattern);
        } else if text::same(key, "title") {
            twice = rule.title.is_some();
            rule.title = Some(pattern);
        } else if text::same(key, "command") {
            twice = rule.command.is_some();
            rule.command = Some(pattern);
        } else {
            return Err(complain(line, "unknown field '", key, "'"));
        }
        if twice {
            return Err(complain(line, "'", key, "' is set twice"));
        }
        Ok(rule)
    }
}

struct Draft {
    config: Config,
    open: Option<(Table, Rule, usize)>,
}

impl Draft {
    spec fn draft(self) -> DraftView {
        DraftView {
            config: self.config@,
            open: match self.open {
                Some((table, rule, line)) => Some((table, rule@, line as nat)),
                None => None,
            },
        }
    }

    fn close(self) -> (res: Result<Config, ParseError>)
        ensures
            match closed(self.draft()) {
                Ok(config) => res matches Ok(found) && found@ == config,
                Err(e) => res matches Err(found) && found@ == e,
            },
    {
        let Draft { mut config, open } = self;
        let ghost before = config;
        match open {
            None => Ok(config),
            Some((table, rule, line)) => {
                if rule.app_id.is_none() && rule.title.is_none() && rule.command.is_none() {
                    return Err(
                        ParseError::at(
                            line,
                            "rule has no app_id, title or command to match on".to_owned(),
                        ),
                    );
                }
                match table {
                    Table::Ignore => config.ignore.push(rule),
                    Table::Allow => config.allow.push(rule),
                }
                proof {
                    assert(rules_view(before.ignore@.push(rule)) =~= rules_view(
                        before.ignore@,
                    ).push(rule@));
                    assert(rules_view(before.allow@.push(rule)) =~= rules_view(before.allow@).push(
                        rule@,
                    ));
                }
                Ok(config)
            },
        }
    }

    fn header(self, line: usize, name: &str) -> (res: Result<Draft, ParseError>)
        ensures
            match with_header(self.draft(), line as nat, name@) {
                Ok(draft) => res matches Ok(found) && found.draft() == draft,
                Err(e) => res matches Err(found) && found@ == e,
            },
    {
        let table = if text::same(name, "ignore") {
            Table::Ignore
        } else if text::same(name, "allow") {
            Table::Allow
        } else {
            return Err(complain(line, "unknown table [[", name, "]]"));
        };
        match self.close() {
            Ok(config) => Ok(Draft { config, open: Some((table, Rule::new(), line)) }),
            Err(e) => Err(e),
        }
    }

    fn pair(self, line: usize, content: &str) -> (res: Result<Draft, ParseError>)
        ensures
            match with_pair(self.draft(), line as nat, content@) {
                Ok(draft) => res matches Ok(found) && found.draft() == draft,
                Err(e) => res matches Err(found) && found@ == e,
            },
    {
        let (key, value) = match text::split_once(content, '=') {
            Some(parts) => parts,
            None => {
                return Err(ParseError::at(line, "expected a key = \"value\" pair".to_owned()));
            },
        };
        let (table, rule, start) = match self.open {
            Some(open) => open,
            None => {
                return Err(
                    ParseError::at(
                        line,
                        "a rule has to start with [[ignore]] or [[allow]]".to_owned(),
                    ),
                );
            },
        };
        let pattern = match unquote(text::trim(value)) {
            Some(pattern) => pattern,
            None => {
                return Err(ParseError::at(line, "value is not a quoted string".to_owned()));
            },
        };
        let error = compile(pattern.as_str());
        match rule.set(line, text::trim(key), pattern, error) {
            Ok(rule) => Ok(Draft { config: self.config, open: Some((table, rule, start)) }),
            Err(e) => Err(e),
        }
    }

    fn line(self, line: usize, raw: &str) -> (res: Result<Draft, ParseError>)
        ensures
            match with_line(self.draft(), line as nat, raw@) {
                Ok(draft) => res matches Ok(found) && found.draft() == draft,
                Err(e) => res matches Err(found) && found@ == e,
            },
    {
        let content = text::trim(raw);
        if content.is_empty() {
            return Ok(self);
        }
        if let Some(rest) = text::strip_prefix(content, "[[") {
            if let Some(name) = text::strip_suffix(rest, "]]") {
                return self.header(line, text::trim(name));
            }
        }
        self.pair(line, content)
    }
}

proof fn lemma_lines_fail(lines: Seq<Seq<char>>, done: nat, count: nat)
    requires
        done <= count,
        after_lines(lines, done) is Err,
    ensures
        after_lines(lines, count) == after_lines(lines, done),
    decreases count,
{
    if done < count {
        lemma_lines_fail(lines, done, (count - 1) as nat);
    }
}

impl Config {
    /// The rules that `text` holds
    pub fn parse(text: &str) -> (res: Result<Self, ParseError>)
        ensures
            match parsed(text@) {
                Ok(config) => res matches Ok(found) && found@ == config,
                Err(e) => res matches Err(found) && found@ == e,
            },
    {
        let lines = text::lines(text);
        let ghost views = text::lines_of(text@);
        let mut draft = Draft { config: Config::default(), open: None };
        for i in 0..lines.len()
            invariant
                views == text::lines_of(text@),
                views == text::strs_view(lines@),
                after_lines(views, i as nat) == Ok::<DraftView, ParseErrorView>(draft.draft()),
        {
            match draft.line(i + 1, lines[i]) {
                Ok(next) => {
                    draft = next;
                },
                Err(e) => {
                    proof {
                        lemma_lines_fail(views, (i + 1) as nat, views.len());
                    }
                    return Err(e);
                },
            }
        }
        draft.close()
    }
}

/// What came of reading a file
#[derive(Debug)]
pub enum FileText {
    Text(String),
    NotFound,
    /// Why the file could not be read
    Failed(String),
}

/// The path of the configuration file, where `config_home` and `home` are the values of the variables
/// `XDG_CONFIG_HOME` and `HOME` of the environment
pub fn path(config_home: &Option<Vec<u8>>, home: &Option<Vec<u8>>) -> (path: Vec<u8>)
    ensures
        path@ == path::base_joined(
            path::option_view(*config_home),
            path::option_view(*home),
            ".config"@,
            "swaymnesia/config.toml"@,
        ),
{
    path::join_base(config_home, home, ".config", "swaymnesia/config.toml")
}

impl Config {
    /// The configuration, given what came of reading the file at `path`. If the file is not found,
    /// [`Default::default()`] is called.
    pub fn load(path: &str, file: FileText) -> (res: Result<Self, String>)
        ensures
            match file {
                FileText::Text(text) => match parsed(text@) {
                    Ok(config) => res matches Ok(found) && found@ == config,
                    Err(e) => res matches Err(found) && found@ == text::about_file(
                        path@,
                        "line "@ + text::decimal(e.line as int) + ": "@ + e.message,
                    ),
                },
                FileText::NotFound => res matches Ok(found) && found@ == no_rules(),
                FileText::Failed(message) => res matches Err(found) && found@ == text::about_file(
                    path@,
                    message@,
                ),
            },
    {
        match file {
            FileText::Text(text) => match Config::parse(text.as_str()) {
                Ok(config) => Ok(config),
                Err(e) => Err(text::complaint(path, e.message().as_str())),
            },
            FileText::NotFound => Ok(Config::default()),
            FileText::Failed(message) => Err(text::complaint(path, message.as_str())),
        }
    }
}

// Laws

/// Whether each pattern of a rule is a regular expression.
pub open spec fn rule_compiles(rule: RuleView) -> bool {
    &&& rule.app_id matches Some(pattern) ==> pattern_error(pattern) is None
    &&& rule.title matches Some(pattern) ==> pattern_error(pattern) is None
    &&& rule.command matches Some(pattern) ==> pattern_error(pattern) is None
}

/// Whether each rule of a list has a field to match on, and regular expressions in its fields.
pub open spec fn rules_usable(rules: Seq<RuleView>) -> bool {
    forall|i: int|
        0 <= i < rules.len() ==> #[trigger] rules[i] != no_fields() && rule_compiles(rules[i])
}

spec fn draft_usable(draft: DraftView) -> bool {
    &&& rules_usable(draft.config.ignore)
    &&& rules_usable(draft.config.allow)
    &&& draft.open matches Some((_, rule, _)) ==> rule_compiles(rule)
}

proof fn lemma_lines_usable(lines: Seq<Seq<char>>, count: nat)
    ensures
        after_lines(lines, count) matches Ok(draft) ==> draft_usable(draft),
    decreases count,
{
    if count > 0 {
        lemma_lines_usable(lines, (count - 1) as nat);
    }
}

/// Every rule of a configuration that was read has a field to match on, and every pattern in it is
/// a regular expression.
pub proof fn law_parsed_rules_usable(text: Seq<char>)
    ensures
        parsed(text) matches Ok(config) ==> rules_usable(config.ignore) && rules_usable(
            config.allow,
        ),
{
    lemma_lines_usable(text::lines_of(text), text::lines_of(text).len());
}

/// A window that some rule allows is saved, whatever the rules ignore.
pub proof fn law_allow_wins(
    config: ConfigView,
    app_id: Seq<char>,
    title: Seq<char>,
    command: Seq<char>,
)
    requires
        any_matches(config.allow, app_id, title, command),
    ensures
        !skipped(config, app_id, title, command),
{
}

/// Without a rule to ignore windows, every window is saved.
pub proof fn law_saved_unless_ignored(
    config: ConfigView,
    app_id: Seq<char>,
    title: Seq<char>,
    command: Seq<char>,
)
    requires
        config.ignore.len() == 0,
    ensures
        !skipped(config, app_id, title, command),
{
}

/// A text of empty lines holds no rules.
pub proof fn law_blank_text_has_no_rules(text: Seq<char>)
    requires
        forall|i: int|
            0 <= i < text::lines_of(text).len() ==> text::trimmed(
                #[trigger] text::lines_of(text)[i],
            ).len() == 0,
    ensures
        parsed(text) == Ok::<ConfigView, ParseErrorView>(no_rules()),
{
    lemma_blank_lines(text::lines_of(text), text::lines_of(text).len());
}

proof fn lemma_blank_lines(lines: Seq<Seq<char>>, count: nat)
    requires
        count <= lines.len(),
        forall|i: int| 0 <= i < lines.len() ==> text::trimmed(#[trigger] lines[i]).len() == 0,
    ensures
        after_lines(lines, count) == Ok::<DraftView, ParseErrorView>(
            DraftView { config: no_rules(), open: None },
        ),
    decreases count,
{
    if count > 0 {
        lemma_blank_lines(lines, (count - 1) as nat);
    }
}

} // verus!

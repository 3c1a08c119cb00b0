//! The command line that starts the program of a window again, from what `/proc` tells of the
//! process that shows the window.

use crate::path;
use crate::text;
use vstd::prelude::*;
use vstd::slice::slice_subrange;
use vstd::utf8;

verus! {

/// What is known of a process
#[derive(Debug)]
pub struct Process {
    /// The keyfile `.flatpak-info` at the root of the process, in a Flatpak sandbox
    pub flatpak_info: Option<String>,
    /// The raw command line
    pub cmdline: Option<Vec<u8>>,
    /// Names that can be started, among the [`candidates`] of the command line
    pub programs: Vec<String>,
}

/// What a [`Process`] holds.
pub struct ProcessView {
    pub flatpak_info: Option<Seq<char>>,
    pub cmdline: Option<Seq<u8>>,
    pub programs: Seq<Seq<char>>,
}

impl View for Process {
    type V = ProcessView;

    open spec fn view(&self) -> ProcessView {
        ProcessView {
            flatpak_info: text::option_view(self.flatpak_info),
            cmdline: path::option_view(self.cmdline),
            programs: text::strings_view(self.programs@),
        }
    }
}

// Flatpak

/// The `name` key of the group `[Application]`, where `in_application` says whether the lines begin
/// in that group. A name that is empty counts as none.
pub open spec fn app_id_in(lines: Seq<Seq<char>>, in_application: bool) -> Option<Seq<char>>
    decreases lines.len(),
{
    if lines.len() == 0 {
        None
    } else {
        let line = text::trimmed(lines[0]);
        let rest = lines.drop_first();
        if line.len() > 0 && line[0] == '[' {
            app_id_in(rest, line == "[Application]"@)
        } else {
            match text::split_at_first(line, '=') {
                Some((key, value)) => if in_application && text::trimmed(key) == "name"@ {
                    if text::trimmed(value).len() == 0 {
                        None
                    } else {
                        Some(text::trimmed(value))
                    }
                } else {
                    app_id_in(rest, in_application)
                },
                None => app_id_in(rest, in_application),
            }
        }
    }
}

/// The `name` key of the `[Application]` group in the keyfile `.flatpak-info`
pub fn flatpak_app_id<'a>(info: &'a str) -> (app_id: Option<&'a str>)
    ensures
        match app_id_in(text::lines_of(info@), false) {
            Some(name) => app_id matches Some(found) && found@ == name,
            None => app_id is None,
        },
{
    let lines = text::lines(info);
    let ghost views = text::strs_view(lines@);
    let mut in_application = false;
    assert(views.skip(0) =~= views);
    for i in 0..lines.len()
        invariant
            views == text::strs_view(lines@),
            views == text::lines_of(info@),
            app_id_in(views, false) == app_id_in(views.skip(i as int), in_application),
    {
        let line = text::trim(lines[i]);
        proof {
            assert(views.skip(i as int).drop_first() =~= views.skip(i + 1));
            assert(views.skip(i as int)[0] == lines[i as int]@);
        }
        if !line.is_empty() && line.get_char(0) == '[' {
            in_application = text::same(line, "[Application]");
        } else if let Some((key, value)) = text::split_once(line, '=') {
            if in_application && text::same(text::trim(key), "name") {
                let name = text::trim(value);
                return if name.is_empty() {
                    None
                } else {
                    Some(name)
                };
            }
        }
    }
    assert(views.skip(lines.len() as int) =~= Seq::empty());
    None
}

/// The command that starts a Flatpak app.
pub open spec fn flatpak_argv(info: Seq<char>) -> Option<Seq<Seq<char>>> {
    match app_id_in(text::lines_of(info), false) {
        Some(app_id) => Some(seq!["flatpak"@, "run"@, app_id]),
        None => None,
    }
}

/// The argument vector that may be missing.
pub open spec fn argv_view(argv: Option<Vec<String>>) -> Option<Seq<Seq<char>>> {
    match argv {
        Some(argv) => Some(text::strings_view(argv@)),
        None => None,
    }
}

/// The command that starts the Flatpak app whose keyfile `.flatpak-info` is `info`.
///
/// The command line of a sandboxed process names paths inside the sandbox (e.g. "/app/bin/foo"),
/// which do not exist on the host, so the app has to be started through `flatpak run` instead.
/// Its arguments are dropped, as they may come from wrapper scripts inside the sandbox that add
/// them again, and paths in them are only valid inside the sandbox.
pub fn flatpak_command(info: &str) -> (argv: Option<Vec<String>>)
    ensures
        argv_view(argv) == flatpak_argv(info@),
{
    match flatpak_app_id(info) {
        Some(app_id) => {
            let mut argv: Vec<String> = Vec::new();
            argv.push("flatpak".to_owned());
            argv.push("run".to_owned());
            argv.push(app_id.to_owned());
            assert(text::strings_view(argv@) =~= seq!["flatpak"@, "run"@, app_id@]);
            Some(argv)
        },
        None => None,
    }
}

// The raw command line

/// How many bytes stand before the first NUL.
pub open spec fn argument_len(raw: Seq<u8>) -> int
    decreases raw.len(),
{
    if raw.len() == 0 || raw[0] == 0 {
        0
    } else {
        1 + argument_len(raw.drop_first())
    }
}

pub proof fn lemma_argument_len(raw: Seq<u8>)
    ensures
        0 <= argument_len(raw) <= raw.len(),
    decreases raw.len(),
{
    if raw.len() > 0 {
        lemma_argument_len(raw.drop_first());
    }
}

/// What stands between the NULs.
pub open spec fn between_nuls(raw: Seq<u8>) -> Seq<Seq<u8>>
    decreases raw.len(),
{
    if argument_len(raw) >= raw.len() {
        seq![raw]
    } else {
        proof {
            lemma_argument_len(raw);
        }
        seq![raw.take(argument_len(raw))] + between_nuls(raw.skip(argument_len(raw) + 1))
    }
}

/// The arguments of a raw command line. Each ends in a NUL, but for the last one, which need not; and
/// each may be empty.
pub open spec fn arguments_of(raw: Seq<u8>) -> Seq<Seq<u8>> {
    if raw.len() == 0 {
        Seq::empty()
    } else if raw.last() == 0 {
        between_nuls(raw.drop_last())
    } else {
        between_nuls(raw)
    }
}

/// A raw command line without the NULs that it ends with.
pub open spec fn without_last_nuls(raw: Seq<u8>) -> Seq<u8>
    decreases raw.len(),
{
    if raw.len() > 0 && raw.last() == 0 {
        without_last_nuls(raw.drop_last())
    } else {
        raw
    }
}

/// The text that `String::from_utf8_lossy` makes of bytes that are not valid UTF-8.
pub uninterp spec fn lossy_text(bytes: Seq<u8>) -> Seq<char>;

/// `String::from_utf8_lossy` on `bytes` returns what they encode where they are valid UTF-8. What it
/// returns otherwise depends on the bytes alone. Where it puts replacement characters then is not
/// stated here.
#[verifier::external_body]
fn from_utf8_lossy(bytes: &[u8]) -> (string: String)
    ensures
        string@ == (if utf8::valid_utf8(bytes@) {
            utf8::decode_utf8(bytes@)
        } else {
            lossy_text(bytes@)
        }),
{
    String::from_utf8_lossy(bytes).into_owned()
}

/// The text of an argument.
pub open spec fn argument_text(bytes: Seq<u8>) -> Seq<char> {
    if utf8::valid_utf8(bytes) {
        utf8::decode_utf8(bytes)
    } else {
        lossy_text(bytes)
    }
}

/// The text of each argument of a list.
pub open spec fn texts(arguments: Seq<Seq<u8>>) -> Seq<Seq<char>> {
    arguments.map_values(|argument: Seq<u8>| argument_text(argument))
}

/// The argument vector that a raw command line holds.
pub open spec fn raw_argv(raw: Seq<u8>) -> Seq<Seq<char>> {
    texts(arguments_of(raw))
}

/// The argument vector that a raw command line holds without the NULs that it ends with, as a process
/// leaves it that wrote something else there and cleared the rest.
pub open spec fn short_argv(raw: Seq<u8>) -> Seq<Seq<char>> {
    raw_argv(without_last_nuls(raw))
}

fn used_len(raw: &[u8]) -> (len: usize)
    ensures
        len <= raw@.len(),
        raw@.take(len as int) == without_last_nuls(raw@),
{
    let mut len = raw.len();
    assert(raw@.take(len as int) =~= raw@);
    while len > 0 && raw[len - 1] == 0
        invariant
            len <= raw@.len(),
            without_last_nuls(raw@) == without_last_nuls(raw@.take(len as int)),
        decreases len,
    {
        assert(raw@.take(len as int).drop_last() =~= raw@.take(len - 1));
        len = len - 1;
    }
    len
}

fn split_at_nuls(raw: &[u8]) -> (argv: Vec<String>)
    ensures
        text::strings_view(argv@) == texts(between_nuls(raw@)),
{
    let len = raw.len();
    let mut argv: Vec<String> = Vec::new();
    let ghost used = raw@;
    let ghost wanted = texts(between_nuls(used));
    let mut start: usize = 0;
    let mut end: usize = 0;
    proof {
        assert(used.skip(0) =~= used);
        assert(text::strings_view(argv@) + wanted =~= wanted);
    }
    // the argument that begins at `start` goes on at least to `end`
    while end < len
        invariant
            start <= end <= len == raw@.len(),
            used == raw@,
            argument_len(used.skip(start as int)) == end - start + argument_len(
                used.skip(end as int),
            ),
            wanted == text::strings_view(argv@) + texts(between_nuls(used.skip(start as int))),
        decreases len - end,
    {
        let ghost rest = used.skip(start as int);
        assert(used.skip(end as int)[0] == raw@[end as int]);
        if raw[end] == 0 {
            let ghost before = text::strings_view(argv@);
            let argument = from_utf8_lossy(slice_subrange(raw, start, end));
            argv.push(argument);
            proof {
                let first = rest.take(end - start);
                assert(raw@.subrange(start as int, end as int) =~= first);
                assert(rest.skip(end - start + 1) =~= used.skip(end + 1));
                assert(text::strings_view(argv@) =~= before.push(argument@));
                assert(texts(between_nuls(rest)) =~= seq![argument@] + texts(
                    between_nuls(used.skip(end + 1)),
                ));
                assert(text::strings_view(argv@) + texts(between_nuls(used.skip(end + 1)))
                    =~= before + (seq![argument@] + texts(between_nuls(used.skip(end + 1)))));
            }
            end = end + 1;
            start = end;
        } else {
            assert(used.skip(end as int).drop_first() =~= used.skip(end + 1));
            end = end + 1;
        }
    }
    let ghost before = text::strings_view(argv@);
    let argument = from_utf8_lossy(slice_subrange(raw, start, len));
    argv.push(argument);
    proof {
        let rest = used.skip(start as int);
        assert(raw@.subrange(start as int, len as int) =~= rest);
        assert(used.skip(len as int) =~= Seq::empty());
        assert(between_nuls(rest) == seq![rest]);
        assert(texts(between_nuls(rest)) =~= seq![argument@]);
        assert(text::strings_view(argv@) =~= before.push(argument@));
        assert(before + seq![argument@] =~= before.push(argument@));
        assert(before + seq![argument@] =~= wanted);
    }
    argv
}

fn split_arguments(raw: &[u8]) -> (argv: Vec<String>)
    ensures
        text::strings_view(argv@) == raw_argv(raw@),
{
    let len = raw.len();
    if len == 0 {
        let argv: Vec<String> = Vec::new();
        assert(text::strings_view(argv@) =~= raw_argv(raw@));
        argv
    } else if raw[len - 1] == 0 {
        let inner = slice_subrange(raw, 0, len - 1);
        assert(inner@ =~= raw@.drop_last());
        split_at_nuls(inner)
    } else {
        split_at_nuls(raw)
    }
}

fn split_short(raw: &[u8]) -> (argv: Vec<String>)
    ensures
        text::strings_view(argv@) == short_argv(raw@),
{
    let used = slice_subrange(raw, 0, used_len(raw));
    assert(used@ =~= without_last_nuls(raw@));
    split_arguments(used)
}

// Recovering an argument vector

/// Whether the only argument of an argument vector cannot be started, but begins with a word that
/// can.
pub open spec fn overwritten(argv: Seq<Seq<char>>, programs: Seq<Seq<char>>) -> bool {
    argv.len() == 1 && !programs.contains(argv[0]) && text::words_of(argv[0]).len() > 0
        && programs.contains(text::words_of(argv[0])[0])
}

/// The argument vector in place of one that was overwritten: the words of its only argument.
pub open spec fn repaired(argv: Seq<Seq<char>>, programs: Seq<Seq<char>>) -> Seq<Seq<char>> {
    if overwritten(argv, programs) {
        text::words_of(argv[0])
    } else {
        argv
    }
}

/// Whether `name` is among `programs`
pub fn is_program(name: &str, programs: &Vec<String>) -> (b: bool)
    ensures
        b == text::strings_view(programs@).contains(name@),
{
    for i in 0..programs.len()
        invariant
            forall|j: int| 0 <= j < i ==> programs@[j]@ != name@,
    {
        if text::same(programs[i].as_str(), name) {
            assert(text::strings_view(programs@)[i as int] == name@);
            return true;
        }
    }
    false
}

fn is_overwritten(argv: &Vec<String>, programs: &Vec<String>) -> (b: bool)
    ensures
        b == overwritten(text::strings_view(argv@), text::strings_view(programs@)),
{
    if argv.len() != 1 || is_program(argv[0].as_str(), programs) {
        return false;
    }
    let words = text::split_whitespace(argv[0].as_str());
    assert(words@.len() == text::words_of(argv@[0]@).len());
    words.len() > 0 && is_program(words[0], programs)
}

/// Recovers an argument vector from a process that overwrote its own argv area.
///
/// For example: "/usr/lib/signal-desktop/signal-desktop --" with the separating NUL gone
pub fn repair_argv(argv: Vec<String>, programs: &Vec<String>) -> (repaired_argv: Vec<String>)
    ensures
        text::strings_view(repaired_argv@) == repaired(
            text::strings_view(argv@),
            text::strings_view(programs@),
        ),
{
    if !is_overwritten(&argv, programs) {
        return argv;
    }
    let words = text::split_whitespace(argv[0].as_str());
    let mut split: Vec<String> = Vec::new();
    for i in 0..words.len()
        invariant
            split@.len() == i,
            forall|j: int| 0 <= j < i ==> (#[trigger] split@[j])@ == words@[j]@,
    {
        split.push(words[i].to_owned());
    }
    assert(text::strings_view(split@) =~= text::strs_view(words@));
    split
}

/// The command line that a process was started with, none if there is nothing but NULs. Where the
/// process has overwritten it, the NULs behind what it wrote do not count.
pub open spec fn cmdline_argv(raw: Seq<u8>, programs: Seq<Seq<char>>) -> Option<Seq<Seq<char>>> {
    if without_last_nuls(raw).len() == 0 {
        None
    } else if overwritten(short_argv(raw), programs) {
        Some(repaired(short_argv(raw), programs))
    } else {
        Some(raw_argv(raw))
    }
}

/// The command line that a process was started with, from its raw form in `/proc`
pub fn cmdline(raw: &[u8], programs: &Vec<String>) -> (argv: Option<Vec<String>>)
    ensures
        argv_view(argv) == cmdline_argv(raw@, text::strings_view(programs@)),
{
    if used_len(raw) == 0 {
        return None;
    }
    let short = split_short(raw);
    if is_overwritten(&short, programs) {
        Some(repair_argv(short, programs))
    } else {
        Some(split_arguments(raw))
    }
}

// Which names can be started

/// The names on which it depends how a raw command line is read.
pub open spec fn candidate_names(raw: Seq<u8>) -> Seq<Seq<char>> {
    let argv = short_argv(raw);
    if argv.len() == 1 {
        seq![argv[0]] + text::words_of(argv[0]).take(
            if text::words_of(argv[0]).len() > 0 {
                1
            } else {
                0
            },
        )
    } else {
        Seq::empty()
    }
}

/// The names of which it has to be known whether they can be started
pub fn candidates(raw: &[u8]) -> (names: Vec<String>)
    ensures
        text::strings_view(names@) == candidate_names(raw@),
{
    let mut argv = split_short(raw);
    assert(argv@.len() == short_argv(raw@).len());
    if argv.len() != 1 {
        let names: Vec<String> = Vec::new();
        assert(text::strings_view(names@) =~= candidate_names(raw@));
        return names;
    }
    let first = match text::split_whitespace(argv[0].as_str()).first() {
        Some(word) => Some((*word).to_owned()),
        None => None,
    };
    if let Some(first) = first {
        argv.push(first);
    }
    assert(text::strings_view(argv@) =~= candidate_names(raw@));
    argv
}

/// Where a program of a given name may lie: at the path that the name is, or in one of the
/// directories of the search path.
pub open spec fn lookup(name: Seq<char>, dirs: Seq<Seq<u8>>) -> Seq<Seq<u8>> {
    let bytes = utf8::encode_utf8(name);
    if name.contains('/') {
        seq![bytes]
    } else {
        dirs.map_values(|dir: Seq<u8>| path::joined(dir, bytes))
    }
}

/// The bytes of each path of a list.
pub open spec fn paths_view(paths: Seq<Vec<u8>>) -> Seq<Seq<u8>> {
    paths.map_values(|path: Vec<u8>| path@)
}

/// The files that can make `name` a name that can be started, where `dirs` are the directories of
/// `$PATH`
pub fn program_paths(name: &str, dirs: &Vec<Vec<u8>>) -> (paths: Vec<Vec<u8>>)
    ensures
        paths_view(paths@) == lookup(name@, paths_view(dirs@)),
{
    let mut paths: Vec<Vec<u8>> = Vec::new();
    if text::contains(name, '/') {
        paths.push(name.as_bytes_vec());
    } else {
        for i in 0..dirs.len()
            invariant
                paths@.len() == i,
                forall|j: int|
                    0 <= j < i ==> (#[trigger] paths@[j])@ == path::joined(
                        dirs@[j]@,
                        utf8::encode_utf8(name@),
                    ),
        {
            paths.push(path::join(dirs[i].as_slice(), name.as_bytes()));
        }
    }
    assert(paths_view(paths@) =~= lookup(name@, paths_view(dirs@)));
    paths
}

/// Whether the bits of a file's mode let anyone execute it.
pub open spec fn executable_mode(mode: u32) -> bool {
    mode & 0o111 != 0
}

/// Whether a file can be executed, by its mode
pub fn is_executable(is_file: bool, mode: u32) -> (b: bool)
    ensures
        b == (is_file && executable_mode(mode)),
{
    is_file && mode & 0o111 != 0
}

// The command that starts a program again

/// The command that starts the program of a process again, if it can be told.
pub open spec fn command_of(process: ProcessView) -> Option<Seq<Seq<char>>> {
    let flatpak = match process.flatpak_info {
        Some(info) => flatpak_argv(info),
        None => None,
    };
    match (flatpak, process.cmdline) {
        (Some(argv), _) => Some(argv),
        (None, Some(raw)) => cmdline_argv(raw, process.programs),
        (None, None) => None,
    }
}

/// The command that starts the program of `process` again
pub fn command(process: &Process) -> (argv: Option<Vec<String>>)
    ensures
        argv_view(argv) == command_of(process@),
{
    if let Some(info) = &process.flatpak_info {
        if let Some(argv) = flatpak_command(info.as_str()) {
            return Some(argv);
        }
    }
    match &process.cmdline {
        Some(raw) => cmdline(raw.as_slice(), &process.programs),
        None => None,
    }
}

// Laws

/// How a command line is read depends on no other names than its candidates.
pub proof fn law_only_candidates_matter(
    raw: Seq<u8>,
    programs: Seq<Seq<char>>,
    others: Seq<Seq<char>>,
)
    requires
        forall|name: Seq<char>| #[trigger]
            candidate_names(raw).contains(name) ==> programs.contains(name) == others.contains(
                name,
            ),
    ensures
        cmdline_argv(raw, programs) == cmdline_argv(raw, others),
{
    let argv = short_argv(raw);
    if argv.len() == 1 {
        let names = candidate_names(raw);
        assert(names[0] == argv[0]);
        assert(names.contains(argv[0]));
        let words = text::words_of(argv[0]);
        if words.len() > 0 {
            assert(names[1] == words[0]);
            assert(names.contains(words[0]));
        }
    }
}

proof fn lemma_between_nuls_len(raw: Seq<u8>)
    ensures
        between_nuls(raw).len() > 0,
{
}

/// A command that starts a program names that program.
pub proof fn law_command_is_not_empty(process: ProcessView)
    ensures
        command_of(process) matches Some(argv) ==> argv.len() > 0,
{
    if let Some(raw) = process.cmdline {
        if raw.len() > 0 {
            lemma_between_nuls_len(raw);
            lemma_between_nuls_len(raw.drop_last());
        }
    }
}

/// An app in a Flatpak sandbox is started through `flatpak run`, whatever its command line is.
pub proof fn law_sandboxed_app_runs_through_flatpak(process: ProcessView, info: Seq<char>)
    requires
        process.flatpak_info == Some(info),
    ensures
        app_id_in(text::lines_of(info), false) matches Some(app_id) ==> command_of(process)
            == Some(seq!["flatpak"@, "run"@, app_id]),
{
}

/// The raw command line of a process that was started with the given arguments.
pub open spec fn terminated(arguments: Seq<Seq<u8>>) -> Seq<u8>
    decreases arguments.len(),
{
    if arguments.len() == 0 {
        Seq::empty()
    } else {
        arguments[0].push(0) + terminated(arguments.drop_first())
    }
}

/// Whether the arguments are such as a process can be started with.
pub open spec fn without_nul(arguments: Seq<Seq<u8>>) -> bool {
    forall|i: int| 0 <= i < arguments.len() ==> !(#[trigger] arguments[i]).contains(0)
}

proof fn lemma_argument_ends(argument: Seq<u8>, behind: Seq<u8>)
    requires
        !argument.contains(0),
        behind.len() > 0 ==> behind[0] == 0,
    ensures
        argument_len(argument + behind) == argument.len(),
    decreases argument.len(),
{
    if argument.len() == 0 {
        assert(argument + behind =~= behind);
    } else {
        let rest = argument.drop_first();
        assert(argument.contains(argument[0]));
        assert(!rest.contains(0)) by {
            if rest.contains(0) {
                let i = choose|i: int| 0 <= i < rest.len() && rest[i] == 0;
                assert(argument[i + 1] == 0);
            }
        }
        assert((argument + behind).drop_first() =~= rest + behind);
        lemma_argument_ends(rest, behind);
    }
}

proof fn lemma_terminated(arguments: Seq<Seq<u8>>)
    requires
        arguments.len() > 0,
        without_nul(arguments),
    ensures
        terminated(arguments).len() > 0,
        terminated(arguments).last() == 0,
        between_nuls(terminated(arguments).drop_last()) == arguments,
    decreases arguments.len(),
{
    let first = arguments[0];
    let rest = arguments.drop_first();
    let raw = terminated(arguments).drop_last();
    if rest.len() == 0 {
        assert(terminated(rest) =~= Seq::empty());
        assert(raw =~= first);
        lemma_argument_ends(first, Seq::empty());
        assert(first + Seq::<u8>::empty() =~= first);
        assert(seq![first] =~= arguments);
    } else {
        assert forall|i: int| 0 <= i < rest.len() implies !(#[trigger] rest[i]).contains(0) by {
            assert(rest[i] == arguments[i + 1]);
        }
        lemma_terminated(rest);
        let behind = terminated(rest).drop_last();
        assert(raw =~= first + (seq![0u8] + behind));
        lemma_argument_ends(first, seq![0u8] + behind);
        assert(raw.take(first.len() as int) =~= first);
        assert(raw.skip((first.len() + 1) as int) =~= behind);
        assert(seq![first] + rest =~= arguments);
    }
}

/// The arguments that a process was started with are read back, empty ones too.
pub proof fn law_arguments_are_read_back(arguments: Seq<Seq<u8>>)
    requires
        without_nul(arguments),
    ensures
        arguments_of(terminated(arguments)) == arguments,
{
    if arguments.len() == 0 {
        assert(arguments =~= Seq::empty());
    } else {
        lemma_terminated(arguments);
    }
}

proof fn lemma_last_nuls(raw: Seq<u8>, nuls: nat)
    requires
        raw.len() > 0 ==> raw.last() != 0,
    ensures
        without_last_nuls(raw + Seq::new(nuls, |i: int| 0u8)) == raw,
    decreases nuls,
{
    let all = raw + Seq::new(nuls, |i: int| 0u8);
    if nuls == 0 {
        assert(all =~= raw);
    } else {
        let fewer = Seq::new((nuls - 1) as nat, |i: int| 0u8);
        assert(all.drop_last() =~= raw + fewer);
        lemma_last_nuls(raw, (nuls - 1) as nat);
    }
}

/// A command line that the process has overwritten with a text is read as the words of the text,
/// however much room the process has cleared behind it.
pub proof fn law_overwritten_command_lines_are_repaired(
    shown: Seq<u8>,
    nuls: nat,
    programs: Seq<Seq<char>>,
)
    requires
        shown.len() > 0,
        !shown.contains(0),
        overwritten(seq![argument_text(shown)], programs),
    ensures
        cmdline_argv(shown + Seq::new(nuls, |i: int| 0u8), programs) == Some(
            text::words_of(argument_text(shown)),
        ),
{
    assert(shown.contains(shown.last()));
    lemma_last_nuls(shown, nuls);
    lemma_argument_ends(shown, Seq::empty());
    assert(shown + Seq::<u8>::empty() =~= shown);
    assert(raw_argv(shown) =~= seq![argument_text(shown)]);
}

} // verus!

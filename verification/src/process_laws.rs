//! What is known of processes, files and paths: which app a keyfile names, how the command line of a
//! process is read, and where programs lie.

use crate::path;
use crate::process;
use crate::process::ProcessView;
use crate::text;
use vstd::prelude::*;
use vstd::utf8;

verus! {

// The keyfile of an app

/// Whether a line of a keyfile begins a group.
pub open spec fn begins_group(line: Seq<char>) -> bool {
    text::trimmed(line).len() > 0 && text::trimmed(line)[0] == '['
}

/// Whether the line at `j` stands in the group of the application: the last line that begins a group
/// up to it is that group's, or there is none and the lines begin in the group.
pub open spec fn in_application(lines: Seq<Seq<char>>, inside: bool, j: int) -> bool {
    exists|g: int| #[trigger] begins_application(lines, inside, g, j)
}

/// Whether the group of the application begins at `g`, or before all lines, and reaches to `j`.
pub open spec fn begins_application(lines: Seq<Seq<char>>, inside: bool, g: int, j: int) -> bool {
    &&& -1 <= g < j
    &&& if g < 0 {
        inside
    } else {
        text::trimmed(lines[g]) == "[Application]"@
    }
    &&& forall|h: int| g < h <= j ==> !begins_group(#[trigger] lines[h])
}

/// The value that a line of a keyfile has for the key `name`.
pub open spec fn named(line: Seq<char>) -> Option<Seq<char>> {
    match text::split_at_first(text::trimmed(line), '=') {
        Some((key, value)) => if text::trimmed(key) == "name"@ {
            Some(text::trimmed(value))
        } else {
            None
        },
        None => None,
    }
}

/// Whether the line at `j` names the application.
pub open spec fn names_application(lines: Seq<Seq<char>>, inside: bool, j: int) -> bool {
    in_application(lines, inside, j) && named(lines[j]) is Some
}

/// Whether the lines behind the first one begin in the group of the application.
spec fn inside_behind(line: Seq<char>, inside: bool) -> bool {
    if begins_group(line) {
        text::trimmed(line) == "[Application]"@
    } else {
        inside
    }
}

proof fn lemma_behind_first(lines: Seq<Seq<char>>, inside: bool, j: int)
    requires
        0 < j < lines.len(),
    ensures
        in_application(lines, inside, j) <==> in_application(
            lines.drop_first(),
            inside_behind(lines[0], inside),
            j - 1,
        ),
{
    let rest = lines.drop_first();
    let then_inside = inside_behind(lines[0], inside);
    reveal_strlit("[Application]");
    if in_application(lines, inside, j) {
        let g = choose|g: int| #[trigger] begins_application(lines, inside, g, j);
        assert forall|h: int| g - 1 < h <= j - 1 && h >= 0 implies !begins_group(
            #[trigger] rest[h],
        ) by {
            assert(rest[h] == lines[h + 1]);
        }
        if g >= 1 {
            assert(rest[g - 1] == lines[g]);
            assert(begins_application(rest, then_inside, g - 1, j - 1));
        } else {
            if g < 0 {
                assert(!begins_group(lines[0]));
            }
            assert forall|h: int| -1 < h <= j - 1 implies !begins_group(#[trigger] rest[h]) by {
                assert(rest[h] == lines[h + 1]);
            }
            assert(begins_application(rest, then_inside, -1, j - 1));
        }
    }
    if in_application(rest, then_inside, j - 1) {
        let g = choose|g: int| #[trigger] begins_application(rest, then_inside, g, j - 1);
        assert forall|h: int| g + 1 < h <= j implies !begins_group(#[trigger] lines[h]) by {
            assert(rest[h - 1] == lines[h]);
        }
        if g >= 0 {
            assert(rest[g] == lines[g + 1]);
            assert(begins_application(lines, inside, g + 1, j));
        } else if begins_group(lines[0]) {
            assert(begins_application(lines, inside, 0, j));
        } else {
            assert(begins_application(lines, inside, -1, j));
        }
    }
}

proof fn lemma_first_line(lines: Seq<Seq<char>>, inside: bool)
    requires
        lines.len() > 0,
    ensures
        in_application(lines, inside, 0) <==> inside && !begins_group(lines[0]),
{
    if in_application(lines, inside, 0) {
        let g = choose|g: int| #[trigger] begins_application(lines, inside, g, 0);
        assert(g == -1);
        assert(!begins_group(lines[0]));
    }
    if inside && !begins_group(lines[0]) {
        assert(begins_application(lines, inside, -1, 0));
    }
}

proof fn lemma_app_id(lines: Seq<Seq<char>>, inside: bool, j: int)
    requires
        0 <= j < lines.len(),
        names_application(lines, inside, j),
        forall|i: int| 0 <= i < j ==> !#[trigger] names_application(lines, inside, i),
    ensures
        process::app_id_in(lines, inside) == if named(lines[j])->0.len() == 0 {
            None
        } else {
            named(lines[j])
        },
    decreases lines.len(),
{
    let rest = lines.drop_first();
    let then_inside = inside_behind(lines[0], inside);
    lemma_first_line(lines, inside);
    if j > 0 {
        assert(!names_application(lines, inside, 0));
        lemma_behind_first(lines, inside, j);
        assert(rest[j - 1] == lines[j]);
        assert forall|i: int| 0 <= i < j - 1 implies !#[trigger] names_application(
            rest,
            then_inside,
            i,
        ) by {
            lemma_behind_first(lines, inside, i + 1);
            assert(rest[i] == lines[i + 1]);
            assert(!names_application(lines, inside, i + 1));
        }
        lemma_app_id(rest, then_inside, j - 1);
    }
}

proof fn lemma_no_app_id(lines: Seq<Seq<char>>, inside: bool)
    requires
        forall|i: int| 0 <= i < lines.len() ==> !#[trigger] names_application(lines, inside, i),
    ensures
        process::app_id_in(lines, inside) is None,
    decreases lines.len(),
{
    if lines.len() > 0 {
        let rest = lines.drop_first();
        let then_inside = inside_behind(lines[0], inside);
        lemma_first_line(lines, inside);
        assert(!names_application(lines, inside, 0));
        assert forall|i: int| 0 <= i < rest.len() implies !#[trigger] names_application(
            rest,
            then_inside,
            i,
        ) by {
            lemma_behind_first(lines, inside, i + 1);
            assert(rest[i] == lines[i + 1]);
            assert(!names_application(lines, inside, i + 1));
        }
        lemma_no_app_id(rest, then_inside);
    }
}

/// The app is the one that the first line with the key `name` in the group `[Application]` names;
/// without such a line there is none, and an empty name counts as none. If there is one, the app is
/// started by `flatpak run`, whatever its command line is, and else by its command line.
pub proof fn law_app_of_a_keyfile(known: ProcessView, info: Seq<char>, j: int)
    requires
        known.flatpak_info == Some(info),
    ensures
        ({
            let lines = text::lines_of(info);
            let command = process::command_of(known);
            let without = process::command_of(ProcessView { flatpak_info: None, ..known });
            &&& (forall|i: int|
                0 <= i < lines.len() ==> !#[trigger] names_application(lines, false, i)) ==> command
                == without
            &&& 0 <= j < lines.len() && names_application(lines, false, j) && (forall|i: int|
                0 <= i < j ==> !#[trigger] names_application(lines, false, i)) ==> command == if
            named(lines[j]) == Some(Seq::<char>::empty()) {
                without
            } else {
                Some(seq!["flatpak"@, "run"@, named(lines[j])->0])
            }
        }),
{
    let lines = text::lines_of(info);
    if forall|i: int| 0 <= i < lines.len() ==> !#[trigger] names_application(lines, false, i) {
        lemma_no_app_id(lines, false);
    }
    if 0 <= j < lines.len() && names_application(lines, false, j) && (forall|i: int|
        0 <= i < j ==> !#[trigger] names_application(lines, false, i)) {
        lemma_app_id(lines, false, j);
        let name = named(lines[j])->0;
        assert(name.len() == 0 <==> name =~= Seq::<char>::empty());
    }
}

// Command lines

/// Some empty arguments.
pub open spec fn empty_arguments(count: nat) -> Seq<Seq<u8>> {
    Seq::new(count, |i: int| Seq::<u8>::empty())
}

/// Whether a text is no name of a program, but its first word is.
pub open spec fn begins_with_program(s: Seq<char>, programs: Seq<Seq<char>>) -> bool {
    &&& !programs.contains(s)
    &&& text::words_of(s).len() > 0
    &&& programs.contains(text::words_of(s).first())
}

proof fn lemma_terminated_both(a: Seq<Seq<u8>>, b: Seq<Seq<u8>>)
    ensures
        process::terminated(a + b) == process::terminated(a) + process::terminated(b),
    decreases a.len(),
{
    if a.len() == 0 {
        assert(a + b =~= b);
        assert(process::terminated(a) =~= Seq::empty());
    } else {
        assert((a + b).drop_first() =~= a.drop_first() + b);
        assert((a + b)[0] == a[0]);
        lemma_terminated_both(a.drop_first(), b);
    }
    assert(process::terminated(a + b) =~= process::terminated(a) + process::terminated(b));
}

proof fn lemma_terminated_one(argument: Seq<u8>)
    ensures
        process::terminated(seq![argument]) == argument.push(0),
{
    let one = seq![argument];
    assert(one.drop_first() =~= Seq::empty());
    assert(process::terminated(one.drop_first()) =~= Seq::empty());
    assert(process::terminated(one) =~= argument.push(0));
}

proof fn lemma_terminated_empty(count: nat)
    ensures
        process::terminated(empty_arguments(count)) == Seq::new(count, |i: int| 0u8),
    decreases count,
{
    let all = empty_arguments(count);
    if count > 0 {
        let fewer = empty_arguments((count - 1) as nat);
        assert(all.drop_first() =~= fewer);
        lemma_terminated_empty((count - 1) as nat);
    }
    assert(process::terminated(all) =~= Seq::new(count, |i: int| 0u8));
}

proof fn lemma_cleared(raw: Seq<u8>, nuls: nat)
    requires
        raw.len() > 0 ==> raw.last() != 0,
    ensures
        process::without_last_nuls(raw + Seq::new(nuls, |i: int| 0u8)) == raw,
    decreases nuls,
{
    let all = raw + Seq::new(nuls, |i: int| 0u8);
    if nuls == 0 {
        assert(all =~= raw);
    } else {
        let fewer = Seq::new((nuls - 1) as nat, |i: int| 0u8);
        assert(all.drop_last() =~= raw + fewer);
        lemma_cleared(raw, (nuls - 1) as nat);
    }
}

proof fn lemma_without_nul(a: Seq<Seq<u8>>, count: nat)
    requires
        process::without_nul(a),
    ensures
        process::without_nul(a + empty_arguments(count)),
{
    let all = a + empty_arguments(count);
    assert forall|i: int| 0 <= i < all.len() implies !(#[trigger] all[i]).contains(0) by {
        if i < a.len() {
            assert(all[i] == a[i]);
        } else {
            assert(all[i] =~= Seq::<u8>::empty());
        }
    }
}

/// A process that was started with some arguments, of which the last ones may be empty, is started
/// again with the same arguments, unless it looks as if the process had overwritten its command line:
/// all arguments but the first are empty, and the first is no program but begins with one. It is
/// started again with the words of that argument then. If all arguments are empty, nothing is known.
pub proof fn law_command_of_a_process(
    arguments: Seq<Seq<u8>>,
    empty: nat,
    programs: Seq<Seq<char>>,
    flatpak_info: Option<Seq<char>>,
)
    requires
        process::without_nul(arguments),
        arguments.len() > 0 ==> arguments.last().len() > 0,
        flatpak_info matches Some(info) ==> process::flatpak_argv(info) is None,
    ensures
        ({
            let all = arguments + empty_arguments(empty);
            let argv = process::texts(all);
            process::command_of(
                ProcessView {
                    flatpak_info,
                    cmdline: Some(process::terminated(all)),
                    programs,
                },
            ) == if arguments.len() == 0 {
                None
            } else if arguments.len() == 1 && begins_with_program(argv[0], programs) {
                Some(text::words_of(argv[0]))
            } else {
                Some(argv)
            }
        }),
{
    let all = arguments + empty_arguments(empty);
    let raw = process::terminated(all);
    let nuls = Seq::new(empty, |i: int| 0u8);
    lemma_terminated_both(arguments, empty_arguments(empty));
    lemma_terminated_empty(empty);
    lemma_without_nul(arguments, empty);
    process::law_arguments_are_read_back(all);
    if arguments.len() == 0 {
        let nothing = Seq::<u8>::empty();
        assert(process::terminated(arguments) =~= nothing);
        lemma_cleared(nothing, empty);
        assert(raw =~= nothing + nuls);
    } else {
        let front = arguments.drop_last();
        let last = arguments.last();
        assert(arguments =~= front + seq![last]);
        lemma_terminated_both(front, seq![last]);
        lemma_terminated_one(last);
        let used = process::terminated(front) + last;
        assert(process::terminated(arguments) =~= used.push(0));
        assert(!last.contains(0)) by {
            assert(!arguments[arguments.len() - 1].contains(0));
        }
        assert(last.contains(last.last()));
        assert(used.last() == last.last());
        let more = Seq::new(empty + 1, |i: int| 0u8);
        assert(raw =~= used + more);
        lemma_cleared(used, empty + 1);
        process::law_arguments_are_read_back(arguments);
        assert(process::terminated(arguments).drop_last() =~= used);
        assert(process::arguments_of(used) == arguments);
        assert(process::short_argv(raw) == process::texts(arguments));
        let argv = process::texts(all);
        assert(argv[0] == process::texts(arguments)[0]) by {
            assert(all[0] == arguments[0]);
        }
        assert(process::raw_argv(raw) == argv);
    }
}

/// The names that decide how a command line is read are the only argument and its first word.
pub proof fn law_names_that_decide(shown: Seq<u8>, nuls: nat)
    requires
        shown.len() > 0,
        !shown.contains(0),
    ensures
        ({
            let line = process::argument_text(shown);
            let names = process::candidate_names(shown + Seq::new(nuls, |i: int| 0u8));
            &&& names.contains(line)
            &&& text::words_of(line).len() > 0 ==> names.contains(text::words_of(line).first())
            &&& names.len() <= 2
        }),
{
    assert(shown.contains(shown.last()));
    lemma_cleared(shown, nuls);
    assert forall|i: int| 0 <= i < seq![shown].len() implies !(
    #[trigger] seq![shown][i]).contains(0) by {}
    lemma_terminated_one(shown);
    process::law_arguments_are_read_back(seq![shown]);
    assert(shown.push(0).drop_last() =~= shown);
    assert(process::arguments_of(shown) == seq![shown]);
    let argv = process::short_argv(shown + Seq::new(nuls, |i: int| 0u8));
    let line = process::argument_text(shown);
    assert(argv =~= seq![line]);
    let names = process::candidate_names(shown + Seq::new(nuls, |i: int| 0u8));
    assert(names[0] == line);
    if text::words_of(line).len() > 0 {
        assert(names[1] == text::words_of(line)[0]);
    }
}

// Paths

/// A path that begins with a slash stands for itself. Any other one is found below the directory: the
/// path begins with the directory, ends in what was looked for, and just one slash parts the two.
pub proof fn law_joined_paths(base: Seq<u8>, rest: Seq<u8>)
    ensures
        ({
            let path = path::joined(base, rest);
            &&& rest.is_suffix_of(path)
            &&& rest.len() > 0 && rest[0] == 0x2f ==> path == rest
            &&& base.len() == 0 ==> path == rest
            &&& base.len() > 0 && !(rest.len() > 0 && rest[0] == 0x2f) ==> {
                &&& base.is_prefix_of(path)
                &&& path[path.len() - rest.len() - 1] == 0x2f
                &&& path.len() == base.len() + rest.len() + if base.last() == 0x2f {
                    0int
                } else {
                    1int
                }
            }
        }),
{
    let path = path::joined(base, rest);
    assert(rest =~= path.subrange(path.len() - rest.len(), path.len() as int));
    if base.len() == 0 {
        assert(base + rest =~= rest);
    }
    if base.len() > 0 && !(rest.len() > 0 && rest[0] == 0x2f) {
        assert(base =~= path.take(base.len() as int));
    }
}

/// A file lies in its base directory: the one that is set, or else the usual one in the home
/// directory.
pub proof fn law_base_directories(
    base: Seq<u8>,
    home: Seq<u8>,
    fallback: Seq<char>,
    file: Seq<char>,
    any: Option<Seq<u8>>,
)
    ensures
        path::base_joined(Some(base), any, fallback, file) == path::joined(
            base,
            utf8::encode_utf8(file),
        ),
        path::base_joined(None, Some(home), fallback, file) == path::base_joined(
            Some(path::joined(home, utf8::encode_utf8(fallback))),
            any,
            fallback,
            file,
        ),
        path::base_joined(None, None, fallback, file) == path::base_joined(
            None,
            Some(Seq::empty()),
            fallback,
            file,
        ),
{
}

/// A program whose name has a slash lies at that path. Any other lies in one of the directories, which
/// are searched in order.
pub proof fn law_where_programs_lie(name: Seq<char>, a: Seq<Seq<u8>>, b: Seq<Seq<u8>>, dir: Seq<u8>)
    ensures
        name.contains('/') ==> process::lookup(name, a) == seq![utf8::encode_utf8(name)],
        !name.contains('/') ==> {
            &&& process::lookup(name, a + b) == process::lookup(name, a) + process::lookup(name, b)
            &&& process::lookup(name, seq![dir]) == seq![
                path::joined(dir, utf8::encode_utf8(name)),
            ]
            &&& process::lookup(name, Seq::empty()) == Seq::<Seq<u8>>::empty()
        },
{
    if !name.contains('/') {
        assert(process::lookup(name, a + b) =~= process::lookup(name, a) + process::lookup(
            name,
            b,
        ));
        assert(process::lookup(name, seq![dir]) =~= seq![
            path::joined(dir, utf8::encode_utf8(name)),
        ]);
        assert(process::lookup(name, Seq::empty()) =~= Seq::<Seq<u8>>::empty());
    }
}

/// Anyone may execute a file if its owner, its group or others may.
pub proof fn law_executable_modes(mode: u32)
    ensures
        process::executable_mode(mode) <==> mode % 2 == 1 || (mode / 8) % 2 == 1 || (mode / 64) % 2
            == 1,
{
    assert(mode & 0o111 != 0 <==> mode % 2 == 1 || (mode / 8) % 2 == 1 || (mode / 64) % 2 == 1)
        by (bit_vector);
}

} // verus!

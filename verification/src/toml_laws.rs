//! What TOML strings stand for, and what is none.

use crate::toml;
use vstd::prelude::*;

verus! {

/// A text between quotes, `count` on either side.
pub open spec fn between(quote: char, count: nat, s: Seq<char>) -> Seq<char> {
    Seq::new(count, |i: int| quote) + s + Seq::new(count, |i: int| quote)
}

/// Whether a character has to be escaped where it does not end a line: those below the space but for
/// the tab, and the one with number 127.
pub open spec fn needs_escape(c: char) -> bool {
    (c as int) < 32 && c as int != 9 || c as int == 127
}

// Single quotes

/// Whether the newline that a text has at `i` may stand there: a line feed, or a carriage return right
/// before one.
pub open spec fn newline_at(s: Seq<char>, i: int) -> bool {
    s[i] == '\n' || s[i] == '\r' && i + 1 < s.len() && s[i + 1] == '\n'
}

/// Whether a text holds nothing that has to be escaped but newlines, and no three quotes in a row.
pub open spec fn may_stand(s: Seq<char>, quote: char) -> bool {
    &&& forall|i: int|
        0 <= i < s.len() ==> !needs_escape(#[trigger] s[i]) || newline_at(s, i)
    &&& forall|i: int|
        0 <= i < s.len() - 2 ==> !(#[trigger] s[i] == quote && s[i + 1] == quote && s[i + 2]
            == quote)
}

proof fn lemma_may_stand_behind(s: Seq<char>, quote: char)
    requires
        s.len() > 0,
        may_stand(s, quote),
    ensures
        may_stand(s.skip(1), quote),
{
    let rest = s.skip(1);
    assert forall|i: int| 0 <= i < rest.len() implies !needs_escape(#[trigger] rest[i])
        || newline_at(rest, i) by {
        assert(rest[i] == s[i + 1]);
    }
    assert forall|i: int| 0 <= i < rest.len() - 2 implies !(#[trigger] rest[i] == quote && rest[i
        + 1] == quote && rest[i + 2] == quote) by {
        assert(rest[i] == s[i + 1]);
    }
}

proof fn lemma_single_lines(s: Seq<char>)
    requires
        may_stand(s, '\''),
    ensures
        toml::contents(s, '\'', true) == Some(s),
    decreases s.len(),
{
    if s.len() > 0 {
        assert(!needs_escape(s[0]) || newline_at(s, 0));
        if s.len() >= 3 {
            assert(!(s[0] == '\'' && s[1] == '\'' && s[2] == '\''));
        }
        assert(toml::piece_at(s, '\'', true) == Some((Some(s[0]), 1int)));
        lemma_may_stand_behind(s, '\'');
        lemma_single_lines(s.skip(1));
        assert(seq![s[0]] + s.skip(1) =~= s);
    } else {
        assert(s =~= Seq::empty());
    }
}

proof fn lemma_between_three(quote: char, s: Seq<char>)
    ensures
        toml::is_quoted(between(quote, 3, s), quote, 3),
        between(quote, 3, s).subrange(3, between(quote, 3, s).len() - 3) == s,
{
    let all = between(quote, 3, s);
    assert(all.subrange(3, all.len() - 3) =~= s);
}

/// Between three single quotes, a text stands for itself, over as many lines as it has, if it holds no
/// three single quotes in a row and no control character but tabs and newlines. A newline right behind
/// the first quotes does not count.
pub proof fn law_single_quoted_lines(s: Seq<char>)
    requires
        may_stand(s, '\''),
    ensures
        s.len() == 0 || !newline_at(s, 0) ==> toml::unquoted(between('\'', 3, s)) == Some(s),
        toml::unquoted(between('\'', 3, seq!['\n'] + s)) == Some(s),
        toml::unquoted(between('\'', 3, seq!['\r', '\n'] + s)) == Some(s),
{
    lemma_between_three('\'', s);
    lemma_between_three('\'', seq!['\n'] + s);
    lemma_between_three('\'', seq!['\r', '\n'] + s);
    lemma_single_lines(s);
    assert(s.skip(0) =~= s);
    assert((seq!['\n'] + s).skip(1) =~= s);
    assert((seq!['\r', '\n'] + s).skip(2) =~= s);
}

proof fn lemma_single_only(s: Seq<char>)
    ensures
        toml::contents(s, '\'', false) matches Some(found) ==> found == s && forall|i: int|
            0 <= i < s.len() ==> (#[trigger] s[i]) != '\'' && !needs_escape(s[i]),
    decreases s.len(),
{
    if s.len() > 0 {
        lemma_single_only(s.skip(1));
        if let Some(found) = toml::contents(s, '\'', false) {
            assert(seq![s[0]] + s.skip(1) =~= s);
            assert forall|i: int| 0 <= i < s.len() implies (#[trigger] s[i]) != '\''
                && !needs_escape(s[i]) by {
                if i > 0 {
                    assert(s.skip(1)[i - 1] == s[i]);
                }
            }
        }
    } else {
        assert(s =~= Seq::empty());
    }
}

/// Between single quotes, nothing but the text itself can be meant, and no text that holds a single
/// quote or a control character other than the tab.
pub proof fn law_single_quotes_mean_the_text(s: Seq<char>)
    requires
        s.len() == 0 || s[0] != '\'',
    ensures
        toml::unquoted(between('\'', 1, s)) == if forall|i: int|
            0 <= i < s.len() ==> (#[trigger] s[i]) != '\'' && !needs_escape(s[i]) {
            Some(s)
        } else {
            None
        },
{
    let all = between('\'', 1, s);
    assert(all.subrange(1, all.len() - 1) =~= s);
    if toml::is_quoted(all, '\'', 3) {
        assert(all[1] == '\'');
        assert(s[0] == '\'');
        assert(false);
    }
    lemma_single_only(s);
    if forall|i: int| 0 <= i < s.len() ==> (#[trigger] s[i]) != '\'' && !needs_escape(s[i]) {
        assert(toml::is_literal(s));
        toml::law_single_quotes(s);
        assert(all =~= seq!['\''] + s + seq!['\'']);
    }
}

// Double quotes

/// What is put in front of what a text stands for, if it stands for anything.
pub open spec fn with_first(c: char, rest: Option<Seq<char>>) -> Option<Seq<char>> {
    match rest {
        Some(rest) => Some(seq![c] + rest),
        None => None,
    }
}

/// Whether a text begins with a newline behind nothing but spaces and tabs.
pub open spec fn line_ends(s: Seq<char>) -> bool {
    exists|k: int| #[trigger] line_ends_at(s, k)
}

/// Whether a text has a newline at `k` and nothing but spaces and tabs before.
pub open spec fn line_ends_at(s: Seq<char>, k: int) -> bool {
    &&& 0 <= k < s.len()
    &&& newline_at(s, k)
    &&& forall|i: int| 0 <= i < k ==> #[trigger] s[i] == ' ' || s[i] == '\t'
}

proof fn lemma_escape(e: char, rest: Seq<char>, lines: bool)
    requires
        e != ' ',
        e != '\t',
        e != '\n',
        e != '\r',
        e != 'u',
        e != 'U',
    ensures
        toml::contents(seq!['\\', e] + rest, '"', lines) == match toml::escape_of(e) {
            Some(c) => with_first(c, toml::contents(rest, '"', lines)),
            None => None,
        },
{
    let s = seq!['\\', e] + rest;
    assert(s.skip(1)[0] == e);
    assert(s.skip(1).skip(0) =~= s.skip(1));
    assert(s.skip(2) =~= rest);
    assert(toml::blank_len(s.skip(1)) == 0);
    assert(!toml::ends_line(s.skip(1)));
}

/// Between double quotes, a backslash with one of seven characters stands for the character that it
/// is short for, whatever follows. With any other, but for numbers and the end of a line, the text is
/// no string.
pub proof fn law_short_escapes(e: char, rest: Seq<char>, lines: bool)
    ensures
        ({
            let of = |e: char| toml::contents(seq!['\\', e] + rest, '"', lines);
            let behind = toml::contents(rest, '"', lines);
            &&& of('b') == with_first('\u{8}', behind)
            &&& of('t') == with_first('\t', behind)
            &&& of('n') == with_first('\n', behind)
            &&& of('f') == with_first('\u{c}', behind)
            &&& of('r') == with_first('\r', behind)
            &&& of('"') == with_first('"', behind)
            &&& of('\\') == with_first('\\', behind)
            &&& e != 'b' && e != 't' && e != 'n' && e != 'f' && e != 'r' && e != '"' && e != '\\'
                && e != 'u' && e != 'U' && e != ' ' && e != '\t' && e != '\n' && e != '\r'
                ==> of(e) is None
        }),
{
    lemma_escape('b', rest, lines);
    lemma_escape('t', rest, lines);
    lemma_escape('n', rest, lines);
    lemma_escape('f', rest, lines);
    lemma_escape('r', rest, lines);
    lemma_escape('"', rest, lines);
    lemma_escape('\\', rest, lines);
    if e != 'u' && e != 'U' && e != ' ' && e != '\t' && e != '\n' && e != '\r' {
        lemma_escape(e, rest, lines);
    }
}

/// The hexadecimal digits of a number, in lower or in upper case, the highest one first.
pub open spec fn hexadecimal(n: int, count: nat, upper: bool) -> Seq<char>
    decreases count,
{
    if count == 0 {
        Seq::empty()
    } else {
        let low = n % 16;
        hexadecimal(n / 16, (count - 1) as nat, upper).push(
            (if low < 10 {
                '0' as int + low
            } else if upper {
                'A' as int + low - 10
            } else {
                'a' as int + low - 10
            }) as char,
        )
    }
}

/// Sixteen to some power.
pub open spec fn sixteens(count: nat) -> int
    decreases count,
{
    if count == 0 {
        1
    } else {
        16 * sixteens((count - 1) as nat)
    }
}

proof fn lemma_hexadecimal(n: int, count: nat, upper: bool)
    requires
        0 <= n < sixteens(count),
    ensures
        hexadecimal(n, count, upper).len() == count,
        toml::hex_number(hexadecimal(n, count, upper)) == Some(n),
    decreases count,
{
    let digits = hexadecimal(n, count, upper);
    if count == 0 {
        assert(n == 0);
        assert(toml::hex_number(Seq::empty()) == Some(0int));
        assert(digits =~= Seq::empty());
    } else {
        let fewer = hexadecimal(n / 16, (count - 1) as nat, upper);
        assert(0 <= n / 16 < sixteens((count - 1) as nat));
        lemma_hexadecimal(n / 16, (count - 1) as nat, upper);
        assert(digits.drop_last() =~= fewer);
        assert(toml::hex_digit(digits.last()) == Some(n % 16));
        assert(16 * (n / 16) + n % 16 == n);
    }
}

/// Between double quotes, `\u` with four hexadecimal digits and `\U` with eight stand for the
/// character with that number, whatever follows, in upper case and in lower case; and where there is no
/// such character, the text is no string.
pub proof fn law_numbered_escapes(n: int, upper: bool, rest: Seq<char>, lines: bool)
    requires
        0 <= n < 0x1_0000_0000,
    ensures
        ({
            let behind = toml::contents(rest, '"', lines);
            let exists_char = n < 0xd800 || 0xe000 <= n < 0x11_0000;
            let read = if exists_char {
                with_first(n as char, behind)
            } else {
                None
            };
            &&& n < 0x1_0000 ==> toml::contents(
                seq!['\\', 'u'] + hexadecimal(n, 4, upper) + rest,
                '"',
                lines,
            ) == read
            &&& toml::contents(
                seq!['\\', 'U'] + hexadecimal(n, 8, upper) + rest,
                '"',
                lines,
            ) == read
        }),
{
    reveal_with_fuel(sixteens, 9);
    lemma_hexadecimal(n, 8, upper);
    lemma_numbered(n, 'U', hexadecimal(n, 8, upper), rest, lines);
    if n < 0x1_0000 {
        lemma_hexadecimal(n, 4, upper);
        lemma_numbered(n, 'u', hexadecimal(n, 4, upper), rest, lines);
    }
}

proof fn lemma_numbered(n: int, e: char, digits: Seq<char>, rest: Seq<char>, lines: bool)
    requires
        e == 'u' && digits.len() == 4 || e == 'U' && digits.len() == 8,
        toml::hex_number(digits) == Some(n),
    ensures
        toml::contents(seq!['\\', e] + digits + rest, '"', lines) == if toml::is_scalar(n) {
            with_first(n as char, toml::contents(rest, '"', lines))
        } else {
            None
        },
{
    let s = seq!['\\', e] + digits + rest;
    let behind = s.skip(1);
    assert(behind[0] == e);
    assert(behind.subrange(1, 1 + digits.len() as int) =~= digits);
    assert(behind.skip(0) =~= behind);
    assert(toml::blank_len(behind) == 0);
    assert(!toml::ends_line(behind));
    assert(s.skip(2 + digits.len() as int) =~= rest);
    assert(toml::escape_at(behind) == if toml::is_scalar(n) {
        Some((n as char, 1 + digits.len() as int))
    } else {
        None
    });
}

/// Whether a text is made of spaces, tabs and newlines, and whether what follows neither goes on with
/// one nor completes one.
pub open spec fn is_space(space: Seq<char>, behind: Seq<char>) -> bool {
    &&& forall|i: int|
        0 <= i < space.len() ==> #[trigger] space[i] == ' ' || space[i] == '\t' || newline_at(
            space,
            i,
        )
    &&& behind.len() > 0 ==> behind[0] != ' ' && behind[0] != '\t' && behind[0] != '\n'
        && behind[0] != '\r'
}

proof fn lemma_space_len(space: Seq<char>, behind: Seq<char>)
    requires
        is_space(space, behind),
    ensures
        toml::space_len(space + behind) == space.len(),
    decreases space.len(),
{
    let s = space + behind;
    if space.len() == 0 {
        assert(s =~= behind);
    } else {
        assert(space[0] == ' ' || space[0] == '\t' || newline_at(space, 0));
        assert(s[0] == space[0]);
        let width = if space[0] == '\r' {
            2int
        } else {
            1
        };
        let rest = space.skip(width);
        assert forall|i: int| 0 <= i < rest.len() implies #[trigger] rest[i] == ' ' || rest[i]
            == '\t' || newline_at(rest, i) by {
            assert(rest[i] == space[i + width]);
        }
        lemma_space_len(rest, behind);
        assert(s.skip(width) =~= rest + behind);
        assert(s.drop_first() =~= s.skip(1));
        if width == 2 {
            assert(s[1] == space[1]);
            assert(toml::newline_len(s) == 2);
        }
    }
}

proof fn lemma_blank_len(s: Seq<char>, k: int)
    requires
        line_ends_at(s, k),
    ensures
        toml::blank_len(s) == k,
    decreases k,
{
    if k > 0 {
        assert(s[0] == ' ' || s[0] == '\t');
        let rest = s.drop_first();
        assert(rest[k - 1] == s[k]);
        assert forall|i: int| 0 <= i < k - 1 implies #[trigger] rest[i] == ' ' || rest[i]
            == '\t' by {
            assert(rest[i] == s[i + 1]);
        }
        assert(line_ends_at(rest, k - 1));
        lemma_blank_len(rest, k - 1);
    }
}

/// Between three double quotes, a backslash at the end of a line stands for nothing, together with all
/// spaces, tabs and newlines up to what comes next.
pub proof fn law_escaped_newlines(space: Seq<char>, behind: Seq<char>)
    requires
        is_space(space, behind),
        line_ends(space),
    ensures
        toml::contents(seq!['\\'] + space + behind, '"', true) == toml::contents(
            behind,
            '"',
            true,
        ),
{
    let s = seq!['\\'] + space + behind;
    let k = choose|k: int| #[trigger] line_ends_at(space, k);
    assert(s.skip(1) =~= space + behind);
    let rest = space + behind;
    assert(rest[k] == space[k]);
    assert forall|i: int| 0 <= i < k implies #[trigger] rest[i] == ' ' || rest[i] == '\t' by {
        assert(rest[i] == space[i]);
    }
    assert(line_ends_at(rest, k));
    lemma_blank_len(rest, k);
    assert(rest.skip(k)[0] == rest[k]);
    if rest[k] == '\r' {
        assert(rest.skip(k)[1] == rest[k + 1]);
    }
    assert(toml::ends_line(rest));
    lemma_space_len(space, behind);
    assert(s.skip(1 + space.len() as int) =~= behind);
}

/// Between double quotes, a character that is neither a double quote nor a backslash stands for
/// itself, unless it has to be escaped, and then the text is no string. Between three, so does a
/// newline, and a double quote if it is not the first of three in a row.
pub proof fn law_plain_characters(c: char, rest: Seq<char>, lines: bool)
    requires
        c != '\\',
    ensures
        ({
            let s = seq![c] + rest;
            let three = rest.len() >= 2 && rest[0] == '"' && rest[1] == '"';
            let stands = if c == '"' {
                lines && !three
            } else {
                !needs_escape(c) || lines && newline_at(s, 0)
            };
            toml::contents(s, '"', lines) == if stands {
                with_first(c, toml::contents(rest, '"', lines))
            } else {
                None
            }
        }),
{
    let s = seq![c] + rest;
    assert(s.skip(1) =~= rest);
    assert(s[0] == c);
    if rest.len() >= 1 {
        assert(s[1] == rest[0]);
    }
    if rest.len() >= 2 {
        assert(s[2] == rest[1]);
    }
}

/// What stands between one double quote on either side, or three, is what the string stands for. A
/// newline right behind three quotes does not count. A text that does not begin and end with the same
/// quote is no string.
pub proof fn law_double_quotes(s: Seq<char>)
    ensures
        s.len() == 0 || s[0] != '"' ==> toml::unquoted(between('"', 1, s)) == toml::contents(
            s,
            '"',
            false,
        ),
        s.len() == 0 || !newline_at(s, 0) ==> toml::unquoted(between('"', 3, s)) == toml::contents(
            s,
            '"',
            true,
        ),
        toml::unquoted(between('"', 3, seq!['\n'] + s)) == toml::contents(s, '"', true),
        toml::unquoted(between('"', 3, seq!['\r', '\n'] + s)) == toml::contents(s, '"', true),
        s.len() < 2 || s[0] != s.last() || s[0] != '"' && s[0] != '\'' ==> toml::unquoted(s) is None,
{
    let one = between('"', 1, s);
    assert(one.subrange(1, one.len() - 1) =~= s);
    if toml::is_quoted(one, '"', 3) && (s.len() == 0 || s[0] != '"') {
        assert(one[1] == '"');
        assert(s[0] == '"');
        assert(false);
    }
    lemma_between_three('"', s);
    lemma_between_three('"', seq!['\n'] + s);
    lemma_between_three('"', seq!['\r', '\n'] + s);
    assert(s.skip(0) =~= s);
    assert((seq!['\n'] + s).skip(1) =~= s);
    assert((seq!['\r', '\n'] + s).skip(2) =~= s);
    if s.len() > 0 {
        assert(s[0] == s[0] && s[s.len() - 1] == s.last());
    }
}

} // verus!

//! Text as sequences of characters: the few string operations that the rest of the library needs,
//! each with an exact contract.

use vstd::prelude::*;

verus! {

/// `String::push` appends one character to the end of the string.
pub assume_specification[ String::push ](string: &mut String, c: char)
    ensures
        final(string)@ == old(string)@.push(c),
;

/// The characters with the Unicode property `White_Space`.
pub open spec fn is_white_space(c: char) -> bool {
    ||| '\u{9}' <= c <= '\u{d}'
    ||| c == '\u{20}'
    ||| c == '\u{85}'
    ||| c == '\u{a0}'
    ||| c == '\u{1680}'
    ||| '\u{2000}' <= c <= '\u{200a}'
    ||| c == '\u{2028}'
    ||| c == '\u{2029}'
    ||| c == '\u{202f}'
    ||| c == '\u{205f}'
    ||| c == '\u{3000}'
}

/// `char::is_whitespace` holds of exactly the characters with the Unicode property `White_Space`.
pub assume_specification[ char::is_whitespace ](c: char) -> (b: bool)
    ensures
        b == is_white_space(c),
;

/// The characters of each string of `strings`.
pub open spec fn strings_view(strings: Seq<String>) -> Seq<Seq<char>> {
    strings.map_values(|s: String| s@)
}

/// The characters of a string that may be missing.
pub open spec fn option_view(string: Option<String>) -> Option<Seq<char>> {
    match string {
        Some(string) => Some(string@),
        None => None,
    }
}

/// The characters of `s`, one by one.
pub fn chars_of(s: &str) -> (chars: Vec<char>)
    ensures
        chars@ == s@,
{
    let mut chars: Vec<char> = Vec::new();
    for c in it: s.chars()
        invariant
            it.seq() == s@,
            chars@ == s@.take(it.index()),
    {
        chars.push(c);
    }
    chars
}

// Numbers

/// The character of a decimal digit.
pub open spec fn digit(value: nat) -> char {
    (48 + value) as char
}

/// A natural number in decimal.
pub open spec fn digits(value: nat) -> Seq<char>
    decreases value,
{
    if value < 10 {
        seq![digit(value)]
    } else {
        digits(value / 10).push(digit(value % 10))
    }
}

/// An integer in decimal, with a leading `-` if it is negative.
pub open spec fn decimal(value: int) -> Seq<char> {
    if value < 0 {
        seq!['-'] + digits((-value) as nat)
    } else {
        digits(value as nat)
    }
}

fn push_digits(out: &mut String, value: u64)
    ensures
        final(out)@ == old(out)@ + digits(value as nat),
    decreases value,
{
    if value >= 10 {
        push_digits(out, value / 10);
    }
    out.push((48 + (value % 10) as u8) as char);
    assert(out@ =~= old(out)@ + digits(value as nat));
}

/// Appends a natural number in decimal.
pub fn push_nat(out: &mut String, value: u64)
    ensures
        final(out)@ == old(out)@ + decimal(value as int),
{
    push_digits(out, value);
}

/// Appends an integer in decimal.
pub fn push_int(out: &mut String, value: i64)
    ensures
        final(out)@ == old(out)@ + decimal(value as int),
{
    if value < 0 {
        out.push('-');
        push_digits(out, (-(value as i128)) as u64);
    } else {
        push_digits(out, value as u64);
    }
    assert(out@ =~= old(out)@ + decimal(value as int));
}

// Comparing and searching

/// Whether two strings hold the same characters.
pub fn same(one: &str, other: &str) -> (b: bool)
    ensures
        b == (one@ == other@),
{
    let one_chars = chars_of(one);
    let other_chars = chars_of(other);
    if one_chars.len() != other_chars.len() {
        return false;
    }
    for i in 0..one_chars.len()
        invariant
            one_chars@ == one@,
            other_chars@ == other@,
            one@.len() == other@.len(),
            one@.take(i as int) == other@.take(i as int),
    {
        if one_chars[i] != other_chars[i] {
            return false;
        }
        assert(one@.take(i + 1) =~= one@.take(i as int).push(one@[i as int]));
        assert(other@.take(i + 1) =~= other@.take(i as int).push(other@[i as int]));
    }
    assert(one@.take(one@.len() as int) =~= one@);
    assert(other@.take(other@.len() as int) =~= other@);
    true
}

/// The position of the first `c`, or behind the end if there is none.
pub open spec fn position(s: Seq<char>, c: char) -> int
    decreases s.len(),
{
    if s.len() == 0 || s[0] == c {
        0
    } else {
        1 + position(s.drop_first(), c)
    }
}

/// The first `c` is one, there is none before it, and it lies behind the end only if there is none.
pub proof fn lemma_position(s: Seq<char>, c: char)
    ensures
        0 <= position(s, c) <= s.len(),
        position(s, c) < s.len() ==> s[position(s, c)] == c,
        forall|i: int| 0 <= i < position(s, c) ==> s[i] != c,
    decreases s.len(),
{
    if s.len() > 0 && s[0] != c {
        let rest = s.drop_first();
        lemma_position(rest, c);
        assert forall|i: int| 0 <= i < position(s, c) implies s[i] != c by {
            if i > 0 {
                assert(rest[i - 1] == s[i]);
            }
        }
    }
}

fn find(chars: &Vec<char>, start: usize, c: char) -> (end: usize)
    requires
        start <= chars@.len(),
    ensures
        end == start + position(chars@.skip(start as int), c),
        start <= end <= chars@.len(),
{
    let mut end = start;
    while end < chars.len() && chars[end] != c
        invariant
            start <= end <= chars@.len(),
            start + position(chars@.skip(start as int), c) == end + position(
                chars@.skip(end as int),
                c,
            ),
        decreases chars@.len() - end,
    {
        assert(chars@.skip(end as int).drop_first() =~= chars@.skip(end + 1));
        end = end + 1;
    }
    end
}

/// Whether `s` contains `c`.
pub fn contains(s: &str, c: char) -> (b: bool)
    ensures
        b == s@.contains(c),
{
    let chars = chars_of(s);
    let end = find(&chars, 0, c);
    proof {
        assert(chars@.skip(0) =~= s@);
        lemma_position(s@, c);
    }
    end < chars.len()
}

/// What stands before and behind the first `c` of a string that contains one.
pub open spec fn split_at_first(s: Seq<char>, c: char) -> Option<(Seq<char>, Seq<char>)> {
    if s.contains(c) {
        Some((s.take(position(s, c)), s.skip(position(s, c) + 1)))
    } else {
        None
    }
}

/// What stands before and behind the first `c`.
pub fn split_once<'a>(s: &'a str, c: char) -> (parts: Option<(&'a str, &'a str)>)
    ensures
        match split_at_first(s@, c) {
            Some((before, behind)) => parts matches Some(found) && found.0@ == before && found.1@
                == behind,
            None => parts is None,
        },
{
    let chars = chars_of(s);
    let end = find(&chars, 0, c);
    proof {
        assert(chars@.skip(0) =~= s@);
        lemma_position(s@, c);
    }
    if end < chars.len() {
        Some((s.substring_char(0, end), s.substring_char(end + 1, chars.len())))
    } else {
        None
    }
}

/// What follows `prefix` in a string that begins with it.
pub open spec fn without_prefix(s: Seq<char>, prefix: Seq<char>) -> Option<Seq<char>> {
    if prefix.is_prefix_of(s) {
        Some(s.skip(prefix.len() as int))
    } else {
        None
    }
}

/// What precedes `suffix` in a string that ends with it.
pub open spec fn without_suffix(s: Seq<char>, suffix: Seq<char>) -> Option<Seq<char>> {
    if suffix.is_suffix_of(s) {
        Some(s.take(s.len() - suffix.len()))
    } else {
        None
    }
}

/// What follows `prefix`, if `s` begins with it.
pub fn strip_prefix<'a>(s: &'a str, prefix: &str) -> (rest: Option<&'a str>)
    ensures
        match without_prefix(s@, prefix@) {
            Some(chars) => rest matches Some(found) && found@ == chars,
            None => rest is None,
        },
{
    let len = s.unicode_len();
    let prefix_len = prefix.unicode_len();
    if prefix_len <= len && same(s.substring_char(0, prefix_len), prefix) {
        Some(s.substring_char(prefix_len, len))
    } else {
        None
    }
}

/// What precedes `suffix`, if `s` ends with it.
pub fn strip_suffix<'a>(s: &'a str, suffix: &str) -> (rest: Option<&'a str>)
    ensures
        match without_suffix(s@, suffix@) {
            Some(chars) => rest matches Some(found) && found@ == chars,
            None => rest is None,
        },
{
    let len = s.unicode_len();
    let suffix_len = suffix.unicode_len();
    if suffix_len <= len && same(s.substring_char(len - suffix_len, len), suffix) {
        Some(s.substring_char(0, len - suffix_len))
    } else {
        None
    }
}

// Trimming and splitting

/// A string without the white space that it begins with.
pub open spec fn trim_start(s: Seq<char>) -> Seq<char>
    decreases s.len(),
{
    if s.len() > 0 && is_white_space(s[0]) {
        trim_start(s.drop_first())
    } else {
        s
    }
}

/// A string without the white space that it ends with.
pub open spec fn trim_end(s: Seq<char>) -> Seq<char>
    decreases s.len(),
{
    if s.len() > 0 && is_white_space(s.last()) {
        trim_end(s.drop_last())
    } else {
        s
    }
}

/// A string without the white space around it.
pub open spec fn trimmed(s: Seq<char>) -> Seq<char> {
    trim_end(trim_start(s))
}

/// `s` without the white space around it.
pub fn trim<'a>(s: &'a str) -> (inner: &'a str)
    ensures
        inner@ == trimmed(s@),
{
    let chars = chars_of(s);
    let len = chars.len();
    let mut start: usize = 0;
    assert(s@.skip(0) =~= s@);
    while start < len && chars[start].is_whitespace()
        invariant
            chars@ == s@,
            len == s@.len(),
            start <= len,
            trim_start(s@) == trim_start(s@.skip(start as int)),
        decreases len - start,
    {
        assert(s@.skip(start as int).drop_first() =~= s@.skip(start + 1));
        start = start + 1;
    }
    let mut end = len;
    assert(s@.subrange(start as int, end as int) =~= s@.skip(start as int));
    while start < end && chars[end - 1].is_whitespace()
        invariant
            chars@ == s@,
            start <= end <= s@.len(),
            trimmed(s@) == trim_end(s@.subrange(start as int, end as int)),
        decreases end,
    {
        assert(s@.subrange(start as int, end as int).drop_last() =~= s@.subrange(
            start as int,
            end - 1,
        ));
        end = end - 1;
    }
    s.substring_char(start, end)
}

/// A line without the carriage return that it may end with.
pub open spec fn without_return(line: Seq<char>) -> Seq<char> {
    if line.len() > 0 && line.last() == '\r' {
        line.drop_last()
    } else {
        line
    }
}

/// The lines of a text. Each ends in a newline, or a carriage return and a newline, which are not
/// part of it; only the last one need not.
pub open spec fn lines_of(text: Seq<char>) -> Seq<Seq<char>>
    decreases text.len(),
{
    if text.len() == 0 {
        Seq::empty()
    } else if position(text, '\n') >= text.len() {
        seq![text]
    } else {
        proof {
            lemma_position(text, '\n');
        }
        seq![without_return(text.take(position(text, '\n')))] + lines_of(
            text.skip(position(text, '\n') + 1),
        )
    }
}

/// The characters of each of `strs`.
pub open spec fn strs_view(strs: Seq<&str>) -> Seq<Seq<char>> {
    strs.map_values(|s: &str| s@)
}

/// The lines of `text`.
pub fn lines<'a>(text: &'a str) -> (lines: Vec<&'a str>)
    ensures
        strs_view(lines@) == lines_of(text@),
{
    let chars = chars_of(text);
    let len = chars.len();
    let mut lines: Vec<&'a str> = Vec::new();
    let mut start: usize = 0;
    proof {
        assert(text@.skip(0) =~= text@);
        assert(strs_view(lines@) + lines_of(text@) =~= lines_of(text@));
    }
    while start < len
        invariant
            chars@ == text@,
            len == text@.len(),
            start <= len,
            lines_of(text@) == strs_view(lines@) + lines_of(text@.skip(start as int)),
        decreases len - start,
    {
        let ghost before = strs_view(lines@);
        let ghost rest = text@.skip(start as int);
        let end = find(&chars, start, '\n');
        proof {
            lemma_position(rest, '\n');
        }
        if end == len {
            let line = text.substring_char(start, len);
            lines.push(line);
            proof {
                assert(line@ =~= rest);
                assert(strs_view(lines@) =~= before + seq![rest]);
                assert(text@.skip(len as int) =~= Seq::empty());
                assert(strs_view(lines@) + lines_of(text@.skip(len as int)) =~= before + seq![rest]);
            }
            start = len;
        } else {
            let line = if end > start && chars[end - 1] == '\r' {
                text.substring_char(start, end - 1)
            } else {
                text.substring_char(start, end)
            };
            lines.push(line);
            proof {
                let first = without_return(rest.take(end - start));
                assert(line@ =~= first);
                assert(rest.skip(end - start + 1) =~= text@.skip(end + 1));
                assert(strs_view(lines@) =~= before.push(first));
                assert(strs_view(lines@) + lines_of(text@.skip(end + 1)) =~= before + (seq![first]
                    + lines_of(text@.skip(end + 1))));
            }
            start = end + 1;
        }
    }
    proof {
        assert(text@.skip(start as int) =~= Seq::empty());
        assert(strs_view(lines@) + lines_of(text@.skip(start as int)) =~= strs_view(lines@));
    }
    lines
}

/// How many characters stand before the first white space.
pub open spec fn word_len(s: Seq<char>) -> int
    decreases s.len(),
{
    if s.len() == 0 || is_white_space(s[0]) {
        0
    } else {
        1 + word_len(s.drop_first())
    }
}

pub proof fn lemma_word_len(s: Seq<char>)
    ensures
        0 <= word_len(s) <= s.len(),
    decreases s.len(),
{
    if s.len() > 0 {
        lemma_word_len(s.drop_first());
    }
}

pub proof fn lemma_trim_start(s: Seq<char>)
    ensures
        trim_start(s).len() <= s.len(),
        trim_start(s).len() > 0 ==> !is_white_space(trim_start(s)[0]),
    decreases s.len(),
{
    if s.len() > 0 && is_white_space(s[0]) {
        lemma_trim_start(s.drop_first());
    }
}

/// The words of a text: its longest parts without white space.
pub open spec fn words_of(text: Seq<char>) -> Seq<Seq<char>>
    decreases text.len(),
{
    let rest = trim_start(text);
    if rest.len() == 0 {
        Seq::empty()
    } else {
        proof {
            lemma_trim_start(text);
            lemma_word_len(rest.drop_first());
        }
        seq![rest.take(word_len(rest))] + words_of(rest.skip(word_len(rest)))
    }
}

/// The words of `text`.
pub fn split_whitespace<'a>(text: &'a str) -> (words: Vec<&'a str>)
    ensures
        strs_view(words@) == words_of(text@),
{
    let chars = chars_of(text);
    let len = chars.len();
    let mut words: Vec<&'a str> = Vec::new();
    let mut start: usize = 0;
    proof {
        assert(text@.skip(0) =~= text@);
        assert(strs_view(words@) + words_of(text@) =~= words_of(text@));
    }
    while start < len
        invariant
            chars@ == text@,
            len == text@.len(),
            start <= len,
            words_of(text@) == strs_view(words@) + words_of(text@.skip(start as int)),
        decreases len - start,
    {
        let ghost before = strs_view(words@);
        let ghost rest = text@.skip(start as int);
        if chars[start].is_whitespace() {
            assert(rest.drop_first() =~= text@.skip(start + 1));
            assert(words_of(rest) == words_of(rest.drop_first()));
            start = start + 1;
        } else {
            let mut end = start + 1;
            assert(rest.drop_first() =~= text@.skip(end as int));
            while end < len && !chars[end].is_whitespace()
                invariant
                    chars@ == text@,
                    len == text@.len(),
                    start < end <= len,
                    rest == text@.skip(start as int),
                    word_len(rest) == end - start + word_len(text@.skip(end as int)),
                decreases len - end,
            {
                assert(text@.skip(end as int).drop_first() =~= text@.skip(end + 1));
                end = end + 1;
            }
            let word = text.substring_char(start, end);
            words.push(word);
            proof {
                assert(word@ =~= rest.take(end - start));
                assert(rest.skip(end - start) =~= text@.skip(end as int));
                assert(strs_view(words@) =~= before.push(word@));
                assert(strs_view(words@) + words_of(text@.skip(end as int)) =~= before + (
                seq![word@] + words_of(text@.skip(end as int))));
            }
            start = end;
        }
    }
    proof {
        assert(text@.skip(start as int) =~= Seq::empty());
        assert(strs_view(words@) + words_of(text@.skip(start as int)) =~= strs_view(words@));
    }
    words
}

// Putting text together

/// The strings of a list with `separator` between them.
pub open spec fn joined(strings: Seq<Seq<char>>, separator: Seq<char>) -> Seq<char>
    decreases strings.len(),
{
    if strings.len() == 0 {
        Seq::empty()
    } else if strings.len() == 1 {
        strings[0]
    } else {
        joined(strings.drop_last(), separator) + separator + strings.last()
    }
}

/// The strings of `strings` with `separator` between them.
pub fn join(strings: &Vec<String>, separator: &str) -> (text: String)
    ensures
        text@ == joined(strings_view(strings@), separator@),
{
    let ghost views = strings_view(strings@);
    let mut text = String::new();
    for i in 0..strings.len()
        invariant
            views == strings_view(strings@),
            text@ == joined(views.take(i as int), separator@),
    {
        if i > 0 {
            text.append(separator);
        }
        text.append(strings[i].as_str());
        proof {
            assert(views.take(i + 1).drop_last() =~= views.take(i as int));
            assert(views.take(i + 1).last() == strings[i as int]@);
            assert(text@ =~= joined(views.take(i + 1), separator@));
        }
    }
    assert(views.take(views.len() as int) =~= views);
    text
}

/// A complaint about a file.
pub open spec fn about_file(path: Seq<char>, message: Seq<char>) -> Seq<char> {
    path + ": "@ + message
}

/// A complaint about a file.
pub fn complaint(path: &str, message: &str) -> (text: String)
    ensures
        text@ == about_file(path@, message@),
{
    let mut text = String::new();
    text.append(path);
    text.append(": ");
    text.append(message);
    assert(text@ =~= about_file(path@, message@));
    text
}

} // verus!

//! Strings as TOML 1.0 writes them: between double quotes with escapes, or between single quotes as
//! they are; and either between three quotes, where they may go on over several lines.

use crate::text;
use vstd::prelude::*;
use vstd::slice::slice_subrange;

verus! {

/// Whether a number is that of a character.
pub open spec fn is_scalar(n: int) -> bool {
    0 <= n <= 0xd7ff || 0xe000 <= n <= 0x10ffff
}

/// `char::from_u32` returns the character with the given number, and nothing where the number is
/// not that of a Unicode scalar value.
pub assume_specification[ char::from_u32 ](i: u32) -> (c: Option<char>)
    ensures
        c == (if is_scalar(i as int) {
            Some(i as int as char)
        } else {
            None
        }),
;

// Characters

/// Whether a character is a control character that has to be escaped. Only the tab may stand as it
/// is.
pub open spec fn is_control(c: char) -> bool {
    c < ' ' && c != '\t' || c == '\u{7f}'
}

/// What a hexadecimal digit stands for.
pub open spec fn hex_digit(c: char) -> Option<int> {
    if '0' <= c <= '9' {
        Some(c as int - '0' as int)
    } else if 'a' <= c <= 'f' {
        Some(c as int - 'a' as int + 10)
    } else if 'A' <= c <= 'F' {
        Some(c as int - 'A' as int + 10)
    } else {
        None
    }
}

/// The number that hexadecimal digits stand for.
pub open spec fn hex_number(digits: Seq<char>) -> Option<int>
    decreases digits.len(),
{
    if digits.len() == 0 {
        Some(0)
    } else {
        match (hex_number(digits.drop_last()), hex_digit(digits.last())) {
            (Some(high), Some(low)) => Some(16 * high + low),
            _ => None,
        }
    }
}

/// The character whose number is written in hexadecimal digits.
pub open spec fn numbered_char(digits: Seq<char>) -> Option<char> {
    match hex_number(digits) {
        Some(n) => if is_scalar(n) {
            Some(n as char)
        } else {
            None
        },
        None => None,
    }
}

/// The character that a short escape stands for, by the character behind the backslash.
pub open spec fn escape_of(c: char) -> Option<char> {
    if c == 'b' {
        Some('\u{8}')
    } else if c == 't' {
        Some('\t')
    } else if c == 'n' {
        Some('\n')
    } else if c == 'f' {
        Some('\u{c}')
    } else if c == 'r' {
        Some('\r')
    } else if c == '"' {
        Some('"')
    } else if c == '\\' {
        Some('\\')
    } else {
        None
    }
}

/// The character that an escape stands for, by the text behind the backslash; and how much of that
/// text belongs to the escape.
pub open spec fn escape_at(s: Seq<char>) -> Option<(char, int)> {
    if s.len() == 0 {
        None
    } else if s[0] == 'u' || s[0] == 'U' {
        let width = if s[0] == 'u' {
            4int
        } else {
            8
        };
        if s.len() <= width {
            None
        } else {
            match numbered_char(s.subrange(1, 1 + width)) {
                Some(c) => Some((c, 1 + width)),
                None => None,
            }
        }
    } else {
        match escape_of(s[0]) {
            Some(c) => Some((c, 1)),
            None => None,
        }
    }
}

// Lines

/// How long the newline is that a text begins with.
pub open spec fn newline_len(s: Seq<char>) -> int {
    if s.len() >= 1 && s[0] == '\n' {
        1
    } else if s.len() >= 2 && s[0] == '\r' && s[1] == '\n' {
        2
    } else {
        0
    }
}

/// How many spaces and tabs a text begins with.
pub open spec fn blank_len(s: Seq<char>) -> int
    decreases s.len(),
{
    if s.len() > 0 && (s[0] == ' ' || s[0] == '\t') {
        1 + blank_len(s.drop_first())
    } else {
        0
    }
}

/// How many spaces, tabs and characters of newlines a text begins with.
pub open spec fn space_len(s: Seq<char>) -> int
    decreases s.len(),
{
    if s.len() > 0 && (s[0] == ' ' || s[0] == '\t') {
        1 + space_len(s.drop_first())
    } else if newline_len(s) > 0 {
        newline_len(s) + space_len(s.skip(newline_len(s)))
    } else {
        0
    }
}

pub proof fn lemma_blank_len(s: Seq<char>)
    ensures
        0 <= blank_len(s) <= s.len(),
    decreases s.len(),
{
    if s.len() > 0 {
        lemma_blank_len(s.drop_first());
    }
}

pub proof fn lemma_space_len(s: Seq<char>)
    ensures
        0 <= space_len(s) <= s.len(),
    decreases s.len(),
{
    if s.len() > 0 && (s[0] == ' ' || s[0] == '\t') {
        lemma_space_len(s.drop_first());
    } else if newline_len(s) > 0 {
        lemma_space_len(s.skip(newline_len(s)));
    }
}

/// Whether the line that a text begins in ends behind nothing but spaces and tabs.
pub open spec fn ends_line(s: Seq<char>) -> bool {
    newline_len(s.skip(blank_len(s))) > 0
}

// What stands between the quotes

/// What the next piece between quotes stands for, a character or nothing, and how long it is. Only
/// between double quotes are there escapes; only between three quotes are there newlines, escaped
/// newlines, which stand for nothing together with the white space behind them, and up to two quotes
/// in a row.
pub open spec fn piece_at(s: Seq<char>, quote: char, lines: bool) -> Option<(Option<char>, int)> {
    if quote == '"' && s[0] == '\\' {
        if lines && ends_line(s.skip(1)) {
            Some((None, 1 + space_len(s.skip(1))))
        } else {
            match escape_at(s.skip(1)) {
                Some((c, width)) => Some((Some(c), 1 + width)),
                None => None,
            }
        }
    } else if s[0] == quote {
        if lines && !(s.len() >= 3 && s[1] == quote && s[2] == quote) {
            Some((Some(quote), 1))
        } else {
            None
        }
    } else if newline_len(s) > 0 && lines || !is_control(s[0]) {
        Some((Some(s[0]), 1))
    } else {
        None
    }
}

pub proof fn lemma_piece_len(s: Seq<char>, quote: char, lines: bool)
    requires
        s.len() > 0,
    ensures
        piece_at(s, quote, lines) matches Some((_, width)) ==> 1 <= width <= s.len(),
{
    lemma_space_len(s.skip(1));
}

/// What the text between quotes stands for; none, if it cannot stand there.
pub open spec fn contents(s: Seq<char>, quote: char, lines: bool) -> Option<Seq<char>>
    decreases s.len(),
{
    if s.len() == 0 {
        Some(Seq::empty())
    } else {
        proof {
            lemma_piece_len(s, quote, lines);
        }
        match piece_at(s, quote, lines) {
            None => None,
            Some((c, width)) => match (contents(s.skip(width), quote, lines), c) {
                (None, _) => None,
                (Some(rest), Some(c)) => Some(seq![c] + rest),
                (Some(rest), None) => Some(rest),
            },
        }
    }
}

/// Whether a text stands between `count` quotes on either side.
pub open spec fn is_quoted(s: Seq<char>, quote: char, count: int) -> bool {
    &&& s.len() >= 2 * count
    &&& forall|i: int| 0 <= i < count ==> #[trigger] s[i] == quote
    &&& forall|i: int| s.len() - count <= i < s.len() ==> #[trigger] s[i] == quote
}

/// What a text stands for that stands between three quotes on either side. A newline right behind
/// the first ones does not count.
pub open spec fn unquoted_lines(s: Seq<char>, quote: char) -> Option<Seq<char>> {
    let inner = s.subrange(3, s.len() - 3);
    contents(inner.skip(newline_len(inner)), quote, true)
}

/// What a text stands for that is quoted with `quote`.
pub open spec fn unquoted_with(s: Seq<char>, quote: char) -> Option<Seq<char>> {
    if is_quoted(s, quote, 3) {
        unquoted_lines(s, quote)
    } else if is_quoted(s, quote, 1) {
        contents(s.subrange(1, s.len() - 1), quote, false)
    } else {
        None
    }
}

/// What a TOML string stands for; none, if the text is no TOML string.
pub open spec fn unquoted(s: Seq<char>) -> Option<Seq<char>> {
    if s.len() > 0 && s[0] == '\'' {
        unquoted_with(s, '\'')
    } else {
        unquoted_with(s, '"')
    }
}

// Reading

proof fn lemma_hex_grows(digits: Seq<char>, len: int)
    requires
        0 <= len <= digits.len(),
    ensures
        hex_number(digits) matches Some(n) ==> 0 <= n,
        hex_number(digits) matches Some(n) ==> (hex_number(digits.take(len)) matches Some(m) && m
            <= n),
    decreases digits.len(),
{
    if len == digits.len() {
        assert(digits.take(len) =~= digits);
        if digits.len() > 0 {
            lemma_hex_grows(digits.drop_last(), len - 1);
        }
    } else {
        assert(digits.drop_last().take(len) =~= digits.take(len));
        lemma_hex_grows(digits.drop_last(), len);
    }
}

fn digit(c: char) -> (value: Option<u32>)
    ensures
        match hex_digit(c) {
            Some(n) => value matches Some(found) && found == n && found < 16,
            None => value is None,
        },
{
    if '0' <= c && c <= '9' {
        Some(c as u32 - '0' as u32)
    } else if 'a' <= c && c <= 'f' {
        Some(c as u32 - 'a' as u32 + 10)
    } else if 'A' <= c && c <= 'F' {
        Some(c as u32 - 'A' as u32 + 10)
    } else {
        None
    }
}

fn read_number(digits: &[char]) -> (c: Option<char>)
    ensures
        c == numbered_char(digits@),
{
    let mut n: u32 = 0;
    for i in 0..digits.len()
        invariant
            n <= 0x10ffff,
            hex_number(digits@.take(i as int)) == Some(n as int),
    {
        proof {
            assert(digits@.take(i + 1).drop_last() =~= digits@.take(i as int));
            lemma_hex_grows(digits@, i + 1);
        }
        match digit(digits[i]) {
            Some(low) => {
                n = 16 * n + low;
            },
            None => {
                return None;
            },
        }
        if n > 0x10ffff {
            return None;
        }
    }
    assert(digits@.take(digits@.len() as int) =~= digits@);
    char::from_u32(n)
}

fn escape(c: char) -> (stands_for: Option<char>)
    ensures
        stands_for == escape_of(c),
{
    match c {
        'b' => Some('\u{8}'),
        't' => Some('\t'),
        'n' => Some('\n'),
        'f' => Some('\u{c}'),
        'r' => Some('\r'),
        '"' => Some('"'),
        '\\' => Some('\\'),
        _ => None,
    }
}

fn read_escape(s: &[char]) -> (escape: Option<(char, usize)>)
    ensures
        match escape_at(s@) {
            Some((c, width)) => escape matches Some(found) && found.0 == c && found.1 == width,
            None => escape is None,
        },
{
    if s.len() == 0 {
        return None;
    }
    if s[0] == 'u' || s[0] == 'U' {
        let width: usize = if s[0] == 'u' {
            4
        } else {
            8
        };
        if s.len() <= width {
            return None;
        }
        match read_number(slice_subrange(s, 1, 1 + width)) {
            Some(c) => Some((c, 1 + width)),
            None => None,
        }
    } else {
        match self::escape(s[0]) {
            Some(c) => Some((c, 1)),
            None => None,
        }
    }
}

fn count_newline(s: &[char]) -> (len: usize)
    ensures
        len == newline_len(s@),
        len <= s@.len(),
{
    if s.len() >= 1 && s[0] == '\n' {
        1
    } else if s.len() >= 2 && s[0] == '\r' && s[1] == '\n' {
        2
    } else {
        0
    }
}

fn count_blank(s: &[char]) -> (len: usize)
    ensures
        len == blank_len(s@),
        len <= s@.len(),
{
    let mut len: usize = 0;
    assert(s@.skip(0) =~= s@);
    while len < s.len() && (s[len] == ' ' || s[len] == '\t')
        invariant
            len <= s@.len(),
            blank_len(s@) == len + blank_len(s@.skip(len as int)),
        decreases s@.len() - len,
    {
        assert(s@.skip(len as int).drop_first() =~= s@.skip(len + 1));
        len = len + 1;
    }
    len
}

fn count_space(s: &[char]) -> (len: usize)
    ensures
        len == space_len(s@),
        len <= s@.len(),
{
    let mut len: usize = 0;
    assert(s@.skip(0) =~= s@);
    while len < s.len()
        invariant
            len <= s@.len(),
            space_len(s@) == len + space_len(s@.skip(len as int)),
        decreases s@.len() - len,
    {
        let rest = slice_subrange(s, len, s.len());
        assert(rest@ =~= s@.skip(len as int));
        let width = if rest[0] == ' ' || rest[0] == '\t' {
            1
        } else {
            count_newline(rest)
        };
        if width == 0 {
            return len;
        }
        proof {
            assert(rest@.skip(width as int) =~= s@.skip(len + width));
            assert(rest@.drop_first() =~= rest@.skip(1));
        }
        len = len + width;
    }
    len
}

fn line_ends(s: &[char]) -> (b: bool)
    ensures
        b == ends_line(s@),
{
    let blank = count_blank(s);
    let rest = slice_subrange(s, blank, s.len());
    assert(rest@ =~= s@.skip(blank_len(s@)));
    count_newline(rest) > 0
}

fn read_piece(s: &[char], quote: char, lines: bool) -> (piece: Option<(Option<char>, usize)>)
    requires
        s@.len() > 0,
    ensures
        match piece_at(s@, quote, lines) {
            Some((c, width)) => piece matches Some(found) && found.0 == c && found.1 == width,
            None => piece is None,
        },
{
    let c = s[0];
    if quote == '"' && c == '\\' {
        let behind = slice_subrange(s, 1, s.len());
        assert(behind@ =~= s@.skip(1));
        if lines && line_ends(behind) {
            return Some((None, 1 + count_space(behind)));
        }
        return match read_escape(behind) {
            Some((c, width)) => Some((Some(c), 1 + width)),
            None => None,
        };
    }
    if c == quote {
        return if lines && !(s.len() >= 3 && s[1] == quote && s[2] == quote) {
            Some((Some(quote), 1))
        } else {
            None
        };
    }
    if lines && count_newline(s) > 0 || !(c < ' ' && c != '\t' || c == '\u{7f}') {
        Some((Some(c), 1))
    } else {
        None
    }
}

fn read_contents(s: &[char], quote: char, lines: bool) -> (string: Option<String>)
    ensures
        text::option_view(string) == contents(s@, quote, lines),
{
    let mut out = String::new();
    let mut pos: usize = 0;
    proof {
        assert(s@.skip(0) =~= s@);
        assert(forall|rest: Seq<char>| Seq::<char>::empty() + rest =~= rest);
    }
    while pos < s.len()
        invariant
            pos <= s@.len(),
            contents(s@, quote, lines) == match contents(s@.skip(pos as int), quote, lines) {
                Some(rest) => Some(out@ + rest),
                None => None,
            },
        decreases s@.len() - pos,
    {
        let ghost before = out@;
        let rest = slice_subrange(s, pos, s.len());
        proof {
            assert(rest@ =~= s@.skip(pos as int));
            lemma_piece_len(rest@, quote, lines);
        }
        match read_piece(rest, quote, lines) {
            Some((c, width)) => {
                assert(rest@.skip(width as int) =~= s@.skip(pos + width));
                if let Some(c) = c {
                    out.push(c);
                    assert(forall|more: Seq<char>| before + (seq![c] + more) =~= out@ + more);
                }
                pos = pos + width;
            },
            None => {
                return None;
            },
        }
    }
    proof {
        assert(s@.skip(pos as int) =~= Seq::empty());
        assert(out@ + Seq::<char>::empty() =~= out@);
    }
    Some(out)
}

fn stands_between(s: &[char], quote: char, count: usize) -> (b: bool)
    requires
        count <= 3,
    ensures
        b == is_quoted(s@, quote, count as int),
{
    let len = s.len();
    if len < 2 * count {
        return false;
    }
    for i in 0..count
        invariant
            2 * count <= len == s@.len(),
            count <= 3,
            forall|j: int| 0 <= j < i ==> #[trigger] s@[j] == quote,
            forall|j: int| len - i <= j < len ==> #[trigger] s@[j] == quote,
    {
        if s[i] != quote || s[len - 1 - i] != quote {
            return false;
        }
    }
    true
}

fn unquote_with(s: &[char], quote: char) -> (string: Option<String>)
    ensures
        text::option_view(string) == unquoted_with(s@, quote),
{
    if stands_between(s, quote, 3) {
        let inner = slice_subrange(s, 3, s.len() - 3);
        let skipped = count_newline(inner);
        let rest = slice_subrange(inner, skipped, inner.len());
        assert(rest@ =~= inner@.skip(newline_len(inner@)));
        read_contents(rest, quote, true)
    } else if stands_between(s, quote, 1) {
        read_contents(slice_subrange(s, 1, s.len() - 1), quote, false)
    } else {
        None
    }
}

/// Reads a TOML string
pub fn unquote(value: &str) -> (string: Option<String>)
    ensures
        text::option_view(string) == unquoted(value@),
{
    let chars = text::chars_of(value);
    if chars.len() > 0 && chars[0] == '\'' {
        unquote_with(chars.as_slice(), '\'')
    } else {
        unquote_with(chars.as_slice(), '"')
    }
}

// Laws

/// Whether a text can stand between single quotes.
pub open spec fn is_literal(s: Seq<char>) -> bool {
    forall|i: int| 0 <= i < s.len() ==> (#[trigger] s[i]) != '\'' && !is_control(s[i])
}

proof fn lemma_literal(s: Seq<char>)
    requires
        is_literal(s),
    ensures
        contents(s, '\'', false) == Some(s),
    decreases s.len(),
{
    if s.len() > 0 {
        assert(s[0] != '\'' && !is_control(s[0]));
        assert forall|i: int| 0 <= i < s.skip(1).len() implies (#[trigger] s.skip(1)[i]) != '\''
            && !is_control(s.skip(1)[i]) by {
            assert(s.skip(1)[i] == s[i + 1]);
        }
        lemma_literal(s.skip(1));
        assert(seq![s[0]] + s.skip(1) =~= s);
    }
}

/// Between single quotes, any text stands for itself that holds neither a single quote nor a control
/// character other than the tab.
pub proof fn law_single_quotes(s: Seq<char>)
    requires
        is_literal(s),
    ensures
        unquoted(seq!['\''] + s + seq!['\'']) == Some(s),
{
    let quoted = seq!['\''] + s + seq!['\''];
    assert(quoted.subrange(1, quoted.len() - 1) =~= s);
    if is_quoted(quoted, '\'', 3) {
        assert(quoted[1] == '\'');
        assert(s[0] == '\'');
        assert(false);
    }
    lemma_literal(s);
}

/// The hexadecimal digit for a number below sixteen.
pub open spec fn hex_char(n: int) -> char {
    (if n < 10 {
        '0' as int + n
    } else {
        'a' as int + n - 10
    }) as char
}

/// A character as it can be written between double quotes.
pub open spec fn written_char(c: char) -> Seq<char> {
    if c == '"' || c == '\\' {
        seq!['\\', c]
    } else if is_control(c) {
        seq!['\\', 'u', '0', '0', hex_char(c as int / 16), hex_char(c as int % 16)]
    } else {
        seq![c]
    }
}

/// A text as it can be written between double quotes.
pub open spec fn written(s: Seq<char>) -> Seq<char>
    decreases s.len(),
{
    if s.len() == 0 {
        Seq::empty()
    } else {
        written_char(s[0]) + written(s.skip(1))
    }
}

proof fn lemma_hex_char(n: int)
    requires
        0 <= n < 16,
    ensures
        hex_digit(hex_char(n)) == Some(n),
{
}

proof fn lemma_written_control(c: char)
    requires
        is_control(c),
    ensures
        hex_number(seq!['0', '0', hex_char(c as int / 16), hex_char(c as int % 16)]) == Some(
            c as int,
        ),
{
    let high = hex_char(c as int / 16);
    let low = hex_char(c as int % 16);
    lemma_hex_char(c as int / 16);
    lemma_hex_char(c as int % 16);
    let digits = seq!['0', '0', high, low];
    assert(digits.drop_last() =~= seq!['0', '0', high]);
    assert(seq!['0', '0', high].drop_last() =~= seq!['0', '0']);
    assert(seq!['0', '0'].drop_last() =~= seq!['0']);
    assert(seq!['0'].drop_last() =~= Seq::empty());
    assert(hex_number(Seq::empty()) == Some(0int));
    assert(hex_digit('0') == Some(0int));
    assert(hex_number(seq!['0']) == Some(0int));
    assert(hex_number(seq!['0', '0']) == Some(0int));
    assert(hex_number(seq!['0', '0', high]) == Some(c as int / 16));
}

proof fn lemma_written_piece(c: char, behind: Seq<char>)
    ensures
        piece_at(written_char(c) + behind, '"', false) == Some(
            (Some(c), written_char(c).len() as int),
        ),
{
    let s = written_char(c) + behind;
    if c == '"' || c == '\\' {
        assert(s.skip(1)[0] == c);
    } else if is_control(c) {
        let digits = seq!['0', '0', hex_char(c as int / 16), hex_char(c as int % 16)];
        assert(s.skip(1)[0] == 'u');
        assert(s.skip(1).subrange(1, 5) =~= digits);
        lemma_written_control(c);
    }
}

proof fn lemma_written(s: Seq<char>)
    ensures
        contents(written(s), '"', false) == Some(s),
    decreases s.len(),
{
    if s.len() > 0 {
        let rest = written(s.skip(1));
        lemma_written(s.skip(1));
        lemma_written_piece(s[0], rest);
        assert((written_char(s[0]) + rest).skip(written_char(s[0]).len() as int) =~= rest);
        assert(seq![s[0]] + s.skip(1) =~= s);
    } else {
        assert(s =~= Seq::empty());
    }
}

/// Every text can be written between double quotes, and is read back from there.
pub proof fn law_every_text_can_be_written(s: Seq<char>)
    ensures
        unquoted(seq!['"'] + written(s) + seq!['"']) == Some(s),
{
    let quoted = seq!['"'] + written(s) + seq!['"'];
    assert(quoted.subrange(1, quoted.len() - 1) =~= written(s));
    if is_quoted(quoted, '"', 3) {
        assert(quoted[1] == '"');
        assert(written(s)[0] == '"');
        if s.len() > 0 {
            assert(written_char(s[0])[0] == written(s)[0]);
        }
        assert(false);
    }
    lemma_written(s);
}

} // verus!

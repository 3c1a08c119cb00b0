//! What the operations on text are for.

use crate::text;
use vstd::prelude::*;

verus! {

// Numbers

/// The number that decimal digits stand for.
pub open spec fn digits_value(s: Seq<char>) -> int
    decreases s.len(),
{
    if s.len() == 0 {
        0
    } else {
        10 * digits_value(s.drop_last()) + (s.last() as int - '0' as int)
    }
}

/// The number that a text in decimal stands for.
pub open spec fn number_in(s: Seq<char>) -> int {
    if s.len() > 0 && s[0] == '-' {
        -digits_value(s.skip(1))
    } else {
        digits_value(s)
    }
}

/// Whether a text consists of decimal digits.
pub open spec fn all_digits(s: Seq<char>) -> bool {
    forall|i: int| 0 <= i < s.len() ==> '0' <= #[trigger] s[i] <= '9'
}

proof fn lemma_digits(n: nat)
    ensures
        text::digits(n).len() > 0,
        all_digits(text::digits(n)),
        digits_value(text::digits(n)) == n,
        n > 0 ==> text::digits(n)[0] != '0',
        n == 0 ==> text::digits(n).len() == 1,
    decreases n,
{
    if n < 10 {
        let s = text::digits(n);
        assert(s.drop_last() =~= Seq::empty());
        assert(digits_value(Seq::empty()) == 0);
    } else {
        lemma_digits(n / 10);
        let high = text::digits(n / 10);
        assert(text::digits(n).drop_last() =~= high);
        assert(text::digits(n)[0] == high[0]);
    }
}

/// A number in decimal is read back as that number. It has no other characters than digits and a
/// minus sign in front of a negative one, and begins with no digit to spare.
pub proof fn law_decimal_reads_back(n: int)
    ensures
        number_in(text::decimal(n)) == n,
        n >= 0 ==> all_digits(text::decimal(n)),
        n < 0 ==> text::decimal(n).len() > 1 && text::decimal(n)[0] == '-' && all_digits(
            text::decimal(n).skip(1),
        ),
        n > 0 ==> text::decimal(n)[0] != '0',
        n < 0 ==> text::decimal(n)[1] != '0',
        n == 0 ==> text::decimal(n) == seq!['0'],
{
    if n < 0 {
        lemma_digits((-n) as nat);
        assert(text::decimal(n).skip(1) =~= text::digits((-n) as nat));
    } else {
        lemma_digits(n as nat);
        assert('0' <= text::digits(n as nat)[0]);
        assert(n == 0 ==> text::decimal(n) =~= seq!['0']);
    }
}

/// Different numbers are written differently.
pub proof fn law_decimal_tells_numbers_apart(a: int, b: int)
    requires
        text::decimal(a) == text::decimal(b),
    ensures
        a == b,
{
    law_decimal_reads_back(a);
    law_decimal_reads_back(b);
}

// White space

/// Whether a text consists of white space.
pub open spec fn blank(s: Seq<char>) -> bool {
    forall|i: int| 0 <= i < s.len() ==> text::is_white_space(#[trigger] s[i])
}

proof fn lemma_trim_start(s: Seq<char>) -> (start: int)
    ensures
        0 <= start <= s.len(),
        blank(s.take(start)),
        text::trim_start(s) == s.skip(start),
        start < s.len() ==> !text::is_white_space(s[start]),
    decreases s.len(),
{
    if s.len() > 0 && text::is_white_space(s[0]) {
        let rest = lemma_trim_start(s.drop_first());
        assert(s.drop_first().skip(rest) =~= s.skip(rest + 1));
        assert forall|i: int| 0 <= i < rest + 1 implies text::is_white_space(
            #[trigger] s.take(rest + 1)[i],
        ) by {
            if i > 0 {
                assert(s.drop_first().take(rest)[i - 1] == s[i]);
            }
        }
        if rest < s.drop_first().len() {
            assert(s.drop_first()[rest] == s[rest + 1]);
        }
        rest + 1
    } else {
        assert(s.skip(0) =~= s);
        0
    }
}

proof fn lemma_trim_end(s: Seq<char>) -> (end: int)
    ensures
        0 <= end <= s.len(),
        blank(s.skip(end)),
        text::trim_end(s) == s.take(end),
        end > 0 ==> !text::is_white_space(s[end - 1]),
    decreases s.len(),
{
    if s.len() > 0 && text::is_white_space(s.last()) {
        let end = lemma_trim_end(s.drop_last());
        assert(s.drop_last().take(end) =~= s.take(end));
        assert forall|i: int| 0 <= i < s.skip(end).len() implies text::is_white_space(
            #[trigger] s.skip(end)[i],
        ) by {
            if i < s.skip(end).len() - 1 {
                assert(s.drop_last().skip(end)[i] == s.skip(end)[i]);
            }
        }
        end
    } else {
        assert(s.take(s.len() as int) =~= s);
        s.len() as int
    }
}

/// Trimming takes away the white space around a text, and nothing else: what is left stands in the
/// text with only white space before and behind it, and neither begins nor ends with any.
pub proof fn law_trimming(s: Seq<char>)
    ensures
        exists|start: int, end: int|
            0 <= start <= end <= s.len() && #[trigger] s.subrange(start, end) == text::trimmed(s)
                && blank(s.take(start)) && blank(s.skip(end)),
        text::trimmed(s).len() > 0 ==> !text::is_white_space(text::trimmed(s)[0])
            && !text::is_white_space(text::trimmed(s).last()),
{
    let start = lemma_trim_start(s);
    let rest = s.skip(start);
    let len = lemma_trim_end(rest);
    let end = start + len;
    assert(s.subrange(start, end) =~= rest.take(len));
    assert(s.skip(end) =~= rest.skip(len));
    if len > 0 {
        assert(text::trimmed(s)[0] == s[start]);
    }
}

/// A text is split at the first of the characters in question: before it there is none, and the two
/// parts around it make up the text. Without such a character it is not split.
pub proof fn law_split_at_first(s: Seq<char>, c: char)
    ensures
        match text::split_at_first(s, c) {
            Some((before, behind)) => s == before + seq![c] + behind && !before.contains(c),
            None => !s.contains(c),
        },
{
    text::lemma_position(s, c);
    if s.contains(c) {
        let i = choose|i: int| 0 <= i < s.len() && s[i] == c;
        let at = text::position(s, c);
        assert(at < s.len());
        assert(s =~= s.take(at) + seq![c] + s.skip(at + 1));
        if s.take(at).contains(c) {
            let j = choose|j: int| 0 <= j < s.take(at).len() && s.take(at)[j] == c;
            assert(s[j] == c);
        }
    }
}

/// A prefix is taken away from a text that begins with it, and a suffix from one that ends with it,
/// and nothing else is.
pub proof fn law_affixes(s: Seq<char>, part: Seq<char>, rest: Seq<char>)
    ensures
        text::without_prefix(part + rest, part) == Some(rest),
        text::without_suffix(rest + part, part) == Some(rest),
        text::without_prefix(s, part) matches Some(found) ==> s == part + found,
        text::without_suffix(s, part) matches Some(found) ==> s == found + part,
{
    let front = part + rest;
    let back = rest + part;
    assert(front.take(part.len() as int) =~= part);
    assert(front.skip(part.len() as int) =~= rest);
    assert(back.skip(rest.len() as int) =~= part);
    assert(back.take(rest.len() as int) =~= rest);
    assert(part.is_prefix_of(front));
    assert(part.is_suffix_of(back)) by {
        assert(back.subrange(back.len() - part.len(), back.len() as int) =~= part);
    }
    if part.is_prefix_of(s) {
        assert(s =~= part + s.skip(part.len() as int));
    }
    if part.is_suffix_of(s) {
        assert(s =~= s.take(s.len() - part.len()) + part);
    }
}

// Lines

proof fn lemma_position_in_front(a: Seq<char>, b: Seq<char>, c: char)
    requires
        !a.contains(c),
        b.len() > 0 ==> b[0] == c,
    ensures
        text::position(a + b, c) == a.len(),
    decreases a.len(),
{
    if a.len() == 0 {
        assert(a + b =~= b);
    } else {
        assert(a.contains(a[0]));
        assert((a + b).drop_first() =~= a.drop_first() + b);
        if a.drop_first().contains(c) {
            let i = choose|i: int| 0 <= i < a.drop_first().len() && a.drop_first()[i] == c;
            assert(a[i + 1] == c);
        }
        lemma_position_in_front(a.drop_first(), b, c);
    }
}

/// The lines of a text that begins with a line are that line, without the carriage return that may
/// end it, and the lines of what follows the newline. What follows the last newline is a line too,
/// unless it is empty.
pub proof fn law_lines(line: Seq<char>, rest: Seq<char>)
    requires
        !line.contains('\n'),
    ensures
        text::lines_of(line + seq!['\n'] + rest) == seq![
            if line.len() > 0 && line.last() == '\r' {
                line.drop_last()
            } else {
                line
            },
        ] + text::lines_of(rest),
        text::lines_of(line) == if line.len() == 0 {
            Seq::empty()
        } else {
            seq![line]
        },
{
    let whole = line + seq!['\n'] + rest;
    assert(whole =~= line + (seq!['\n'] + rest));
    lemma_position_in_front(line, seq!['\n'] + rest, '\n');
    assert(whole.take(line.len() as int) =~= line);
    assert(whole.skip((line.len() + 1) as int) =~= rest);
    lemma_position_in_front(line, Seq::empty(), '\n');
    assert(line + Seq::<char>::empty() =~= line);
}

// Words

proof fn lemma_word_len(a: Seq<char>, c: char, b: Seq<char>)
    requires
        text::is_white_space(c),
    ensures
        text::word_len(a + seq![c] + b) == text::word_len(a),
    decreases a.len(),
{
    let whole = a + seq![c] + b;
    if a.len() == 0 {
        assert(whole[0] == c);
    } else {
        assert(whole.drop_first() =~= a.drop_first() + seq![c] + b);
        lemma_word_len(a.drop_first(), c, b);
    }
}

/// The words of a text with white space in it are those before the white space and those behind it.
pub proof fn law_words(a: Seq<char>, c: char, b: Seq<char>)
    requires
        text::is_white_space(c),
    ensures
        text::words_of(a + seq![c] + b) == text::words_of(a) + text::words_of(b),
    decreases a.len(),
{
    let whole = a + seq![c] + b;
    if a.len() == 0 {
        assert(whole.drop_first() =~= b);
        assert(text::trim_start(whole) == text::trim_start(b));
        assert(text::words_of(whole) == text::words_of(b));
        assert(text::words_of(a) =~= Seq::empty());
        assert(text::words_of(a) + text::words_of(b) =~= text::words_of(b));
    } else if text::is_white_space(a[0]) {
        assert(whole.drop_first() =~= a.drop_first() + seq![c] + b);
        law_words(a.drop_first(), c, b);
        assert(text::words_of(whole) == text::words_of(whole.drop_first()));
        assert(text::words_of(a) == text::words_of(a.drop_first()));
    } else {
        let k = text::word_len(a);
        text::lemma_word_len(a.drop_first());
        lemma_word_len(a, c, b);
        text::lemma_word_len(a);
        assert(whole.take(k) =~= a.take(k));
        assert(whole.skip(k) =~= a.skip(k) + seq![c] + b);
        law_words(a.skip(k), c, b);
        assert(text::words_of(whole) =~= text::words_of(a) + text::words_of(b));
    }
}

proof fn lemma_whole_word(s: Seq<char>)
    requires
        forall|i: int| 0 <= i < s.len() ==> !text::is_white_space(#[trigger] s[i]),
    ensures
        text::word_len(s) == s.len(),
    decreases s.len(),
{
    if s.len() > 0 {
        assert(!text::is_white_space(s[0]));
        assert forall|i: int| 0 <= i < s.drop_first().len() implies !text::is_white_space(
            #[trigger] s.drop_first()[i],
        ) by {
            assert(s.drop_first()[i] == s[i + 1]);
        }
        lemma_whole_word(s.drop_first());
    }
}

/// A text without white space is a word, if it is not empty.
pub proof fn law_single_word(s: Seq<char>)
    requires
        forall|i: int| 0 <= i < s.len() ==> !text::is_white_space(#[trigger] s[i]),
    ensures
        text::words_of(s) == if s.len() == 0 {
            Seq::empty()
        } else {
            seq![s]
        },
{
    if s.len() > 0 {
        assert(!text::is_white_space(s[0]));
        lemma_whole_word(s);
        assert(s.take(s.len() as int) =~= s);
        assert(s.skip(s.len() as int) =~= Seq::empty());
        assert(text::words_of(Seq::empty()) =~= Seq::empty());
        assert(text::words_of(s) =~= seq![s]);
    }
}

// Joining

/// Two lists that are not empty are joined by joining each and putting the separator between them; a
/// single string is joined to itself, and no strings to nothing.
pub proof fn law_joining(a: Seq<Seq<char>>, b: Seq<Seq<char>>, separator: Seq<char>)
    ensures
        a.len() > 0 && b.len() > 0 ==> text::joined(a + b, separator) == text::joined(a, separator)
            + separator + text::joined(b, separator),
        a.len() == 1 ==> text::joined(a, separator) == a[0],
        a.len() == 0 ==> text::joined(a, separator) == Seq::<char>::empty(),
    decreases b.len(),
{
    if a.len() > 0 && b.len() > 0 {
        assert((a + b).drop_last() =~= a + b.drop_last());
        if b.len() == 1 {
            assert(a + b.drop_last() =~= a);
        } else {
            law_joining(a, b.drop_last(), separator);
        }
        assert(text::joined(a + b, separator) =~= text::joined(a, separator) + separator
            + text::joined(b, separator));
    }
}

} // verus!

//! What the operations on texts are for, stated on the characters.

use crate::json::{escaped, quoted};
use crate::text::{
    decimal, decimal_int, is_space, joined, lemma_first_of_unique, lines, padded, text_before,
    trim_end, trim_start, trimmed,
};
use vstd::prelude::*;

verus! {

/// Trimming takes white space from the two ends of a text, all of it, and nothing
/// else: `from` and `to` tell what is left.
pub proof fn trimming_takes_only_white_space(s: Seq<char>) -> (cut: (int, int))
    ensures
        ({
            let (from, to) = cut;
            &&& 0 <= from <= to <= s.len()
            &&& trimmed(s) == s.subrange(from, to)
            &&& forall|i: int| 0 <= i < from ==> is_space(#[trigger] s[i])
            &&& forall|i: int| to <= i < s.len() ==> is_space(#[trigger] s[i])
            &&& from < to ==> !is_space(s[from]) && !is_space(s[to - 1])
        }),
{
    let from = lemma_trim_start(s);
    let rest = trim_start(s);
    let len = lemma_trim_end(rest);
    let to = from + len;
    assert(trimmed(s) =~= s.subrange(from, to));
    assert forall|i: int| to <= i < s.len() implies is_space(#[trigger] s[i]) by {
        assert(rest[i - from] == s[i]);
    }
    if from < to {
        assert(rest[0] == s[from]);
        assert(rest[len - 1] == s[to - 1]);
    }
    (from, to)
}

proof fn lemma_trim_start(s: Seq<char>) -> (from: int)
    ensures
        0 <= from <= s.len(),
        trim_start(s) == s.skip(from),
        forall|i: int| 0 <= i < from ==> is_space(#[trigger] s[i]),
        from < s.len() ==> !is_space(s[from]),
    decreases s.len(),
{
    if s.len() > 0 && is_space(s[0]) {
        let rest = s.skip(1);
        let from = lemma_trim_start(rest);
        assert(rest.skip(from) =~= s.skip(from + 1));
        assert forall|i: int| 0 <= i < from + 1 implies is_space(#[trigger] s[i]) by {
            if i > 0 {
                assert(rest[i - 1] == s[i]);
            }
        }
        if from < rest.len() {
            assert(rest[from] == s[from + 1]);
        }
        from + 1
    } else {
        assert(s.skip(0) =~= s);
        0
    }
}

proof fn lemma_trim_end(s: Seq<char>) -> (to: int)
    ensures
        0 <= to <= s.len(),
        trim_end(s) == s.take(to),
        forall|i: int| to <= i < s.len() ==> is_space(#[trigger] s[i]),
        to > 0 ==> !is_space(s[to - 1]),
    decreases s.len(),
{
    if s.len() > 0 && is_space(s.last()) {
        let rest = s.drop_last();
        let to = lemma_trim_end(rest);
        assert(rest.take(to) =~= s.take(to));
        assert forall|i: int| to <= i < s.len() implies is_space(#[trigger] s[i]) by {
            if i < rest.len() {
                assert(rest[i] == s[i]);
            }
        }
        to
    } else {
        assert(s.take(s.len() as int) =~= s);
        s.len() as int
    }
}

/// A line is what stands before a line feed, less one carriage return at its end;
/// what follows the last line feed is a line if there is anything.
pub proof fn lines_end_at_line_feeds(line: Seq<char>, rest: Seq<char>)
    requires
        forall|i: int| 0 <= i < line.len() ==> #[trigger] line[i] != '\n',
    ensures
        line.len() > 0 && line.last() == '\r' ==> lines(line + seq!['\n'] + rest) == seq![
            line.drop_last(),
        ] + lines(rest),
        !(line.len() > 0 && line.last() == '\r') ==> lines(line + seq!['\n'] + rest) == seq![line]
            + lines(rest),
        line.len() > 0 ==> lines(line) == seq![line],
        lines(Seq::empty()).len() == 0,
{
    let text = line + seq!['\n'] + rest;
    let at = line.len() as int;
    assert(text[at] == '\n');
    assert forall|i: int| 0 <= i < at implies text[i] != '\n' by {
        assert(text[i] == line[i]);
    }
    lemma_first_of_unique(text, '\n', at);
    lemma_first_of_unique(line, '\n', at);
    assert(text.take(at) =~= line);
    assert(text.skip(at + 1) =~= rest);
}

/// Joined parts stand in their order with the separator between neighbours, and
/// nowhere else.
pub proof fn joining_puts_separators_between(
    a: Seq<Seq<char>>,
    b: Seq<Seq<char>>,
    part: Seq<char>,
    sep: Seq<char>,
)
    ensures
        joined(Seq::empty(), sep).len() == 0,
        joined(seq![part], sep) == part,
        a.len() > 0 && b.len() > 0 ==> joined(a + b, sep) == joined(a, sep) + sep + joined(b, sep),
    decreases b.len(),
{
    if a.len() > 0 && b.len() > 0 {
        let before = b.drop_last();
        assert((a + b).drop_last() =~= a + before);
        assert((a + b).last() == b.last());
        if b.len() == 1 {
            assert(a + before =~= a);
            assert(joined(b, sep) == b[0]);
        } else {
            joining_puts_separators_between(a, before, part, sep);
            assert(joined(a + b, sep) =~= joined(a, sep) + sep + joined(b, sep));
        }
    }
}

/// A padded text is the text itself, filled up with blanks to the width where it
/// is shorter.
pub proof fn padding_fills_with_blanks(s: Seq<char>, width: nat)
    ensures
        padded(s, width).len() == (if s.len() < width {
            width
        } else {
            s.len()
        }),
        padded(s, width).take(s.len() as int) == s,
        forall|i: int| s.len() <= i < padded(s, width).len() ==> #[trigger] padded(s, width)[i] == ' ',
{
    assert(padded(s, width).take(s.len() as int) =~= s);
}

/// A number has no zero in front, but for zero itself.
pub proof fn numbers_have_no_leading_zero(n: nat)
    ensures
        decimal(n).len() > 0,
        n > 0 ==> decimal(n)[0] != '0',
        n == 0 ==> decimal(n) == seq!['0'],
    decreases n,
{
    if n >= 10 {
        numbers_have_no_leading_zero(n / 10);
    }
}

/// A text without quotes, backslashes, line feeds, carriage returns and tabs is
/// written in a JSON string as it is.
pub proof fn plain_text_is_quoted_as_it_is(s: Seq<char>)
    requires
        forall|i: int|
            0 <= i < s.len() ==> #[trigger] s[i] != '"' && s[i] != '\\' && s[i] != '\n' && s[i]
                != '\r' && s[i] != '\t',
    ensures
        quoted(s) == seq!['"'] + s + seq!['"'],
{
    lemma_plain(s);
}

proof fn lemma_plain(s: Seq<char>)
    requires
        forall|i: int|
            0 <= i < s.len() ==> #[trigger] s[i] != '"' && s[i] != '\\' && s[i] != '\n' && s[i]
                != '\r' && s[i] != '\t',
    ensures
        escaped(s) == s,
    decreases s.len(),
{
    if s.len() > 0 {
        let before = s.drop_last();
        assert forall|i: int| 0 <= i < before.len() implies #[trigger] before[i] != '"' && before[i]
            != '\\' && before[i] != '\n' && before[i] != '\r' && before[i] != '\t' by {
            assert(before[i] == s[i]);
        }
        lemma_plain(before);
        assert(s[s.len() - 1] != '"');
    }
    assert(escaped(s) =~= s);
}

/// Of two texts that start alike the one whose next character is smaller comes
/// first, whatever follows, and a text comes before its own continuations.
pub proof fn first_difference_orders_texts(
    same: Seq<char>,
    x: char,
    y: char,
    after_x: Seq<char>,
    after_y: Seq<char>,
)
    ensures
        x < y ==> text_before(same + seq![x] + after_x, same + seq![y] + after_y),
        x > y ==> !text_before(same + seq![x] + after_x, same + seq![y] + after_y),
        text_before(same, same + seq![y] + after_y),
        !text_before(same + seq![x] + after_x, same),
        !text_before(same, same),
    decreases same.len(),
{
    let a = same + seq![x] + after_x;
    let b = same + seq![y] + after_y;
    if same.len() > 0 {
        let rest = same.skip(1);
        first_difference_orders_texts(rest, x, y, after_x, after_y);
        assert(a.skip(1) =~= rest + seq![x] + after_x);
        assert(b.skip(1) =~= rest + seq![y] + after_y);
        assert(a[0] == same[0] && b[0] == same[0]);
    } else {
        assert(a[0] == x && b[0] == y);
    }
}

/// A number below zero is written as its opposite behind a minus sign, and no other
/// number has a sign.
pub proof fn numbers_below_zero_have_a_sign(n: nat)
    ensures
        n > 0 ==> decimal_int(-n) == seq!['-'] + decimal(n),
        decimal_int(n as int) == decimal(n),
{
}

} // verus!

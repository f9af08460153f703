//! Texts as JSON.

use crate::text::{chars_of, join_texts, joined, opt_text, texts};
use vstd::prelude::*;

verus! {

/// How a character is written inside a JSON string. Control characters other
/// than line feed, carriage return and tab are written as they are.
pub open spec fn escaped_char(c: char) -> Seq<char> {
    if c == '\\' {
        seq!['\\', '\\']
    } else if c == '"' {
        seq!['\\', '"']
    } else if c == '\n' {
        seq!['\\', 'n']
    } else if c == '\r' {
        seq!['\\', 'r']
    } else if c == '\t' {
        seq!['\\', 't']
    } else {
        seq![c]
    }
}

/// How a text is written inside a JSON string.
pub open spec fn escaped(s: Seq<char>) -> Seq<char>
    decreases s.len(),
{
    if s.len() == 0 {
        Seq::empty()
    } else {
        escaped(s.drop_last()) + escaped_char(s.last())
    }
}

/// A text as a JSON string.
pub open spec fn quoted(s: Seq<char>) -> Seq<char> {
    seq!['"'] + escaped(s) + seq!['"']
}

/// A text as a JSON string, or `null` where there is none.
pub open spec fn quoted_or_null(s: Option<Seq<char>>) -> Seq<char> {
    match s {
        Some(text) => quoted(text),
        None => "null"@,
    }
}

/// Writes a text as a JSON string.
pub fn json_string(s: &str) -> (r: String)
    ensures
        r@ == quoted(s@),
{
    let chars = chars_of(s);
    let mut r = String::new();
    r.push('"');
    let mut i: usize = 0;
    while i < chars.len()
        invariant
            i <= chars@.len(),
            r@ == seq!['"'] + escaped(chars@.take(i as int)),
        decreases chars@.len() - i,
    {
        let c = chars[i];
        let ghost before = r@;
        if c == '\\' {
            r.push('\\');
            r.push('\\');
        } else if c == '"' {
            r.push('\\');
            r.push('"');
        } else if c == '\n' {
            r.push('\\');
            r.push('n');
        } else if c == '\r' {
            r.push('\\');
            r.push('r');
        } else if c == '\t' {
            r.push('\\');
            r.push('t');
        } else {
            r.push(c);
        }
        assert(r@ =~= before + escaped_char(c));
        assert(chars@.take(i + 1).drop_last() =~= chars@.take(i as int));
        i += 1;
    }
    assert(chars@.take(i as int) =~= s@);
    r.push('"');
    assert(r@ =~= quoted(s@));
    r
}

/// Writes a text as a JSON string, or `null` where there is none.
pub fn json_opt_string(s: &Option<String>) -> (r: String)
    ensures
        r@ == quoted_or_null(opt_text(*s)),
{
    match s {
        Some(text) => json_string(text.as_str()),
        None => "null".to_string(),
    }
}

/// A truth value as JSON.
pub open spec fn truth(b: bool) -> Seq<char> {
    if b {
        "true"@
    } else {
        "false"@
    }
}

/// Writes a truth value as JSON.
pub fn text_of_truth(b: bool) -> (s: String)
    ensures
        s@ == truth(b),
{
    if b {
        "true".to_string()
    } else {
        "false".to_string()
    }
}

/// A field of a JSON object.
pub open spec fn field(name: Seq<char>, value: Seq<char>) -> Seq<char> {
    "\""@ + name + "\":"@ + value
}

/// Writes a field of a JSON object.
pub fn text_of_field(name: &str, value: String) -> (s: String)
    ensures
        s@ == field(name@, value@),
{
    let mut s = "\"".to_string();
    s.append(name);
    s.append("\":");
    s.append(value.as_str());
    s
}

/// A JSON object of the given fields.
pub open spec fn object(fields: Seq<Seq<char>>) -> Seq<char> {
    "{"@ + joined(fields, ","@) + "}"@
}

/// Writes a JSON object of the given fields.
pub fn text_of_object(fields: &Vec<String>) -> (s: String)
    ensures
        s@ == object(texts(fields@)),
{
    let mut s = "{".to_string();
    s.append(join_texts(fields, ",").as_str());
    s.append("}");
    s
}

/// A JSON array of the given items.
pub open spec fn array(items: Seq<Seq<char>>) -> Seq<char> {
    "["@ + joined(items, ","@) + "]"@
}

/// Writes a JSON array of the given items.
pub fn text_of_array(items: &Vec<String>) -> (s: String)
    ensures
        s@ == array(texts(items@)),
{
    let mut s = "[".to_string();
    s.append(join_texts(items, ",").as_str());
    s.append("]");
    s
}

/// The character that a JSON string gives as a backslash and this one, as far
/// as `escaped_char` writes it so.
pub open spec fn unescaped_char(c: char) -> char {
    if c == 'n' {
        '\n'
    } else if c == 'r' {
        '\r'
    } else if c == 't' {
        '\t'
    } else {
        c
    }
}

/// What is read of a JSON string behind its opening quote: the text up to the
/// closing quote, and what follows that. Absent where no quote closes the
/// string.
pub open spec fn read_string(s: Seq<char>) -> Option<(Seq<char>, Seq<char>)>
    decreases s.len(),
{
    if s.len() == 0 {
        None
    } else if s[0] == '"' {
        Some((Seq::empty(), s.skip(1)))
    } else if s[0] == '\\' {
        if s.len() == 1 {
            None
        } else {
            match read_string(s.skip(2)) {
                Some((text, rest)) => Some((seq![unescaped_char(s[1])] + text, rest)),
                None => None,
            }
        }
    } else {
        match read_string(s.skip(1)) {
            Some((text, rest)) => Some((seq![s[0]] + text, rest)),
            None => None,
        }
    }
}

proof fn lemma_escaped_front(s: Seq<char>)
    requires
        s.len() > 0,
    ensures
        escaped(s) == escaped_char(s[0]) + escaped(s.skip(1)),
    decreases s.len(),
{
    if s.len() == 1 {
        assert(s.drop_last() =~= Seq::empty());
        assert(s.skip(1) =~= Seq::empty());
        assert(escaped(s) =~= escaped_char(s[0]) + escaped(s.skip(1)));
    } else {
        lemma_escaped_front(s.drop_last());
        assert(s.drop_last().skip(1) =~= s.skip(1).drop_last());
        assert(escaped(s) =~= escaped_char(s[0]) + escaped(s.skip(1)));
    }
}

/// A text written as a JSON string is read back as it was, whatever follows
/// the string.
pub proof fn json_string_reads_back(s: Seq<char>, rest: Seq<char>)
    ensures
        quoted(s)[0] == '"',
        read_string((quoted(s) + rest).skip(1)) == Some((s, rest)),
    decreases s.len(),
{
    let written = (quoted(s) + rest).skip(1);
    assert(written =~= escaped(s) + seq!['"'] + rest);
    if s.len() == 0 {
        assert(written.skip(1) =~= rest);
        assert(s =~= Seq::empty());
    } else {
        let tail = (quoted(s.skip(1)) + rest).skip(1);
        assert(tail =~= escaped(s.skip(1)) + seq!['"'] + rest);
        json_string_reads_back(s.skip(1), rest);
        lemma_escaped_front(s);
        let front = escaped_char(s[0]);
        assert(written =~= front + tail);
        if front.len() == 2 {
            assert(written.skip(2) =~= tail);
        } else {
            assert(written.skip(1) =~= tail);
        }
        assert(seq![s[0]] + s.skip(1) =~= s);
    }
}

/// A text written as a JSON string stays on one line and holds no tab.
pub proof fn json_string_stays_on_its_line(s: Seq<char>)
    ensures
        !quoted(s).contains('\n'),
        !quoted(s).contains('\r'),
        !quoted(s).contains('\t'),
{
    lemma_escaped_line(s);
}

proof fn lemma_escaped_line(s: Seq<char>)
    ensures
        forall|i: int|
            0 <= i < escaped(s).len() ==> #[trigger] escaped(s)[i] != '\n' && escaped(s)[i] != '\r'
                && escaped(s)[i] != '\t',
    decreases s.len(),
{
    if s.len() > 0 {
        let before = escaped(s.drop_last());
        let added = escaped_char(s.last());
        lemma_escaped_line(s.drop_last());
        assert forall|i: int| 0 <= i < escaped(s).len() implies #[trigger] escaped(s)[i] != '\n'
            && escaped(s)[i] != '\r' && escaped(s)[i] != '\t' by {
            if i < before.len() {
                assert(escaped(s)[i] == before[i]);
            } else {
                assert(escaped(s)[i] == added[i - before.len()]);
            }
        }
    }
}

} // verus!

//! How the JSON that is written here is read: nothing that a text holds can
//! break out of its place.

use crate::json::{
    array, escaped, escaped_char, field, json_string_reads_back, object, quoted, read_string,
};
use crate::text::joined;
use vstd::prelude::*;

verus! {

/// A JSON value that is not made of others: a text, or a number, a truth value
/// or `null` as it is spelled.
pub enum JsonValue {
    Text(Seq<char>),
    Bare(Seq<char>),
}

/// Whether a character ends a value that is spelled out.
pub open spec fn ends_bare(c: char) -> bool {
    c == ',' || c == '}' || c == ']'
}

/// Whether a spelling stands for itself.
pub open spec fn is_bare(s: Seq<char>) -> bool {
    &&& s.len() > 0
    &&& s[0] != '"'
    &&& forall|i: int| 0 <= i < s.len() ==> !ends_bare(#[trigger] s[i])
}

/// A value as it is written.
pub open spec fn written(value: JsonValue) -> Seq<char> {
    match value {
        JsonValue::Text(text) => quoted(text),
        JsonValue::Bare(s) => s,
    }
}

/// How many characters stand before the end of a value that is spelled out.
pub open spec fn bare_len(s: Seq<char>) -> int
    decreases s.len(),
{
    if s.len() == 0 || ends_bare(s[0]) {
        0
    } else {
        1 + bare_len(s.skip(1))
    }
}

/// Reads a value; gives it and what follows.
pub open spec fn read_value(s: Seq<char>) -> Option<(JsonValue, Seq<char>)> {
    if s.len() > 0 && s[0] == '"' {
        match read_string(s.skip(1)) {
            Some((text, rest)) => Some((JsonValue::Text(text), rest)),
            None => None,
        }
    } else if bare_len(s) > 0 {
        Some((JsonValue::Bare(s.take(bare_len(s))), s.skip(bare_len(s))))
    } else {
        None
    }
}

/// Reads a field of an object; gives its name and value and what follows.
pub open spec fn read_field(s: Seq<char>) -> Option<((Seq<char>, JsonValue), Seq<char>)> {
    if s.len() > 0 && s[0] == '"' {
        match read_string(s.skip(1)) {
            Some((name, rest)) => if rest.len() > 0 && rest[0] == ':' {
                match read_value(rest.skip(1)) {
                    Some((value, after)) => Some(((name, value), after)),
                    None => None,
                }
            } else {
                None
            },
            None => None,
        }
    } else {
        None
    }
}

/// Reads the fields of an object behind its opening brace; gives them and what
/// follows the closing brace.
pub open spec fn read_fields(s: Seq<char>) -> Option<(Seq<(Seq<char>, JsonValue)>, Seq<char>)>
    decreases s.len(),
{
    match read_field(s) {
        Some((first, rest)) => if rest.len() == 0 || rest.len() >= s.len() {
            None
        } else if rest[0] == '}' {
            Some((seq![first], rest.skip(1)))
        } else if rest[0] == ',' {
            match read_fields(rest.skip(1)) {
                Some((others, after)) => Some((seq![first] + others, after)),
                None => None,
            }
        } else {
            None
        },
        None => None,
    }
}

/// Reads the objects of an array behind its opening bracket; gives them and
/// what follows the closing bracket.
pub open spec fn read_objects(s: Seq<char>) -> Option<
    (Seq<Seq<(Seq<char>, JsonValue)>>, Seq<char>),
>
    decreases s.len(),
{
    if s.len() == 0 {
        None
    } else if s[0] == ']' {
        Some((Seq::empty(), s.skip(1)))
    } else if s[0] == '{' {
        match read_fields(s.skip(1)) {
            Some((first, rest)) => if rest.len() == 0 || rest.len() >= s.len() {
                None
            } else if rest[0] == ']' {
                Some((seq![first], rest.skip(1)))
            } else if rest[0] == ',' {
                match read_objects(rest.skip(1)) {
                    Some((others, after)) => Some((seq![first] + others, after)),
                    None => None,
                }
            } else {
                None
            },
            None => None,
        }
    } else {
        None
    }
}

/// Reads an array of objects, which is all there is.
pub open spec fn read_array(s: Seq<char>) -> Option<Seq<Seq<(Seq<char>, JsonValue)>>> {
    if s.len() > 0 && s[0] == '[' {
        match read_objects(s.skip(1)) {
            Some((objects, rest)) => if rest.len() == 0 {
                Some(objects)
            } else {
                None
            },
            None => None,
        }
    } else {
        None
    }
}

/// Whether a text is written in a JSON string as it is.
pub open spec fn is_plain_text(s: Seq<char>) -> bool {
    forall|i: int| 0 <= i < s.len() ==> escaped_char(#[trigger] s[i]) == seq![s[i]]
}

/// Whether a field can be told: its name is plain, and so is its value where
/// that is spelled out.
pub open spec fn is_entry(entry: (Seq<char>, JsonValue)) -> bool {
    &&& is_plain_text(entry.0)
    &&& entry.1 matches JsonValue::Bare(s) ==> is_bare(s)
}

/// The fields of an object, as they are written.
pub open spec fn written_fields(entries: Seq<(Seq<char>, JsonValue)>) -> Seq<Seq<char>> {
    entries.map_values(|e: (Seq<char>, JsonValue)| field(e.0, written(e.1)))
}

/// Objects, as they are written.
pub open spec fn written_objects(objects: Seq<Seq<(Seq<char>, JsonValue)>>) -> Seq<Seq<char>> {
    objects.map_values(|o: Seq<(Seq<char>, JsonValue)>| object(written_fields(o)))
}

proof fn lemma_plain_text(s: Seq<char>)
    requires
        is_plain_text(s),
    ensures
        escaped(s) == s,
    decreases s.len(),
{
    if s.len() > 0 {
        assert forall|i: int| 0 <= i < s.drop_last().len() implies escaped_char(
            #[trigger] s.drop_last()[i],
        ) == seq![s.drop_last()[i]] by {
            assert(s.drop_last()[i] == s[i]);
        }
        lemma_plain_text(s.drop_last());
        assert(escaped_char(s[s.len() - 1]) == seq![s[s.len() - 1]]);
        assert(escaped(s) =~= s);
    } else {
        assert(escaped(s) =~= s);
    }
}

proof fn lemma_bare_len(s: Seq<char>, rest: Seq<char>)
    requires
        forall|i: int| 0 <= i < s.len() ==> !ends_bare(#[trigger] s[i]),
        rest.len() > 0,
        ends_bare(rest[0]),
    ensures
        bare_len(s + rest) == s.len(),
    decreases s.len(),
{
    if s.len() == 0 {
        assert(s + rest =~= rest);
    } else {
        assert((s + rest)[0] == s[0]);
        assert((s + rest).skip(1) =~= s.skip(1) + rest);
        assert forall|i: int| 0 <= i < s.skip(1).len() implies !ends_bare(
            #[trigger] s.skip(1)[i],
        ) by {
            assert(s.skip(1)[i] == s[i + 1]);
        }
        lemma_bare_len(s.skip(1), rest);
    }
}

proof fn lemma_value_reads_back(value: JsonValue, rest: Seq<char>)
    requires
        value matches JsonValue::Bare(s) ==> is_bare(s),
        rest.len() > 0,
        ends_bare(rest[0]),
    ensures
        read_value(written(value) + rest) == Some((value, rest)),
{
    match value {
        JsonValue::Text(text) => {
            json_string_reads_back(text, rest);
            assert((quoted(text) + rest)[0] == '"');
        },
        JsonValue::Bare(s) => {
            lemma_bare_len(s, rest);
            assert((s + rest)[0] == s[0]);
            assert((s + rest).take(s.len() as int) =~= s);
            assert((s + rest).skip(s.len() as int) =~= rest);
        },
    }
}

proof fn lemma_field_reads_back(entry: (Seq<char>, JsonValue), rest: Seq<char>)
    requires
        is_entry(entry),
        rest.len() > 0,
        ends_bare(rest[0]),
    ensures
        read_field(field(entry.0, written(entry.1)) + rest) == Some((entry, rest)),
{
    reveal_strlit("\"");
    reveal_strlit("\":");
    let (name, value) = entry;
    let whole = field(name, written(value)) + rest;
    let tail = seq![':'] + written(value) + rest;
    lemma_plain_text(name);
    assert(whole =~= quoted(name) + tail);
    json_string_reads_back(name, tail);
    assert(tail.skip(1) =~= written(value) + rest);
    lemma_value_reads_back(value, rest);
}

proof fn lemma_joined_front(parts: Seq<Seq<char>>, sep: Seq<char>)
    requires
        parts.len() > 1,
    ensures
        joined(parts, sep) == parts[0] + sep + joined(parts.skip(1), sep),
    decreases parts.len(),
{
    if parts.len() == 2 {
        assert(parts.drop_last().len() == 1);
        assert(parts.skip(1).len() == 1);
        assert(joined(parts.drop_last(), sep) == parts[0]);
        assert(joined(parts.skip(1), sep) == parts[1]);
    } else {
        lemma_joined_front(parts.drop_last(), sep);
        assert(parts.drop_last().skip(1) =~= parts.skip(1).drop_last());
        assert(joined(parts, sep) =~= parts[0] + sep + joined(parts.skip(1), sep));
    }
}

proof fn lemma_fields_read_back(entries: Seq<(Seq<char>, JsonValue)>, rest: Seq<char>)
    requires
        entries.len() > 0,
        forall|i: int| 0 <= i < entries.len() ==> is_entry(#[trigger] entries[i]),
    ensures
        read_fields(joined(written_fields(entries), ","@) + "}"@ + rest) == Some((entries, rest)),
    decreases entries.len(),
{
    reveal_strlit(",");
    reveal_strlit("}");
    reveal_strlit("\"");
    reveal_strlit("\":");
    let fields = written_fields(entries);
    let whole = joined(fields, ","@) + "}"@ + rest;
    assert(is_entry(entries[0]));
    if entries.len() == 1 {
        let tail = "}"@ + rest;
        assert(whole =~= fields[0] + tail);
        lemma_field_reads_back(entries[0], tail);
        assert(tail.skip(1) =~= rest);
        assert(seq![entries[0]] =~= entries);
    } else {
        let others = entries.skip(1);
        assert forall|i: int| 0 <= i < others.len() implies is_entry(#[trigger] others[i]) by {
            assert(others[i] == entries[i + 1]);
        }
        assert(written_fields(others) =~= fields.skip(1));
        lemma_joined_front(fields, ","@);
        let inner = joined(fields.skip(1), ","@) + "}"@ + rest;
        let tail = ","@ + inner;
        assert(whole =~= fields[0] + tail);
        lemma_field_reads_back(entries[0], tail);
        assert(tail.skip(1) =~= inner);
        lemma_fields_read_back(others, rest);
        assert(seq![entries[0]] + others =~= entries);
    }
}

/// Whether an object can be told: it has fields, and each can be told.
pub open spec fn is_object(entries: Seq<(Seq<char>, JsonValue)>) -> bool {
    &&& entries.len() > 0
    &&& forall|i: int| 0 <= i < entries.len() ==> is_entry(#[trigger] entries[i])
}

proof fn lemma_objects_read_back(objects: Seq<Seq<(Seq<char>, JsonValue)>>, rest: Seq<char>)
    requires
        forall|i: int| 0 <= i < objects.len() ==> is_object(#[trigger] objects[i]),
    ensures
        read_objects(joined(written_objects(objects), ","@) + "]"@ + rest) == Some((objects, rest)),
    decreases objects.len(),
{
    reveal_strlit(",");
    reveal_strlit("{");
    reveal_strlit("}");
    reveal_strlit("]");
    let items = written_objects(objects);
    let whole = joined(items, ","@) + "]"@ + rest;
    if objects.len() == 0 {
        assert(whole =~= "]"@ + rest);
        assert(whole.skip(1) =~= rest);
        assert(objects =~= Seq::empty());
    } else {
        assert(is_object(objects[0]));
        let fields = joined(written_fields(objects[0]), ","@);
        if objects.len() == 1 {
            let tail = "]"@ + rest;
            assert(whole.skip(1) =~= fields + "}"@ + tail);
            assert(whole[0] == '{');
            lemma_fields_read_back(objects[0], tail);
            assert(tail.skip(1) =~= rest);
            assert(seq![objects[0]] =~= objects);
        } else {
            let others = objects.skip(1);
            assert forall|i: int| 0 <= i < others.len() implies is_object(#[trigger] others[i]) by {
                assert(others[i] == objects[i + 1]);
            }
            assert(written_objects(others) =~= items.skip(1));
            lemma_joined_front(items, ","@);
            let inner = joined(items.skip(1), ","@) + "]"@ + rest;
            let tail = ","@ + inner;
            assert(whole =~= items[0] + tail);
            assert(whole.skip(1) =~= fields + "}"@ + tail);
            assert(whole[0] == '{');
            lemma_fields_read_back(objects[0], tail);
            assert(tail.skip(1) =~= inner);
            lemma_objects_read_back(others, rest);
            assert(seq![objects[0]] + others =~= objects);
        }
    }
}

/// An array of objects is read back as it was written, whatever the texts in
/// it hold.
pub proof fn json_array_reads_back(objects: Seq<Seq<(Seq<char>, JsonValue)>>)
    requires
        forall|i: int| 0 <= i < objects.len() ==> is_object(#[trigger] objects[i]),
    ensures
        read_array(array(written_objects(objects))) == Some(objects),
{
    reveal_strlit("[");
    reveal_strlit("]");
    let items = written_objects(objects);
    let whole = array(items);
    lemma_objects_read_back(objects, Seq::empty());
    assert(whole[0] == '[');
    assert(whole.skip(1) =~= joined(items, ","@) + "]"@ + Seq::<char>::empty());
}

} // verus!

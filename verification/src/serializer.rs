//! The serializer: the compact text of a value, and the function that
//! writes it.

use crate::chars::{control, hex_digit, hex_digit_char, is_control};
use crate::grammar::{document, false_word, null_word, true_word};
use crate::laws::{lemma_written_reads_back, well_formed};
use crate::model::{Failure, Json};
use crate::value::{members_view, values_view, JsonValue};
use vstd::prelude::*;

verus! {

/// How one character of a string is written: the two-character escapes for
/// the quote, the backslash and the five named controls, `\u` with four
/// lower-case hexadecimal digits for any other control character, and every
/// other character as it is.
pub open spec fn escaped(c: char) -> Seq<char> {
    if c == '"' {
        seq!['\\', '"']
    } else if c == '\\' {
        seq!['\\', '\\']
    } else if c == '\u{8}' {
        seq!['\\', 'b']
    } else if c == '\u{c}' {
        seq!['\\', 'f']
    } else if c == '\n' {
        seq!['\\', 'n']
    } else if c == '\r' {
        seq!['\\', 'r']
    } else if c == '\t' {
        seq!['\\', 't']
    } else if control(c) {
        let n = c as int;
        seq![
            '\\',
            'u',
            hex_digit(n / 4096 % 16),
            hex_digit(n / 256 % 16),
            hex_digit(n / 16 % 16),
            hex_digit(n % 16),
        ]
    } else {
        seq![c]
    }
}

/// The characters of `text`, each written as `escaped` says.
pub open spec fn escaped_text(text: Seq<char>) -> Seq<char>
    decreases text.len(),
{
    if text.len() == 0 {
        Seq::empty()
    } else {
        escaped(text[0]) + escaped_text(text.drop_first())
    }
}

/// A string as it is written: escaped, between two quotes.
pub open spec fn quoted(text: Seq<char>) -> Seq<char> {
    seq!['"'] + escaped_text(text) + seq!['"']
}

/// The texts in `parts`, with a comma between each two of them.
pub open spec fn joined(parts: Seq<Seq<char>>) -> Seq<char>
    decreases parts.len(),
{
    if parts.len() == 0 {
        Seq::empty()
    } else if parts.len() == 1 {
        parts[0]
    } else {
        parts[0] + seq![','] + joined(parts.drop_first())
    }
}

/// The compact text of a value: no white space anywhere, the items of an
/// array and the members of an object in their order.
pub open spec fn text_of(value: Json) -> Seq<char>
    decreases value,
{
    match value {
        Json::Null => null_word(),
        Json::Bool(b) => if b {
            true_word()
        } else {
            false_word()
        },
        Json::Number(literal) => literal,
        Json::String(text) => quoted(text),
        Json::Array(items) => seq!['['] + joined(item_texts(items)) + seq![']'],
        Json::Object(members) => seq!['{'] + joined(member_texts(members)) + seq!['}'],
    }
}

/// The texts of the items of an array.
pub open spec fn item_texts(items: Seq<Json>) -> Seq<Seq<char>>
    decreases items,
{
    Seq::new(
        items.len(),
        |i: int|
            if 0 <= i < items.len() {
                text_of(items[i])
            } else {
                Seq::empty()
            },
    )
}

/// The texts of the members of an object: the key as a string, a colon,
/// the value.
pub open spec fn member_texts(members: Seq<(Seq<char>, Json)>) -> Seq<Seq<char>>
    decreases members,
{
    Seq::new(
        members.len(),
        |i: int|
            if 0 <= i < members.len() {
                quoted(members[i].0) + seq![':'] + text_of(members[i].1)
            } else {
                Seq::empty()
            },
    )
}

/// Writing one more character adds its escape at the end.
proof fn lemma_escaped_text_push(text: Seq<char>, c: char)
    ensures
        escaped_text(text.push(c)) == escaped_text(text) + escaped(c),
    decreases text.len(),
{
    if text.len() == 0 {
        assert(text.push(c).drop_first() =~= Seq::empty());
        assert(escaped_text(text.push(c).drop_first()) =~= Seq::empty());
        assert(text.push(c)[0] == c);
        assert(escaped_text(text.push(c)) =~= escaped(c));
        assert(escaped_text(text) + escaped(c) =~= escaped(c));
    } else {
        lemma_escaped_text_push(text.drop_first(), c);
        assert(text.push(c).drop_first() =~= text.drop_first().push(c));
        assert(escaped_text(text.push(c)) =~= escaped_text(text) + escaped(c));
    }
}

/// Joining one more part adds a comma, unless the part is the first, and
/// the part.
proof fn lemma_joined_push(parts: Seq<Seq<char>>, part: Seq<char>)
    ensures
        joined(parts.push(part)) == if parts.len() == 0 {
            part
        } else {
            joined(parts) + seq![','] + part
        },
    decreases parts.len(),
{
    if parts.len() == 0 {
    } else if parts.len() == 1 {
        assert(parts.push(part).drop_first() =~= seq![part]);
        assert(joined(seq![part]) == part);
    } else {
        lemma_joined_push(parts.drop_first(), part);
        assert(parts.push(part).drop_first() =~= parts.drop_first().push(part));
        assert(joined(parts.push(part)) =~= joined(parts) + seq![','] + part);
    }
}

/// Appends `c` as it is written inside a string.
fn write_char(c: char, out: &mut String)
    ensures
        final(out)@ == old(out)@ + escaped(c),
{
    if c == '"' {
        out.push('\\');
        out.push('"');
    } else if c == '\\' {
        out.push('\\');
        out.push('\\');
    } else if c == '\u{8}' {
        out.push('\\');
        out.push('b');
    } else if c == '\u{c}' {
        out.push('\\');
        out.push('f');
    } else if c == '\n' {
        out.push('\\');
        out.push('n');
    } else if c == '\r' {
        out.push('\\');
        out.push('r');
    } else if c == '\t' {
        out.push('\\');
        out.push('t');
    } else if is_control(c) {
        let n: u32 = c as u32;
        out.push('\\');
        out.push('u');
        out.push(hex_digit_char(n / 4096 % 16));
        out.push(hex_digit_char(n / 256 % 16));
        out.push(hex_digit_char(n / 16 % 16));
        out.push(hex_digit_char(n % 16));
    } else {
        out.push(c);
    }
    assert(out@ =~= old(out)@ + escaped(c));
}

/// Appends `text` as a string: escaped, between two quotes.
fn write_string(text: &str, out: &mut String)
    ensures
        final(out)@ == old(out)@ + quoted(text@),
{
    out.push('"');
    for c in iter: text.chars()
        invariant
            iter.seq() == text@,
            out@ == old(out)@ + seq!['"'] + escaped_text(text@.take(iter.index() as int)),
    {
        let ghost done = text@.take(iter.index() as int);
        write_char(c, out);
        proof {
            lemma_escaped_text_push(done, c);
            assert(text@.take(iter.index() + 1) =~= done.push(c));
            assert(out@ =~= old(out)@ + seq!['"'] + escaped_text(done.push(c)));
        }
    }
    out.push('"');
    proof {
        assert(text@.take(text@.len() as int) =~= text@);
        assert(out@ =~= old(out)@ + quoted(text@));
    }
}

/// Appends the compact text of `value`.
fn write_value(value: &JsonValue, out: &mut String)
    ensures
        final(out)@ == old(out)@ + text_of(value@),
    decreases value@,
{
    match value {
        JsonValue::Null => {
            out.push('n');
            out.push('u');
            out.push('l');
            out.push('l');
            assert(out@ =~= old(out)@ + null_word());
        },
        JsonValue::Bool(b) => {
            if *b {
                out.push('t');
                out.push('r');
                out.push('u');
                out.push('e');
                assert(out@ =~= old(out)@ + true_word());
            } else {
                out.push('f');
                out.push('a');
                out.push('l');
                out.push('s');
                out.push('e');
                assert(out@ =~= old(out)@ + false_word());
            }
        },
        JsonValue::Number(literal) => {
            out.append(literal.as_str());
        },
        JsonValue::String(text) => {
            write_string(text.as_str(), out);
        },
        JsonValue::Array(items) => {
            proof {
                JsonValue::lemma_array_view(*items);
            }
            let ghost texts = item_texts(values_view(items@));
            out.push('[');
            let mut i: usize = 0;
            while i < items.len()
                invariant
                    i <= items.len(),
                    value@ == Json::Array(values_view(items@)),
                    texts == item_texts(values_view(items@)),
                    out@ == old(out)@ + seq!['['] + joined(texts.take(i as int)),
                decreases items.len() - i,
            {
                if i > 0 {
                    out.push(',');
                }
                assert(values_view(items@)[i as int] == items[i as int]@);
                proof {
                    let models = value@->Array_0;
                    assert(decreases_to!(value@ => models));
                    vstd::seq::axiom_seq_index_decreases(models, i as int);
                }
                write_value(&items[i], out);
                proof {
                    lemma_joined_push(texts.take(i as int), texts[i as int]);
                    assert(texts.take(i + 1) =~= texts.take(i as int).push(texts[i as int]));
                    assert(out@ =~= old(out)@ + seq!['['] + joined(texts.take(i + 1)));
                }
                i += 1;
            }
            out.push(']');
            proof {
                assert(texts.take(i as int) =~= texts);
                assert(out@ =~= old(out)@ + text_of(value@));
            }
        },
        JsonValue::Object(object) => {
            let entries = object.entries();
            let ghost texts = member_texts(members_view(entries@));
            out.push('{');
            let mut i: usize = 0;
            while i < entries.len()
                invariant
                    i <= entries.len(),
                    value@ == Json::Object(members_view(entries@)),
                    texts == member_texts(members_view(entries@)),
                    out@ == old(out)@ + seq!['{'] + joined(texts.take(i as int)),
                decreases entries.len() - i,
            {
                if i > 0 {
                    out.push(',');
                }
                let ghost start = out@;
                assert(members_view(entries@)[i as int] == (
                    entries[i as int].0@,
                    entries[i as int].1@,
                ));
                proof {
                    let models = value@->Object_0;
                    assert(decreases_to!(value@ => models));
                    vstd::seq::axiom_seq_index_decreases(models, i as int);
                    assert(decreases_to!(models[i as int] => models[i as int].1));
                }
                write_string(entries[i].0.as_str(), out);
                out.push(':');
                write_value(&entries[i].1, out);
                proof {
                    assert(out@ =~= start + texts[i as int]);
                    lemma_joined_push(texts.take(i as int), texts[i as int]);
                    assert(texts.take(i + 1) =~= texts.take(i as int).push(texts[i as int]));
                    assert(out@ =~= old(out)@ + seq!['{'] + joined(texts.take(i + 1)));
                }
                i += 1;
            }
            out.push('}');
            proof {
                assert(texts.take(i as int) =~= texts);
                assert(out@ =~= old(out)@ + text_of(value@));
            }
        },
    }
}

/// The compact text of `value`. The text of a well-formed value is a
/// document that denotes the value.
pub fn stringify(value: &JsonValue) -> (r: String)
    ensures
        r@ == text_of(value@),
        well_formed(value@) ==> document(r@) == Ok::<Json, Failure>(value@),
{
    let mut out = String::new();
    write_value(value, &mut out);
    proof {
        assert(out@ =~= text_of(value@));
        if well_formed(value@) {
            lemma_written_reads_back(value@);
        }
    }
    out
}

} // verus!

//! What holds of the codec as a whole: a value that is written and read
//! again is the same value.

use crate::chars::{ascii_digit, hex_digit, hex_value, scalar_value, whitespace};
use crate::grammar::{
    char_at, digits_end, document, done, elements_at, exponent_end, exponent_start, fraction_end,
    has_exponent, has_fraction, integer_start, lemma_digits_end_range, lemma_hex_number_of_four,
    lemma_number_range, lemma_skip_whitespace_range, lemma_value_range, members_at, number_denotes,
    number_end, simple_escape, skip_whitespace, starts_with, string_body, unicode_escape, value_at,
};
use crate::model::{
    key_index, keys_distinct, lemma_key_index, lemma_same_reflexive, same, with_member, Failure,
    Json,
};
use crate::serializer::{escaped, escaped_text, item_texts, joined, member_texts, quoted, text_of};
use vstd::prelude::*;

verus! {

/// A text that starts with two texts in a row starts with the first, and
/// behind it with the second.
proof fn lemma_starts_with_split(input: Seq<char>, pos: int, a: Seq<char>, b: Seq<char>)
    requires
        starts_with(input, pos, a + b),
    ensures
        starts_with(input, pos, a),
        starts_with(input, pos + a.len(), b),
{
    let whole = input.subrange(pos, pos + (a + b).len());
    assert(input.subrange(pos, pos + a.len()) =~= a) by {
        assert forall|i: int| 0 <= i < a.len() implies input[pos + i] == a[i] by {
            assert(whole[i] == (a + b)[i]);
        }
    }
    assert(input.subrange(pos + a.len(), pos + a.len() + b.len()) =~= b) by {
        assert forall|i: int| 0 <= i < b.len() implies input[pos + a.len() + i] == b[i] by {
            assert(whole[a.len() + i] == (a + b)[a.len() + i]);
        }
    }
}

/// The characters of a text that starts with `word` are those of `word`.
proof fn lemma_starts_with_index(input: Seq<char>, pos: int, word: Seq<char>, i: int)
    requires
        starts_with(input, pos, word),
        0 <= i < word.len(),
    ensures
        char_at(input, pos + i) == Some(word[i]),
{
    assert(input.subrange(pos, pos + word.len())[i] == word[i]);
}

/// A hexadecimal digit has the value it was made from.
proof fn lemma_hex_digit_value(d: int)
    requires
        0 <= d < 16,
    ensures
        hex_value(hex_digit(d)) == Some(d),
{
}

/// The escape written for a control character is read as that character.
proof fn lemma_unicode_escape_reads_back(input: Seq<char>, pos: int, c: char)
    requires
        0 <= pos,
        c as int <= 0xFFFF,
        starts_with(
            input,
            pos,
            seq![
                hex_digit(c as int / 4096 % 16),
                hex_digit(c as int / 256 % 16),
                hex_digit(c as int / 16 % 16),
                hex_digit(c as int % 16),
            ],
        ),
    ensures
        unicode_escape(input, pos) == Ok::<char, Failure>(c),
{
    let n = c as int;
    let digits = input.subrange(pos, pos + 4);
    lemma_hex_number_of_four(digits);
    lemma_hex_digit_value(n / 4096 % 16);
    lemma_hex_digit_value(n / 256 % 16);
    lemma_hex_digit_value(n / 16 % 16);
    lemma_hex_digit_value(n % 16);
    assert(((n / 4096 % 16 * 16 + n / 256 % 16) * 16 + n / 16 % 16) * 16 + n % 16 == n);
    assert(scalar_value(n));
    assert(n as char == c);
}

/// One written character, read inside a string, is that character.
proof fn lemma_escaped_reads_back(input: Seq<char>, pos: int, c: char, read: Seq<char>)
    requires
        0 <= pos,
        starts_with(input, pos, escaped(c)),
    ensures
        string_body(input, pos, read) == string_body(
            input,
            pos + escaped(c).len(),
            read.push(c),
        ),
{
    let e = escaped(c);
    lemma_starts_with_index(input, pos, e, 0);
    if e.len() == 1 {
        assert(input[pos] == c);
    } else if e.len() == 2 {
        lemma_starts_with_index(input, pos, e, 1);
        assert(input[pos] == '\\');
        assert(simple_escape(input[pos + 1]) == Some(c));
    } else {
        lemma_starts_with_index(input, pos, e, 1);
        assert(input[pos] == '\\');
        assert(input[pos + 1] == 'u');
        let digits = seq![e[2], e[3], e[4], e[5]];
        assert(e =~= seq!['\\', 'u'] + digits);
        lemma_starts_with_split(input, pos, seq!['\\', 'u'], digits);
        lemma_unicode_escape_reads_back(input, pos + 2, c);
    }
}

/// A written string, read from behind its opening quote, is the string.
proof fn lemma_string_body_reads_back(
    input: Seq<char>,
    pos: int,
    text: Seq<char>,
    read: Seq<char>,
)
    requires
        0 <= pos,
        starts_with(input, pos, escaped_text(text) + seq!['"']),
    ensures
        string_body(input, pos, read) == done(
            Json::String(read + text),
            pos + escaped_text(text).len() + 1,
        ),
    decreases text.len(),
{
    let quote = seq!['"'];
    if text.len() == 0 {
        lemma_starts_with_index(input, pos, escaped_text(text) + quote, 0);
        assert(read + text =~= read);
    } else {
        let c = text[0];
        let rest = text.drop_first();
        let e = escaped(c);
        assert(escaped_text(text) + quote =~= e + (escaped_text(rest) + quote));
        lemma_starts_with_split(input, pos, e, escaped_text(rest) + quote);
        lemma_escaped_reads_back(input, pos, c, read);
        lemma_string_body_reads_back(input, pos + e.len(), rest, read.push(c));
        assert(read.push(c) + rest =~= read + text);
    }
}

/// What can stand behind a number: the end of the text, or a character
/// with which no part of a number goes on.
pub open spec fn number_stops(input: Seq<char>, pos: int) -> bool {
    match char_at(input, pos) {
        None => true,
        Some(c) => !ascii_digit(c) && c != '.' && c != 'e' && c != 'E' && c != '+' && c != '-',
    }
}

/// A text that the grammar reads as a number, from its first character to
/// its last.
pub open spec fn number_literal(text: Seq<char>) -> bool {
    &&& text.len() > 0
    &&& ascii_digit(text[0]) || text[0] == '-'
    &&& number_end(text, 0) == text.len()
    &&& number_denotes(text, 0)
}

/// Digits are scanned in a part of a text as in the whole text, except that
/// the scan ends where the part ends.
proof fn lemma_digits_end_in_part(input: Seq<char>, pos: int, n: int, k: int)
    requires
        0 <= pos,
        pos + n <= input.len(),
        0 <= k <= n,
    ensures
        digits_end(input.subrange(pos, pos + n), k) == if digits_end(input, pos + k) <= pos + n {
            digits_end(input, pos + k) - pos
        } else {
            n
        },
    decreases n - k,
{
    let part = input.subrange(pos, pos + n);
    lemma_digits_end_range(input, pos + k);
    if k < n {
        assert(part[k] == input[pos + k]);
        if ascii_digit(input[pos + k]) {
            lemma_digits_end_in_part(input, pos, n, k + 1);
        }
    }
}

/// A number is scanned in a text as it is scanned alone, when behind it the
/// text ends or goes on with a character that belongs to no number.
proof fn lemma_number_in_context(input: Seq<char>, pos: int, n: int)
    requires
        0 <= pos,
        0 <= n,
        pos + n <= input.len(),
        number_stops(input, pos + n),
    ensures
        number_end(input, pos) == pos + number_end(input.subrange(pos, pos + n), 0),
        number_denotes(input, pos) == number_denotes(input.subrange(pos, pos + n), 0),
{
    let part = input.subrange(pos, pos + n);
    assert forall|k: int| 0 <= k < n implies char_at(part, k) == char_at(input, pos + k) by {
        assert(part[k] == input[pos + k]);
    }
    assert forall|k: int| 0 <= k <= n implies digits_end(input, pos + k) == pos + digits_end(
        part,
        k,
    ) by {
        lemma_digits_end_in_part(input, pos, n, k);
        lemma_digits_end_stops(input, pos + k, pos + n);
    }
    let first = integer_start(part, 0);
    assert(integer_start(input, pos) == pos + first);
    lemma_digits_end_range(part, first);
    let integer_end = digits_end(part, first);
    assert(digits_end(input, pos + first) == pos + integer_end);
    assert(has_fraction(input, pos + integer_end) == has_fraction(part, integer_end));
    if has_fraction(part, integer_end) {
        lemma_digits_end_range(part, integer_end + 1);
    }
    let mantissa_end = fraction_end(part, integer_end);
    assert(fraction_end(input, pos + integer_end) == pos + mantissa_end);
    assert(has_exponent(input, pos + mantissa_end) == has_exponent(part, mantissa_end));
    if has_exponent(part, mantissa_end) {
        assert(exponent_start(input, pos + mantissa_end) == pos + exponent_start(
            part,
            mantissa_end,
        ));
        lemma_digits_end_range(part, exponent_start(part, mantissa_end));
    }
    assert(exponent_end(input, pos + mantissa_end) == pos + exponent_end(part, mantissa_end));
}

/// The scan of digits does not pass a position that holds no digit.
proof fn lemma_digits_end_stops(input: Seq<char>, pos: int, stop: int)
    requires
        0 <= pos <= stop,
        match char_at(input, stop) {
            None => true,
            Some(c) => !ascii_digit(c),
        },
    ensures
        digits_end(input, pos) <= stop,
    decreases stop - pos,
{
    if pos < stop && 0 <= pos < input.len() && ascii_digit(input[pos]) {
        lemma_digits_end_stops(input, pos + 1, stop);
    }
}

/// A value as reading produces it: every number is a literal that the
/// grammar reads as a number, and no object holds a key twice.
pub open spec fn well_formed(value: Json) -> bool
    decreases value,
{
    match value {
        Json::Number(literal) => number_literal(literal),
        Json::Array(items) => forall|i: int|
            0 <= i < items.len() ==> well_formed(#[trigger] items[i]),
        Json::Object(members) => {
            &&& keys_distinct(members)
            &&& forall|i: int| 0 <= i < members.len() ==> well_formed((#[trigger] members[i]).1)
        },
        _ => true,
    }
}

/// Whether `c` can be the first character of a written value.
spec fn starts_value(c: char) -> bool {
    c == 'n' || c == 't' || c == 'f' || c == '"' || c == '[' || c == '{' || c == '-'
        || ascii_digit(c)
}

/// The text of a value is not empty, and its first character tells the
/// kind of the value.
proof fn lemma_text_start(value: Json)
    requires
        well_formed(value),
    ensures
        text_of(value).len() > 0,
        starts_value(text_of(value)[0]),
        text_of(value)[0] == 'n' <==> value is Null,
        text_of(value)[0] == 't' <==> value == Json::Bool(true),
        text_of(value)[0] == 'f' <==> value == Json::Bool(false),
        text_of(value)[0] == '"' <==> value is String,
        text_of(value)[0] == '[' <==> value is Array,
        text_of(value)[0] == '{' <==> value is Object,
{
    match value {
        Json::String(text) => {
            assert(quoted(text)[0] == '"');
        },
        Json::Array(items) => {
            assert(text_of(value)[0] == '[');
        },
        Json::Object(members) => {
            assert(text_of(value)[0] == '{');
        },
        _ => {},
    }
}

/// A position that holds no white space is where skipping white space ends.
proof fn lemma_nothing_to_skip(input: Seq<char>, pos: int)
    requires
        match char_at(input, pos) {
            None => true,
            Some(c) => !whitespace(c),
        },
    ensures
        skip_whitespace(input, pos) == pos,
{
}

/// A written string is read as the string.
proof fn lemma_string_reads_back(input: Seq<char>, pos: int, text: Seq<char>)
    requires
        0 <= pos,
        starts_with(input, pos, quoted(text)),
    ensures
        value_at(input, pos) == done(Json::String(text), pos + quoted(text).len()),
{
    let quote = seq!['"'];
    assert(quoted(text) =~= quote + (escaped_text(text) + quote));
    lemma_starts_with_split(input, pos, quote, escaped_text(text) + quote);
    lemma_starts_with_index(input, pos, quote, 0);
    lemma_nothing_to_skip(input, pos);
    lemma_string_body_reads_back(input, pos + 1, text, Seq::empty());
    assert(Seq::<char>::empty() + text =~= text);
}

/// A key that no member carries is stored at the end.
proof fn lemma_with_new_member(members: Seq<(Seq<char>, Json)>, key: Seq<char>, value: Json)
    requires
        forall|i: int| 0 <= i < members.len() ==> (#[trigger] members[i]).0 != key,
    ensures
        with_member(members, key, value) == members.push((key, value)),
{
    lemma_key_index(members, key);
}

/// A written value is read as the value, wherever its text stands, when
/// behind it the text ends or goes on with a character that belongs to no
/// number.
pub proof fn lemma_value_reads_back(input: Seq<char>, pos: int, value: Json)
    requires
        0 <= pos,
        well_formed(value),
        starts_with(input, pos, text_of(value)),
        number_stops(input, pos + text_of(value).len()),
    ensures
        value_at(input, pos) == done(value, pos + text_of(value).len()),
    decreases value, 0int,
{
    let text = text_of(value);
    lemma_text_start(value);
    lemma_starts_with_index(input, pos, text, 0);
    lemma_nothing_to_skip(input, pos);
    match value {
        Json::Null => {},
        Json::Bool(b) => {},
        Json::Number(literal) => {
            lemma_number_in_context(input, pos, literal.len() as int);
        },
        Json::String(s) => {
            lemma_string_reads_back(input, pos, s);
        },
        Json::Array(items) => {
            let inner = joined(item_texts(items)) + seq![']'];
            assert(text =~= seq!['['] + inner);
            lemma_starts_with_split(input, pos, seq!['['], inner);
            lemma_starts_with_index(input, pos + 1, inner, 0);
            if items.len() == 0 {
                assert(inner[0] == ']');
                lemma_nothing_to_skip(input, pos + 1);
                assert(items =~= Seq::empty());
            } else {
                let first = text_of(items[0]);
                lemma_text_start(items[0]);
                assert(item_texts(items)[0] == first);
                lemma_joined_start(item_texts(items));
                assert(inner[0] == first[0]);
                lemma_nothing_to_skip(input, pos + 1);
                assert(item_texts(items).skip(0) =~= item_texts(items));
                assert(items.take(0) =~= Seq::empty());
                lemma_elements_read_back(input, pos + 1, items, 0);
            }
        },
        Json::Object(members) => {
            let inner = joined(member_texts(members)) + seq!['}'];
            assert(text =~= seq!['{'] + inner);
            lemma_starts_with_split(input, pos, seq!['{'], inner);
            lemma_starts_with_index(input, pos + 1, inner, 0);
            if members.len() == 0 {
                assert(inner[0] == '}');
                lemma_nothing_to_skip(input, pos + 1);
                assert(members =~= Seq::empty());
            } else {
                assert(member_texts(members)[0][0] == '"');
                lemma_joined_start(member_texts(members));
                assert(inner[0] == '"');
                lemma_nothing_to_skip(input, pos + 1);
                assert(member_texts(members).skip(0) =~= member_texts(members));
                assert(members.take(0) =~= Seq::empty());
                lemma_members_read_back(input, pos + 1, members, 0);
            }
        },
    }
}

/// Joined parts of which the first is not empty begin as the first part
/// begins.
proof fn lemma_joined_start(parts: Seq<Seq<char>>)
    requires
        parts.len() > 0,
        parts[0].len() > 0,
    ensures
        joined(parts).len() > 0,
        joined(parts)[0] == parts[0][0],
{
}

/// The written items of an array from the `k`-th on, read behind the items
/// before them, complete the array.
proof fn lemma_elements_read_back(input: Seq<char>, pos: int, items: Seq<Json>, k: int)
    requires
        0 <= pos,
        0 <= k < items.len(),
        forall|i: int| 0 <= i < items.len() ==> well_formed(#[trigger] items[i]),
        starts_with(input, pos, joined(item_texts(items).skip(k)) + seq![']']),
    ensures
        elements_at(input, pos, items.take(k)) == done(
            Json::Array(items),
            pos + joined(item_texts(items).skip(k)).len() + 1,
        ),
    decreases items, items.len() - k,
{
    let parts = item_texts(items).skip(k);
    let item = items[k];
    let text = text_of(item);
    assert(parts[0] == text);
    lemma_text_start(item);
    let end = pos + text.len();
    if k == items.len() - 1 {
        assert(joined(parts) == text);
        lemma_starts_with_split(input, pos, text, seq![']']);
        lemma_starts_with_index(input, end, seq![']'], 0);
        lemma_value_reads_back(input, pos, item);
        lemma_nothing_to_skip(input, end);
        assert(items.take(k).push(item) =~= items);
    } else {
        let rest = item_texts(items).skip(k + 1);
        assert(parts.drop_first() =~= rest);
        let tail = seq![','] + (joined(rest) + seq![']']);
        assert(joined(parts) + seq![']'] =~= text + tail);
        lemma_starts_with_split(input, pos, text, tail);
        lemma_starts_with_split(input, end, seq![','], joined(rest) + seq![']']);
        lemma_starts_with_index(input, end, seq![','], 0);
        lemma_value_reads_back(input, pos, item);
        lemma_nothing_to_skip(input, end);
        lemma_text_start(items[k + 1]);
        assert(rest[0] == text_of(items[k + 1]));
        lemma_joined_start(rest);
        lemma_starts_with_index(input, end + 1, joined(rest) + seq![']'], 0);
        lemma_nothing_to_skip(input, end + 1);
        assert(items.take(k + 1) =~= items.take(k).push(item));
        lemma_elements_read_back(input, end + 1, items, k + 1);
    }
}

/// One written member is read as its key, a colon and its value, up to the
/// comma or brace that stands behind it.
proof fn lemma_member_reads_back(
    input: Seq<char>,
    pos: int,
    key: Seq<char>,
    value: Json,
    tail: Seq<char>,
)
    requires
        0 <= pos,
        well_formed(value),
        tail.len() > 0,
        tail[0] == ',' || tail[0] == '}',
        starts_with(input, pos, quoted(key) + seq![':'] + text_of(value) + tail),
    ensures
        value_at(input, pos) == done(Json::String(key), pos + quoted(key).len()),
        skip_whitespace(input, pos + quoted(key).len()) == pos + quoted(key).len(),
        char_at(input, pos + quoted(key).len()) == Some(':'),
        value_at(input, pos + quoted(key).len() + 1) == done(
            value,
            pos + quoted(key).len() + 1 + text_of(value).len(),
        ),
        skip_whitespace(input, pos + quoted(key).len() + 1 + text_of(value).len()) == pos
            + quoted(key).len() + 1 + text_of(value).len(),
        starts_with(input, pos + quoted(key).len() + 1 + text_of(value).len(), tail),
    decreases value, 1int,
{
    let name = quoted(key);
    let text = text_of(value);
    let colon = pos + name.len();
    let end = colon + 1 + text.len();
    assert(name + seq![':'] + text + tail =~= name + (seq![':'] + (text + tail)));
    lemma_starts_with_split(input, pos, name, seq![':'] + (text + tail));
    lemma_starts_with_split(input, colon, seq![':'], text + tail);
    lemma_starts_with_split(input, colon + 1, text, tail);
    lemma_starts_with_index(input, colon, seq![':'], 0);
    lemma_starts_with_index(input, end, tail, 0);
    lemma_string_reads_back(input, pos, key);
    lemma_nothing_to_skip(input, colon);
    lemma_value_reads_back(input, colon + 1, value);
    lemma_nothing_to_skip(input, end);
}

/// The written members of an object from the `k`-th on, read behind the
/// members before them, complete the object.
proof fn lemma_members_read_back(
    input: Seq<char>,
    pos: int,
    members: Seq<(Seq<char>, Json)>,
    k: int,
)
    requires
        0 <= pos,
        0 <= k < members.len(),
        keys_distinct(members),
        forall|i: int| 0 <= i < members.len() ==> well_formed((#[trigger] members[i]).1),
        starts_with(input, pos, joined(member_texts(members).skip(k)) + seq!['}']),
    ensures
        members_at(input, pos, members.take(k)) == done(
            Json::Object(members),
            pos + joined(member_texts(members).skip(k)).len() + 1,
        ),
    decreases members, members.len() - k,
{
    let parts = member_texts(members).skip(k);
    let key = members[k].0;
    let value = members[k].1;
    let part = quoted(key) + seq![':'] + text_of(value);
    assert(parts[0] == part);
    assert(well_formed(value));
    let end = pos + part.len();
    let read = members.take(k);
    assert forall|i: int| 0 <= i < read.len() implies (#[trigger] read[i]).0 != key by {
        assert(read[i] == members[i]);
    }
    lemma_with_new_member(read, key, value);
    if k == members.len() - 1 {
        assert(joined(parts) == part);
        lemma_member_reads_back(input, pos, key, value, seq!['}']);
        lemma_starts_with_index(input, end, seq!['}'], 0);
        assert(read.push((key, value)) =~= members);
    } else {
        let rest = member_texts(members).skip(k + 1);
        assert(parts.drop_first() =~= rest);
        let tail = seq![','] + (joined(rest) + seq!['}']);
        assert(joined(parts) + seq!['}'] =~= part + tail);
        lemma_member_reads_back(input, pos, key, value, tail);
        lemma_starts_with_index(input, end, tail, 0);
        lemma_starts_with_split(input, end, seq![','], joined(rest) + seq!['}']);
        assert(rest[0][0] == '"');
        lemma_joined_start(rest);
        lemma_starts_with_index(input, end + 1, joined(rest) + seq!['}'], 0);
        lemma_nothing_to_skip(input, end + 1);
        assert(members.take(k + 1) =~= read.push((key, value)));
        lemma_members_read_back(input, end + 1, members, k + 1);
    }
}

/// Writing a value and reading the text gives the value back.
pub proof fn lemma_written_reads_back(value: Json)
    requires
        well_formed(value),
    ensures
        document(text_of(value)) == Ok::<Json, Failure>(value),
{
    let text = text_of(value);
    assert(text.subrange(0, text.len() as int) =~= text);
    lemma_value_reads_back(text, 0, value);
    lemma_nothing_to_skip(text, text.len() as int);
}

/// The text that is scanned as a number and denotes one is a literal that
/// is read in the same way when it stands alone.
proof fn lemma_number_alone(input: Seq<char>, pos: int)
    requires
        0 <= pos < input.len(),
        ascii_digit(input[pos]) || input[pos] == '-',
        number_denotes(input, pos),
    ensures
        number_literal(input.subrange(pos, number_end(input, pos))),
{
    lemma_number_range(input, pos);
    let end = number_end(input, pos);
    let n = end - pos;
    let part = input.subrange(pos, end);
    assert forall|k: int| 0 <= k < n implies char_at(part, k) == char_at(input, pos + k) by {
        assert(part[k] == input[pos + k]);
    }
    let first = integer_start(input, pos);
    assert(integer_start(part, 0) == first - pos);
    let integer_end = digits_end(input, first);
    lemma_digits_end_in_part(input, pos, n, first - pos);
    assert(digits_end(part, first - pos) == integer_end - pos);
    let mantissa_end = fraction_end(input, integer_end);
    if has_fraction(input, integer_end) {
        lemma_digits_end_range(input, integer_end + 1);
        lemma_digits_end_in_part(input, pos, n, integer_end + 1 - pos);
    }
    assert(has_fraction(part, integer_end - pos) == has_fraction(input, integer_end));
    assert(fraction_end(part, integer_end - pos) == mantissa_end - pos);
    if has_exponent(input, mantissa_end) {
        let digits = exponent_start(input, mantissa_end);
        lemma_digits_end_range(input, digits);
        assert(exponent_start(part, mantissa_end - pos) == digits - pos);
        lemma_digits_end_in_part(input, pos, n, digits - pos);
    }
    assert(has_exponent(part, mantissa_end - pos) == has_exponent(input, mantissa_end));
    assert(exponent_end(part, mantissa_end - pos) == end - pos);
}

/// Storing a value under a key keeps the keys distinct.
proof fn lemma_with_member_distinct(
    members: Seq<(Seq<char>, Json)>,
    key: Seq<char>,
    value: Json,
)
    requires
        keys_distinct(members),
    ensures
        keys_distinct(with_member(members, key, value)),
{
    lemma_key_index(members, key);
    let after = with_member(members, key, value);
    let at = key_index(members, key);
    assert forall|i: int, j: int| 0 <= i < j < after.len() implies (#[trigger] after[i]).0 != (
    #[trigger] after[j]).0 by {
        if at < members.len() {
            assert(after[i].0 == members[i].0);
            assert(after[j].0 == members[j].0);
        } else if j < members.len() {
            assert(after[i] == members[i]);
            assert(after[j] == members[j]);
        } else {
            assert(after[i] == members[i]);
        }
    }
}

/// What is read as a string is a string.
proof fn lemma_string_body_is_string(input: Seq<char>, pos: int, read: Seq<char>)
    ensures
        string_body(input, pos, read).result matches Ok(value) ==> value is String,
    decreases input.len() - pos,
{
    if 0 <= pos < input.len() && input[pos] != '"' {
        if input[pos] != '\\' {
            lemma_string_body_is_string(input, pos + 1, read.push(input[pos]));
        } else if pos + 1 < input.len() {
            if input[pos + 1] == 'u' {
                match unicode_escape(input, pos + 2) {
                    Ok(c) => {
                        lemma_string_body_is_string(input, pos + 6, read.push(c));
                    },
                    Err(_) => {},
                }
            } else {
                match simple_escape(input[pos + 1]) {
                    Some(c) => {
                        lemma_string_body_is_string(input, pos + 2, read.push(c));
                    },
                    None => {},
                }
            }
        }
    }
}

/// A value that is read is well formed.
pub proof fn lemma_value_well_formed(input: Seq<char>, pos: int)
    requires
        0 <= pos,
    ensures
        value_at(input, pos).result matches Ok(value) ==> well_formed(value),
    decreases input.len() - pos, 2int,
{
    let start = skip_whitespace(input, pos);
    lemma_skip_whitespace_range(input, pos);
    match char_at(input, start) {
        None => {},
        Some(c) => {
            if c == 'n' || c == 't' || c == 'f' {
            } else if c == '"' {
                lemma_string_body_is_string(input, start + 1, Seq::empty());
            } else if c == '[' {
                lemma_skip_whitespace_range(input, start + 1);
                lemma_elements_well_formed(input, skip_whitespace(input, start + 1), Seq::empty());
            } else if c == '{' {
                lemma_skip_whitespace_range(input, start + 1);
                lemma_members_well_formed(input, skip_whitespace(input, start + 1), Seq::empty());
            } else if ascii_digit(c) || c == '-' {
                if number_denotes(input, start) {
                    lemma_number_alone(input, start);
                }
            }
        },
    }
}

/// The array that is completed behind well-formed items is well formed.
proof fn lemma_elements_well_formed(input: Seq<char>, pos: int, read: Seq<Json>)
    requires
        0 <= pos,
        forall|i: int| 0 <= i < read.len() ==> well_formed(#[trigger] read[i]),
    ensures
        elements_at(input, pos, read).result matches Ok(value) ==> well_formed(value),
    decreases input.len() - pos, 3int,
{
    let element = value_at(input, pos);
    lemma_value_range(input, pos);
    lemma_value_well_formed(input, pos);
    match element.result {
        Err(_) => {},
        Ok(value) => {
            let next = skip_whitespace(input, element.end);
            lemma_skip_whitespace_range(input, element.end);
            let items = read.push(value);
            assert forall|i: int| 0 <= i < items.len() implies well_formed(
                #[trigger] items[i],
            ) by {
                if i < read.len() {
                    assert(items[i] == read[i]);
                }
            }
            if char_at(input, next) == Some(',') {
                lemma_skip_whitespace_range(input, next + 1);
                lemma_elements_well_formed(input, skip_whitespace(input, next + 1), items);
            }
        },
    }
}

/// The object that is completed behind well-formed members with distinct
/// keys is well formed.
proof fn lemma_members_well_formed(
    input: Seq<char>,
    pos: int,
    read: Seq<(Seq<char>, Json)>,
)
    requires
        0 <= pos,
        keys_distinct(read),
        forall|i: int| 0 <= i < read.len() ==> well_formed((#[trigger] read[i]).1),
    ensures
        members_at(input, pos, read).result matches Ok(value) ==> well_formed(value),
    decreases input.len() - pos, 3int,
{
    let name = value_at(input, pos);
    lemma_value_range(input, pos);
    match name.result {
        Ok(Json::String(key)) => {
            let colon = skip_whitespace(input, name.end);
            lemma_skip_whitespace_range(input, name.end);
            if char_at(input, colon) == Some(':') {
                let member = value_at(input, colon + 1);
                lemma_value_range(input, colon + 1);
                lemma_value_well_formed(input, colon + 1);
                match member.result {
                    Err(_) => {},
                    Ok(value) => {
                        let members = with_member(read, key, value);
                        lemma_with_member_distinct(read, key, value);
                        lemma_key_index(read, key);
                        assert forall|i: int| 0 <= i < members.len() implies well_formed(
                            (#[trigger] members[i]).1,
                        ) by {
                            if i != key_index(read, key) {
                                assert(members[i] == read[i]);
                            }
                        }
                        let next = skip_whitespace(input, member.end);
                        lemma_skip_whitespace_range(input, member.end);
                        if char_at(input, next) == Some(',') {
                            lemma_skip_whitespace_range(input, next + 1);
                            lemma_members_well_formed(
                                input,
                                skip_whitespace(input, next + 1),
                                members,
                            );
                        }
                    },
                }
            }
        },
        _ => {},
    }
}

/// Every document that is read is well formed.
pub proof fn lemma_document_well_formed(text: Seq<char>)
    ensures
        document(text) matches Ok(value) ==> well_formed(value),
{
    lemma_value_well_formed(text, 0);
}

/// Round trip: the value read from a text, written and read again, is that
/// value, member for member and in the same order, and so structurally
/// equal to it.
pub proof fn lemma_round_trip(text: Seq<char>, value: Json)
    requires
        document(text) == Ok::<Json, Failure>(value),
    ensures
        document(text_of(value)) == Ok::<Json, Failure>(value),
        document(text_of(value)) matches Ok(again) && same(again, value),
{
    lemma_document_well_formed(text);
    lemma_written_reads_back(value);
    lemma_same_reflexive(value);
}

/// The text of a well-formed value tells the value: two such values with
/// the same text are one value.
pub proof fn lemma_text_tells_value(a: Json, b: Json)
    requires
        well_formed(a),
        well_formed(b),
        text_of(a) == text_of(b),
    ensures
        a == b,
{
    lemma_written_reads_back(a);
    lemma_written_reads_back(b);
}

/// Writing, reading and writing again gives the text of the first writing.
pub proof fn lemma_write_read_write(value: Json)
    requires
        well_formed(value),
    ensures
        document(text_of(value)) matches Ok(again) && text_of(again) == text_of(value),
{
    lemma_written_reads_back(value);
}

/// Whatever follows a value that was read, other than white space, makes
/// the text no document: its first character is reported as unexpected.
pub proof fn lemma_trailing_content_fails(text: Seq<char>)
    requires
        value_at(text, 0).result is Ok,
        skip_whitespace(text, value_at(text, 0).end) < text.len(),
    ensures
        document(text) == Err::<Json, Failure>(
            Failure::UnexpectedChar(
                text[skip_whitespace(text, value_at(text, 0).end)],
                skip_whitespace(text, value_at(text, 0).end),
            ),
        ),
{
    lemma_value_range(text, 0);
    lemma_skip_whitespace_range(text, value_at(text, 0).end);
}

} // verus!

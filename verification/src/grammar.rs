//! The grammar, as functions from a text and a position to the value that
//! starts there and the position where reading stops.
//!
//! Positions count characters. Every function is total: a position beyond the
//! text reads as the end of input.

use crate::chars::{ascii_digit, hex_value, scalar_value, whitespace};
use crate::model::{with_member, Failure, Json};
use vstd::prelude::*;

verus! {

/// What reading one production gives: the value or the failure, and the
/// position of the cursor afterwards.
pub ghost struct Outcome {
    pub result: Result<Json, Failure>,
    pub end: int,
}

pub open spec fn done(value: Json, end: int) -> Outcome {
    Outcome { result: Ok(value), end }
}

pub open spec fn failed(failure: Failure, end: int) -> Outcome {
    Outcome { result: Err(failure), end }
}

/// The character at `pos`, if the text reaches that far.
pub open spec fn char_at(input: Seq<char>, pos: int) -> Option<char> {
    if 0 <= pos < input.len() {
        Some(input[pos])
    } else {
        None
    }
}

/// What stands at `pos` when a character was expected there: the character
/// is reported with its position, the end of the text as such.
pub open spec fn unexpected(input: Seq<char>, pos: int) -> Outcome {
    match char_at(input, pos) {
        Some(c) => failed(Failure::UnexpectedChar(c, pos), pos),
        None => failed(Failure::UnexpectedEndOfInput, pos),
    }
}

/// The first position from `pos` on that holds no white space.
pub open spec fn skip_whitespace(input: Seq<char>, pos: int) -> int
    decreases input.len() - pos,
{
    if 0 <= pos < input.len() && whitespace(input[pos]) {
        skip_whitespace(input, pos + 1)
    } else {
        pos
    }
}

/// Whether the characters of `word` stand in `input` from `pos` on.
pub open spec fn starts_with(input: Seq<char>, pos: int, word: Seq<char>) -> bool {
    &&& 0 <= pos
    &&& pos + word.len() <= input.len()
    &&& input.subrange(pos, pos + word.len()) == word
}

pub open spec fn null_word() -> Seq<char> {
    seq!['n', 'u', 'l', 'l']
}

pub open spec fn true_word() -> Seq<char> {
    seq!['t', 'r', 'u', 'e']
}

pub open spec fn false_word() -> Seq<char> {
    seq!['f', 'a', 'l', 's', 'e']
}

/// One of the three literal names: the whole word or nothing. On a mismatch
/// the character at `pos` is reported and the cursor stays.
pub open spec fn literal_at(input: Seq<char>, pos: int, word: Seq<char>, value: Json) -> Outcome {
    if starts_with(input, pos, word) {
        done(value, pos + word.len())
    } else {
        unexpected(input, pos)
    }
}

/// The first position from `pos` on that holds no ASCII digit.
pub open spec fn digits_end(input: Seq<char>, pos: int) -> int
    decreases input.len() - pos,
{
    if 0 <= pos < input.len() && ascii_digit(input[pos]) {
        digits_end(input, pos + 1)
    } else {
        pos
    }
}

/// Where the integer part of a number that starts at `pos` begins: behind
/// the minus sign, if there is one.
pub open spec fn integer_start(input: Seq<char>, pos: int) -> int {
    if char_at(input, pos) == Some('-') {
        pos + 1
    } else {
        pos
    }
}

/// Whether a fraction follows the integer part that ends at `pos`.
pub open spec fn has_fraction(input: Seq<char>, pos: int) -> bool {
    char_at(input, pos) == Some('.')
}

/// Where the fraction, if any, of a number whose integer part ends at `pos`
/// ends.
pub open spec fn fraction_end(input: Seq<char>, pos: int) -> int {
    if has_fraction(input, pos) {
        digits_end(input, pos + 1)
    } else {
        pos
    }
}

/// Whether an exponent follows the mantissa that ends at `pos`.
pub open spec fn has_exponent(input: Seq<char>, pos: int) -> bool {
    char_at(input, pos) == Some('e') || char_at(input, pos) == Some('E')
}

/// Where the digits of the exponent begin: behind `e` or `E` at `pos` and
/// the sign, if there is one.
pub open spec fn exponent_start(input: Seq<char>, pos: int) -> int {
    if char_at(input, pos + 1) == Some('+') || char_at(input, pos + 1) == Some('-') {
        pos + 2
    } else {
        pos + 1
    }
}

/// Where the exponent, if any, of a number whose mantissa ends at `pos` ends.
pub open spec fn exponent_end(input: Seq<char>, pos: int) -> int {
    if has_exponent(input, pos) {
        digits_end(input, exponent_start(input, pos))
    } else {
        pos
    }
}

/// Where the number that starts at `pos` ends: an optional minus sign,
/// digits, an optional point with digits, an optional exponent with an
/// optional sign and digits. No part needs a digit to be scanned.
pub open spec fn number_end(input: Seq<char>, pos: int) -> int {
    let integer_end = digits_end(input, integer_start(input, pos));
    exponent_end(input, fraction_end(input, integer_end))
}

/// Whether what was scanned at `pos` denotes a number: the mantissa holds a
/// digit, before or behind the point, and so does the exponent if there is
/// one.
pub open spec fn number_denotes(input: Seq<char>, pos: int) -> bool {
    let first = integer_start(input, pos);
    let integer_end = digits_end(input, first);
    let mantissa_end = fraction_end(input, integer_end);
    &&& first < integer_end || integer_end + 1 < mantissa_end
    &&& has_exponent(input, mantissa_end) ==> exponent_start(input, mantissa_end) < exponent_end(
        input,
        mantissa_end,
    )
}

/// The number at `pos`: the scanned text is the value when it denotes a
/// number, and the failure when it does not.
pub open spec fn number_at(input: Seq<char>, pos: int) -> Outcome {
    let end = number_end(input, pos);
    let text = input.subrange(pos, end);
    if number_denotes(input, pos) {
        done(Json::Number(text), end)
    } else {
        failed(Failure::InvalidNumber(text), end)
    }
}

/// The character that a one-letter escape stands for.
pub open spec fn simple_escape(c: char) -> Option<char> {
    if c == '"' {
        Some('"')
    } else if c == '\\' {
        Some('\\')
    } else if c == '/' {
        Some('/')
    } else if c == 'b' {
        Some('\u{8}')
    } else if c == 'f' {
        Some('\u{c}')
    } else if c == 'n' {
        Some('\n')
    } else if c == 'r' {
        Some('\r')
    } else if c == 't' {
        Some('\t')
    } else {
        None
    }
}

/// The number that `digits` spell in base sixteen, if they are all
/// hexadecimal digits.
pub open spec fn hex_number(digits: Seq<char>) -> Option<int>
    decreases digits.len(),
{
    if digits.len() == 0 {
        Some(0)
    } else {
        match (hex_number(digits.drop_last()), hex_value(digits.last())) {
            (Some(high), Some(low)) => Some(high * 16 + low),
            _ => None,
        }
    }
}

/// What four hexadecimal digits spell: each digit must have a value, and the
/// first digit counts most.
pub proof fn lemma_hex_number_of_four(digits: Seq<char>)
    requires
        digits.len() == 4,
    ensures
        hex_number(digits) == match (
            hex_value(digits[0]),
            hex_value(digits[1]),
            hex_value(digits[2]),
            hex_value(digits[3]),
        ) {
            (Some(a), Some(b), Some(c), Some(d)) => Some(((a * 16 + b) * 16 + c) * 16 + d),
            _ => None,
        },
{
    let three = digits.drop_last();
    let two = three.drop_last();
    let one = two.drop_last();
    assert(one.drop_last().len() == 0);
    assert(hex_number(one.drop_last()) == Some(0int));
    assert(one.last() == digits[0]);
    assert(two.last() == digits[1]);
    assert(three.last() == digits[2]);
    assert(hex_number(one) == match hex_value(digits[0]) {
        Some(a) => Some(a),
        None => None,
    });
    assert(hex_number(two) == match (hex_number(one), hex_value(digits[1])) {
        (Some(high), Some(low)) => Some(high * 16 + low),
        _ => None,
    });
    assert(hex_number(three) == match (hex_number(two), hex_value(digits[2])) {
        (Some(high), Some(low)) => Some(high * 16 + low),
        _ => None,
    });
    assert(hex_number(digits) == match (hex_number(three), hex_value(digits[3])) {
        (Some(high), Some(low)) => Some(high * 16 + low),
        _ => None,
    });
}

/// The character that the four characters behind `\u` stand for. `pos` is
/// the position of the first of them.
pub open spec fn unicode_escape(input: Seq<char>, pos: int) -> Result<char, Failure> {
    if pos + 4 > input.len() {
        Err(Failure::InvalidUnicodeEscape(input.subrange(pos, input.len() as int)))
    } else {
        let digits = input.subrange(pos, pos + 4);
        match hex_number(digits) {
            Some(code) if scalar_value(code) => Ok(code as char),
            _ => Err(Failure::InvalidUnicodeEscape(digits)),
        }
    }
}

/// The rest of a string from `pos` on, where `read` holds the characters
/// decoded so far. Reading stops behind the closing quote.
pub open spec fn string_body(input: Seq<char>, pos: int, read: Seq<char>) -> Outcome
    decreases input.len() - pos,
{
    if !(0 <= pos < input.len()) {
        failed(Failure::UnexpectedEndOfInput, pos)
    } else if input[pos] == '"' {
        done(Json::String(read), pos + 1)
    } else if input[pos] != '\\' {
        string_body(input, pos + 1, read.push(input[pos]))
    } else if pos + 1 >= input.len() {
        failed(Failure::UnexpectedEndOfInput, pos + 1)
    } else if input[pos + 1] == 'u' {
        match unicode_escape(input, pos + 2) {
            Ok(c) => string_body(input, pos + 6, read.push(c)),
            Err(failure) => failed(
                failure,
                if pos + 6 <= input.len() {
                    pos + 6
                } else {
                    input.len() as int
                },
            ),
        }
    } else {
        match simple_escape(input[pos + 1]) {
            Some(c) => string_body(input, pos + 2, read.push(c)),
            None => failed(Failure::InvalidEscape(seq!['\\', input[pos + 1]]), pos + 1),
        }
    }
}

/// The string whose opening quote stands at `pos`.
pub open spec fn string_at(input: Seq<char>, pos: int) -> Outcome {
    string_body(input, pos + 1, Seq::empty())
}

/// `skip_whitespace` moves forward only, and not beyond the text.
pub proof fn lemma_skip_whitespace_range(input: Seq<char>, pos: int)
    ensures
        pos <= skip_whitespace(input, pos),
        pos <= input.len() ==> skip_whitespace(input, pos) <= input.len(),
    decreases input.len() - pos,
{
    if 0 <= pos < input.len() && whitespace(input[pos]) {
        lemma_skip_whitespace_range(input, pos + 1);
    }
}

/// Behind skipped white space there is none to skip.
pub proof fn lemma_skip_whitespace_twice(input: Seq<char>, pos: int)
    ensures
        skip_whitespace(input, skip_whitespace(input, pos)) == skip_whitespace(input, pos),
    decreases input.len() - pos,
{
    if 0 <= pos < input.len() && whitespace(input[pos]) {
        lemma_skip_whitespace_twice(input, pos + 1);
    }
}

/// The value that starts at `pos`, behind any white space: the first
/// character that is no white space decides which production is read.
pub open spec fn value_at(input: Seq<char>, pos: int) -> Outcome
    decreases input.len() - pos, 2int,
{
    let start = skip_whitespace(input, pos);
    match char_at(input, start) {
        None => failed(Failure::UnexpectedEndOfInput, start),
        Some(c) => {
            if c == 'n' {
                literal_at(input, start, null_word(), Json::Null)
            } else if c == 't' {
                literal_at(input, start, true_word(), Json::Bool(true))
            } else if c == 'f' {
                literal_at(input, start, false_word(), Json::Bool(false))
            } else if c == '"' {
                string_at(input, start)
            } else if c == '[' {
                proof {
                    lemma_skip_whitespace_range(input, pos);
                }
                array_at(input, start)
            } else if c == '{' {
                proof {
                    lemma_skip_whitespace_range(input, pos);
                }
                object_at(input, start)
            } else if ascii_digit(c) || c == '-' {
                number_at(input, start)
            } else {
                failed(Failure::UnexpectedChar(c, start), start)
            }
        },
    }
}

/// The array whose opening bracket stands at `pos`.
pub open spec fn array_at(input: Seq<char>, pos: int) -> Outcome
    decreases input.len() - pos, 1int,
{
    let first = skip_whitespace(input, pos + 1);
    if char_at(input, pos) != Some('[') {
        unexpected(input, pos)
    } else if char_at(input, first) == Some(']') {
        done(Json::Array(Seq::empty()), first + 1)
    } else {
        proof {
            lemma_skip_whitespace_range(input, pos + 1);
        }
        elements_at(input, first, Seq::empty())
    }
}

/// The elements of an array from `pos` on, where `read` holds the elements
/// before them. Reading stops behind the closing bracket.
///
/// A value is never empty, so the test `pos <= next` always holds; it
/// stands here to make the definition well-founded.
pub open spec fn elements_at(input: Seq<char>, pos: int, read: Seq<Json>) -> Outcome
    decreases input.len() - pos, 3int,
{
    let element = value_at(input, pos);
    match element.result {
        Err(_) => element,
        Ok(value) => {
            let next = skip_whitespace(input, element.end);
            if char_at(input, next) == Some(',') && pos <= next {
                proof {
                    lemma_skip_whitespace_range(input, next + 1);
                }
                elements_at(input, skip_whitespace(input, next + 1), read.push(value))
            } else if char_at(input, next) == Some(']') {
                done(Json::Array(read.push(value)), next + 1)
            } else {
                unexpected(input, next)
            }
        },
    }
}

/// The object whose opening brace stands at `pos`.
pub open spec fn object_at(input: Seq<char>, pos: int) -> Outcome
    decreases input.len() - pos, 1int,
{
    let first = skip_whitespace(input, pos + 1);
    if char_at(input, pos) != Some('{') {
        unexpected(input, pos)
    } else if char_at(input, first) == Some('}') {
        done(Json::Object(Seq::empty()), first + 1)
    } else {
        proof {
            lemma_skip_whitespace_range(input, pos + 1);
        }
        members_at(input, first, Seq::empty())
    }
}

/// The members of an object from `pos` on, where `read` holds the members
/// before them. Reading stops behind the closing brace.
///
/// The key is read as a value and must turn out to be a string. A member
/// whose key was read before replaces the value read with it.
///
/// A value is never empty, so the tests `pos <= colon` and `pos <= next`
/// always hold; they stand here to make the definition well-founded.
pub open spec fn members_at(input: Seq<char>, pos: int, read: Seq<(Seq<char>, Json)>) -> Outcome
    decreases input.len() - pos, 3int,
{
    let name = value_at(input, pos);
    match name.result {
        Err(_) => name,
        Ok(Json::String(key)) => {
            let colon = skip_whitespace(input, name.end);
            if char_at(input, colon) == Some(':') && pos <= colon {
                let member = value_at(input, colon + 1);
                match member.result {
                    Err(_) => member,
                    Ok(value) => {
                        let members = with_member(read, key, value);
                        let next = skip_whitespace(input, member.end);
                        if char_at(input, next) == Some(',') && pos <= next {
                            proof {
                                lemma_skip_whitespace_range(input, next + 1);
                            }
                            members_at(input, skip_whitespace(input, next + 1), members)
                        } else if char_at(input, next) == Some('}') {
                            done(Json::Object(members), next + 1)
                        } else {
                            unexpected(input, next)
                        }
                    },
                }
            } else {
                unexpected(input, colon)
            }
        },
        Ok(_) => unexpected(input, name.end),
    }
}

/// A whole document from `pos` on: one value, with nothing but white space
/// behind it.
pub open spec fn document_at(input: Seq<char>, pos: int) -> Outcome {
    let value = value_at(input, pos);
    match value.result {
        Err(_) => value,
        Ok(_) => {
            let rest = skip_whitespace(input, value.end);
            match char_at(input, rest) {
                Some(c) => failed(Failure::UnexpectedChar(c, rest), rest),
                None => Outcome { result: value.result, end: rest },
            }
        },
    }
}

/// The value that `text` denotes, or why it denotes none.
pub open spec fn document(text: Seq<char>) -> Result<Json, Failure> {
    document_at(text, 0).result
}

/// `digits_end` moves forward only, and not beyond the text.
pub proof fn lemma_digits_end_range(input: Seq<char>, pos: int)
    ensures
        pos <= digits_end(input, pos),
        pos <= input.len() ==> digits_end(input, pos) <= input.len(),
    decreases input.len() - pos,
{
    if 0 <= pos < input.len() && ascii_digit(input[pos]) {
        lemma_digits_end_range(input, pos + 1);
    }
}

/// A number is scanned forward and within the text, and one that denotes a
/// number is not empty.
pub proof fn lemma_number_range(input: Seq<char>, pos: int)
    requires
        0 <= pos <= input.len(),
    ensures
        pos <= integer_start(input, pos) <= digits_end(input, integer_start(input, pos)),
        digits_end(input, integer_start(input, pos)) <= fraction_end(
            input,
            digits_end(input, integer_start(input, pos)),
        ),
        fraction_end(input, digits_end(input, integer_start(input, pos))) <= number_end(
            input,
            pos,
        ),
        number_end(input, pos) <= input.len(),
        number_denotes(input, pos) ==> pos < number_end(input, pos),
{
    let first = integer_start(input, pos);
    lemma_digits_end_range(input, first);
    let integer_end = digits_end(input, first);
    lemma_digits_end_range(input, integer_end + 1);
    let mantissa_end = fraction_end(input, integer_end);
    lemma_digits_end_range(input, exponent_start(input, mantissa_end));
}

/// A string that is read ends within the text, behind where it began.
pub proof fn lemma_string_body_range(input: Seq<char>, pos: int, read: Seq<char>)
    requires
        0 <= pos,
    ensures
        string_body(input, pos, read).result is Ok ==> pos < string_body(input, pos, read).end
            <= input.len(),
    decreases input.len() - pos,
{
    if 0 <= pos < input.len() && input[pos] != '"' {
        if input[pos] != '\\' {
            lemma_string_body_range(input, pos + 1, read.push(input[pos]));
        } else if pos + 1 < input.len() {
            if input[pos + 1] == 'u' {
                match unicode_escape(input, pos + 2) {
                    Ok(c) => {
                        lemma_string_body_range(input, pos + 6, read.push(c));
                    },
                    Err(_) => {},
                }
            } else {
                match simple_escape(input[pos + 1]) {
                    Some(c) => {
                        lemma_string_body_range(input, pos + 2, read.push(c));
                    },
                    None => {},
                }
            }
        }
    }
}

/// A value that is read ends within the text, behind where it began.
pub proof fn lemma_value_range(input: Seq<char>, pos: int)
    requires
        0 <= pos,
    ensures
        value_at(input, pos).result is Ok ==> pos < value_at(input, pos).end <= input.len(),
    decreases input.len() - pos, 2int,
{
    let start = skip_whitespace(input, pos);
    lemma_skip_whitespace_range(input, pos);
    match char_at(input, start) {
        None => {},
        Some(c) => {
            if c == 'n' || c == 't' || c == 'f' {
            } else if c == '"' {
                lemma_string_body_range(input, start + 1, Seq::empty());
            } else if c == '[' {
                lemma_array_range(input, start);
            } else if c == '{' {
                lemma_object_range(input, start);
            } else if ascii_digit(c) || c == '-' {
                lemma_number_range(input, start);
            }
        },
    }
}

/// An array that is read ends within the text, behind where it began.
pub proof fn lemma_array_range(input: Seq<char>, pos: int)
    requires
        0 <= pos,
    ensures
        array_at(input, pos).result is Ok ==> pos < array_at(input, pos).end <= input.len(),
    decreases input.len() - pos, 1int,
{
    if char_at(input, pos) == Some('[') {
        let first = skip_whitespace(input, pos + 1);
        lemma_skip_whitespace_range(input, pos + 1);
        if char_at(input, first) != Some(']') {
            lemma_elements_range(input, first, Seq::empty());
        }
    }
}

/// The elements of an array that is read end within the text, behind where
/// they began.
pub proof fn lemma_elements_range(input: Seq<char>, pos: int, read: Seq<Json>)
    requires
        0 <= pos,
    ensures
        elements_at(input, pos, read).result is Ok ==> pos < elements_at(input, pos, read).end
            <= input.len(),
    decreases input.len() - pos, 3int,
{
    let element = value_at(input, pos);
    lemma_value_range(input, pos);
    match element.result {
        Err(_) => {},
        Ok(value) => {
            let next = skip_whitespace(input, element.end);
            lemma_skip_whitespace_range(input, element.end);
            if char_at(input, next) == Some(',') {
                lemma_skip_whitespace_range(input, next + 1);
                lemma_elements_range(input, skip_whitespace(input, next + 1), read.push(value));
            }
        },
    }
}

/// An object that is read ends within the text, behind where it began.
pub proof fn lemma_object_range(input: Seq<char>, pos: int)
    requires
        0 <= pos,
    ensures
        object_at(input, pos).result is Ok ==> pos < object_at(input, pos).end <= input.len(),
    decreases input.len() - pos, 1int,
{
    if char_at(input, pos) == Some('{') {
        let first = skip_whitespace(input, pos + 1);
        lemma_skip_whitespace_range(input, pos + 1);
        if char_at(input, first) != Some('}') {
            lemma_members_range(input, first, Seq::empty());
        }
    }
}

/// The members of an object that is read end within the text, behind where
/// they began.
pub proof fn lemma_members_range(input: Seq<char>, pos: int, read: Seq<(Seq<char>, Json)>)
    requires
        0 <= pos,
    ensures
        members_at(input, pos, read).result is Ok ==> pos < members_at(input, pos, read).end
            <= input.len(),
    decreases input.len() - pos, 3int,
{
    let name = value_at(input, pos);
    lemma_value_range(input, pos);
    match name.result {
        Ok(Json::String(key)) => {
            let colon = skip_whitespace(input, name.end);
            lemma_skip_whitespace_range(input, name.end);
            if char_at(input, colon) == Some(':') {
                let member = value_at(input, colon + 1);
                lemma_value_range(input, colon + 1);
                match member.result {
                    Err(_) => {},
                    Ok(value) => {
                        let next = skip_whitespace(input, member.end);
                        lemma_skip_whitespace_range(input, member.end);
                        if char_at(input, next) == Some(',') {
                            lemma_skip_whitespace_range(input, next + 1);
                            lemma_members_range(
                                input,
                                skip_whitespace(input, next + 1),
                                with_member(read, key, value),
                            );
                        }
                    },
                }
            }
        },
        _ => {},
    }
}

} // verus!

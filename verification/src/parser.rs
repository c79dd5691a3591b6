//! The recursive-descent parser: one function for each production of the
//! grammar, each proved to read what the grammar says.

use crate::chars::{chars_of, hex_digit_value, is_ascii_digit, is_whitespace, string_of};
use crate::error::{result_view, ParseError};
use crate::grammar::{
    array_at, char_at, digits_end, document, document_at, elements_at, false_word, hex_number,
    lemma_hex_number_of_four, lemma_number_range, lemma_skip_whitespace_range,
    lemma_skip_whitespace_twice, lemma_value_range, literal_at, members_at, null_word, number_at,
    object_at, simple_escape, skip_whitespace, starts_with, string_at, string_body, true_word,
    unexpected, value_at,
};
use crate::laws::{lemma_document_well_formed, lemma_value_well_formed, well_formed};
use crate::model::Json;
use crate::value::{values_view, JsonObject, JsonValue};
use vstd::prelude::*;

verus! {

/// A text and a cursor into it. The cursor counts characters, not bytes.
pub struct Parser {
    input: Vec<char>,
    pos: usize,
}

impl Parser {
    /// The text that is read.
    pub closed spec fn text(&self) -> Seq<char> {
        self.input@
    }

    /// The position of the cursor.
    pub closed spec fn position(&self) -> int {
        self.pos as int
    }

    /// A parser at the start of `input`.
    pub fn new(input: &str) -> (r: Self)
        ensures
            r.text() == input@,
            r.position() == 0,
    {
        Parser { input: chars_of(input), pos: 0 }
    }

    /// The character under the cursor, if the cursor is inside the text.
    pub fn current_char(&self) -> (r: Option<char>)
        ensures
            r == char_at(self.text(), self.position()),
    {
        if self.pos < self.input.len() {
            Some(self.input[self.pos])
        } else {
            None
        }
    }

    /// The character behind the one under the cursor, if there is one.
    pub fn peek_char(&self) -> (r: Option<char>)
        ensures
            r == char_at(self.text(), self.position() + 1),
    {
        if self.pos < self.input.len() && self.pos + 1 < self.input.len() {
            Some(self.input[self.pos + 1])
        } else {
            None
        }
    }

    /// Moves the cursor to the next character. At the end of the text the
    /// cursor stays where it is.
    pub fn advance(&mut self)
        ensures
            final(self).text() == old(self).text(),
            final(self).position() == if old(self).position() < old(self).text().len() {
                old(self).position() + 1
            } else {
                old(self).position()
            },
    {
        if self.pos < self.input.len() {
            self.pos += 1;
        }
    }

    /// Moves the cursor to the first character from it on that is no white
    /// space.
    pub fn skip_whitespace(&mut self)
        ensures
            final(self).text() == old(self).text(),
            final(self).position() == skip_whitespace(old(self).text(), old(self).position()),
    {
        while self.pos < self.input.len() && is_whitespace(self.input[self.pos])
            invariant
                self.input@ == old(self).input@,
                skip_whitespace(self.input@, self.pos as int) == skip_whitespace(
                    old(self).input@,
                    old(self).pos as int,
                ),
            decreases self.input.len() - self.pos,
        {
            self.pos += 1;
        }
    }

    /// Whether `c` stands under the cursor.
    fn at(&self, c: char) -> (r: bool)
        ensures
            r == (char_at(self.input@, self.pos as int) == Some(c)),
    {
        self.pos < self.input.len() && self.input[self.pos] == c
    }

    /// Whether `c` stands `offset` characters behind the cursor.
    fn ahead(&self, offset: usize, c: char) -> (r: bool)
        ensures
            r == (char_at(self.input@, self.pos + offset) == Some(c)),
    {
        self.pos < self.input.len() && offset < self.input.len() - self.pos && self.input[self.pos
            + offset] == c
    }

    /// The failure for what stands under the cursor where it cannot stand.
    fn unexpected(&self) -> (r: ParseError)
        ensures
            Err::<Json, _>(r@) == unexpected(self.input@, self.pos as int).result,
    {
        if self.pos < self.input.len() {
            ParseError::UnexpectedChar(self.input[self.pos], self.pos)
        } else {
            ParseError::UnexpectedEndOfInput
        }
    }

    /// Reads the literal `null`.
    fn parse_null(&mut self) -> (r: Result<JsonValue, ParseError>)
        ensures
            final(self).input@ == old(self).input@,
            final(self).pos == literal_at(
                old(self).input@,
                old(self).pos as int,
                null_word(),
                Json::Null,
            ).end,
            result_view(r) == literal_at(
                old(self).input@,
                old(self).pos as int,
                null_word(),
                Json::Null,
            ).result,
    {
        if self.ahead(0, 'n') && self.ahead(1, 'u') && self.ahead(2, 'l') && self.ahead(3, 'l') {
            assert(self.pos + 4 <= self.input.len());
            assert(self.input@.subrange(self.pos as int, self.pos + 4) =~= null_word());
            self.pos += 4;
            Ok(JsonValue::Null)
        } else {
            assert(!starts_with(self.input@, self.pos as int, null_word())) by {
                if starts_with(self.input@, self.pos as int, null_word()) {
                    let w = self.input@.subrange(self.pos as int, self.pos + 4);
                    assert(w[0] == 'n' && w[1] == 'u' && w[2] == 'l' && w[3] == 'l');
                }
            }
            Err(self.unexpected())
        }
    }

    /// Reads the literal `true`.
    fn parse_true(&mut self) -> (r: Result<JsonValue, ParseError>)
        ensures
            final(self).input@ == old(self).input@,
            final(self).pos == literal_at(
                old(self).input@,
                old(self).pos as int,
                true_word(),
                Json::Bool(true),
            ).end,
            result_view(r) == literal_at(
                old(self).input@,
                old(self).pos as int,
                true_word(),
                Json::Bool(true),
            ).result,
    {
        if self.ahead(0, 't') && self.ahead(1, 'r') && self.ahead(2, 'u') && self.ahead(3, 'e') {
            assert(self.pos + 4 <= self.input.len());
            assert(self.input@.subrange(self.pos as int, self.pos + 4) =~= true_word());
            self.pos += 4;
            Ok(JsonValue::Bool(true))
        } else {
            assert(!starts_with(self.input@, self.pos as int, true_word())) by {
                if starts_with(self.input@, self.pos as int, true_word()) {
                    let w = self.input@.subrange(self.pos as int, self.pos + 4);
                    assert(w[0] == 't' && w[1] == 'r' && w[2] == 'u' && w[3] == 'e');
                }
            }
            Err(self.unexpected())
        }
    }

    /// Reads the literal `false`.
    fn parse_false(&mut self) -> (r: Result<JsonValue, ParseError>)
        ensures
            final(self).input@ == old(self).input@,
            final(self).pos == literal_at(
                old(self).input@,
                old(self).pos as int,
                false_word(),
                Json::Bool(false),
            ).end,
            result_view(r) == literal_at(
                old(self).input@,
                old(self).pos as int,
                false_word(),
                Json::Bool(false),
            ).result,
    {
        if self.ahead(0, 'f') && self.ahead(1, 'a') && self.ahead(2, 'l') && self.ahead(3, 's')
            && self.ahead(4, 'e') {
            assert(self.pos + 5 <= self.input.len());
            assert(self.input@.subrange(self.pos as int, self.pos + 5) =~= false_word());
            self.pos += 5;
            Ok(JsonValue::Bool(false))
        } else {
            assert(!starts_with(self.input@, self.pos as int, false_word())) by {
                if starts_with(self.input@, self.pos as int, false_word()) {
                    let w = self.input@.subrange(self.pos as int, self.pos + 5);
                    assert(w[0] == 'f' && w[1] == 'a' && w[2] == 'l' && w[3] == 's' && w[4]
                        == 'e');
                }
            }
            Err(self.unexpected())
        }
    }

    /// Moves the cursor behind the digits that stand under it.
    fn skip_digits(&mut self)
        ensures
            final(self).input@ == old(self).input@,
            final(self).pos == digits_end(old(self).input@, old(self).pos as int),
    {
        while self.pos < self.input.len() && is_ascii_digit(self.input[self.pos])
            invariant
                self.input@ == old(self).input@,
                digits_end(self.input@, self.pos as int) == digits_end(
                    old(self).input@,
                    old(self).pos as int,
                ),
            decreases self.input.len() - self.pos,
        {
            self.pos += 1;
        }
    }

    /// Reads a number: scans what the grammar takes for one, and keeps the
    /// scanned text if it denotes a number.
    fn parse_number(&mut self) -> (r: Result<JsonValue, ParseError>)
        requires
            old(self).pos <= old(self).input.len(),
        ensures
            final(self).input@ == old(self).input@,
            final(self).pos == number_at(old(self).input@, old(self).pos as int).end,
            result_view(r) == number_at(old(self).input@, old(self).pos as int).result,
    {
        let start = self.pos;
        proof {
            lemma_number_range(self.input@, start as int);
        }
        if self.at('-') {
            self.advance();
        }
        let first = self.pos;
        self.skip_digits();
        let integer_end = self.pos;
        if self.at('.') {
            self.advance();
            self.skip_digits();
        }
        let mantissa_end = self.pos;
        let mut exponent_holds_digit = true;
        if self.at('e') || self.at('E') {
            self.advance();
            if self.at('+') || self.at('-') {
                self.advance();
            }
            let exponent_first = self.pos;
            self.skip_digits();
            exponent_holds_digit = exponent_first < self.pos;
        }
        let mantissa_holds_digit = first < integer_end || (integer_end < mantissa_end
            && integer_end + 1 < mantissa_end);
        let text = string_of(&self.input, start, self.pos);
        if mantissa_holds_digit && exponent_holds_digit {
            Ok(JsonValue::Number(text))
        } else {
            Err(ParseError::InvalidNumber(text))
        }
    }

    /// The number that the four characters from `from` on spell in base
    /// sixteen, if they are hexadecimal digits.
    fn hex4(&self, from: usize) -> (r: Option<u32>)
        requires
            from + 4 <= self.input.len(),
        ensures
            match r {
                Some(code) => hex_number(self.input@.subrange(from as int, from + 4)) == Some(
                    code as int,
                ) && code <= 0xFFFF,
                None => hex_number(self.input@.subrange(from as int, from + 4)) is None,
            },
    {
        proof {
            lemma_hex_number_of_four(self.input@.subrange(from as int, from + 4));
        }
        let a = match hex_digit_value(self.input[from]) {
            Some(d) => d,
            None => {
                return None;
            },
        };
        let b = match hex_digit_value(self.input[from + 1]) {
            Some(d) => d,
            None => {
                return None;
            },
        };
        let c = match hex_digit_value(self.input[from + 2]) {
            Some(d) => d,
            None => {
                return None;
            },
        };
        let d = match hex_digit_value(self.input[from + 3]) {
            Some(d) => d,
            None => {
                return None;
            },
        };
        Some(((a * 16 + b) * 16 + c) * 16 + d)
    }

    /// Reads a string from its opening quote to its closing quote, decoding
    /// the escapes.
    fn parse_string(&mut self) -> (r: Result<JsonValue, ParseError>)
        requires
            old(self).pos < old(self).input.len(),
        ensures
            final(self).input@ == old(self).input@,
            final(self).pos == string_at(old(self).input@, old(self).pos as int).end,
            result_view(r) == string_at(old(self).input@, old(self).pos as int).result,
    {
        let ghost goal = string_at(self.input@, self.pos as int);
        self.pos += 1;
        let mut result = String::new();
        loop
            invariant
                self.input@ == old(self).input@,
                self.pos <= self.input.len(),
                goal == string_at(old(self).input@, old(self).pos as int),
                string_body(self.input@, self.pos as int, result@) == goal,
            decreases self.input.len() - self.pos,
        {
            if self.pos >= self.input.len() {
                return Err(ParseError::UnexpectedEndOfInput);
            }
            let c = self.input[self.pos];
            if c == '"' {
                self.pos += 1;
                return Ok(JsonValue::String(result));
            } else if c != '\\' {
                result.push(c);
                self.pos += 1;
            } else {
                self.pos += 1;
                if self.pos >= self.input.len() {
                    return Err(ParseError::UnexpectedEndOfInput);
                }
                let escape = self.input[self.pos];
                if escape == 'u' {
                    self.pos += 1;
                    if self.input.len() - self.pos < 4 {
                        let hex = string_of(&self.input, self.pos, self.input.len());
                        self.pos = self.input.len();
                        return Err(ParseError::InvalidUnicodeEscape(hex));
                    }
                    let hex_start = self.pos;
                    let code = self.hex4(hex_start);
                    self.pos += 4;
                    let decoded = match code {
                        Some(n) => char::from_u32(n),
                        None => None,
                    };
                    match decoded {
                        Some(ch) => {
                            result.push(ch);
                        },
                        None => {
                            let hex = string_of(&self.input, hex_start, self.pos);
                            return Err(ParseError::InvalidUnicodeEscape(hex));
                        },
                    }
                } else {
                    match unescape(escape) {
                        Some(ch) => {
                            result.push(ch);
                            self.pos += 1;
                        },
                        None => {
                            let mut text = String::new();
                            text.push('\\');
                            text.push(escape);
                            assert(text@ =~= seq!['\\', escape]);
                            return Err(ParseError::InvalidEscape(text));
                        },
                    }
                }
            }
        }
    }

    /// Reads an array from its opening bracket to its closing bracket.
    fn parse_array(&mut self) -> (r: Result<JsonValue, ParseError>)
        requires
            char_at(old(self).input@, old(self).pos as int) == Some('['),
        ensures
            final(self).input@ == old(self).input@,
            final(self).pos == array_at(old(self).input@, old(self).pos as int).end,
            result_view(r) == array_at(old(self).input@, old(self).pos as int).result,
        decreases old(self).input.len() - old(self).pos, 1int,
    {
        let ghost goal = array_at(self.input@, self.pos as int);
        proof {
            lemma_skip_whitespace_range(self.input@, self.pos + 1);
        }
        self.advance();
        self.skip_whitespace();
        let mut elements: Vec<JsonValue> = Vec::new();
        if self.at(']') {
            self.advance();
            proof {
                JsonValue::lemma_array_view(elements);
                assert(values_view(elements@) =~= Seq::empty());
            }
            return Ok(JsonValue::Array(elements));
        }
        assert(values_view(elements@) =~= Seq::empty());
        loop
            invariant
                self.input@ == old(self).input@,
                old(self).pos < self.pos <= self.input.len(),
                goal == array_at(old(self).input@, old(self).pos as int),
                elements_at(self.input@, self.pos as int, values_view(elements@)) == goal,
            decreases self.input.len() - self.pos,
        {
            let ghost before = values_view(elements@);
            proof {
                lemma_value_range(self.input@, self.pos as int);
            }
            let value = match self.parse_value() {
                Ok(value) => value,
                Err(error) => {
                    return Err(error);
                },
            };
            elements.push(value);
            assert(values_view(elements@) =~= before.push(value@));
            proof {
                lemma_skip_whitespace_range(self.input@, self.pos as int);
            }
            self.skip_whitespace();
            if self.at(',') {
                proof {
                    lemma_skip_whitespace_range(self.input@, self.pos + 1);
                }
                self.advance();
                self.skip_whitespace();
            } else if self.at(']') {
                self.advance();
                proof {
                    JsonValue::lemma_array_view(elements);
                }
                return Ok(JsonValue::Array(elements));
            } else {
                return Err(self.unexpected());
            }
        }
    }

    /// Reads an object from its opening brace to its closing brace. A key
    /// that occurs again replaces the value read with it before.
    fn parse_object(&mut self) -> (r: Result<JsonValue, ParseError>)
        requires
            char_at(old(self).input@, old(self).pos as int) == Some('{'),
        ensures
            final(self).input@ == old(self).input@,
            final(self).pos == object_at(old(self).input@, old(self).pos as int).end,
            result_view(r) == object_at(old(self).input@, old(self).pos as int).result,
        decreases old(self).input.len() - old(self).pos, 1int,
    {
        let ghost goal = object_at(self.input@, self.pos as int);
        proof {
            lemma_skip_whitespace_range(self.input@, self.pos + 1);
        }
        self.advance();
        self.skip_whitespace();
        let mut map = JsonObject::new();
        if self.at('}') {
            self.advance();
            return Ok(JsonValue::Object(map));
        }
        loop
            invariant
                self.input@ == old(self).input@,
                old(self).pos < self.pos <= self.input.len(),
                goal == object_at(old(self).input@, old(self).pos as int),
                members_at(self.input@, self.pos as int, map@) == goal,
            decreases self.input.len() - self.pos,
        {
            proof {
                lemma_value_range(self.input@, self.pos as int);
            }
            let key = match self.parse_value() {
                Ok(JsonValue::String(key)) => key,
                Ok(_) => {
                    return Err(self.unexpected());
                },
                Err(error) => {
                    return Err(error);
                },
            };
            proof {
                lemma_skip_whitespace_range(self.input@, self.pos as int);
            }
            self.skip_whitespace();
            if !self.at(':') {
                return Err(self.unexpected());
            }
            self.advance();
            proof {
                lemma_value_range(self.input@, self.pos as int);
            }
            let value = match self.parse_value() {
                Ok(value) => value,
                Err(error) => {
                    return Err(error);
                },
            };
            map.insert(key, value);
            proof {
                lemma_skip_whitespace_range(self.input@, self.pos as int);
            }
            self.skip_whitespace();
            if self.at(',') {
                proof {
                    lemma_skip_whitespace_range(self.input@, self.pos + 1);
                }
                self.advance();
                self.skip_whitespace();
            } else if self.at('}') {
                self.advance();
                return Ok(JsonValue::Object(map));
            } else {
                return Err(self.unexpected());
            }
        }
    }

    /// Reads the value that starts behind any white space under the cursor.
    fn parse_value(&mut self) -> (r: Result<JsonValue, ParseError>)
        ensures
            final(self).input@ == old(self).input@,
            final(self).pos == value_at(old(self).input@, old(self).pos as int).end,
            result_view(r) == value_at(old(self).input@, old(self).pos as int).result,
        decreases old(self).input.len() - old(self).pos, 2int,
    {
        proof {
            lemma_skip_whitespace_range(self.input@, self.pos as int);
        }
        self.skip_whitespace();
        match self.current_char() {
            None => Err(ParseError::UnexpectedEndOfInput),
            Some(c) => {
                if c == 'n' {
                    self.parse_null()
                } else if c == 't' {
                    self.parse_true()
                } else if c == 'f' {
                    self.parse_false()
                } else if c == '"' {
                    self.parse_string()
                } else if c == '[' {
                    self.parse_array()
                } else if c == '{' {
                    self.parse_object()
                } else if is_ascii_digit(c) || c == '-' {
                    self.parse_number()
                } else {
                    Err(ParseError::UnexpectedChar(c, self.pos))
                }
            },
        }
    }

    /// Reads one document from the cursor on: white space, one value, white
    /// space, and the end of the text. Anything else behind the value is
    /// reported as an unexpected character.
    pub fn parse(&mut self) -> (r: Result<JsonValue, ParseError>)
        ensures
            final(self).text() == old(self).text(),
            final(self).position() == document_at(old(self).text(), old(self).position()).end,
            result_view(r) == document_at(old(self).text(), old(self).position()).result,
            r matches Ok(value) ==> well_formed(value@),
    {
        self.skip_whitespace();
        proof {
            lemma_skip_whitespace_twice(old(self).input@, old(self).pos as int);
            lemma_value_well_formed(old(self).input@, old(self).pos as int);
        }
        let value = match self.parse_value() {
            Ok(value) => value,
            Err(error) => {
                return Err(error);
            },
        };
        self.skip_whitespace();
        if self.pos < self.input.len() {
            return Err(ParseError::UnexpectedChar(self.input[self.pos], self.pos));
        }
        Ok(value)
    }
}

/// The character that the one-letter escape `c` stands for.
fn unescape(c: char) -> (r: Option<char>)
    ensures
        r == simple_escape(c),
{
    if c == '"' {
        Some('"')
    } else if c == '\\' {
        Some('\\')
    } else if c == '/' {
        Some('/')
    } else if c == 'b' {
        Some('\u{8}')
    } else if c == 'f' {
        Some('\u{c}')
    } else if c == 'n' {
        Some('\n')
    } else if c == 'r' {
        Some('\r')
    } else if c == 't' {
        Some('\t')
    } else {
        None
    }
}

/// Reads `input` as one document. The value that is returned is well
/// formed: its numbers are literals of the grammar and no object in it holds
/// a key twice.
pub fn parse(input: &str) -> (r: Result<JsonValue, ParseError>)
    ensures
        result_view(r) == document(input@),
        r matches Ok(value) ==> well_formed(value@),
{
    let mut parser = Parser::new(input);
    proof {
        lemma_document_well_formed(input@);
    }
    parser.parse()
}

} // verus!

//! The ways in which reading a document fails.

use crate::model::{Failure, Json};
use crate::value::JsonValue;
use vstd::prelude::*;

verus! {

/// Why a text could not be read. The first failure ends the reading, and no
/// part of a value is returned with it.
#[derive(Debug, PartialEq)]
pub enum ParseError {
    /// A character that cannot stand where it was met, with its position,
    /// counted in characters from the start of the text.
    UnexpectedChar(char, usize),
    /// The text ended inside a value.
    UnexpectedEndOfInput,
    /// The text that was scanned as a number and denotes none.
    InvalidNumber(String),
    /// A backslash and the character behind it, which names no escape.
    InvalidEscape(String),
    /// What followed `\u` in place of four hexadecimal digits of a scalar
    /// value.
    InvalidUnicodeEscape(String),
}

impl ParseError {
    pub open spec fn view(&self) -> Failure {
        match self {
            ParseError::UnexpectedChar(c, pos) => Failure::UnexpectedChar(*c, *pos as int),
            ParseError::UnexpectedEndOfInput => Failure::UnexpectedEndOfInput,
            ParseError::InvalidNumber(text) => Failure::InvalidNumber(text@),
            ParseError::InvalidEscape(text) => Failure::InvalidEscape(text@),
            ParseError::InvalidUnicodeEscape(text) => Failure::InvalidUnicodeEscape(text@),
        }
    }
}

/// The model of what a reading returned.
pub open spec fn result_view(r: Result<JsonValue, ParseError>) -> Result<Json, Failure> {
    match r {
        Ok(value) => Ok(value@),
        Err(error) => Err(error@),
    }
}

} // verus!

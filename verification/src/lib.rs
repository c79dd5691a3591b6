//! A JSON codec: a parser from text to a tree of values and a serializer
//! from the tree back to compact text, both proved against one grammar.
//!
//! `parse` reads a text as one document; `stringify` writes a value as
//! compact text. What the two compute is stated over a mathematical model
//! of values (`model`), a grammar on sequences of characters (`grammar`) and
//! the text of a value (`serializer::text_of`). `laws` proves that a value
//! that is written and read again is the same value.
//!
//! Two choices shape the value tree. A number is kept as the decimal literal
//! that denotes it: the codec reads and writes numbers without loss, and
//! leaves their arithmetic to the caller. An object keeps its members in
//! the order in which their keys were first inserted, so the text of a value
//! is determined by the value; equality of objects does not look at the
//! order.

pub mod chars;
pub mod error;
pub mod grammar;
pub mod laws;
pub mod model;
pub mod number;
pub mod parser;
pub mod serializer;
pub mod value;

pub use crate::error::ParseError;
pub use crate::parser::{parse, Parser};
pub use crate::serializer::stringify;
pub use crate::value::{JsonObject, JsonValue};

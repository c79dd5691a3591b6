use json::chars::{
    chars_of, hex_digit_char, hex_digit_value, is_ascii_digit, is_control, is_whitespace,
    string_of,
};
use json::parse;
use json::JsonObject;
use json::JsonValue;
use json::ParseError;
use json::Parser;

fn number(text: &str) -> JsonValue {
    JsonValue::Number(text.to_string())
}

fn string(text: &str) -> JsonValue {
    JsonValue::String(text.to_string())
}

/// The number that a parsed value holds, read as a float.
fn float_of(value: &JsonValue) -> f64 {
    value.as_number().unwrap().parse::<f64>().unwrap()
}

#[test]
fn whitespace_is_the_hosts_white_space() {
    for n in 0u32..=0x10FFFF {
        if let Some(c) = char::from_u32(n) {
            assert_eq!(is_whitespace(c), c.is_whitespace(), "U+{:04X}", n);
        }
    }
}

#[test]
fn control_is_the_hosts_control() {
    for n in 0u32..=0x10FFFF {
        if let Some(c) = char::from_u32(n) {
            assert_eq!(is_control(c), c.is_control(), "U+{:04X}", n);
        }
    }
}

#[test]
fn ascii_digit_is_the_hosts_ascii_digit() {
    for n in 0u32..=0x10FFFF {
        if let Some(c) = char::from_u32(n) {
            assert_eq!(is_ascii_digit(c), c.is_ascii_digit(), "U+{:04X}", n);
        }
    }
}

#[test]
fn hex_digit_value_is_the_hosts_digit_in_base_sixteen() {
    for n in 0u32..=0x10FFFF {
        if let Some(c) = char::from_u32(n) {
            assert_eq!(hex_digit_value(c), c.to_digit(16), "U+{:04X}", n);
        }
    }
}

#[test]
fn hex_digit_char_is_lower_case() {
    let digits: Vec<char> = (0u32..16).map(hex_digit_char).collect();
    let text: String = digits.into_iter().collect();
    assert_eq!(text, "0123456789abcdef");
}

#[test]
fn chars_of_and_string_of_are_inverse() {
    let chars = chars_of("a\u{e9}\u{1F600}z");
    assert_eq!(chars, vec!['a', '\u{e9}', '\u{1F600}', 'z']);
    assert_eq!(string_of(&chars, 0, 4), "a\u{e9}\u{1F600}z");
    assert_eq!(string_of(&chars, 1, 3), "\u{e9}\u{1F600}");
    assert_eq!(string_of(&chars, 2, 2), "");
}

#[test]
fn parsed_numbers_read_as_the_floats_they_denote() {
    assert_eq!(float_of(&parse("42").unwrap()), 42.0);
    assert_eq!(float_of(&parse("3.14").unwrap()), 3.14);
    assert_eq!(float_of(&parse("-123").unwrap()), -123.0);
    assert_eq!(float_of(&parse("1.5e3").unwrap()), 1500.0);
    assert_eq!(float_of(&parse("25E-1").unwrap()), 2.5);
    assert_eq!(float_of(&parse("-.5").unwrap()), -0.5);
    assert_eq!(float_of(&parse("007").unwrap()), 7.0);
}

#[test]
fn an_integer_is_its_signed_decimal_literal() {
    let cases = [
        0i64,
        7,
        -7,
        10,
        42,
        -123,
        1000,
        9007199254740993,
        i64::MAX,
        i64::MIN,
        i64::MIN + 1,
    ];
    for n in cases {
        let value = JsonValue::from_integer(n);
        assert_eq!(value, number(&format!("{}", n)));
        assert_eq!(json::stringify(&value), format!("{}", n));
        assert_eq!(parse(&json::stringify(&value)), Ok(value));
    }
    assert_eq!(json::stringify(&JsonValue::from_integer(42)), "42");
    assert_eq!(json::stringify(&JsonValue::from_integer(-9223372036854775808)), "-9223372036854775808");
}

#[test]
fn a_number_keeps_its_literal() {
    assert_eq!(parse("1.50"), Ok(number("1.50")));
    assert_eq!(parse(" -0 "), Ok(number("-0")));
    assert_eq!(parse("1E+2"), Ok(number("1E+2")));
    assert_eq!(json::stringify(&parse("1.50").unwrap()), "1.50");
}

#[test]
fn a_scanned_number_denotes_one_exactly_when_the_host_reads_it_as_a_float() {
    let candidates = [
        "0", "-", "1", "1.", "1.e5", "-.5", "-.", "1e", "1e+", "1e-", "1e+5", "-.e5", "0e0",
        "00", "1E5", "1.5E-3", "-0", "-1.25e-7", "9.", "-e1", "12345678901234567890", "1e999",
    ];
    for text in candidates {
        let host = text.parse::<f64>().is_ok();
        match parse(text) {
            Ok(value) => {
                assert!(host, "{}", text);
                assert_eq!(value, number(text));
            }
            Err(error) => {
                assert!(!host, "{}", text);
                assert_eq!(error, ParseError::InvalidNumber(text.to_string()));
            }
        }
    }
}

#[test]
fn every_short_number_is_judged_as_the_host_judges_it() {
    let alphabet = ['-', '+', '.', 'e', 'E', '0', '7'];
    let mut texts: Vec<String> = vec!["-".to_string(), "0".to_string(), "7".to_string()];
    let mut from = 0;
    for _ in 0..5 {
        let upto = texts.len();
        for i in from..upto {
            for c in alphabet {
                let mut longer = texts[i].clone();
                longer.push(c);
                texts.push(longer);
            }
        }
        from = upto;
    }
    assert_eq!(texts.len(), 3 * (1 + 7 + 49 + 343 + 2401 + 16807));
    for text in &texts {
        match parse(text) {
            Ok(value) => {
                assert_eq!(value, number(text));
                assert!(text.parse::<f64>().is_ok(), "{}", text);
            }
            Err(ParseError::InvalidNumber(scanned)) => {
                assert!(text.starts_with(&scanned), "{}", text);
                assert!(scanned.parse::<f64>().is_err(), "{}", text);
            }
            Err(ParseError::UnexpectedChar(c, at)) => {
                assert!(at > 0, "{}", text);
                assert_eq!(text[at..].chars().next(), Some(c), "{}", text);
                assert!(text[..at].parse::<f64>().is_ok(), "{}", text);
                assert!(text.parse::<f64>().is_err(), "{}", text);
            }
            Err(other) => panic!("{}: {:?}", text, other),
        }
    }
}

#[test]
fn a_number_ends_where_its_grammar_ends() {
    assert_eq!(parse("1.2.3"), Err(ParseError::UnexpectedChar('.', 3)));
    assert_eq!(parse("1e5e5"), Err(ParseError::UnexpectedChar('e', 3)));
    assert_eq!(parse("1-2"), Err(ParseError::UnexpectedChar('-', 1)));
    assert_eq!(parse("[1e,2]"), Err(ParseError::InvalidNumber("1e".to_string())));
    assert_eq!(parse("+1"), Err(ParseError::UnexpectedChar('+', 0)));
    assert_eq!(parse(".5"), Err(ParseError::UnexpectedChar('.', 0)));
}

#[test]
fn every_escape_is_decoded() {
    let result = parse(r#""\" \\ \/ \b \f \n \r \t""#);
    assert_eq!(result, Ok(string("\" \\ / \u{8} \u{c} \n \r \t")));
}

#[test]
fn unicode_escapes_are_decoded_one_by_one() {
    assert_eq!(parse(r#""\u0041""#), Ok(string("A")));
    assert_eq!(parse(r#""\u00e9\u00E9""#), Ok(string("\u{e9}\u{e9}")));
    assert_eq!(parse(r#""\uffff""#), Ok(string("\u{ffff}")));
    assert_eq!(parse(r#""\u0000""#), Ok(string("\u{0}")));
    assert_eq!(parse(r#""x\u20aCy""#), Ok(string("x\u{20ac}y")));
}

#[test]
fn a_surrogate_escape_is_no_character() {
    assert_eq!(
        parse(r#""\uD800""#),
        Err(ParseError::InvalidUnicodeEscape("D800".to_string()))
    );
    assert_eq!(
        parse(r#""\uD83D\uDE00""#),
        Err(ParseError::InvalidUnicodeEscape("D83D".to_string()))
    );
    assert_eq!(
        parse(r#""\udfff""#),
        Err(ParseError::InvalidUnicodeEscape("dfff".to_string()))
    );
    assert_eq!(parse(r#""\ud7ff""#), Ok(string("\u{d7ff}")));
    assert_eq!(parse(r#""\uE000""#), Ok(string("\u{e000}")));
}

#[test]
fn a_unicode_escape_needs_four_hexadecimal_digits() {
    assert_eq!(
        parse(r#""\u12"#),
        Err(ParseError::InvalidUnicodeEscape("12".to_string()))
    );
    assert_eq!(
        parse(r#""\u"#),
        Err(ParseError::InvalidUnicodeEscape("".to_string()))
    );
    assert_eq!(
        parse(r#""\u12""#),
        Err(ParseError::InvalidUnicodeEscape("12\"".to_string()))
    );
    assert_eq!(
        parse(r#""\u00g0""#),
        Err(ParseError::InvalidUnicodeEscape("00g0".to_string()))
    );
    assert_eq!(
        parse(r#""\u+041""#),
        Err(ParseError::InvalidUnicodeEscape("+041".to_string()))
    );
}

#[test]
fn an_unknown_escape_is_reported_with_its_text() {
    assert_eq!(
        parse(r#""a\xb""#),
        Err(ParseError::InvalidEscape("\\x".to_string()))
    );
    assert_eq!(
        parse(r#""\U0041""#),
        Err(ParseError::InvalidEscape("\\U".to_string()))
    );
}

#[test]
fn the_end_of_input_inside_a_value_is_reported() {
    assert_eq!(parse(""), Err(ParseError::UnexpectedEndOfInput));
    assert_eq!(parse("   "), Err(ParseError::UnexpectedEndOfInput));
    assert_eq!(parse("\"abc"), Err(ParseError::UnexpectedEndOfInput));
    assert_eq!(parse("\"abc\\"), Err(ParseError::UnexpectedEndOfInput));
    assert_eq!(parse("["), Err(ParseError::UnexpectedEndOfInput));
    assert_eq!(parse("[1"), Err(ParseError::UnexpectedEndOfInput));
    assert_eq!(parse("[1,"), Err(ParseError::UnexpectedEndOfInput));
    assert_eq!(parse("{\"a\""), Err(ParseError::UnexpectedEndOfInput));
    assert_eq!(parse("{\"a\":"), Err(ParseError::UnexpectedEndOfInput));
    assert_eq!(parse("{\"a\":1"), Err(ParseError::UnexpectedEndOfInput));
    assert_eq!(parse("{1"), Err(ParseError::UnexpectedEndOfInput));
}

#[test]
fn an_unexpected_character_is_reported_with_its_position() {
    assert_eq!(parse("{invalid}"), Err(ParseError::UnexpectedChar('i', 1)));
    assert_eq!(parse("nul"), Err(ParseError::UnexpectedChar('n', 0)));
    assert_eq!(parse("  nulL"), Err(ParseError::UnexpectedChar('n', 2)));
    assert_eq!(parse("tru"), Err(ParseError::UnexpectedChar('t', 0)));
    assert_eq!(parse("[falsy]"), Err(ParseError::UnexpectedChar('f', 1)));
    assert_eq!(parse("?"), Err(ParseError::UnexpectedChar('?', 0)));
    assert_eq!(parse("[1 2]"), Err(ParseError::UnexpectedChar('2', 3)));
    assert_eq!(parse("[1,]"), Err(ParseError::UnexpectedChar(']', 3)));
    assert_eq!(parse("{\"a\" 1}"), Err(ParseError::UnexpectedChar('1', 5)));
    assert_eq!(parse("{\"a\":1 \"b\":2}"), Err(ParseError::UnexpectedChar('"', 7)));
    assert_eq!(parse("{\"a\":1,}"), Err(ParseError::UnexpectedChar('}', 7)));
    assert_eq!(parse("{1:2}"), Err(ParseError::UnexpectedChar(':', 2)));
    assert_eq!(parse("{null:2}"), Err(ParseError::UnexpectedChar(':', 5)));
    assert_eq!(parse("{[] :2}"), Err(ParseError::UnexpectedChar(' ', 3)));
}

#[test]
fn trailing_content_fails() {
    assert_eq!(parse("null garbage"), Err(ParseError::UnexpectedChar('g', 5)));
    assert_eq!(parse("[] []"), Err(ParseError::UnexpectedChar('[', 3)));
    assert_eq!(parse("1 ,"), Err(ParseError::UnexpectedChar(',', 2)));
    assert_eq!(parse("{}x"), Err(ParseError::UnexpectedChar('x', 2)));
    assert_eq!(parse("\"a\"\"b\""), Err(ParseError::UnexpectedChar('"', 3)));
}

#[test]
fn positions_count_characters() {
    assert_eq!(
        parse("[\"\u{e9}\u{1F600}\", x]"),
        Err(ParseError::UnexpectedChar('x', 7))
    );
    assert_eq!(
        parse("[\"\u{e9}\", null]"),
        Ok(JsonValue::Array(vec![string("\u{e9}"), JsonValue::Null]))
    );
}

#[test]
fn white_space_of_any_script_is_skipped() {
    assert_eq!(parse("\u{a0}null\u{3000}"), Ok(JsonValue::Null));
    assert_eq!(
        parse("\t[\n1\r,\u{2003}2\u{85}]\u{2028}"),
        Ok(JsonValue::Array(vec![number("1"), number("2")]))
    );
    assert_eq!(parse("\u{200b}null"), Err(ParseError::UnexpectedChar('\u{200b}', 0)));
}

#[test]
fn a_repeated_key_keeps_its_place_and_takes_the_last_value() {
    let parsed = parse(r#"{"a": 1, "b": 2, "a": 3}"#).unwrap();
    let mut expected = JsonObject::new();
    expected.insert("a".to_string(), number("3"));
    expected.insert("b".to_string(), number("2"));
    assert_eq!(parsed, JsonValue::Object(expected));
    assert_eq!(parsed.as_object().unwrap().len(), 2);
    assert_eq!(parsed.get("a"), Some(&number("3")));
    assert_eq!(json::stringify(&parsed), r#"{"a":3,"b":2}"#);
}

#[test]
fn objects_are_equal_in_any_order() {
    let left = parse(r#"{"a": 1, "b": [true, {"x": null, "y": "z"}]}"#).unwrap();
    let right = parse(r#"{"b": [true, {"y": "z", "x": null}], "a": 1}"#).unwrap();
    assert_eq!(left, right);
    assert_eq!(right, left);
    assert_ne!(json::stringify(&left), json::stringify(&right));
}

#[test]
fn values_that_differ_are_not_equal() {
    assert_ne!(parse("[1, 2]").unwrap(), parse("[2, 1]").unwrap());
    assert_ne!(parse("[1]").unwrap(), parse("[1, 1]").unwrap());
    assert_ne!(parse(r#"{"a": 1}"#).unwrap(), parse(r#"{"a": 2}"#).unwrap());
    assert_ne!(parse(r#"{"a": 1}"#).unwrap(), parse(r#"{"b": 1}"#).unwrap());
    assert_ne!(parse(r#"{"a": 1}"#).unwrap(), parse(r#"{"a": 1, "b": 1}"#).unwrap());
    assert_ne!(parse("null").unwrap(), parse("false").unwrap());
    assert_ne!(parse("\"1\"").unwrap(), parse("1").unwrap());
    assert_ne!(parse("true").unwrap(), parse("false").unwrap());
    assert_ne!(parse("[]").unwrap(), parse("{}").unwrap());
}

#[test]
fn a_clone_is_equal_to_its_source() {
    let value = parse(r#"{"a": [1, "two", null, {"b": false}], "c": -3.5e2}"#).unwrap();
    let copy = value.clone();
    assert_eq!(copy, value);
    assert_eq!(json::stringify(&copy), json::stringify(&value));
}

#[test]
fn strings_are_written_with_their_escapes() {
    assert_eq!(
        json::stringify(&string("\" \\ / \u{8} \u{c} \n \r \t")),
        r#""\" \\ / \b \f \n \r \t""#
    );
    assert_eq!(
        json::stringify(&string("\u{0}\u{1}\u{1f}\u{7f}\u{80}\u{9f}")),
        r#""\u0000\u0001\u001f\u007f\u0080\u009f""#
    );
    assert_eq!(
        json::stringify(&string("\u{a0}\u{e9}\u{20ac}\u{1F600}")),
        "\"\u{a0}\u{e9}\u{20ac}\u{1F600}\""
    );
    assert_eq!(json::stringify(&string("")), "\"\"");
}

#[test]
fn keys_are_written_with_their_escapes() {
    let mut object = JsonObject::new();
    object.insert("a\"b\n".to_string(), JsonValue::Null);
    assert_eq!(json::stringify(&JsonValue::Object(object)), r#"{"a\"b\n":null}"#);
}

#[test]
fn empty_containers_are_written_as_they_are_read() {
    assert_eq!(parse("[]"), Ok(JsonValue::Array(vec![])));
    assert_eq!(parse("{}"), Ok(JsonValue::Object(JsonObject::new())));
    assert_eq!(parse(" [ \n ] "), Ok(JsonValue::Array(vec![])));
    assert_eq!(parse(" { \t } "), Ok(JsonValue::Object(JsonObject::new())));
    assert_eq!(json::stringify(&JsonValue::Array(vec![])), "[]");
    assert_eq!(json::stringify(&JsonValue::Object(JsonObject::new())), "{}");
    assert_eq!(json::stringify(&parse("[]").unwrap()), "[]");
    assert_eq!(json::stringify(&parse("{}").unwrap()), "{}");
}

#[test]
fn the_text_is_compact_and_in_order() {
    let value = parse(" { \"b\" : [ 1 , [ ] , { } ] , \"a\" : { \"c\" : null } } ").unwrap();
    assert_eq!(json::stringify(&value), r#"{"b":[1,[],{}],"a":{"c":null}}"#);
}

#[test]
fn written_values_are_read_back() {
    let texts = [
        "null",
        "true",
        "false",
        "0",
        "-12.5e-3",
        r#""""#,
        r#""a\"\\\n\u0001\u007f""#,
        "[]",
        "{}",
        r#"[null,[true,[false,[1,["x"]]]]]"#,
        r#"{"a":{"b":{"c":[1,2,{"d":"e"}]}},"f":[],"g":{}}"#,
    ];
    for text in texts {
        let value = parse(text).unwrap();
        let written = json::stringify(&value);
        assert_eq!(written, text);
        assert_eq!(parse(&written), Ok(value));
    }
}

#[test]
fn writing_reading_and_writing_gives_the_same_text() {
    let values = [
        string("line\nbreak \u{1b}[0m \u{e9}"),
        JsonValue::Array(vec![number("1"), string("\u{0}"), JsonValue::Bool(true)]),
        parse(r#" { "k" : [ 1.0 , 2e2 , "\u00e9\/" ] , "z" : null } "#).unwrap(),
    ];
    for value in values {
        let first = json::stringify(&value);
        let again = parse(&first).unwrap();
        assert_eq!(again, value);
        assert_eq!(json::stringify(&again), first);
    }
}

#[test]
fn accessors_view_a_value_as_its_variant() {
    let value = parse(r#"{"s": "text", "n": 1.5, "b": true, "a": [1, 2], "o": {"k": null}}"#)
        .unwrap();
    assert_eq!(value.get("s").unwrap().as_str(), Some("text"));
    assert_eq!(value.get("n").unwrap().as_number(), Some("1.5"));
    assert_eq!(value.get("b").unwrap().as_bool(), Some(true));
    assert_eq!(
        value.get("a").unwrap().as_array(),
        Some(&vec![number("1"), number("2")])
    );
    assert_eq!(value.get("a").unwrap().get_index(1), Some(&number("2")));
    assert_eq!(value.get("a").unwrap().get_index(2), None);
    assert_eq!(value.get("o").unwrap().get("k"), Some(&JsonValue::Null));
    assert_eq!(value.get("o").unwrap().as_object().unwrap().len(), 1);
    assert_eq!(value.get("missing"), None);
    assert_eq!(value.as_object().unwrap().len(), 5);
    assert!(!value.as_object().unwrap().is_empty());
}

#[test]
fn accessors_signal_absence_on_another_variant() {
    let value = JsonValue::Null;
    assert_eq!(value.as_str(), None);
    assert_eq!(value.as_number(), None);
    assert_eq!(value.as_bool(), None);
    assert_eq!(value.as_array(), None);
    assert!(value.as_object().is_none());
    assert_eq!(value.get("a"), None);
    assert_eq!(value.get_index(0), None);
    assert_eq!(string("x").as_number(), None);
    assert_eq!(number("1").as_str(), None);
    assert_eq!(number("1").as_bool(), None);
    assert_eq!(JsonValue::Array(vec![]).get("a"), None);
    assert!(JsonValue::Array(vec![]).as_object().is_none());
    assert_eq!(JsonValue::Object(JsonObject::new()).get_index(0), None);
    assert_eq!(JsonValue::Object(JsonObject::new()).as_array(), None);
}

#[test]
fn an_object_keeps_the_order_of_first_insertion() {
    let mut object = JsonObject::new();
    assert!(object.is_empty());
    assert_eq!(object.len(), 0);
    object.insert("x".to_string(), number("1"));
    object.insert("y".to_string(), number("2"));
    object.insert("x".to_string(), number("3"));
    assert_eq!(object.len(), 2);
    assert_eq!(object.get("x"), Some(&number("3")));
    assert_eq!(object.get("y"), Some(&number("2")));
    assert_eq!(object.get("z"), None);
    let keys: Vec<&str> = object.entries().iter().map(|entry| entry.0.as_str()).collect();
    assert_eq!(keys, vec!["x", "y"]);
    assert_eq!(object.entries()[0].1, number("3"));
}

#[test]
fn the_cursor_moves_over_the_text() {
    let mut parser = Parser::new(" \u{e9}b");
    assert_eq!(parser.current_char(), Some(' '));
    assert_eq!(parser.peek_char(), Some('\u{e9}'));
    parser.skip_whitespace();
    assert_eq!(parser.current_char(), Some('\u{e9}'));
    assert_eq!(parser.peek_char(), Some('b'));
    parser.skip_whitespace();
    assert_eq!(parser.current_char(), Some('\u{e9}'));
    parser.advance();
    assert_eq!(parser.current_char(), Some('b'));
    assert_eq!(parser.peek_char(), None);
    parser.advance();
    assert_eq!(parser.current_char(), None);
    assert_eq!(parser.peek_char(), None);
    parser.advance();
    assert_eq!(parser.current_char(), None);
}

#[test]
fn a_parser_reads_from_its_cursor() {
    let mut parser = Parser::new("x [1, 2] ");
    parser.advance();
    assert_eq!(
        parser.parse(),
        Ok(JsonValue::Array(vec![number("1"), number("2")]))
    );
    assert_eq!(parser.current_char(), None);
    assert_eq!(parser.parse(), Err(ParseError::UnexpectedEndOfInput));
}

#[test]
fn a_parser_stops_where_it_fails() {
    let mut parser = Parser::new("[1, ?]");
    assert_eq!(parser.parse(), Err(ParseError::UnexpectedChar('?', 4)));
    assert_eq!(parser.current_char(), Some('?'));
    let mut parser = Parser::new("true false");
    assert_eq!(parser.parse(), Err(ParseError::UnexpectedChar('f', 5)));
    assert_eq!(parser.current_char(), Some('f'));
    assert_eq!(parser.parse(), Ok(JsonValue::Bool(false)));
}

#[test]
fn deep_nesting_is_read() {
    let depth = 200;
    let text = format!("{}{}", "[".repeat(depth), "]".repeat(depth));
    let value = parse(&text).unwrap();
    assert_eq!(json::stringify(&value), text);
}

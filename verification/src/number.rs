//! Integers as number literals.

use crate::chars::{ascii_digit, hex_digit, hex_digit_char};
use crate::grammar::{char_at, digits_end};
use crate::laws::{number_literal, well_formed};
use crate::model::Json;
use crate::value::JsonValue;
use vstd::prelude::*;

verus! {

/// The decimal digits of `n`, the first digit counting most, without
/// leading zeros.
pub open spec fn digits_of(n: nat) -> Seq<char>
    decreases n,
{
    if n < 10 {
        seq![hex_digit(n as int)]
    } else {
        digits_of(n / 10).push(hex_digit(n as int % 10))
    }
}

/// The signed decimal literal of `n`: a minus sign if `n` is negative, and
/// the digits of its magnitude.
pub open spec fn decimal(n: int) -> Seq<char> {
    if n < 0 {
        seq!['-'] + digits_of((-n) as nat)
    } else {
        digits_of(n as nat)
    }
}

/// The digits of a number are digits, and there is at least one.
proof fn lemma_digits_of(n: nat)
    ensures
        digits_of(n).len() > 0,
        forall|i: int| 0 <= i < digits_of(n).len() ==> ascii_digit(#[trigger] digits_of(n)[i]),
    decreases n,
{
    if n >= 10 {
        lemma_digits_of(n / 10);
    }
}

/// Where only digits stand up to the end of the text, the scan of digits
/// reaches the end.
proof fn lemma_digits_end_of_digits(text: Seq<char>, pos: int)
    requires
        0 <= pos <= text.len(),
        forall|i: int| pos <= i < text.len() ==> ascii_digit(#[trigger] text[i]),
    ensures
        digits_end(text, pos) == text.len(),
    decreases text.len() - pos,
{
    if pos < text.len() {
        lemma_digits_end_of_digits(text, pos + 1);
    }
}

/// The decimal literal of an integer is a number literal of the grammar.
pub proof fn lemma_decimal_is_literal(n: int)
    ensures
        number_literal(decimal(n)),
        well_formed(Json::Number(decimal(n))),
{
    let text = decimal(n);
    if n < 0 {
        lemma_digits_of((-n) as nat);
        let digits = digits_of((-n) as nat);
        assert forall|i: int| 1 <= i < text.len() implies ascii_digit(#[trigger] text[i]) by {
            assert(text[i] == digits[i - 1]);
        }
        assert(text[0] == '-');
        lemma_digits_end_of_digits(text, 1);
    } else {
        lemma_digits_of(n as nat);
        assert(ascii_digit(text[0]));
        lemma_digits_end_of_digits(text, 0);
    }
    assert(char_at(text, text.len() as int) is None);
}

impl JsonValue {
    /// The number `n`, as its signed decimal literal.
    pub fn from_integer(n: i64) -> (r: JsonValue)
        ensures
            r@ == Json::Number(decimal(n as int)),
            well_formed(r@),
    {
        proof {
            lemma_decimal_is_literal(n as int);
        }
        let magnitude: u64 = if n < 0 {
            (-(n + 1)) as u64 + 1
        } else {
            n as u64
        };
        let mut reversed: Vec<char> = Vec::new();
        reversed.push(hex_digit_char((magnitude % 10) as u32));
        let mut rest: u64 = magnitude / 10;
        while rest > 0
            invariant
                reversed.len() > 0,
                digits_of(magnitude as nat) == if rest > 0 {
                    digits_of(rest as nat) + reversed@.reverse()
                } else {
                    reversed@.reverse()
                },
            decreases rest,
        {
            let ghost before = reversed@;
            let digit = hex_digit_char((rest % 10) as u32);
            reversed.push(digit);
            assert(reversed@.reverse() =~= seq![digit] + before.reverse());
            assert(digits_of(rest as nat) + before.reverse() =~= if rest >= 10 {
                digits_of(rest as nat / 10) + reversed@.reverse()
            } else {
                reversed@.reverse()
            });
            rest = rest / 10;
        }
        let mut text = String::new();
        if n < 0 {
            text.push('-');
        }
        let ghost sign = text@;
        let mut i: usize = reversed.len();
        while i > 0
            invariant
                i <= reversed.len(),
                text@ == sign + reversed@.reverse().take(reversed.len() - i),
            decreases i,
        {
            i -= 1;
            text.push(reversed[i]);
            assert(reversed@.reverse().take(reversed.len() - i) =~= reversed@.reverse().take(
                reversed.len() - i - 1,
            ).push(reversed@[i as int]));
        }
        assert(reversed@.reverse().take(reversed.len() as int) =~= reversed@.reverse());
        assert(text@ =~= decimal(n as int));
        JsonValue::Number(text)
    }
}

} // verus!

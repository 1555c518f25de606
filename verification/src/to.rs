//! The conversions in English.

use crate::decimal::bounded_decimal;
use crate::decimal::decimal_words;
use crate::decimal::parse_decimal;
use crate::decimal::Decimal;
use crate::format::join;
use crate::format::name_limit;
use crate::format::spelled;
use crate::lexicon::english_words;
use crate::lexicon::Lexicon;
use crate::parse::bounded;
use crate::parse::parse_integer;
use vstd::prelude::*;
use vstd::utf8::encode_utf8;

verus! {

/// The English name of an integer.
pub fn string(num: isize) -> (r: String)
    requires
        -name_limit() < num < name_limit(),
    ensures
        r@ == spelled(english_words(), num as int),
{
    Lexicon::english().spell(num)
}

/// The integer that an English name stands for, or the message with which
/// the name is refused.
pub fn integer(text_num: &str) -> (r: Result<isize, String>)
    ensures
        match bounded(parse_integer(english_words(), encode_utf8(text_num@))) {
            Ok(v) => r matches Ok(n) && n == v,
            Err(message) => r matches Err(e) && e@ == message,
        },
{
    Lexicon::english().parse(text_num)
}

/// The English name of the number with integer part `head` and the given
/// digits after the point.
pub fn string_decimal(head: isize, digits: &Vec<u8>) -> (r: String)
    requires
        -name_limit() < head < name_limit(),
        forall|i: int| 0 <= i < digits@.len() ==> digits@[i] <= 9,
    ensures
        r@ == join(decimal_words(english_words(), head as int, digits@)),
{
    Lexicon::english().spell_decimal(head, digits)
}

/// The integer part and the digits after the point that an English name
/// stands for, or the message with which the name is refused.
pub fn decimal(text_num: &str) -> (r: Result<Decimal, String>)
    ensures
        match bounded_decimal(parse_decimal(english_words(), encode_utf8(text_num@))) {
            Ok((head, tail)) => r matches Ok(d) && d.head == head && d.digits@ == tail,
            Err(message) => r matches Err(e) && e@ == message,
        },
{
    Lexicon::english().parse_decimal(text_num)
}

} // verus!

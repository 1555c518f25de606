//! Numbers with a fractional part: a head, the word "point", and one digit
//! word for each decimal place.

use crate::distance::bytes_distance;
use crate::distance::edit_distance;
use crate::format::join;
use crate::format::name_limit;
use crate::format::number_words;
use crate::format::Sentence;
use crate::lexicon::Lexicon;
use crate::lexicon::Words;
use crate::parse::parse_tokens;
use crate::parse::read;
use crate::text::same_bytes;
use crate::text::tokenize;
use crate::text::tokens;
use crate::text::views;
use vstd::prelude::*;
use vstd::utf8::encode_utf8;

verus! {

/// The bytes of the word "point".
pub open spec fn point_bytes() -> Seq<u8> {
    encode_utf8("point"@)
}

/// The words for the digits after the point, one unit word for each.
pub open spec fn digit_words(w: Words, digits: Seq<u8>) -> Seq<Seq<char>> {
    Seq::new(digits.len(), |i: int| w.units[digits[i] as int])
}

/// The words that name the number with integer part `head` and the given
/// digits after the point.
pub open spec fn decimal_words(w: Words, head: int, digits: Seq<u8>) -> Seq<Seq<char>> {
    number_words(w, head) + seq!["point"@] + digit_words(w, digits)
}

/// Whether one of the tokens is exactly one edit from "point".
pub open spec fn has_misspelt_point(tokens: Seq<Seq<u8>>) -> bool {
    exists|i: int| 0 <= i < tokens.len() && edit_distance(#[trigger] tokens[i], point_bytes()) == 1
}

/// The index of the first token that is "point", or the number of tokens if
/// none is.
pub open spec fn first_point(tokens: Seq<Seq<u8>>) -> int
    decreases tokens.len(),
{
    if tokens.len() == 0 {
        0
    } else if tokens[0] == point_bytes() {
        0
    } else {
        1 + first_point(tokens.drop_first())
    }
}

/// The digit that a token after the point names, read as a phrase of its
/// own, or the message with which it is refused.
pub open spec fn digit(w: Words, token: Seq<u8>) -> Result<u8, Seq<char>> {
    match parse_tokens(w, seq![token]) {
        Ok(v) => if 0 <= v <= 9 {
            Ok(v as u8)
        } else {
            Err("Invalid value in tail string."@)
        },
        Err(message) => Err(message),
    }
}

/// The digits that the tokens after the point name, or the message of the
/// first one refused.
pub open spec fn digits(w: Words, tail: Seq<Seq<u8>>) -> Result<Seq<u8>, Seq<char>>
    decreases tail.len(),
{
    if tail.len() == 0 {
        Ok(Seq::empty())
    } else {
        match digits(w, tail.drop_last()) {
            Ok(front) => match digit(w, tail.last()) {
                Ok(d) => Ok(front.push(d)),
                Err(message) => Err(message),
            },
            Err(message) => Err(message),
        }
    }
}

/// The integer part and the digits after the point that a phrase names, or
/// the message with which it is refused. A token one edit from "point" is
/// refused before anything else is read; without a "point" the phrase is an
/// integer; with one, the digits after the first "point" are read before the
/// integer in front of it.
pub open spec fn parse_decimal(w: Words, phrase: Seq<u8>) -> Result<(int, Seq<u8>), Seq<char>> {
    let all = tokens(phrase);
    let p = first_point(all);
    if has_misspelt_point(all) {
        Err("Did you mean point?"@)
    } else if p == all.len() {
        match parse_tokens(w, all) {
            Ok(head) => Ok((head, Seq::empty())),
            Err(message) => Err(message),
        }
    } else {
        match digits(w, all.skip(p + 1)) {
            Ok(tail) => match parse_tokens(w, all.take(p)) {
                Ok(head) => Ok((head, tail)),
                Err(message) => Err(message),
            },
            Err(message) => Err(message),
        }
    }
}

/// An answer cut to the machine's integers: an integer part larger in
/// magnitude than `isize::MAX` gives way to a message.
pub open spec fn bounded_decimal(answer: Result<(int, Seq<u8>), Seq<char>>) -> Result<
    (int, Seq<u8>),
    Seq<char>,
> {
    match answer {
        Ok((head, tail)) => if -isize::MAX <= head <= isize::MAX {
            Ok((head, tail))
        } else {
            Err("Number out of range"@)
        },
        Err(message) => Err(message),
    }
}

/// A number as its integer part and the digits after the point.
#[derive(Debug, PartialEq, Eq)]
pub struct Decimal {
    /// The integer part, with the sign of the number.
    pub head: isize,
    /// The digits after the point, each from 0 to 9.
    pub digits: Vec<u8>,
}

/// The first "point" is where no token before it is "point" and either the
/// tokens end or one is.
pub proof fn lemma_first_point(tokens: Seq<Seq<u8>>, p: int)
    requires
        0 <= p <= tokens.len(),
        forall|j: int| 0 <= j < p ==> tokens[j] != point_bytes(),
        p < tokens.len() ==> tokens[p] == point_bytes(),
    ensures
        first_point(tokens) == p,
    decreases tokens.len(),
{
    if p > 0 {
        let rest = tokens.drop_first();
        assert forall|j: int| 0 <= j < p - 1 implies rest[j] != point_bytes() by {
            assert(rest[j] == tokens[j + 1]);
        }
        lemma_first_point(rest, p - 1);
    }
}

/// Once a token after the point has been refused, the tail is refused with
/// its message, whatever follows.
proof fn lemma_digits_stay_refused(w: Words, tail: Seq<Seq<u8>>, n: int)
    requires
        0 <= n <= tail.len(),
        digits(w, tail.take(n)) is Err,
    ensures
        digits(w, tail) == digits(w, tail.take(n)),
    decreases tail.len(),
{
    if n < tail.len() {
        assert(tail.drop_last().take(n) =~= tail.take(n));
        lemma_digits_stay_refused(w, tail.drop_last(), n);
    } else {
        assert(tail.take(n) =~= tail);
    }
}

/// A phrase of one token names a number from 0 to 90, if any.
proof fn lemma_one_token_is_small(w: Words, token: Seq<u8>)
    ensures
        parse_tokens(w, seq![token]) matches Ok(v) ==> 0 <= v <= 90,
{
    let one = seq![token];
    assert(one.drop_last() =~= Seq::<Seq<u8>>::empty());
    assert(one.last() == token);
    reveal_with_fuel(read, 2);
}

impl Lexicon {
    /// The name of the number with integer part `head` and the given digits
    /// after the point.
    pub fn spell_decimal(&self, head: isize, digits: &Vec<u8>) -> (r: String)
        requires
            -name_limit() < head < name_limit(),
            forall|i: int| 0 <= i < digits@.len() ==> digits@[i] <= 9,
        ensures
            r@ == join(decimal_words(self@, head as int, digits@)),
    {
        let ghost w = self@;
        let mut out = Sentence::new();
        self.write_number(head, &mut out);
        out.push("point");
        let ghost lead = out.words();
        let mut i: usize = 0;
        while i < digits.len()
            invariant
                i <= digits@.len(),
                w == self@,
                out.wf(),
                forall|k: int| 0 <= k < digits@.len() ==> digits@[k] <= 9,
                out.words() == lead + digit_words(w, digits@.take(i as int)),
            decreases digits@.len() - i,
        {
            out.push(self.unit(digits[i] as usize));
            proof {
                assert(digit_words(w, digits@.take(i + 1)) =~= digit_words(
                    w,
                    digits@.take(i as int),
                ).push(w.units[digits@[i as int] as int]));
            }
            i += 1;
        }
        proof {
            assert(digits@.take(i as int) =~= digits@);
            assert(out.words() =~= decimal_words(w, head as int, digits@));
        }
        out.finish()
    }

    /// The integer part and the digits after the point that `text` names in
    /// the words of this lexicon, or the message with which it is refused.
    pub fn parse_decimal(&self, text: &str) -> (r: Result<Decimal, String>)
        ensures
            match bounded_decimal(parse_decimal(self@, encode_utf8(text@))) {
                Ok((head, tail)) => r matches Ok(d) && d.head == head && d.digits@ == tail,
                Err(message) => r matches Err(e) && e@ == message,
            },
    {
        let ghost w = self@;
        let parts = tokenize(text.as_bytes());
        let ghost all = views(parts@);
        assert(all == tokens(encode_utf8(text@)));
        let mut i: usize = 0;
        while i < parts.len()
            invariant
                i <= parts@.len(),
                all == views(parts@),
                all == tokens(encode_utf8(text@)),
                forall|j: int| 0 <= j < i ==> edit_distance(#[trigger] all[j], point_bytes()) != 1,
            decreases parts@.len() - i,
        {
            if bytes_distance(parts[i].as_slice(), "point".as_bytes()) == 1 {
                assert(edit_distance(all[i as int], point_bytes()) == 1);
                return Err("Did you mean point?".to_owned());
            }
            i += 1;
        }
        assert(!has_misspelt_point(all));
        let mut p: usize = 0;
        while p < parts.len() && !same_bytes(parts[p].as_slice(), "point".as_bytes())
            invariant
                p <= parts@.len(),
                all == views(parts@),
                forall|j: int| 0 <= j < p ==> all[j] != point_bytes(),
            decreases parts@.len() - p,
        {
            p += 1;
        }
        proof {
            lemma_first_point(all, p as int);
        }
        if p == parts.len() {
            return match self.parse_words(&parts) {
                Ok(head) => Ok(Decimal { head, digits: Vec::new() }),
                Err(e) => Err(e),
            };
        }
        let ghost tail = all.skip(p + 1);
        let mut found: Vec<u8> = Vec::new();
        let mut j: usize = p + 1;
        proof {
            assert(tail.take(0) =~= Seq::<Seq<u8>>::empty());
        }
        while j < parts.len()
            invariant
                p < j <= parts@.len(),
                w == self@,
                all == views(parts@),
                all == tokens(encode_utf8(text@)),
                !has_misspelt_point(all),
                p == first_point(all),
                tail == all.skip(p + 1),
                digits(w, tail.take(j - p - 1)) == Ok::<Seq<u8>, Seq<char>>(found@),
            decreases parts@.len() - j,
        {
            proof {
                assert(tail.take(j - p).drop_last() =~= tail.take(j - p - 1));
                assert(tail.take(j - p).last() == all[j as int]);
                assert(all.subrange(j as int, j + 1) =~= seq![all[j as int]]);
                lemma_one_token_is_small(w, all[j as int]);
            }
            match self.parse_range(&parts, j, j + 1) {
                Err(e) => {
                    proof {
                        lemma_digits_stay_refused(w, tail, j - p);
                    }
                    return Err(e);
                },
                Ok(n) => {
                    if 0 <= n && n <= 9 {
                        found.push(n as u8);
                    } else {
                        proof {
                            lemma_digits_stay_refused(w, tail, j - p);
                        }
                        return Err("Invalid value in tail string.".to_owned());
                    }
                },
            }
            j += 1;
        }
        proof {
            assert(tail.take(j - p - 1) =~= tail);
            assert(all.subrange(0, p as int) =~= all.take(p as int));
        }
        match self.parse_range(&parts, 0, p) {
            Ok(head) => Ok(Decimal { head, digits: found }),
            Err(e) => Err(e),
        }
    }
}

} // verus!

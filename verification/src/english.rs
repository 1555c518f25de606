//! The English lexicon is legible, so that the laws hold of it.

use crate::decimal::decimal_words;
use crate::decimal::parse_decimal;
use crate::decimal::point_bytes;
use crate::distance::count;
use crate::distance::edit_distance;
use crate::distance::lemma_distance_at_least_count_gap;
use crate::distance::lemma_distance_at_least_length_gap;
use crate::format::join;
use crate::format::name_limit;
use crate::format::spelled;
use crate::laws::canonicalize;
use crate::laws::is_legible;
use crate::laws::keeps_point_apart;
use crate::laws::lemma_correction_is_idempotent;
use crate::laws::lemma_decimal_round_trip;
use crate::laws::lemma_name_is_tidy;
use crate::laws::lemma_round_trip;
use crate::lexicon::english_words;
use crate::matcher::negative_bytes;
use crate::parse::bounded;
use crate::parse::is_negation;
use crate::parse::parse_integer;
use crate::plain::is_plain;
use crate::plain::is_tidy;
use crate::plain::lemma_plain_bytes;
use vstd::prelude::*;
use vstd::utf8::encode_utf8;

verus! {

/// A word that can stand in a legible lexicon: it is plain, no negation, and
/// not within one edit of "point".
pub open spec fn is_readable(word: Seq<char>) -> bool {
    &&& is_plain(word)
    &&& !is_negation(encode_utf8(word))
    &&& edit_distance(encode_utf8(word), point_bytes()) >= 2
}

/// The set of the bytes of two letters.
pub open spec fn pair(a: char, b: char) -> Set<u8> {
    set![a as u8, b as u8]
}

/// The set of the bytes of three letters.
pub open spec fn letters(a: char, b: char, c: char) -> Set<u8> {
    set![a as u8, b as u8, c as u8]
}

/// The place of an English number word in the vocabulary, told from its
/// length and three of its letters; -1 for any other word.
pub open spec fn rank(word: Seq<char>) -> int {
    if word.len() == 3 && word[0] == 'a' && word[2] == 'd' {
        0
    } else if word.len() == 4 && word[0] == 'z' && word[2] == 'r' && word[3] == 'o' {
        1
    } else if word.len() == 3 && word[0] == 'o' && word[2] == 'e' {
        2
    } else if word.len() == 3 && word[0] == 't' && word[2] == 'o' {
        3
    } else if word.len() == 5 && word[0] == 't' && word[2] == 'r' && word[3] == 'e' {
        4
    } else if word.len() == 4 && word[0] == 'f' && word[2] == 'u' && word[3] == 'r' {
        5
    } else if word.len() == 4 && word[0] == 'f' && word[2] == 'v' && word[3] == 'e' {
        6
    } else if word.len() == 3 && word[0] == 's' && word[2] == 'x' {
        7
    } else if word.len() == 5 && word[0] == 's' && word[2] == 'v' && word[3] == 'e' {
        8
    } else if word.len() == 5 && word[0] == 'e' && word[2] == 'g' && word[3] == 'h' {
        9
    } else if word.len() == 4 && word[0] == 'n' && word[2] == 'n' && word[3] == 'e' {
        10
    } else if word.len() == 3 && word[0] == 't' && word[2] == 'n' {
        11
    } else if word.len() == 6 && word[0] == 'e' && word[2] == 'e' && word[3] == 'v' {
        12
    } else if word.len() == 6 && word[0] == 't' && word[2] == 'e' && word[3] == 'l' {
        13
    } else if word.len() == 8 && word[0] == 't' && word[2] == 'i' && word[3] == 'r' {
        14
    } else if word.len() == 8 && word[0] == 'f' && word[2] == 'u' && word[3] == 'r' {
        15
    } else if word.len() == 7 && word[0] == 'f' && word[2] == 'f' && word[3] == 't' {
        16
    } else if word.len() == 7 && word[0] == 's' && word[2] == 'x' && word[3] == 't' {
        17
    } else if word.len() == 9 && word[0] == 's' && word[2] == 'v' && word[3] == 'e' {
        18
    } else if word.len() == 8 && word[0] == 'e' && word[2] == 'g' && word[3] == 'h' {
        19
    } else if word.len() == 8 && word[0] == 'n' && word[2] == 'n' && word[3] == 'e' {
        20
    } else if word.len() == 6 && word[0] == 't' && word[2] == 'e' && word[3] == 'n' {
        21
    } else if word.len() == 6 && word[0] == 't' && word[2] == 'i' && word[3] == 'r' {
        22
    } else if word.len() == 5 && word[0] == 'f' && word[2] == 'r' && word[3] == 't' {
        23
    } else if word.len() == 5 && word[0] == 'f' && word[2] == 'f' && word[3] == 't' {
        24
    } else if word.len() == 5 && word[0] == 's' && word[2] == 'x' && word[3] == 't' {
        25
    } else if word.len() == 7 && word[0] == 's' && word[2] == 'v' && word[3] == 'e' {
        26
    } else if word.len() == 6 && word[0] == 'e' && word[2] == 'g' && word[3] == 'h' {
        27
    } else if word.len() == 6 && word[0] == 'n' && word[2] == 'n' && word[3] == 'e' {
        28
    } else if word.len() == 7 && word[0] == 'h' && word[2] == 'n' && word[3] == 'd' {
        29
    } else if word.len() == 8 && word[0] == 't' && word[2] == 'o' && word[3] == 'u' {
        30
    } else if word.len() == 7 && word[0] == 'm' && word[2] == 'l' && word[3] == 'l' {
        31
    } else if word.len() == 7 && word[0] == 'b' && word[2] == 'l' && word[3] == 'l' {
        32
    } else if word.len() == 8 && word[0] == 't' && word[2] == 'i' && word[3] == 'l' {
        33
    } else if word.len() == 11 && word[0] == 'q' && word[2] == 'a' && word[3] == 'd' {
        34
    } else {
        -1
    }
}

/// Plain words whose lengths differ by `gap` are `gap` edits apart or more.
proof fn lemma_length_tells(word: Seq<char>, other: Seq<char>, gap: int)
    requires
        is_plain(word),
        is_plain(other),
        word.len() + gap <= other.len() || other.len() + gap <= word.len(),
    ensures
        edit_distance(encode_utf8(word), encode_utf8(other)) >= gap,
{
    lemma_plain_bytes(word);
    lemma_plain_bytes(other);
    lemma_distance_at_least_length_gap(encode_utf8(word), encode_utf8(other));
}

/// A word is `gap` edits or more from another that has `gap` more letters of
/// some set than it has.
proof fn lemma_letters_tell(word: Seq<char>, other: Seq<char>, of: Set<u8>, gap: int)
    requires
        count(encode_utf8(other), of) >= count(encode_utf8(word), of) + gap,
    ensures
        edit_distance(encode_utf8(word), encode_utf8(other)) >= gap,
{
    lemma_distance_at_least_count_gap(encode_utf8(word), encode_utf8(other), of);
}

/// "and" is too short for "negative", and too short for "point".
proof fn lemma_and()
    ensures
        is_readable("and"@) && rank("and"@) == 0,
{
    reveal_strlit("and");
    reveal_strlit("negative");
    reveal_strlit("point");
    lemma_length_tells("and"@, "negative"@, 3);
    lemma_length_tells("and"@, "point"@, 2);
}

/// "zero" is too short for "negative", and without the letters p, i and n, of
/// which "point" has three.
proof fn lemma_zero()
    ensures
        is_readable("zero"@) && rank("zero"@) == 1,
{
    reveal_strlit("zero");
    reveal_strlit("negative");
    reveal_strlit("point");
    lemma_plain_bytes("zero"@);
    lemma_plain_bytes("point"@);
    reveal_with_fuel(count, 12);
    lemma_length_tells("zero"@, "negative"@, 3);
    lemma_letters_tell("zero"@, "point"@, letters('p', 'i', 'n'), 2);
}

/// "one" is too short for "negative", and too short for "point".
proof fn lemma_one()
    ensures
        is_readable("one"@) && rank("one"@) == 2,
{
    reveal_strlit("one");
    reveal_strlit("negative");
    reveal_strlit("point");
    lemma_length_tells("one"@, "negative"@, 3);
    lemma_length_tells("one"@, "point"@, 2);
}

/// "two" is too short for "negative", and too short for "point".
proof fn lemma_two()
    ensures
        is_readable("two"@) && rank("two"@) == 3,
{
    reveal_strlit("two");
    reveal_strlit("negative");
    reveal_strlit("point");
    lemma_length_tells("two"@, "negative"@, 3);
    lemma_length_tells("two"@, "point"@, 2);
}

/// "three" is too short for "negative", and without the letters p and o, of
/// which "point" has two.
proof fn lemma_three()
    ensures
        is_readable("three"@) && rank("three"@) == 4,
{
    reveal_strlit("three");
    reveal_strlit("negative");
    reveal_strlit("point");
    lemma_plain_bytes("three"@);
    lemma_plain_bytes("point"@);
    reveal_with_fuel(count, 12);
    lemma_length_tells("three"@, "negative"@, 3);
    lemma_letters_tell("three"@, "point"@, pair('p', 'o'), 2);
}

/// "four" is too short for "negative", and without the letters p, i and n, of
/// which "point" has three.
proof fn lemma_four()
    ensures
        is_readable("four"@) && rank("four"@) == 5,
{
    reveal_strlit("four");
    reveal_strlit("negative");
    reveal_strlit("point");
    lemma_plain_bytes("four"@);
    lemma_plain_bytes("point"@);
    reveal_with_fuel(count, 12);
    lemma_length_tells("four"@, "negative"@, 3);
    lemma_letters_tell("four"@, "point"@, letters('p', 'i', 'n'), 2);
}

/// "five" is too short for "negative", and without the letters p and o, of
/// which "point" has two.
proof fn lemma_five()
    ensures
        is_readable("five"@) && rank("five"@) == 6,
{
    reveal_strlit("five");
    reveal_strlit("negative");
    reveal_strlit("point");
    lemma_plain_bytes("five"@);
    lemma_plain_bytes("point"@);
    reveal_with_fuel(count, 12);
    lemma_length_tells("five"@, "negative"@, 3);
    lemma_letters_tell("five"@, "point"@, pair('p', 'o'), 2);
}

/// "six" is too short for "negative", and too short for "point".
proof fn lemma_six()
    ensures
        is_readable("six"@) && rank("six"@) == 7,
{
    reveal_strlit("six");
    reveal_strlit("negative");
    reveal_strlit("point");
    lemma_length_tells("six"@, "negative"@, 3);
    lemma_length_tells("six"@, "point"@, 2);
}

/// "seven" is too short for "negative", and without the letters p and o, of
/// which "point" has two.
proof fn lemma_seven()
    ensures
        is_readable("seven"@) && rank("seven"@) == 8,
{
    reveal_strlit("seven");
    reveal_strlit("negative");
    reveal_strlit("point");
    lemma_plain_bytes("seven"@);
    lemma_plain_bytes("point"@);
    reveal_with_fuel(count, 12);
    lemma_length_tells("seven"@, "negative"@, 3);
    lemma_letters_tell("seven"@, "point"@, pair('p', 'o'), 2);
}

/// "eight" is too short for "negative", and without the letters p and o, of
/// which "point" has two.
proof fn lemma_eight()
    ensures
        is_readable("eight"@) && rank("eight"@) == 9,
{
    reveal_strlit("eight");
    reveal_strlit("negative");
    reveal_strlit("point");
    lemma_plain_bytes("eight"@);
    lemma_plain_bytes("point"@);
    reveal_with_fuel(count, 12);
    lemma_length_tells("eight"@, "negative"@, 3);
    lemma_letters_tell("eight"@, "point"@, pair('p', 'o'), 2);
}

/// "nine" is too short for "negative", and without the letters p and o, of
/// which "point" has two.
proof fn lemma_nine()
    ensures
        is_readable("nine"@) && rank("nine"@) == 10,
{
    reveal_strlit("nine");
    reveal_strlit("negative");
    reveal_strlit("point");
    lemma_plain_bytes("nine"@);
    lemma_plain_bytes("point"@);
    reveal_with_fuel(count, 12);
    lemma_length_tells("nine"@, "negative"@, 3);
    lemma_letters_tell("nine"@, "point"@, pair('p', 'o'), 2);
}

/// "ten" is too short for "negative", and too short for "point".
proof fn lemma_ten()
    ensures
        is_readable("ten"@) && rank("ten"@) == 11,
{
    reveal_strlit("ten");
    reveal_strlit("negative");
    reveal_strlit("point");
    lemma_length_tells("ten"@, "negative"@, 3);
    lemma_length_tells("ten"@, "point"@, 2);
}

/// "eleven" is without the letters g, a and i, of which "negative" has three,
/// and without the letters p and o, of which "point" has two.
proof fn lemma_eleven()
    ensures
        is_readable("eleven"@) && rank("eleven"@) == 12,
{
    reveal_strlit("eleven");
    reveal_strlit("negative");
    reveal_strlit("point");
    lemma_plain_bytes("eleven"@);
    lemma_plain_bytes("negative"@);
    lemma_plain_bytes("point"@);
    reveal_with_fuel(count, 12);
    lemma_letters_tell("eleven"@, "negative"@, letters('g', 'a', 'i'), 3);
    lemma_letters_tell("eleven"@, "point"@, pair('p', 'o'), 2);
}

/// "twelve" is without the letters g, a and i, of which "negative" has three,
/// and without the letters p and o, of which "point" has two.
proof fn lemma_twelve()
    ensures
        is_readable("twelve"@) && rank("twelve"@) == 13,
{
    reveal_strlit("twelve");
    reveal_strlit("negative");
    reveal_strlit("point");
    lemma_plain_bytes("twelve"@);
    lemma_plain_bytes("negative"@);
    lemma_plain_bytes("point"@);
    reveal_with_fuel(count, 12);
    lemma_letters_tell("twelve"@, "negative"@, letters('g', 'a', 'i'), 3);
    lemma_letters_tell("twelve"@, "point"@, pair('p', 'o'), 2);
}

/// "thirteen" is without the letters g, a and v, of which "negative" has
/// three, and too long for "point".
proof fn lemma_thirteen()
    ensures
        is_readable("thirteen"@) && rank("thirteen"@) == 14,
{
    reveal_strlit("thirteen");
    reveal_strlit("negative");
    reveal_strlit("point");
    lemma_plain_bytes("thirteen"@);
    lemma_plain_bytes("negative"@);
    reveal_with_fuel(count, 12);
    lemma_letters_tell("thirteen"@, "negative"@, letters('g', 'a', 'v'), 3);
    lemma_length_tells("thirteen"@, "point"@, 2);
}

/// "fourteen" is without the letters g, a and v, of which "negative" has
/// three, and too long for "point".
proof fn lemma_fourteen()
    ensures
        is_readable("fourteen"@) && rank("fourteen"@) == 15,
{
    reveal_strlit("fourteen");
    reveal_strlit("negative");
    reveal_strlit("point");
    lemma_plain_bytes("fourteen"@);
    lemma_plain_bytes("negative"@);
    reveal_with_fuel(count, 12);
    lemma_letters_tell("fourteen"@, "negative"@, letters('g', 'a', 'v'), 3);
    lemma_length_tells("fourteen"@, "point"@, 2);
}

/// "fifteen" is without the letters g, a and v, of which "negative" has three,
/// and too long for "point".
proof fn lemma_fifteen()
    ensures
        is_readable("fifteen"@) && rank("fifteen"@) == 16,
{
    reveal_strlit("fifteen");
    reveal_strlit("negative");
    reveal_strlit("point");
    lemma_plain_bytes("fifteen"@);
    lemma_plain_bytes("negative"@);
    reveal_with_fuel(count, 12);
    lemma_letters_tell("fifteen"@, "negative"@, letters('g', 'a', 'v'), 3);
    lemma_length_tells("fifteen"@, "point"@, 2);
}

/// "sixteen" is without the letters g, a and v, of which "negative" has three,
/// and too long for "point".
proof fn lemma_sixteen()
    ensures
        is_readable("sixteen"@) && rank("sixteen"@) == 17,
{
    reveal_strlit("sixteen");
    reveal_strlit("negative");
    reveal_strlit("point");
    lemma_plain_bytes("sixteen"@);
    lemma_plain_bytes("negative"@);
    reveal_with_fuel(count, 12);
    lemma_letters_tell("sixteen"@, "negative"@, letters('g', 'a', 'v'), 3);
    lemma_length_tells("sixteen"@, "point"@, 2);
}

/// "seventeen" is without the letters g, a and i, of which "negative" has
/// three, and too long for "point".
proof fn lemma_seventeen()
    ensures
        is_readable("seventeen"@) && rank("seventeen"@) == 18,
{
    reveal_strlit("seventeen");
    reveal_strlit("negative");
    reveal_strlit("point");
    lemma_plain_bytes("seventeen"@);
    lemma_plain_bytes("negative"@);
    reveal_with_fuel(count, 12);
    lemma_letters_tell("seventeen"@, "negative"@, letters('g', 'a', 'i'), 3);
    lemma_length_tells("seventeen"@, "point"@, 2);
}

/// "nineteen" is without the letters g, a and v, of which "negative" has
/// three, and too long for "point".
proof fn lemma_nineteen()
    ensures
        is_readable("nineteen"@) && rank("nineteen"@) == 20,
{
    reveal_strlit("nineteen");
    reveal_strlit("negative");
    reveal_strlit("point");
    lemma_plain_bytes("nineteen"@);
    lemma_plain_bytes("negative"@);
    reveal_with_fuel(count, 12);
    lemma_letters_tell("nineteen"@, "negative"@, letters('g', 'a', 'v'), 3);
    lemma_length_tells("nineteen"@, "point"@, 2);
}

/// "twenty" is without the letters g, a and v, of which "negative" has three,
/// and without the letters p and o, of which "point" has two.
proof fn lemma_twenty()
    ensures
        is_readable("twenty"@) && rank("twenty"@) == 21,
{
    reveal_strlit("twenty");
    reveal_strlit("negative");
    reveal_strlit("point");
    lemma_plain_bytes("twenty"@);
    lemma_plain_bytes("negative"@);
    lemma_plain_bytes("point"@);
    reveal_with_fuel(count, 12);
    lemma_letters_tell("twenty"@, "negative"@, letters('g', 'a', 'v'), 3);
    lemma_letters_tell("twenty"@, "point"@, pair('p', 'o'), 2);
}

/// "thirty" is without the letters g, a and v, of which "negative" has three,
/// and without the letters p and o, of which "point" has two.
proof fn lemma_thirty()
    ensures
        is_readable("thirty"@) && rank("thirty"@) == 22,
{
    reveal_strlit("thirty");
    reveal_strlit("negative");
    reveal_strlit("point");
    lemma_plain_bytes("thirty"@);
    lemma_plain_bytes("negative"@);
    lemma_plain_bytes("point"@);
    reveal_with_fuel(count, 12);
    lemma_letters_tell("thirty"@, "negative"@, letters('g', 'a', 'v'), 3);
    lemma_letters_tell("thirty"@, "point"@, pair('p', 'o'), 2);
}

/// "forty" is too short for "negative", and without the letters p, i and n, of
/// which "point" has three.
proof fn lemma_forty()
    ensures
        is_readable("forty"@) && rank("forty"@) == 23,
{
    reveal_strlit("forty");
    reveal_strlit("negative");
    reveal_strlit("point");
    lemma_plain_bytes("forty"@);
    lemma_plain_bytes("point"@);
    reveal_with_fuel(count, 12);
    lemma_length_tells("forty"@, "negative"@, 3);
    lemma_letters_tell("forty"@, "point"@, letters('p', 'i', 'n'), 2);
}

/// "fifty" is too short for "negative", and without the letters p and o, of
/// which "point" has two.
proof fn lemma_fifty()
    ensures
        is_readable("fifty"@) && rank("fifty"@) == 24,
{
    reveal_strlit("fifty");
    reveal_strlit("negative");
    reveal_strlit("point");
    lemma_plain_bytes("fifty"@);
    lemma_plain_bytes("point"@);
    reveal_with_fuel(count, 12);
    lemma_length_tells("fifty"@, "negative"@, 3);
    lemma_letters_tell("fifty"@, "point"@, pair('p', 'o'), 2);
}

/// "sixty" is too short for "negative", and without the letters p and o, of
/// which "point" has two.
proof fn lemma_sixty()
    ensures
        is_readable("sixty"@) && rank("sixty"@) == 25,
{
    reveal_strlit("sixty");
    reveal_strlit("negative");
    reveal_strlit("point");
    lemma_plain_bytes("sixty"@);
    lemma_plain_bytes("point"@);
    reveal_with_fuel(count, 12);
    lemma_length_tells("sixty"@, "negative"@, 3);
    lemma_letters_tell("sixty"@, "point"@, pair('p', 'o'), 2);
}

/// "seventy" is without the letters g, a and i, of which "negative" has three,
/// and too long for "point".
proof fn lemma_seventy()
    ensures
        is_readable("seventy"@) && rank("seventy"@) == 26,
{
    reveal_strlit("seventy");
    reveal_strlit("negative");
    reveal_strlit("point");
    lemma_plain_bytes("seventy"@);
    lemma_plain_bytes("negative"@);
    reveal_with_fuel(count, 12);
    lemma_letters_tell("seventy"@, "negative"@, letters('g', 'a', 'i'), 3);
    lemma_length_tells("seventy"@, "point"@, 2);
}

/// "eighty" is without the letters n, a and v, of which "negative" has three,
/// and without the letters p and o, of which "point" has two.
proof fn lemma_eighty()
    ensures
        is_readable("eighty"@) && rank("eighty"@) == 27,
{
    reveal_strlit("eighty");
    reveal_strlit("negative");
    reveal_strlit("point");
    lemma_plain_bytes("eighty"@);
    lemma_plain_bytes("negative"@);
    lemma_plain_bytes("point"@);
    reveal_with_fuel(count, 12);
    lemma_letters_tell("eighty"@, "negative"@, letters('n', 'a', 'v'), 3);
    lemma_letters_tell("eighty"@, "point"@, pair('p', 'o'), 2);
}

/// "ninety" is without the letters g, a and v, of which "negative" has three,
/// and without the letters p and o, of which "point" has two.
proof fn lemma_ninety()
    ensures
        is_readable("ninety"@) && rank("ninety"@) == 28,
{
    reveal_strlit("ninety");
    reveal_strlit("negative");
    reveal_strlit("point");
    lemma_plain_bytes("ninety"@);
    lemma_plain_bytes("negative"@);
    lemma_plain_bytes("point"@);
    reveal_with_fuel(count, 12);
    lemma_letters_tell("ninety"@, "negative"@, letters('g', 'a', 'v'), 3);
    lemma_letters_tell("ninety"@, "point"@, pair('p', 'o'), 2);
}

/// "hundred" is without the letters g, a and v, of which "negative" has three,
/// and too long for "point".
proof fn lemma_hundred()
    ensures
        is_readable("hundred"@) && rank("hundred"@) == 29,
{
    reveal_strlit("hundred");
    reveal_strlit("negative");
    reveal_strlit("point");
    lemma_plain_bytes("hundred"@);
    lemma_plain_bytes("negative"@);
    reveal_with_fuel(count, 12);
    lemma_letters_tell("hundred"@, "negative"@, letters('g', 'a', 'v'), 3);
    lemma_length_tells("hundred"@, "point"@, 2);
}

/// "thousand" is without the letters g, i and v, of which "negative" has
/// three, and too long for "point".
proof fn lemma_thousand()
    ensures
        is_readable("thousand"@) && rank("thousand"@) == 30,
{
    reveal_strlit("thousand");
    reveal_strlit("negative");
    reveal_strlit("point");
    lemma_plain_bytes("thousand"@);
    lemma_plain_bytes("negative"@);
    reveal_with_fuel(count, 12);
    lemma_letters_tell("thousand"@, "negative"@, letters('g', 'i', 'v'), 3);
    lemma_length_tells("thousand"@, "point"@, 2);
}

/// "million" is without the letters g, a and v, of which "negative" has three,
/// and too long for "point".
proof fn lemma_million()
    ensures
        is_readable("million"@) && rank("million"@) == 31,
{
    reveal_strlit("million");
    reveal_strlit("negative");
    reveal_strlit("point");
    lemma_plain_bytes("million"@);
    lemma_plain_bytes("negative"@);
    reveal_with_fuel(count, 12);
    lemma_letters_tell("million"@, "negative"@, letters('g', 'a', 'v'), 3);
    lemma_length_tells("million"@, "point"@, 2);
}

/// "billion" is without the letters g, a and v, of which "negative" has three,
/// and too long for "point".
proof fn lemma_billion()
    ensures
        is_readable("billion"@) && rank("billion"@) == 32,
{
    reveal_strlit("billion");
    reveal_strlit("negative");
    reveal_strlit("point");
    lemma_plain_bytes("billion"@);
    lemma_plain_bytes("negative"@);
    reveal_with_fuel(count, 12);
    lemma_letters_tell("billion"@, "negative"@, letters('g', 'a', 'v'), 3);
    lemma_length_tells("billion"@, "point"@, 2);
}

/// "trillion" is without the letters g, a and v, of which "negative" has
/// three, and too long for "point".
proof fn lemma_trillion()
    ensures
        is_readable("trillion"@) && rank("trillion"@) == 33,
{
    reveal_strlit("trillion");
    reveal_strlit("negative");
    reveal_strlit("point");
    lemma_plain_bytes("trillion"@);
    lemma_plain_bytes("negative"@);
    reveal_with_fuel(count, 12);
    lemma_letters_tell("trillion"@, "negative"@, letters('g', 'a', 'v'), 3);
    lemma_length_tells("trillion"@, "point"@, 2);
}

/// "quadrillion" is too long for "negative", and too long for "point".
proof fn lemma_quadrillion()
    ensures
        is_readable("quadrillion"@) && rank("quadrillion"@) == 34,
{
    reveal_strlit("quadrillion");
    reveal_strlit("negative");
    reveal_strlit("point");
    lemma_length_tells("quadrillion"@, "negative"@, 3);
    lemma_length_tells("quadrillion"@, "point"@, 2);
}

/// "eighteen" is too long for "point". It is no negation: it ends in another
/// letter than "negative", and whichever of them gives its last letter up,
/// three more edits are needed.
proof fn lemma_eighteen()
    ensures
        is_readable("eighteen"@) && rank("eighteen"@) == 19,
{
    reveal_strlit("eighteen");
    reveal_strlit("negative");
    reveal_strlit("point");
    lemma_plain_bytes("eighteen"@);
    lemma_plain_bytes("negative"@);
    lemma_length_tells("eighteen"@, "point"@, 2);
    let word = encode_utf8("eighteen"@);
    let negative = negative_bytes();
    let nav = letters('n', 'a', 'v');
    let eh = pair('e', 'h');
    reveal_with_fuel(count, 12);
    assert(count(negative, nav) == 3);
    assert(count(word.drop_last(), nav) == 0);
    assert(count(negative.drop_last(), nav) == 3);
    assert(count(word, eh) == 4);
    assert(count(negative.drop_last(), eh) == 1);
    lemma_distance_at_least_count_gap(word.drop_last(), negative, nav);
    lemma_distance_at_least_count_gap(word, negative.drop_last(), eh);
    lemma_distance_at_least_count_gap(word.drop_last(), negative.drop_last(), nav);
    assert(word.last() != negative.last());
}

/// The English lexicon is well formed and legible, and none of its words is
/// within one edit of "point".
pub proof fn lemma_english_is_legible()
    ensures
        english_words().wf(),
        is_legible(english_words()),
        keeps_point_apart(english_words()),
{
    let w = english_words();
    let all = w.vocabulary();
    reveal_strlit("");
    lemma_and();
    lemma_zero();
    lemma_one();
    lemma_two();
    lemma_three();
    lemma_four();
    lemma_five();
    lemma_six();
    lemma_seven();
    lemma_eight();
    lemma_nine();
    lemma_ten();
    lemma_eleven();
    lemma_twelve();
    lemma_thirteen();
    lemma_fourteen();
    lemma_fifteen();
    lemma_sixteen();
    lemma_seventeen();
    lemma_eighteen();
    lemma_nineteen();
    lemma_twenty();
    lemma_thirty();
    lemma_forty();
    lemma_fifty();
    lemma_sixty();
    lemma_seventy();
    lemma_eighty();
    lemma_ninety();
    lemma_hundred();
    lemma_thousand();
    lemma_million();
    lemma_billion();
    lemma_trillion();
    lemma_quadrillion();
    assert forall|k: int| 0 <= k < all.len() implies is_readable(#[trigger] all[k]) && rank(all[k])
        == k by {
        if k == 0 {
        } else if k <= 20 {
            assert(all[k] == w.units[k - 1]);
        } else if k <= 28 {
            assert(all[k] == w.tens[k - 19]);
        } else {
            assert(all[k] == w.scales[k - 29]);
        }
    }
    assert forall|i: int, j: int| 0 <= i < j < all.len() implies #[trigger] all[i]
        != #[trigger] all[j] by {
        assert(rank(all[i]) == i);
        assert(rank(all[j]) == j);
    }
}

/// Round trip: the English name of a number is read back as that number,
/// which is in range unless it is below `-isize::MAX`.
pub proof fn lemma_english_round_trip(n: int)
    requires
        -name_limit() < n < name_limit(),
    ensures
        parse_integer(english_words(), encode_utf8(spelled(english_words(), n))) == Ok::<
            int,
            Seq<char>,
        >(n),
        -isize::MAX <= n <= isize::MAX ==> bounded(
            parse_integer(english_words(), encode_utf8(spelled(english_words(), n))),
        ) == Ok::<int, Seq<char>>(n),
{
    lemma_english_is_legible();
    lemma_round_trip(english_words(), n);
}

/// Idempotent correction: an English phrase names what it names once every
/// token is replaced by the word that it is read as, and replacing them
/// again changes nothing.
pub proof fn lemma_english_correction_is_idempotent(phrase: Seq<u8>)
    ensures
        parse_integer(english_words(), canonicalize(english_words(), phrase)) == parse_integer(
            english_words(),
            phrase,
        ),
        canonicalize(english_words(), canonicalize(english_words(), phrase)) == canonicalize(
            english_words(),
            phrase,
        ),
{
    lemma_english_is_legible();
    lemma_correction_is_idempotent(english_words(), phrase);
}

/// The English name of a number has no space at either end and no two spaces
/// in a row.
pub proof fn lemma_english_name_is_tidy(n: int)
    requires
        -name_limit() < n < name_limit(),
    ensures
        is_tidy(spelled(english_words(), n)),
        spelled(english_words(), n).len() > 0,
{
    lemma_english_is_legible();
    lemma_name_is_tidy(english_words(), n);
}

/// Decimal round trip: the English name of an integer part and digits after
/// the point is read back as that integer part and those digits.
pub proof fn lemma_english_decimal_round_trip(head: int, places: Seq<u8>)
    requires
        -name_limit() < head < name_limit(),
        forall|i: int| 0 <= i < places.len() ==> places[i] <= 9,
    ensures
        parse_decimal(
            english_words(),
            encode_utf8(join(decimal_words(english_words(), head, places))),
        ) == Ok::<(int, Seq<u8>), Seq<char>>((head, places)),
{
    lemma_english_is_legible();
    lemma_decimal_round_trip(english_words(), head, places);
}

} // verus!

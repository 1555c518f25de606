//! What holds of the conversions taken together.

use crate::decimal::decimal_words;
use crate::decimal::digit;
use crate::decimal::digit_words;
use crate::decimal::digits;
use crate::decimal::has_misspelt_point;
use crate::decimal::lemma_first_point;
use crate::decimal::parse_decimal;
use crate::decimal::point_bytes;
use crate::distance::edit_distance;
use crate::distance::lemma_distance_at_least_length_gap;
use crate::distance::lemma_distance_to_self;
use crate::distance::lemma_distance_zero;
use crate::format::below_hundred;
use crate::format::below_thousand;
use crate::format::group_words;
use crate::format::join;
use crate::format::magnitude;
use crate::format::name_limit;
use crate::format::number_words;
use crate::format::spelled;
use crate::lexicon::effect;
use crate::lexicon::lemma_ten_to_increases;
use crate::lexicon::lemma_ten_to_thousand;
use crate::lexicon::scale_power;
use crate::lexicon::ten_to;
use crate::lexicon::Words;
use crate::matcher::encoded;
use crate::matcher::find_match;
use crate::matcher::lemma_exact_match;
use crate::matcher::lemma_nearest_is_first_least;
use crate::matcher::nearest;
use crate::matcher::negative_bytes;
use crate::parse::is_negation;
use crate::parse::last_index_of;
use crate::parse::parse_integer;
use crate::parse::parse_tokens;
use crate::parse::read;
use crate::parse::step;
use crate::parse::Accumulator;
use crate::plain::all_plain;
use crate::plain::is_plain;
use crate::plain::is_tidy;
use crate::plain::lemma_joined_is_tidy;
use crate::plain::lemma_plain_bytes;
use crate::plain::lemma_plain_bytes_differ;
use crate::plain::lemma_tokens_of_joined;
use crate::text::is_clean;
use crate::text::lemma_tokens_are_clean;
use crate::text::lemma_tokens_of_phrase;
use crate::text::phrase_of;
use crate::text::tokens;
use vstd::prelude::*;
use vstd::utf8::encode_utf8;

verus! {

/// A lexicon whose names can be read back: its first scale is "hundred",
/// its words are plain, no two are spelled alike, and none is taken for a
/// negation.
pub open spec fn is_legible(w: Words) -> bool {
    let all = w.vocabulary();
    &&& w.scales[0] == "hundred"@
    &&& forall|k: int| 0 <= k < all.len() ==> is_plain(#[trigger] all[k])
    &&& forall|i: int, j: int| 0 <= i < j < all.len() ==> #[trigger] all[i] != #[trigger] all[j]
    &&& forall|k: int| 0 <= k < all.len() ==> !is_negation(encode_utf8(#[trigger] all[k]))
}

/// Where a word stands once in a list, that place is the last at which it
/// stands.
proof fn lemma_last_index_of_single(words: Seq<Seq<u8>>, k: int)
    requires
        0 <= k < words.len(),
        forall|j: int| 0 <= j < words.len() && j != k ==> #[trigger] words[j] != words[k],
    ensures
        last_index_of(words, words[k]) == k,
    decreases words.len(),
{
    if words.len() - 1 != k {
        let front = words.drop_last();
        assert(words.last() == words[words.len() - 1]);
        assert(front[k] == words[k]);
        assert forall|j: int| 0 <= j < front.len() && j != k implies #[trigger] front[j]
            != front[k] by {
            assert(front[j] == words[j]);
        }
        lemma_last_index_of_single(front, k);
    }
}

/// In a legible lexicon a token that is a word of it is read as that word.
proof fn lemma_step_exact_word(w: Words, acc: Accumulator, k: int, first: bool)
    requires
        w.wf(),
        is_legible(w),
        0 <= k < w.vocabulary().len(),
    ensures
        step(w, acc, encoded(w.vocabulary())[k], first) == Ok::<Accumulator, Seq<char>>(
            acc.apply(effect(k).0, effect(k).1),
        ),
{
    let all = w.vocabulary();
    let bytes = encoded(all);
    assert(!is_negation(encode_utf8(all[k])));
    lemma_exact_match(bytes[k], all, k);
    assert forall|j: int| 0 <= j < bytes.len() && j != k implies #[trigger] bytes[j]
        != bytes[k] by {
        assert(is_plain(all[j]));
        assert(is_plain(all[k]));
        if j < k {
            assert(all[j] != all[k]);
        } else {
            assert(all[k] != all[j]);
        }
        lemma_plain_bytes_differ(all[j], all[k]);
    }
    lemma_last_index_of_single(bytes, k);
}

/// The state after words that are read one after another.
proof fn lemma_read_push(w: Words, tokens: Seq<Seq<u8>>, token: Seq<u8>)
    ensures
        read(w, tokens.push(token)) == match read(w, tokens) {
            Ok(acc) => step(w, acc, token, tokens.len() == 0),
            Err(message) => Err(message),
        },
{
    assert(tokens.push(token).drop_last() =~= tokens);
}

/// Reading one more word of a legible lexicon applies its effect.
proof fn lemma_read_word(w: Words, tokens: Seq<Seq<u8>>, acc: Accumulator, k: int)
    requires
        w.wf(),
        is_legible(w),
        0 <= k < w.vocabulary().len(),
        read(w, tokens) == Ok::<Accumulator, Seq<char>>(acc),
    ensures
        read(w, tokens.push(encoded(w.vocabulary())[k])) == Ok::<Accumulator, Seq<char>>(
            acc.apply(effect(k).0, effect(k).1),
        ),
{
    lemma_read_push(w, tokens, encoded(w.vocabulary())[k]);
    lemma_step_exact_word(w, acc, k, tokens.len() == 0);
}

/// The bytes of words written in two parts are the bytes of the parts.
proof fn lemma_encoded_concat(a: Seq<Seq<char>>, b: Seq<Seq<char>>)
    ensures
        encoded(a + b) == encoded(a) + encoded(b),
{
    assert(encoded(a + b) =~= encoded(a) + encoded(b));
}

/// A word that multiplies by one adds its increment to the group.
proof fn lemma_apply_increment(acc: Accumulator, increment: int)
    ensures
        acc.apply(1, increment) == (Accumulator {
            current: acc.current + increment,
            result: acc.result,
            negative: acc.negative,
        }),
{
    assert(acc.current * 1 == acc.current) by (nonlinear_arith);
}

/// Reading the words for a number below a hundred adds it to the group.
proof fn lemma_read_below_hundred(w: Words, tokens: Seq<Seq<u8>>, acc: Accumulator, n: int)
    requires
        w.wf(),
        is_legible(w),
        0 <= n < 100,
        read(w, tokens) == Ok::<Accumulator, Seq<char>>(acc),
    ensures
        read(w, tokens + encoded(below_hundred(w, n))) == Ok::<Accumulator, Seq<char>>(
            Accumulator { current: acc.current + n, result: acc.result, negative: acc.negative },
        ),
{
    let all = w.vocabulary();
    let bytes = encoded(all);
    let words = below_hundred(w, n);
    if n == 0 {
        assert(tokens + encoded(words) =~= tokens);
    } else if n < 20 {
        assert(all[n + 1] == w.units[n]);
        assert(tokens + encoded(words) =~= tokens.push(bytes[n + 1]));
        lemma_read_word(w, tokens, acc, n + 1);
        assert(effect(n + 1) == (1int, n));
        lemma_apply_increment(acc, n);
    } else {
        let t = n / 10;
        let u = n % 10;
        assert(all[t + 19] == w.tens[t]);
        lemma_read_word(w, tokens, acc, t + 19);
        assert(effect(t + 19) == (1int, t * 10));
        let acc1 = acc.apply(1, t * 10);
        lemma_apply_increment(acc, t * 10);
        if u == 0 {
            assert(tokens + encoded(words) =~= tokens.push(bytes[t + 19]));
        } else {
            assert(all[u + 1] == w.units[u]);
            assert(tokens + encoded(words) =~= tokens.push(bytes[t + 19]).push(bytes[u + 1]));
            lemma_read_word(w, tokens.push(bytes[t + 19]), acc1, u + 1);
            assert(effect(u + 1) == (1int, u));
            lemma_apply_increment(acc1, u);
        }
    }
}

/// Reading the words for a number below a thousand into an empty group
/// leaves that number in the group.
proof fn lemma_read_below_thousand(w: Words, tokens: Seq<Seq<u8>>, acc: Accumulator, n: int)
    requires
        w.wf(),
        is_legible(w),
        0 <= n < 1000,
        acc.current == 0,
        read(w, tokens) == Ok::<Accumulator, Seq<char>>(acc),
    ensures
        read(w, tokens + encoded(below_thousand(w, n))) == Ok::<Accumulator, Seq<char>>(
            Accumulator { current: n, result: acc.result, negative: acc.negative },
        ),
{
    let all = w.vocabulary();
    let bytes = encoded(all);
    if n < 100 {
        lemma_read_below_hundred(w, tokens, acc, n);
    } else {
        let h = n / 100;
        assert(all[h + 1] == w.units[h]);
        assert(all[29] == w.scales[0]);
        lemma_read_word(w, tokens, acc, h + 1);
        let one = tokens.push(bytes[h + 1]);
        assert(effect(h + 1) == (1int, h));
        let acc1 = acc.apply(1, h);
        lemma_apply_increment(acc, h);
        lemma_read_word(w, one, acc1, 29);
        let two = one.push(bytes[29]);
        assert(effect(29) == (100int, 0int)) by {
            reveal_with_fuel(ten_to, 3);
        }
        let acc2 = acc1.apply(100, 0);
        assert(acc2.current == h * 100);
        lemma_read_below_hundred(w, two, acc2, n % 100);
        lemma_encoded_concat(seq![w.units[h], "hundred"@], below_hundred(w, n % 100));
        assert(encoded(seq![w.units[h], "hundred"@]) =~= seq![bytes[h + 1], bytes[29]]);
        assert(tokens + encoded(below_thousand(w, n)) =~= two + encoded(
            below_hundred(w, n % 100),
        ));
    }
}

/// Reading the words of one group of three digits into an empty group: the
/// last group stays open, any other is closed with its scale.
proof fn lemma_read_group(
    w: Words,
    tokens: Seq<Seq<u8>>,
    acc: Accumulator,
    part: int,
    group: int,
)
    requires
        w.wf(),
        is_legible(w),
        0 <= part < 1000,
        0 <= group <= 5,
        acc.current == 0,
        read(w, tokens) == Ok::<Accumulator, Seq<char>>(acc),
    ensures
        read(w, tokens + encoded(group_words(w, part, group))) == Ok::<Accumulator, Seq<char>>(
            if group == 0 {
                Accumulator { current: part, result: acc.result, negative: acc.negative }
            } else {
                Accumulator {
                    current: 0,
                    result: acc.result + part * ten_to((3 * group) as nat),
                    negative: acc.negative,
                }
            },
        ),
{
    let all = w.vocabulary();
    let bytes = encoded(all);
    if part == 0 {
        assert(tokens + encoded(group_words(w, part, group)) =~= tokens);
    } else if group == 0 {
        lemma_read_below_thousand(w, tokens, acc, part);
    } else {
        lemma_read_below_thousand(w, tokens, acc, part);
        let inner = tokens + encoded(below_thousand(w, part));
        let acc1 = Accumulator { current: part, result: acc.result, negative: acc.negative };
        assert(all[group + 29] == w.scales[group]);
        lemma_read_word(w, inner, acc1, group + 29);
        assert(scale_power(group as nat) == 3 * group);
        let scale = ten_to((3 * group) as nat) as int;
        assert(effect(group + 29) == (scale, 0int));
        assert(scale >= 1000) by {
            lemma_ten_to_increases(3, (3 * group) as nat);
            reveal_with_fuel(ten_to, 4);
        }
        assert(acc1.apply(scale, 0).result == acc.result + part * scale);
        lemma_encoded_concat(below_thousand(w, part), seq![w.scales[group]]);
        assert(below_thousand(w, part).push(w.scales[group]) =~= below_thousand(w, part)
            + seq![w.scales[group]]);
        assert(encoded(seq![w.scales[group]]) =~= seq![bytes[group + 29]]);
        assert(tokens + encoded(group_words(w, part, group)) =~= inner.push(bytes[group + 29]));
    }
}

/// Reading the words for a magnitude into an empty group adds it to the
/// total, and leaves the group empty unless the last group of digits was
/// read.
proof fn lemma_read_magnitude(
    w: Words,
    tokens: Seq<Seq<u8>>,
    acc: Accumulator,
    n: nat,
    group: int,
)
    requires
        w.wf(),
        is_legible(w),
        0 <= group <= 6,
        n * ten_to((3 * group) as nat) < name_limit(),
        acc.current == 0,
        read(w, tokens) == Ok::<Accumulator, Seq<char>>(acc),
    ensures
        read(w, tokens + encoded(magnitude(w, n, group))) matches Ok(after) && {
            &&& after.total() == acc.result + n * ten_to((3 * group) as nat)
            &&& after.negative == acc.negative
            &&& group > 0 ==> after.current == 0
        },
    decreases n,
{
    let unit = ten_to((3 * group) as nat);
    if n == 0 {
        assert(tokens + encoded(magnitude(w, n, group)) =~= tokens);
        assert(n * unit == 0) by (nonlinear_arith)
            requires
                n == 0,
        ;
    } else {
        let high = n / 1000;
        let part = (n % 1000) as int;
        lemma_ten_to_thousand((3 * group) as nat);
        let above = ten_to((3 * (group + 1)) as nat);
        assert(above == 1000 * unit);
        assert(unit >= 1) by {
            lemma_ten_to_increases(0, (3 * group) as nat);
        }
        assert(high * above + part * unit == n * unit) by (nonlinear_arith)
            requires
                above == 1000 * unit,
                high == n / 1000,
                part == n % 1000,
        ;
        assert(high * above <= n * unit) by (nonlinear_arith)
            requires
                high * above + part * unit == n * unit,
                part >= 0,
                unit >= 1,
        ;
        assert(group <= 5) by {
            if group == 6 {
                reveal_with_fuel(ten_to, 19);
                assert(unit == name_limit());
                assert(n * unit >= unit) by (nonlinear_arith)
                    requires
                        n >= 1,
                        unit >= 1,
                ;
            }
        }
        lemma_read_magnitude(w, tokens, acc, high, group + 1);
        let inner = tokens + encoded(magnitude(w, high, group + 1));
        let middle = read(w, inner)->Ok_0;
        lemma_read_group(w, inner, middle, part, group);
        assert(group == 0 ==> part * unit == part) by (nonlinear_arith)
            requires
                group == 0 ==> unit == 1,
        ;
        lemma_encoded_concat(magnitude(w, high, group + 1), group_words(w, part, group));
        assert(tokens + encoded(magnitude(w, n, group)) =~= inner + encoded(
            group_words(w, part, group),
        ));
    }
}

/// Whether every word of a list is a word of the vocabulary or "negative".
pub open spec fn all_known(w: Words, words: Seq<Seq<char>>) -> bool {
    forall|i: int|
        0 <= i < words.len() ==> #[trigger] words[i] == "negative"@ || w.vocabulary().contains(
            words[i],
        )
}

/// Lists of known words make a list of known words.
proof fn lemma_all_known_concat(w: Words, a: Seq<Seq<char>>, b: Seq<Seq<char>>)
    requires
        all_known(w, a),
        all_known(w, b),
    ensures
        all_known(w, a + b),
{
    assert forall|i: int| 0 <= i < (a + b).len() implies #[trigger] (a + b)[i] == "negative"@
        || w.vocabulary().contains((a + b)[i]) by {
        if i < a.len() {
            assert((a + b)[i] == a[i]);
        } else {
            assert((a + b)[i] == b[i - a.len()]);
        }
    }
}

/// The words for one group of digits are words of the vocabulary, where
/// that has the word "hundred".
proof fn lemma_group_words_known(w: Words, part: int, group: int)
    requires
        w.wf(),
        w.scales[0] == "hundred"@,
        0 <= part < 1000,
        0 <= group <= 5,
    ensures
        all_known(w, group_words(w, part, group)),
{
    let all = w.vocabulary();
    assert forall|i: int| 0 <= i < 20 implies all.contains(#[trigger] w.units[i]) by {
        assert(all[i + 1] == w.units[i]);
    }
    assert forall|i: int| 2 <= i < 10 implies all.contains(#[trigger] w.tens[i]) by {
        assert(all[i + 19] == w.tens[i]);
    }
    assert forall|i: int| 0 <= i < 6 implies all.contains(#[trigger] w.scales[i]) by {
        assert(all[i + 29] == w.scales[i]);
    }
    let rest = part % 100;
    assert(all_known(w, below_hundred(w, rest))) by {
        if rest >= 20 {
            assert(all.contains(w.tens[rest / 10]));
        }
        if rest > 0 {
            assert(all.contains(w.units[rest % 10]));
            assert(all.contains(w.units[rest]) || rest >= 20);
        }
    }
    assert(all_known(w, below_thousand(w, part))) by {
        if part >= 100 {
            let lead = seq![w.units[part / 100], "hundred"@];
            assert(all.contains(w.units[part / 100]));
            assert(all.contains(w.scales[0]));
            assert(all_known(w, lead));
            lemma_all_known_concat(w, lead, below_hundred(w, rest));
        }
    }
    if part != 0 && group > 0 {
        assert(all.contains(w.scales[group]));
        assert(all_known(w, seq![w.scales[group]]));
        lemma_all_known_concat(w, below_thousand(w, part), seq![w.scales[group]]);
        assert(below_thousand(w, part).push(w.scales[group]) =~= below_thousand(w, part)
            + seq![w.scales[group]]);
    }
}

/// The words for a magnitude are words of the vocabulary, where that has the
/// word "hundred".
proof fn lemma_magnitude_known(w: Words, n: nat, group: int)
    requires
        w.wf(),
        w.scales[0] == "hundred"@,
        0 <= group <= 6,
        n * ten_to((3 * group) as nat) < name_limit(),
    ensures
        all_known(w, magnitude(w, n, group)),
    decreases n,
{
    if n != 0 {
        let unit = ten_to((3 * group) as nat);
        let high = n / 1000;
        let part = (n % 1000) as int;
        lemma_ten_to_thousand((3 * group) as nat);
        let above = ten_to((3 * (group + 1)) as nat);
        assert(unit >= 1) by {
            lemma_ten_to_increases(0, (3 * group) as nat);
        }
        assert(high * above <= n * unit) by (nonlinear_arith)
            requires
                above == 1000 * unit,
                high == n / 1000,
                unit >= 1,
        ;
        assert(group <= 5) by {
            if group == 6 {
                reveal_with_fuel(ten_to, 19);
                assert(unit == name_limit());
                assert(n * unit >= unit) by (nonlinear_arith)
                    requires
                        n >= 1,
                        unit >= 1,
                ;
            }
        }
        lemma_magnitude_known(w, high, group + 1);
        lemma_group_words_known(w, part, group);
        lemma_all_known_concat(w, magnitude(w, high, group + 1), group_words(w, part, group));
    }
}

/// The words that name a number are words of the vocabulary or "negative",
/// where the vocabulary has the word "hundred".
pub proof fn lemma_number_words_known(w: Words, n: int)
    requires
        w.wf(),
        w.scales[0] == "hundred"@,
        -name_limit() < n < name_limit(),
    ensures
        all_known(w, number_words(w, n)),
{
    let all = w.vocabulary();
    assert(ten_to(0) == 1);
    if n == 0 {
        assert(all[1] == w.units[0]);
    } else {
        let size = (if n < 0 { -n } else { n }) as nat;
        assert(size * ten_to(0) == size) by (nonlinear_arith)
            requires
                ten_to(0) == 1,
        ;
        lemma_magnitude_known(w, size, 0);
        if n < 0 {
            assert(all_known(w, seq!["negative"@]));
            lemma_all_known_concat(w, seq!["negative"@], magnitude(w, size, 0));
        }
    }
}

/// The word "negative" is plain, and is a negation.
proof fn lemma_negative_word()
    ensures
        is_plain("negative"@),
        is_negation(negative_bytes()),
{
    reveal_strlit("negative");
    lemma_distance_to_self(negative_bytes());
}

/// In a legible lexicon the words that name a number, taken as tokens, name
/// that number.
pub proof fn lemma_number_words_read(w: Words, n: int)
    requires
        w.wf(),
        is_legible(w),
        -name_limit() < n < name_limit(),
    ensures
        parse_tokens(w, encoded(number_words(w, n))) == Ok::<int, Seq<char>>(n),
{
    let bytes = encoded(w.vocabulary());
    let words = number_words(w, n);
    let none = Seq::<Seq<u8>>::empty();
    let start = Accumulator::start();
    lemma_negative_word();
    assert(ten_to(0) == 1);
    if n == 0 {
        assert(w.vocabulary()[1] == w.units[0]);
        assert(encoded(words) =~= none.push(bytes[1]));
        lemma_read_word(w, none, start, 1);
        assert(effect(1) == (1int, 0int));
        lemma_apply_increment(start, 0);
    } else if n > 0 {
        assert(n * ten_to(0) == n) by (nonlinear_arith)
            requires
                ten_to(0) == 1,
        ;
        lemma_read_magnitude(w, none, start, n as nat, 0);
        assert(none + encoded(words) =~= encoded(words));
    } else {
        let size = (-n) as nat;
        assert(size * ten_to(0) == size) by (nonlinear_arith)
            requires
                ten_to(0) == 1,
        ;
        let sign = none.push(negative_bytes());
        lemma_read_push(w, none, negative_bytes());
        let marked = Accumulator { current: 0, result: 0, negative: true };
        assert(read(w, sign) == Ok::<Accumulator, Seq<char>>(marked));
        lemma_read_magnitude(w, sign, marked, size, 0);
        lemma_encoded_concat(seq!["negative"@], magnitude(w, size, 0));
        assert(encoded(seq!["negative"@]) =~= sign);
    }
}

/// Round trip: in a legible lexicon the name of a number is read back as
/// that number.
pub proof fn lemma_round_trip(w: Words, n: int)
    requires
        w.wf(),
        is_legible(w),
        -name_limit() < n < name_limit(),
    ensures
        parse_integer(w, encode_utf8(spelled(w, n))) == Ok::<int, Seq<char>>(n),
{
    lemma_number_words_plain(w, n);
    lemma_tokens_of_joined(number_words(w, n));
    lemma_number_words_read(w, n);
}

/// Zero: the name of zero is "zero" in every lexicon.
pub proof fn lemma_zero(w: Words)
    ensures
        spelled(w, 0) == "zero"@,
{
}

/// A phrase that starts with one more word starts with that word and a
/// space.
proof fn lemma_join_first(word: Seq<char>, rest: Seq<Seq<char>>)
    requires
        rest.len() > 0,
    ensures
        join(seq![word] + rest) == word + seq![' '] + join(rest),
    decreases rest.len(),
{
    let whole = seq![word] + rest;
    let front = rest.drop_last();
    assert(whole.drop_last() =~= seq![word] + front);
    assert(whole.last() == rest.last());
    if front.len() == 0 {
        assert(seq![word] + front =~= seq![word]);
        assert(join(seq![word]) == word);
        assert(join(rest) == rest.last());
        assert(join(whole) =~= word + seq![' '] + join(rest));
    } else {
        lemma_join_first(word, front);
        assert(join(whole) =~= word + seq![' '] + join(rest));
    }
}

/// A number above zero has a word.
proof fn lemma_magnitude_has_words(w: Words, n: nat, group: int)
    requires
        n > 0,
    ensures
        magnitude(w, n, group).len() > 0,
    decreases n,
{
    if n % 1000 == 0 {
        lemma_magnitude_has_words(w, n / 1000, group + 1);
    }
}

/// Sign symmetry: the name of a number below zero is "negative", a space,
/// and the name of the number without its sign.
pub proof fn lemma_sign_symmetry(w: Words, n: int)
    requires
        n > 0,
    ensures
        spelled(w, -n) == "negative "@ + spelled(w, n),
{
    lemma_magnitude_has_words(w, n as nat, 0);
    lemma_join_first("negative"@, magnitude(w, n as nat, 0));
    reveal_strlit("negative");
    reveal_strlit("negative ");
    assert("negative "@ =~= "negative"@ + seq![' ']);
}

/// The word that a token is read as: "negative" for a negation, the
/// matching word of the lexicon where there is one, and else the token as it
/// is.
pub open spec fn corrected(w: Words, token: Seq<u8>) -> Seq<u8> {
    if is_negation(token) {
        negative_bytes()
    } else {
        match find_match(token, w.vocabulary()) {
            Ok(k) => encoded(w.vocabulary())[k],
            Err(_) => token,
        }
    }
}

/// Each token replaced by the word that it is read as.
pub open spec fn corrected_tokens(w: Words, tokens: Seq<Seq<u8>>) -> Seq<Seq<u8>> {
    Seq::new(tokens.len(), |i: int| corrected(w, tokens[i]))
}

/// A phrase with each token replaced by the word that it is read as, and one
/// space between neighbours.
pub open spec fn canonicalize(w: Words, phrase: Seq<u8>) -> Seq<u8> {
    phrase_of(corrected_tokens(w, tokens(phrase)))
}

/// A token and the word that it is read as do the same to the number read
/// so far, where no word of the lexicon is taken for a negation.
proof fn lemma_step_corrected(w: Words, acc: Accumulator, token: Seq<u8>, first: bool)
    requires
        forall|k: int|
            0 <= k < w.vocabulary().len() ==> !is_negation(#[trigger] encoded(w.vocabulary())[k]),
    ensures
        step(w, acc, corrected(w, token), first) == step(w, acc, token, first),
{
    let all = w.vocabulary();
    let bytes = encoded(all);
    lemma_negative_word();
    if !is_negation(token) {
        lemma_nearest_is_first_least(token, bytes);
        if let Ok(k) = find_match(token, all) {
            let word = bytes[k];
            assert(!is_negation(bytes[k]));
            lemma_nearest_is_first_least(word, bytes);
            let again = nearest(word, bytes);
            lemma_distance_to_self(word);
            assert(edit_distance(bytes[again], word) <= edit_distance(bytes[k], word));
            lemma_distance_zero(bytes[again], word);
        }
    }
}

/// A corrected token is corrected to itself, where no word of the lexicon is
/// taken for a negation.
pub proof fn lemma_corrected_twice(w: Words, token: Seq<u8>)
    requires
        forall|k: int|
            0 <= k < w.vocabulary().len() ==> !is_negation(#[trigger] encoded(w.vocabulary())[k]),
    ensures
        corrected(w, corrected(w, token)) == corrected(w, token),
{
    let all = w.vocabulary();
    let bytes = encoded(all);
    lemma_negative_word();
    if !is_negation(token) {
        lemma_nearest_is_first_least(token, bytes);
        if let Ok(k) = find_match(token, all) {
            let word = bytes[k];
            assert(!is_negation(bytes[k]));
            lemma_nearest_is_first_least(word, bytes);
            let again = nearest(word, bytes);
            lemma_distance_to_self(word);
            assert(edit_distance(bytes[again], word) <= edit_distance(bytes[k], word));
            lemma_distance_zero(bytes[again], word);
        }
    }
}

/// Correcting every token does not change what the tokens name.
pub proof fn lemma_corrected_tokens(w: Words, tokens: Seq<Seq<u8>>)
    requires
        forall|k: int|
            0 <= k < w.vocabulary().len() ==> !is_negation(#[trigger] encoded(w.vocabulary())[k]),
    ensures
        read(w, corrected_tokens(w, tokens)) == read(w, tokens),
        parse_tokens(w, corrected_tokens(w, tokens)) == parse_tokens(w, tokens),
    decreases tokens.len(),
{
    if tokens.len() > 0 {
        let front = tokens.drop_last();
        lemma_corrected_tokens(w, front);
        assert(corrected_tokens(w, tokens).drop_last() =~= corrected_tokens(w, front));
        assert(corrected_tokens(w, tokens).last() == corrected(w, tokens.last()));
        if let Ok(acc) = read(w, front) {
            lemma_step_corrected(w, acc, tokens.last(), tokens.len() == 1);
        }
    }
}

/// Idempotent correction: in a legible lexicon a phrase names what it names
/// once every token is replaced by the word that it is read as.
pub proof fn lemma_correction_is_idempotent(w: Words, phrase: Seq<u8>)
    requires
        w.wf(),
        is_legible(w),
    ensures
        parse_integer(w, canonicalize(w, phrase)) == parse_integer(w, phrase),
        canonicalize(w, canonicalize(w, phrase)) == canonicalize(w, phrase),
{
    let all = w.vocabulary();
    let bytes = encoded(all);
    let before = tokens(phrase);
    let after = corrected_tokens(w, before);
    lemma_negative_word();
    lemma_plain_bytes("negative"@);
    lemma_tokens_are_clean(phrase);
    assert forall|k: int| 0 <= k < all.len() implies !is_negation(#[trigger] bytes[k])
        && is_clean(bytes[k]) by {
        assert(is_plain(all[k]));
        lemma_plain_bytes(all[k]);
    }
    assert forall|i: int| 0 <= i < after.len() implies is_clean(#[trigger] after[i]) by {
        let token = before[i];
        assert(is_clean(token));
        if !is_negation(token) {
            lemma_nearest_is_first_least(token, bytes);
            if let Ok(k) = find_match(token, all) {
                assert(is_clean(bytes[k]));
            }
        }
    }
    lemma_tokens_of_phrase(after);
    lemma_corrected_tokens(w, before);
    assert(corrected_tokens(w, after) =~= after) by {
        assert forall|i: int| 0 <= i < after.len() implies corrected(w, after[i]) == after[i] by {
            lemma_corrected_twice(w, before[i]);
        }
    }
}

/// The words that name a number are plain in a legible lexicon.
pub proof fn lemma_number_words_plain(w: Words, n: int)
    requires
        w.wf(),
        is_legible(w),
        -name_limit() < n < name_limit(),
    ensures
        all_plain(number_words(w, n)),
{
    let all = w.vocabulary();
    let words = number_words(w, n);
    lemma_number_words_known(w, n);
    lemma_negative_word();
    assert forall|i: int| 0 <= i < words.len() implies is_plain(#[trigger] words[i]) by {
        if words[i] != "negative"@ {
            let k = choose|k: int| 0 <= k < all.len() && all[k] == words[i];
            assert(is_plain(all[k]));
        }
    }
}

/// In a legible lexicon the name of a number has no space at either end and
/// no two spaces in a row.
pub proof fn lemma_name_is_tidy(w: Words, n: int)
    requires
        w.wf(),
        is_legible(w),
        -name_limit() < n < name_limit(),
    ensures
        is_tidy(spelled(w, n)),
        spelled(w, n).len() > 0,
{
    lemma_number_words_plain(w, n);
    lemma_joined_is_tidy(number_words(w, n));
    if n != 0 {
        lemma_magnitude_has_words(w, (if n < 0 { -n } else { n }) as nat, 0);
    }
}

/// A lexicon of which no word is within one edit of "point".
pub open spec fn keeps_point_apart(w: Words) -> bool {
    forall|k: int|
        0 <= k < w.vocabulary().len() ==> edit_distance(
            encode_utf8(#[trigger] w.vocabulary()[k]),
            point_bytes(),
        ) >= 2
}

/// In a legible lexicon the digit words, taken as tokens, name their digits.
proof fn lemma_digit_words_read(w: Words, places: Seq<u8>)
    requires
        w.wf(),
        is_legible(w),
        forall|i: int| 0 <= i < places.len() ==> places[i] <= 9,
    ensures
        digits(w, encoded(digit_words(w, places))) == Ok::<Seq<u8>, Seq<char>>(places),
    decreases places.len(),
{
    let tail = encoded(digit_words(w, places));
    if places.len() == 0 {
        assert(places =~= Seq::<u8>::empty());
    } else {
        let front = places.drop_last();
        let d = places.last() as int;
        lemma_digit_words_read(w, front);
        assert(tail.drop_last() =~= encoded(digit_words(w, front)));
        let bytes = encoded(w.vocabulary());
        assert(w.vocabulary()[d + 1] == w.units[d]);
        assert(tail.last() == bytes[d + 1]);
        let none = Seq::<Seq<u8>>::empty();
        lemma_read_word(w, none, Accumulator::start(), d + 1);
        assert(none.push(bytes[d + 1]) =~= seq![bytes[d + 1]]);
        assert(effect(d + 1) == (1int, d));
        lemma_apply_increment(Accumulator::start(), d);
        assert(digit(w, tail.last()) == Ok::<u8, Seq<char>>(places.last()));
        assert(front.push(places.last()) =~= places);
    }
}

/// Decimal round trip: in a legible lexicon of which no word is within one
/// edit of "point", the name of an integer part and digits after the point is
/// read back as that integer part and those digits.
pub proof fn lemma_decimal_round_trip(w: Words, head: int, places: Seq<u8>)
    requires
        w.wf(),
        is_legible(w),
        keeps_point_apart(w),
        -name_limit() < head < name_limit(),
        forall|i: int| 0 <= i < places.len() ==> places[i] <= 9,
    ensures
        parse_decimal(w, encode_utf8(join(decimal_words(w, head, places)))) == Ok::<
            (int, Seq<u8>),
            Seq<char>,
        >((head, places)),
{
    let all = w.vocabulary();
    let lead = number_words(w, head);
    let tail = digit_words(w, places);
    let words = decimal_words(w, head, places);
    let read = encoded(words);
    let p = lead.len() as int;
    reveal_strlit("point");
    reveal_strlit("negative");
    lemma_plain_bytes("point"@);
    lemma_plain_bytes("negative"@);
    lemma_distance_at_least_length_gap(negative_bytes(), point_bytes());
    lemma_distance_to_self(point_bytes());
    lemma_number_words_known(w, head);
    lemma_number_words_plain(w, head);
    assert forall|i: int| 0 <= i < tail.len() implies all.contains(#[trigger] tail[i]) by {
        assert(all[places[i] + 1] == w.units[places[i] as int]);
    }
    // Every word is "point", "negative" or a word of the vocabulary.
    assert forall|i: int| 0 <= i < words.len() implies is_plain(#[trigger] words[i]) && (i != p
        ==> edit_distance(encode_utf8(words[i]), point_bytes()) >= 2) by {
        let word = words[i];
        if i < p {
            assert(word == lead[i]);
        } else if i > p {
            assert(word == tail[i - p - 1]);
        }
        if i != p && word != "negative"@ {
            let k = choose|k: int| 0 <= k < all.len() && all[k] == word;
            assert(is_plain(all[k]));
        }
    }
    lemma_tokens_of_joined(words);
    assert(read[p] == point_bytes());
    assert(!has_misspelt_point(read)) by {
        assert forall|i: int| 0 <= i < read.len() implies edit_distance(
            #[trigger] read[i],
            point_bytes(),
        ) != 1 by {
            assert(read[i] == encode_utf8(words[i]));
        }
    }
    assert forall|j: int| 0 <= j < p implies #[trigger] read[j] != point_bytes() by {
        assert(read[j] == encode_utf8(words[j]));
    }
    lemma_first_point(read, p);
    assert(read.take(p) =~= encoded(lead));
    assert(read.skip(p + 1) =~= encoded(tail));
    lemma_number_words_read(w, head);
    lemma_digit_words_read(w, places);
}

} // verus!

//! From the name of an integer to the integer.

use crate::distance::bytes_distance;
use crate::distance::edit_distance;
use crate::lexicon::effect;
use crate::lexicon::lemma_ten_to_increases;
use crate::lexicon::scale_power;
use crate::lexicon::str_views;
use crate::lexicon::ten_to;
use crate::lexicon::Lexicon;
use crate::lexicon::Words;
use crate::matcher::encoded;
use crate::matcher::find_match;
use crate::matcher::match_token;
use crate::matcher::negative_bytes;
use crate::text::same_bytes;
use crate::text::tokenize;
use crate::text::tokens;
use crate::text::views;
use vstd::prelude::*;
use vstd::utf8::encode_utf8;

verus! {

/// The last index at which `word` stands in `words`, or -1 if it stands at
/// none.
pub open spec fn last_index_of(words: Seq<Seq<u8>>, word: Seq<u8>) -> int
    decreases words.len(),
{
    if words.len() == 0 {
        -1
    } else if words.last() == word {
        words.len() - 1
    } else {
        last_index_of(words.drop_last(), word)
    }
}

/// What the vocabulary word at index `k` does, as a multiplier and an
/// increment. Where a lexicon spells two of its words alike, the later one
/// decides.
pub open spec fn word_effect(w: Words, k: int) -> (int, int) {
    let all = encoded(w.vocabulary());
    effect(last_index_of(all, all[k]))
}

/// Whether a token marks a negative number: it is less than three edits from
/// "negative".
pub open spec fn is_negation(token: Seq<u8>) -> bool {
    edit_distance(token, negative_bytes()) < 3
}

/// The state of reading a phrase.
pub struct Accumulator {
    /// What has been read since the last scale word above "hundred".
    pub current: int,
    /// What the scale words above "hundred" have closed.
    pub result: int,
    /// Whether the phrase began with a negation.
    pub negative: bool,
}

impl Accumulator {
    /// The state before the first token.
    pub open spec fn start() -> Accumulator {
        Accumulator { current: 0, result: 0, negative: false }
    }

    /// The magnitude read so far.
    pub open spec fn total(self) -> int {
        self.result + self.current
    }

    /// The number read so far.
    pub open spec fn value(self) -> int {
        if self.negative {
            -self.total()
        } else {
            self.total()
        }
    }

    /// The state after one more word, which multiplies by `scale` and adds
    /// `increment`: a scale above a hundred closes the group.
    pub open spec fn apply(self, scale: int, increment: int) -> Accumulator {
        let current = self.current * scale + increment;
        if scale > 100 {
            Accumulator { current: 0, result: self.result + current, negative: self.negative }
        } else {
            Accumulator { current, result: self.result, negative: self.negative }
        }
    }
}

/// The state after one more token, or the message with which the token is
/// refused. A negation is accepted as the first token only.
pub open spec fn step(w: Words, acc: Accumulator, token: Seq<u8>, first: bool) -> Result<
    Accumulator,
    Seq<char>,
> {
    if is_negation(token) {
        if first {
            Ok(Accumulator { current: acc.current, result: acc.result, negative: true })
        } else {
            Err("Invalid input"@)
        }
    } else {
        match find_match(token, w.vocabulary()) {
            Ok(k) => Ok(acc.apply(word_effect(w, k).0, word_effect(w, k).1)),
            Err(message) => Err(message),
        }
    }
}

/// The state after all of `tokens`, or the message of the first one refused.
pub open spec fn read(w: Words, tokens: Seq<Seq<u8>>) -> Result<Accumulator, Seq<char>>
    decreases tokens.len(),
{
    if tokens.len() == 0 {
        Ok(Accumulator::start())
    } else {
        match read(w, tokens.drop_last()) {
            Ok(acc) => step(w, acc, tokens.last(), tokens.len() == 1),
            Err(message) => Err(message),
        }
    }
}

/// The number that `tokens` name, or the message of the first one refused.
pub open spec fn parse_tokens(w: Words, tokens: Seq<Seq<u8>>) -> Result<int, Seq<char>> {
    match read(w, tokens) {
        Ok(acc) => Ok(acc.value()),
        Err(message) => Err(message),
    }
}

/// The number that a phrase names, or the message with which it is refused.
pub open spec fn parse_integer(w: Words, phrase: Seq<u8>) -> Result<int, Seq<char>> {
    parse_tokens(w, tokens(phrase))
}

/// An answer cut to the machine's integers: a number larger in magnitude
/// than `isize::MAX` gives way to a message.
pub open spec fn bounded(answer: Result<int, Seq<char>>) -> Result<int, Seq<char>> {
    match answer {
        Ok(v) => if -isize::MAX <= v <= isize::MAX {
            Ok(v)
        } else {
            Err("Number out of range"@)
        },
        Err(message) => Err(message),
    }
}

/// The power of ten of the scale word at index `num`.
pub fn get_power(num: usize) -> (r: u32)
    requires
        num < 6,
    ensures
        r == scale_power(num as nat),
{
    if num == 0 {
        2
    } else {
        (num * 3) as u32
    }
}

/// Ten to the power `power`.
pub fn power_of_ten(power: u32) -> (r: u64)
    requires
        power <= 15,
    ensures
        r == ten_to(power as nat),
        1 <= r <= 1_000_000_000_000_000,
{
    let mut r: u64 = 1;
    let mut k: u32 = 0;
    proof {
        reveal_with_fuel(ten_to, 16);
        assert(ten_to(15) == 1_000_000_000_000_000);
        lemma_ten_to_increases(0, 15);
    }
    while k < power
        invariant
            k <= power <= 15,
            r == ten_to(k as nat),
            ten_to(15) == 1_000_000_000_000_000,
        decreases power - k,
    {
        proof {
            lemma_ten_to_increases((k + 1) as nat, 15);
        }
        r = r * 10;
        k += 1;
    }
    proof {
        lemma_ten_to_increases(power as nat, 15);
    }
    r
}

/// The multiplier and the increment of the vocabulary word at index `k`.
pub fn effect_at(k: usize) -> (r: (u64, u64))
    requires
        k < 35,
    ensures
        r.0 == effect(k as int).0,
        r.1 == effect(k as int).1,
        1 <= r.0 <= 1_000_000_000_000_000,
        r.1 <= 90,
{
    if k == 0 {
        (1, 0)
    } else if k <= 20 {
        (1, (k - 1) as u64)
    } else if k <= 28 {
        (1, ((k - 19) * 10) as u64)
    } else {
        (power_of_ten(get_power(k - 29)), 0)
    }
}

/// The last index at which `words` has the word that it has at index `k`.
pub fn last_spelled(words: &Vec<&str>, k: usize) -> (r: usize)
    requires
        k < words@.len(),
    ensures
        k <= r < words@.len(),
        r == last_index_of(encoded(str_views(words@)), encoded(str_views(words@))[k as int]),
{
    let ghost all = encoded(str_views(words@));
    let ghost word = all[k as int];
    let mut j: usize = words.len();
    proof {
        assert(all.take(j as int) =~= all);
    }
    loop
        invariant
            k < j <= words@.len(),
            all == encoded(str_views(words@)),
            word == all[k as int],
            last_index_of(all, word) == last_index_of(all.take(j as int), word),
        decreases j,
    {
        j -= 1;
        proof {
            assert(all.take(j + 1).drop_last() =~= all.take(j as int));
            assert(all.take(j + 1).last() == all[j as int]);
        }
        if same_bytes(words[j].as_bytes(), words[k].as_bytes()) {
            return j;
        }
    }
}

impl Lexicon {
    /// The integer that `text` names in the words of this lexicon, or the
    /// message with which it is refused.
    pub fn parse(&self, text: &str) -> (r: Result<isize, String>)
        ensures
            match bounded(parse_integer(self@, encode_utf8(text@))) {
                Ok(v) => r matches Ok(n) && n == v,
                Err(message) => r matches Err(e) && e@ == message,
            },
    {
        let tokens = tokenize(text.as_bytes());
        self.parse_words(&tokens)
    }

    /// The integer that the tokens name in the words of this lexicon, or the
    /// message with which they are refused.
    pub fn parse_words(&self, tokens: &Vec<Vec<u8>>) -> (r: Result<isize, String>)
        ensures
            match bounded(parse_tokens(self@, views(tokens@))) {
                Ok(v) => r matches Ok(n) && n == v,
                Err(message) => r matches Err(e) && e@ == message,
            },
    {
        proof {
            assert(views(tokens@).subrange(0, tokens@.len() as int) =~= views(tokens@));
        }
        self.parse_range(tokens, 0, tokens.len())
    }

    /// The integer that the tokens from index `from` up to `to` name in the
    /// words of this lexicon, or the message with which they are refused.
    pub fn parse_range(&self, tokens: &Vec<Vec<u8>>, from: usize, to: usize) -> (r: Result<
        isize,
        String,
    >)
        requires
            from <= to <= tokens@.len(),
        ensures
            match bounded(parse_tokens(self@, views(tokens@).subrange(from as int, to as int))) {
                Ok(v) => r matches Ok(n) && n == v,
                Err(message) => r matches Err(e) && e@ == message,
            },
    {
        let ghost w = self@;
        let ghost all = views(tokens@).subrange(from as int, to as int);
        let words = self.vocabulary();
        let limit: u128 = isize::MAX as u128;
        let mut current: u128 = 0;
        let mut result: u128 = 0;
        let mut negative = false;
        let mut fits = true;
        let ghost mut acc = Accumulator::start();
        let mut i: usize = from;
        proof {
            assert(all.take(0) =~= Seq::<Seq<u8>>::empty());
        }
        while i < to
            invariant
                from <= i <= to <= tokens@.len(),
                w == self@,
                w.wf(),
                all == views(tokens@).subrange(from as int, to as int),
                str_views(words@) == w.vocabulary(),
                limit == isize::MAX,
                read(w, all.take(i - from)) == Ok::<Accumulator, Seq<char>>(acc),
                acc.negative == negative,
                acc.current >= 0,
                acc.result >= 0,
                fits ==> current == acc.current && result == acc.result,
                fits ==> current <= limit && result <= limit,
                !fits ==> acc.total() > limit,
            decreases to - i,
        {
            let token = tokens[i].as_slice();
            proof {
                assert(all.take(i - from + 1).drop_last() =~= all.take(i - from));
                assert(all.take(i - from + 1).last() == token@);
            }
            if bytes_distance(token, "negative".as_bytes()) < 3 {
                if i == from {
                    negative = true;
                    proof {
                        acc = Accumulator {
                            current: acc.current,
                            result: acc.result,
                            negative: true,
                        };
                    }
                } else {
                    proof {
                        lemma_read_stays_refused(w, all, i - from + 1);
                    }
                    return Err("Invalid input".to_owned());
                }
            } else {
                match match_token(token, &words) {
                    Err(message) => {
                        proof {
                            lemma_read_stays_refused(w, all, i - from + 1);
                        }
                        return Err(message);
                    },
                    Ok(k) => {
                        assert(w.vocabulary().len() == 35);
                        let (scale, increment) = effect_at(last_spelled(&words, k));
                        let ghost before = acc;
                        proof {
                            acc = before.apply(scale as int, increment as int);
                            assert(before.current * scale >= before.current) by (nonlinear_arith)
                                requires
                                    before.current >= 0,
                                    scale >= 1,
                            ;
                            assert(acc.total() >= before.total());
                        }
                        if fits {
                            assert(current * scale <= limit * 1_000_000_000_000_000)
                                by (nonlinear_arith)
                                requires
                                    0 <= current <= limit,
                                    1 <= scale <= 1_000_000_000_000_000,
                            ;
                            let next: u128 = current * (scale as u128) + (increment as u128);
                            if scale > 100 {
                                if result + next > limit {
                                    fits = false;
                                } else {
                                    result = result + next;
                                    current = 0;
                                }
                            } else {
                                if next > limit {
                                    fits = false;
                                } else {
                                    current = next;
                                }
                            }
                        }
                    },
                }
            }
            i += 1;
        }
        proof {
            assert(all.take(i - from) =~= all);
        }
        if !fits || result + current > limit {
            return Err("Number out of range".to_owned());
        }
        let total: isize = (result + current) as isize;
        if negative {
            Ok(-total)
        } else {
            Ok(total)
        }
    }
}

/// Once a token has been refused, the phrase is refused with its message,
/// whatever follows.
proof fn lemma_read_stays_refused(w: Words, tokens: Seq<Seq<u8>>, n: int)
    requires
        0 <= n <= tokens.len(),
        read(w, tokens.take(n)) is Err,
    ensures
        read(w, tokens) == read(w, tokens.take(n)),
    decreases tokens.len(),
{
    if n < tokens.len() {
        assert(tokens.drop_last().take(n) =~= tokens.take(n));
        lemma_read_stays_refused(w, tokens.drop_last(), n);
    } else {
        assert(tokens.take(n) =~= tokens);
    }
}

} // verus!

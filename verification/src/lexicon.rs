//! The number words and the arithmetic role of each.

use vstd::prelude::*;

verus! {

/// The character strings that a sequence of strings holds.
pub open spec fn strs(v: Seq<String>) -> Seq<Seq<char>> {
    Seq::new(v.len(), |i: int| v[i]@)
}

/// The character strings that a sequence of string slices holds.
pub open spec fn str_views(v: Seq<&str>) -> Seq<Seq<char>> {
    Seq::new(v.len(), |i: int| v[i]@)
}

/// Ten to the power `e`.
pub open spec fn ten_to(e: nat) -> nat
    decreases e,
{
    if e == 0 {
        1
    } else {
        10 * ten_to((e - 1) as nat)
    }
}

/// The power of ten that the scale word at `index` stands for: two for the
/// first, "hundred", and three more for each one after "thousand".
pub open spec fn scale_power(index: nat) -> nat {
    if index == 0 {
        2
    } else {
        index * 3
    }
}

/// The number that the scale word at `index` multiplies by.
pub open spec fn scale_multiplier(index: nat) -> nat {
    ten_to(scale_power(index))
}

/// A larger power of ten is a larger number.
pub proof fn lemma_ten_to_increases(a: nat, b: nat)
    requires
        a <= b,
    ensures
        1 <= ten_to(a) <= ten_to(b),
    decreases b,
{
    if a < b {
        lemma_ten_to_increases(a, (b - 1) as nat);
    } else if a > 0 {
        lemma_ten_to_increases((a - 1) as nat, (a - 1) as nat);
    }
}

/// A thousand times a power of ten is the power three higher.
pub proof fn lemma_ten_to_thousand(e: nat)
    ensures
        ten_to(e + 3) == 1000 * ten_to(e),
{
    reveal_with_fuel(ten_to, 4);
}

/// The scales grow: "hundred" is a hundred, "thousand" a thousand, and every
/// later scale a thousand times the one before it.
pub proof fn lemma_scales_grow(index: nat)
    ensures
        scale_multiplier(0) == 100,
        scale_multiplier(1) == 1000,
        index >= 1 ==> scale_multiplier(index + 1) == 1000 * scale_multiplier(index),
        scale_multiplier(index) < scale_multiplier(index + 1),
{
    reveal_with_fuel(ten_to, 4);
    if index >= 1 {
        assert(scale_power(index + 1) == scale_power(index) + 3);
    }
    lemma_ten_to_increases(0, scale_power(index));
}

/// The word lists of a lexicon, as mathematical sequences.
pub struct Words {
    /// The names of zero to nineteen, each at its own index.
    pub units: Seq<Seq<char>>,
    /// The names of the multiples of ten, that of `10 * i` at index `i`;
    /// the first two places are unused.
    pub tens: Seq<Seq<char>>,
    /// The scale words, "hundred" first, then "thousand" and its successors.
    pub scales: Seq<Seq<char>>,
}

impl Words {
    /// Twenty units of which the first is "zero", ten tens of which the first
    /// two are empty, and six scales.
    pub open spec fn wf(self) -> bool {
        &&& self.units.len() == 20
        &&& self.tens.len() == 10
        &&& self.scales.len() == 6
        &&& self.units[0] == "zero"@
        &&& self.tens[0].len() == 0
        &&& self.tens[1].len() == 0
    }

    /// Every word that a phrase may use, in the order in which a token is
    /// compared with them: "and", the units, the tens from twenty on, the
    /// scales.
    pub open spec fn vocabulary(self) -> Seq<Seq<char>> {
        seq!["and"@] + self.units + self.tens.skip(2) + self.scales
    }
}

/// What the vocabulary word at index `k` does to the number read so far, as
/// a multiplier and an increment: "and" does nothing, a unit or a ten adds
/// its value, a scale multiplies.
pub open spec fn effect(k: int) -> (int, int) {
    if k <= 0 {
        (1, 0)
    } else if k <= 20 {
        (1, k - 1)
    } else if k <= 28 {
        (1, (k - 19) * 10)
    } else {
        (scale_multiplier((k - 29) as nat) as int, 0)
    }
}

/// The English word lists.
pub open spec fn english_words() -> Words {
    Words {
        units: seq![
            "zero"@,
            "one"@,
            "two"@,
            "three"@,
            "four"@,
            "five"@,
            "six"@,
            "seven"@,
            "eight"@,
            "nine"@,
            "ten"@,
            "eleven"@,
            "twelve"@,
            "thirteen"@,
            "fourteen"@,
            "fifteen"@,
            "sixteen"@,
            "seventeen"@,
            "eighteen"@,
            "nineteen"@,
        ],
        tens: seq![
            ""@,
            ""@,
            "twenty"@,
            "thirty"@,
            "forty"@,
            "fifty"@,
            "sixty"@,
            "seventy"@,
            "eighty"@,
            "ninety"@,
        ],
        scales: seq![
            "hundred"@,
            "thousand"@,
            "million"@,
            "billion"@,
            "trillion"@,
            "quadrillion"@,
        ],
    }
}

/// A lexicon: the unit, ten and scale words that numbers are named with.
/// It cannot be changed once made.
#[derive(Debug)]
pub struct Lexicon {
    units: Vec<String>,
    tens: Vec<String>,
    scales: Vec<String>,
}

impl View for Lexicon {
    type V = Words;

    closed spec fn view(&self) -> Words {
        Words { units: strs(self.units@), tens: strs(self.tens@), scales: strs(self.scales@) }
    }
}

/// Appends a copy of `word` to `list`.
fn push_word(list: &mut Vec<String>, word: &str)
    ensures
        strs(final(list)@) == strs(old(list)@).push(word@),
{
    list.push(word.to_owned());
    assert(strs(list@) =~= strs(old(list)@).push(word@));
}

impl Lexicon {
    /// Every lexicon holds well-formed word lists.
    #[verifier::type_invariant]
    pub open spec fn valid(self) -> bool {
        self@.wf()
    }

    /// The lexicon of the given word lists, if there are twenty units of which
    /// the first is "zero", ten tens of which the first two are empty, and six
    /// scales.
    pub fn new(units: Vec<String>, tens: Vec<String>, scales: Vec<String>) -> (r: Option<Lexicon>)
        ensures
            match r {
                Some(lexicon) => lexicon@ == (Words {
                    units: strs(units@),
                    tens: strs(tens@),
                    scales: strs(scales@),
                }) && lexicon@.wf(),
                None => !(Words {
                    units: strs(units@),
                    tens: strs(tens@),
                    scales: strs(scales@),
                }).wf(),
            },
    {
        if units.len() != 20 || tens.len() != 10 || scales.len() != 6 {
            return None;
        }
        let zero = "zero".to_owned();
        if units[0] != zero {
            return None;
        }
        if !tens[0].as_str().is_empty() || !tens[1].as_str().is_empty() {
            return None;
        }
        Some(Lexicon { units, tens, scales })
    }

    /// The name of the unit `i`.
    pub fn unit(&self, i: usize) -> (r: &str)
        requires
            i < 20,
        ensures
            self@.wf(),
            r@ == self@.units[i as int],
    {
        proof {
            use_type_invariant(self);
        }
        self.units[i].as_str()
    }

    /// The name of ten times `i`.
    pub fn ten(&self, i: usize) -> (r: &str)
        requires
            i < 10,
        ensures
            self@.wf(),
            r@ == self@.tens[i as int],
    {
        proof {
            use_type_invariant(self);
        }
        self.tens[i].as_str()
    }

    /// The scale word at index `i`.
    pub fn scale(&self, i: usize) -> (r: &str)
        requires
            i < 6,
        ensures
            self@.wf(),
            r@ == self@.scales[i as int],
    {
        proof {
            use_type_invariant(self);
        }
        self.scales[i].as_str()
    }

    /// Every word that a phrase may use, in the order of `Words::vocabulary`.
    pub fn vocabulary(&self) -> (r: Vec<&str>)
        ensures
            self@.wf(),
            str_views(r@) == self@.vocabulary(),
    {
        proof {
            use_type_invariant(self);
        }
        let ghost w = self@;
        let mut all: Vec<&str> = Vec::new();
        all.push("and");
        let mut i: usize = 0;
        while i < 20
            invariant
                i <= 20,
                self.units@.len() == 20,
                w == self@,
                str_views(all@) == seq!["and"@] + w.units.take(i as int),
            decreases 20 - i,
        {
            let ghost before = str_views(all@);
            all.push(self.units[i].as_str());
            proof {
                assert(str_views(all@) =~= before.push(w.units[i as int]));
                assert(w.units.take(i + 1) =~= w.units.take(i as int).push(w.units[i as int]));
                assert(str_views(all@) =~= seq!["and"@] + w.units.take(i + 1));
            }
            i += 1;
        }
        let mut i: usize = 2;
        while i < 10
            invariant
                2 <= i <= 10,
                self.tens@.len() == 10,
                w == self@,
                w.units.len() == 20,
                str_views(all@) == seq!["and"@] + w.units + w.tens.subrange(2, i as int),
            decreases 10 - i,
        {
            let ghost before = str_views(all@);
            all.push(self.tens[i].as_str());
            proof {
                assert(str_views(all@) =~= before.push(w.tens[i as int]));
                assert(w.tens.subrange(2, i + 1) =~= w.tens.subrange(2, i as int).push(
                    w.tens[i as int],
                ));
                assert(str_views(all@) =~= seq!["and"@] + w.units + w.tens.subrange(2, i + 1));
            }
            i += 1;
        }
        let mut i: usize = 0;
        while i < 6
            invariant
                i <= 6,
                self.scales@.len() == 6,
                w == self@,
                w.units.len() == 20,
                w.tens.len() == 10,
                str_views(all@) == seq!["and"@] + w.units + w.tens.skip(2) + w.scales.take(
                    i as int,
                ),
            decreases 6 - i,
        {
            let ghost before = str_views(all@);
            all.push(self.scales[i].as_str());
            proof {
                assert(str_views(all@) =~= before.push(w.scales[i as int]));
                assert(w.scales.take(i + 1) =~= w.scales.take(i as int).push(w.scales[i as int]));
                assert(str_views(all@) =~= seq!["and"@] + w.units + w.tens.skip(2)
                    + w.scales.take(i + 1));
            }
            i += 1;
        }
        proof {
            assert(w.scales.take(6) =~= w.scales);
        }
        all
    }

    /// The English lexicon.
    pub fn english() -> (r: Lexicon)
        ensures
            r@ == english_words(),
    {
        let mut units: Vec<String> = Vec::new();
        push_word(&mut units, "zero");
        push_word(&mut units, "one");
        push_word(&mut units, "two");
        push_word(&mut units, "three");
        push_word(&mut units, "four");
        push_word(&mut units, "five");
        push_word(&mut units, "six");
        push_word(&mut units, "seven");
        push_word(&mut units, "eight");
        push_word(&mut units, "nine");
        push_word(&mut units, "ten");
        push_word(&mut units, "eleven");
        push_word(&mut units, "twelve");
        push_word(&mut units, "thirteen");
        push_word(&mut units, "fourteen");
        push_word(&mut units, "fifteen");
        push_word(&mut units, "sixteen");
        push_word(&mut units, "seventeen");
        push_word(&mut units, "eighteen");
        push_word(&mut units, "nineteen");
        let mut tens: Vec<String> = Vec::new();
        push_word(&mut tens, "");
        push_word(&mut tens, "");
        push_word(&mut tens, "twenty");
        push_word(&mut tens, "thirty");
        push_word(&mut tens, "forty");
        push_word(&mut tens, "fifty");
        push_word(&mut tens, "sixty");
        push_word(&mut tens, "seventy");
        push_word(&mut tens, "eighty");
        push_word(&mut tens, "ninety");
        let mut scales: Vec<String> = Vec::new();
        push_word(&mut scales, "hundred");
        push_word(&mut scales, "thousand");
        push_word(&mut scales, "million");
        push_word(&mut scales, "billion");
        push_word(&mut scales, "trillion");
        push_word(&mut scales, "quadrillion");
        proof {
            reveal_strlit("");
            assert(strs(units@) =~= english_words().units);
            assert(strs(tens@) =~= english_words().tens);
            assert(strs(scales@) =~= english_words().scales);
        }
        Lexicon { units, tens, scales }
    }
}

} // verus!

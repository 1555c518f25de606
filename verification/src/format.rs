//! From an integer to its name.

use crate::lexicon::lemma_ten_to_thousand;
use crate::lexicon::ten_to;
use crate::lexicon::Lexicon;
use crate::lexicon::Words;
use vstd::prelude::*;
use vstd::string::StringExecFns;

verus! {

/// The words of a phrase written out with one space between neighbours.
pub open spec fn join(words: Seq<Seq<char>>) -> Seq<char>
    decreases words.len(),
{
    if words.len() == 0 {
        Seq::empty()
    } else if words.len() == 1 {
        words[0]
    } else {
        join(words.drop_last()) + seq![' '] + words.last()
    }
}

/// The words for a number from 0 to 99; none for 0.
pub open spec fn below_hundred(w: Words, n: int) -> Seq<Seq<char>> {
    if n <= 0 {
        Seq::empty()
    } else if n < 20 {
        seq![w.units[n]]
    } else if n % 10 == 0 {
        seq![w.tens[n / 10]]
    } else {
        seq![w.tens[n / 10], w.units[n % 10]]
    }
}

/// The words for a number from 0 to 999; none for 0.
pub open spec fn below_thousand(w: Words, n: int) -> Seq<Seq<char>> {
    if n < 100 {
        below_hundred(w, n)
    } else {
        seq![w.units[n / 100], "hundred"@] + below_hundred(w, n % 100)
    }
}

/// The words for one group of three digits, `part`, that stands `group`
/// groups from the right: none if the group is zero, else its own words and,
/// left of the last group, its scale word.
pub open spec fn group_words(w: Words, part: int, group: int) -> Seq<Seq<char>> {
    if part == 0 {
        Seq::empty()
    } else if group == 0 {
        below_thousand(w, part)
    } else {
        below_thousand(w, part).push(w.scales[group])
    }
}

/// The words for `n`, whose last three digits stand `group` groups from the
/// right: the most significant group comes first.
pub open spec fn magnitude(w: Words, n: nat, group: int) -> Seq<Seq<char>>
    decreases n,
{
    if n == 0 {
        Seq::empty()
    } else {
        magnitude(w, n / 1000, group + 1) + group_words(w, (n % 1000) as int, group)
    }
}

/// The words that name the integer `n`.
pub open spec fn number_words(w: Words, n: int) -> Seq<Seq<char>> {
    if n == 0 {
        seq!["zero"@]
    } else if n < 0 {
        seq!["negative"@] + magnitude(w, (-n) as nat, 0)
    } else {
        magnitude(w, n as nat, 0)
    }
}

/// The name of the integer `n`.
pub open spec fn spelled(w: Words, n: int) -> Seq<char> {
    join(number_words(w, n))
}

/// The largest magnitude that has a name, and one more: a thousand to the
/// power of the number of scale words.
pub open spec fn name_limit() -> int {
    1_000_000_000_000_000_000
}

/// A phrase under construction: the text written so far and the words it
/// is made of.
pub struct Sentence {
    text: String,
    started: bool,
    words: Ghost<Seq<Seq<char>>>,
}

impl Sentence {
    /// The text is the words joined, and `started` tells whether there is one.
    pub closed spec fn wf(&self) -> bool {
        &&& self.text@ == join(self.words@)
        &&& self.started == (self.words@.len() > 0)
    }

    /// The words written so far.
    pub closed spec fn words(&self) -> Seq<Seq<char>> {
        self.words@
    }

    /// A phrase without words.
    pub fn new() -> (r: Sentence)
        ensures
            r.wf(),
            r.words() == Seq::<Seq<char>>::empty(),
    {
        Sentence { text: String::new(), started: false, words: Ghost(Seq::empty()) }
    }

    /// Writes one more word at the end.
    pub fn push(&mut self, word: &str)
        requires
            old(self).wf(),
        ensures
            final(self).wf(),
            final(self).words() == old(self).words().push(word@),
    {
        let ghost before = self.words@;
        let ghost after = before.push(word@);
        if self.started {
            self.text.append(" ");
            proof {
                reveal_strlit(" ");
                assert(" "@ =~= seq![' ']);
            }
        }
        self.text.append(word);
        self.started = true;
        self.words = Ghost(after);
        proof {
            assert(after.drop_last() =~= before);
            assert(after.last() == word@);
            if before.len() == 0 {
                assert(self.text@ =~= word@);
            }
        }
    }

    /// The finished text.
    pub fn finish(self) -> (r: String)
        requires
            self.wf(),
        ensures
            r@ == join(self.words()),
    {
        self.text
    }
}

/// Writes the words for `num`, a number below a thousand, at the end of
/// `out`: nothing for zero.
pub fn to_string_helper(num: usize, word_lists: &Lexicon, out: &mut Sentence)
    requires
        num < 1000,
        old(out).wf(),
    ensures
        final(out).wf(),
        final(out).words() == old(out).words() + below_thousand(word_lists@, num as int),
        word_lists@.wf(),
{
    let ghost w = word_lists@;
    let ghost before = out.words();
    proof {
        use_type_invariant(word_lists);
    }
    let hundreds: usize = num / 100;
    let rest: usize = num % 100;
    if hundreds > 0 {
        out.push(word_lists.unit(hundreds));
        out.push("hundred");
    }
    let ghost middle = out.words();
    if rest == 0 {
    } else if rest < 20 {
        out.push(word_lists.unit(rest));
    } else {
        out.push(word_lists.ten(rest / 10));
        if rest % 10 != 0 {
            out.push(word_lists.unit(rest % 10));
        }
    }
    proof {
        assert(out.words() =~= middle + below_hundred(w, rest as int));
        assert(out.words() =~= before + below_thousand(w, num as int));
    }
}

impl Lexicon {
    /// The name of `num` in the words of this lexicon.
    pub fn spell(&self, num: isize) -> (r: String)
        requires
            -name_limit() < num < name_limit(),
        ensures
            r@ == spelled(self@, num as int),
    {
        let mut out = Sentence::new();
        self.write_number(num, &mut out);
        out.finish()
    }

    /// Writes the words that name `num` at the end of `out`.
    pub fn write_number(&self, num: isize, out: &mut Sentence)
        requires
            -name_limit() < num < name_limit(),
            old(out).wf(),
        ensures
            final(out).wf(),
            final(out).words() == old(out).words() + number_words(self@, num as int),
    {
        let ghost w = self@;
        let ghost start = out.words();
        if num == 0 {
            out.push("zero");
            assert(out.words() =~= start + number_words(w, 0));
            return ;
        }
        let size: u64 = if num < 0 {
            out.push("negative");
            (-(num as i128)) as u64
        } else {
            num as u64
        };
        let ghost lead = out.words();
        // The groups of three digits, the least significant first.
        let mut groups: Vec<usize> = Vec::new();
        let ghost mut left: Seq<nat> = seq![size as nat];
        let mut rest: u64 = size;
        proof {
            reveal_with_fuel(ten_to, 19);
        }
        while rest > 0
            invariant
                groups@.len() <= 6,
                left.len() == groups@.len() + 1,
                left[0] == size,
                left.last() == rest,
                rest < ten_to((18 - 3 * groups@.len()) as nat),
                forall|k: int| 0 <= k < groups@.len() ==> left[k] > 0,
                forall|k: int| 0 <= k < groups@.len() ==> #[trigger] left[k + 1] == left[k] / 1000,
                forall|k: int| 0 <= k < groups@.len() ==> #[trigger] groups@[k] == left[k] % 1000,
            decreases rest,
        {
            proof {
                if groups@.len() == 6 {
                    assert(ten_to(0) == 1);
                } else {
                    lemma_ten_to_thousand((15 - 3 * groups@.len()) as nat);
                }
            }
            groups.push((rest % 1000) as usize);
            rest = rest / 1000;
            proof {
                left = left.push(rest as nat);
            }
        }
        let mut g: usize = groups.len();
        while g > 0
            invariant
                g <= groups@.len() <= 6,
                left.len() == groups@.len() + 1,
                forall|k: int| 0 <= k < groups@.len() ==> left[k] > 0,
                forall|k: int| 0 <= k < groups@.len() ==> #[trigger] left[k + 1] == left[k] / 1000,
                forall|k: int| 0 <= k < groups@.len() ==> #[trigger] groups@[k] == left[k] % 1000,
                left.last() == 0,
                w == self@,
                out.wf(),
                out.words() == lead + magnitude(w, left[g as int], g as int),
            decreases g,
        {
            let ghost above = magnitude(w, left[g as int], g as int);
            g -= 1;
            let ghost before = out.words();
            let part: usize = groups[g];
            proof {
                assert(left[g + 1] == left[g as int] / 1000);
                assert(part == left[g as int] % 1000);
            }
            if part != 0 {
                to_string_helper(part, self, out);
                if g > 0 {
                    out.push(self.scale(g));
                }
            }
            proof {
                assert(out.words() =~= before + group_words(w, part as int, g as int));
                assert(out.words() =~= lead + (above + group_words(w, part as int, g as int)));
            }
        }
        proof {
            assert(out.words() =~= start + number_words(w, num as int));
        }
    }
}

} // verus!

//! Phrases as bytes: case folding, splitting into words, joining words.
//!
//! Letters and spaces are those of ASCII. A byte above 0x7f is neither a
//! space nor a capital letter: it belongs to a word as it is.

use vstd::prelude::*;

verus! {

/// The bytes that separate words: the space and the ASCII control characters
/// from tab to carriage return.
pub open spec fn is_space(b: u8) -> bool {
    b == 0x20 || (0x09 <= b && b <= 0x0d)
}

/// An ASCII capital letter becomes its small letter; every other byte stays.
pub open spec fn fold_case(b: u8) -> u8 {
    if 0x41 <= b && b <= 0x5a {
        (b + 0x20) as u8
    } else {
        b
    }
}

/// A phrase with every byte case-folded.
pub open spec fn lowercase(s: Seq<u8>) -> Seq<u8> {
    Seq::new(s.len(), |i: int| fold_case(s[i]))
}

/// The words of a phrase: its maximal runs of bytes that are not spaces, in
/// order.
pub open spec fn split(s: Seq<u8>) -> Seq<Seq<u8>>
    decreases s.len(),
{
    if s.len() == 0 {
        Seq::empty()
    } else {
        let front = s.drop_last();
        let before = split(front);
        if is_space(s.last()) {
            before
        } else if front.len() > 0 && !is_space(front.last()) && before.len() > 0 {
            before.drop_last().push(before.last().push(s.last()))
        } else {
            before.push(seq![s.last()])
        }
    }
}

/// The tokens of a phrase: the words of its case-folded form.
pub open spec fn tokens(s: Seq<u8>) -> Seq<Seq<u8>> {
    split(lowercase(s))
}

/// The byte strings that a vector of byte vectors holds.
pub open spec fn views(v: Seq<Vec<u8>>) -> Seq<Seq<u8>> {
    Seq::new(v.len(), |i: int| v[i]@)
}

/// The words written out with one space between neighbours.
pub open spec fn phrase_of(words: Seq<Seq<u8>>) -> Seq<u8>
    decreases words.len(),
{
    if words.len() == 0 {
        Seq::empty()
    } else if words.len() == 1 {
        words[0]
    } else {
        phrase_of(words.drop_last()) + seq![0x20u8] + words.last()
    }
}

/// A word as tokens are: not empty, without a space, and case-folded.
pub open spec fn is_clean(word: Seq<u8>) -> bool {
    &&& word.len() > 0
    &&& forall|i: int| 0 <= i < word.len() ==> !is_space(#[trigger] word[i])
    &&& forall|i: int| 0 <= i < word.len() ==> fold_case(#[trigger] word[i]) == word[i]
}

/// A word that follows a space, or stands at the start, is a word of its own.
proof fn lemma_split_append_word(s: Seq<u8>, word: Seq<u8>)
    requires
        s.len() == 0 || is_space(s.last()),
        word.len() > 0,
        forall|i: int| 0 <= i < word.len() ==> !is_space(#[trigger] word[i]),
    ensures
        split(s + word) == split(s).push(word),
    decreases word.len(),
{
    let front = word.drop_last();
    let whole = s + word;
    assert(whole.drop_last() =~= s + front);
    assert(whole.last() == word.last());
    assert(!is_space(word[word.len() - 1]));
    if front.len() == 0 {
        assert(s + front =~= s);
        assert(seq![word.last()] =~= word);
    } else {
        assert forall|i: int| 0 <= i < front.len() implies !is_space(#[trigger] front[i]) by {
            assert(front[i] == word[i]);
        }
        lemma_split_append_word(s, front);
        assert((s + front).last() == front.last());
        assert(!is_space(front[front.len() - 1]));
        let before = split(s).push(front);
        assert(before.drop_last() =~= split(s));
        assert(before.last().push(word.last()) =~= word);
    }
}

/// Case folding goes through a concatenation.
proof fn lemma_lowercase_concat(a: Seq<u8>, b: Seq<u8>)
    ensures
        lowercase(a + b) == lowercase(a) + lowercase(b),
{
    assert(lowercase(a + b) =~= lowercase(a) + lowercase(b));
}

/// Clean words that are joined into a phrase come out of it again as its
/// tokens.
pub proof fn lemma_tokens_of_phrase(words: Seq<Seq<u8>>)
    requires
        forall|i: int| 0 <= i < words.len() ==> is_clean(#[trigger] words[i]),
    ensures
        lowercase(phrase_of(words)) == phrase_of(words),
        tokens(phrase_of(words)) == words,
    decreases words.len(),
{
    if words.len() == 0 {
        assert(lowercase(phrase_of(words)) =~= phrase_of(words));
        assert(split(phrase_of(words)) =~= words);
    } else {
        let last = words.last();
        assert(is_clean(words[words.len() - 1]));
        assert(lowercase(last) =~= last);
        if words.len() == 1 {
            lemma_split_append_word(Seq::empty(), last);
            assert(Seq::<u8>::empty() + last =~= last);
            assert(Seq::<Seq<u8>>::empty().push(last) =~= words);
        } else {
            let front = words.drop_last();
            assert forall|i: int| 0 <= i < front.len() implies is_clean(#[trigger] front[i]) by {
                assert(front[i] == words[i]);
            }
            lemma_tokens_of_phrase(front);
            let gap = seq![0x20u8];
            let head = phrase_of(front) + gap;
            assert(lowercase(gap) =~= gap);
            lemma_lowercase_concat(phrase_of(front), gap);
            lemma_lowercase_concat(head, last);
            assert(head.drop_last() =~= phrase_of(front));
            assert(split(head) == front);
            lemma_split_append_word(head, last);
            assert(front.push(last) =~= words);
        }
    }
}

/// Every word of a phrase is not empty and has no space, and holds no byte
/// that the phrase does not hold.
proof fn lemma_split_words(s: Seq<u8>)
    ensures
        forall|k: int|
            0 <= k < split(s).len() ==> (#[trigger] split(s)[k]).len() > 0 && forall|i: int|
                0 <= i < split(s)[k].len() ==> !is_space(#[trigger] split(s)[k][i]) && s.contains(
                    split(s)[k][i],
                ),
    decreases s.len(),
{
    if s.len() > 0 {
        let front = s.drop_last();
        let before = split(front);
        lemma_split_words(front);
        assert forall|b: u8| front.contains(b) implies s.contains(b) by {
            let i = choose|i: int| 0 <= i < front.len() && front[i] == b;
            assert(s[i] == b);
        }
        assert(s.contains(s.last())) by {
            assert(s[s.len() - 1] == s.last());
        }
        assert forall|k: int| 0 <= k < split(s).len() implies (#[trigger] split(s)[k]).len() > 0
            && forall|i: int|
            0 <= i < split(s)[k].len() ==> !is_space(#[trigger] split(s)[k][i]) && s.contains(
                split(s)[k][i],
            ) by {
            if k < before.len() && split(s)[k] == before[k] {
            } else {
                let word = split(s)[k];
                assert forall|i: int| 0 <= i < word.len() implies !is_space(#[trigger] word[i])
                    && s.contains(word[i]) by {
                    if i < word.len() - 1 {
                        assert(word[i] == before.last()[i]);
                    }
                }
            }
        }
    }
}

/// Every token of a phrase is clean.
pub proof fn lemma_tokens_are_clean(s: Seq<u8>)
    ensures
        forall|k: int| 0 <= k < tokens(s).len() ==> is_clean(#[trigger] tokens(s)[k]),
{
    let low = lowercase(s);
    lemma_split_words(low);
    assert forall|k: int| 0 <= k < tokens(s).len() implies is_clean(#[trigger] tokens(s)[k]) by {
        let word = split(low)[k];
        assert forall|i: int| 0 <= i < word.len() implies fold_case(#[trigger] word[i])
            == word[i] by {
            assert(low.contains(word[i]));
            let j = choose|j: int| 0 <= j < low.len() && low[j] == word[i];
            assert(low[j] == fold_case(s[j]));
        }
    }
}

/// Whether a byte separates words.
pub fn byte_is_space(b: u8) -> (r: bool)
    ensures
        r == is_space(b),
{
    b == 0x20 || (0x09 <= b && b <= 0x0d)
}

/// The case-folded form of a byte.
pub fn fold_byte(b: u8) -> (r: u8)
    ensures
        r == fold_case(b),
{
    if 0x41 <= b && b <= 0x5a {
        b + 0x20
    } else {
        b
    }
}

/// Whether two byte slices hold the same bytes.
pub fn same_bytes(a: &[u8], b: &[u8]) -> (r: bool)
    ensures
        r == (a@ == b@),
{
    if a.len() != b.len() {
        return false;
    }
    let mut i: usize = 0;
    while i < a.len()
        invariant
            i <= a.len(),
            a.len() == b.len(),
            forall|k: int| 0 <= k < i ==> a@[k] == b@[k],
        decreases a.len() - i,
    {
        if a[i] != b[i] {
            return false;
        }
        i += 1;
    }
    assert(a@ =~= b@);
    true
}

/// Splits a phrase into its tokens.
pub fn tokenize(text: &[u8]) -> (r: Vec<Vec<u8>>)
    ensures
        views(r@) == tokens(text@),
{
    let ghost low = lowercase(text@);
    let mut done: Vec<Vec<u8>> = Vec::new();
    let mut word: Vec<u8> = Vec::new();
    let mut i: usize = 0;
    proof {
        assert(low.take(0) =~= Seq::<u8>::empty());
        assert(views(done@) =~= split(low.take(0)));
    }
    while i < text.len()
        invariant
            i <= text.len(),
            low == lowercase(text@),
            word@.len() > 0 <==> i > 0 && !is_space(low[i - 1]),
            word@.len() > 0 ==> split(low.take(i as int)) == views(done@).push(word@),
            word@.len() == 0 ==> split(low.take(i as int)) == views(done@),
        decreases text.len() - i,
    {
        let b: u8 = fold_byte(text[i]);
        let ghost front = low.take(i as int);
        let ghost next = low.take(i + 1);
        proof {
            assert(next.drop_last() =~= front);
            assert(next.last() == b);
            if i > 0 {
                assert(front.last() == low[i - 1]);
            }
        }
        if byte_is_space(b) {
            if word.len() > 0 {
                done.push(word);
                word = Vec::new();
                proof {
                    assert(views(done@) =~= split(next));
                }
            }
        } else {
            let ghost open = word@;
            word.push(b);
            proof {
                let before = split(front);
                if open.len() > 0 {
                    assert(before.drop_last() =~= views(done@));
                    assert(before.last() == open);
                } else {
                    assert(word@ =~= seq![b]);
                }
            }
        }
        i += 1;
    }
    proof {
        assert(low.take(i as int) =~= low);
    }
    if word.len() > 0 {
        let ghost before = views(done@);
        let ghost last = word@;
        done.push(word);
        proof {
            assert(views(done@) =~= before.push(last));
        }
    }
    done
}

} // verus!

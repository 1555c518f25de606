//! Plain words: small ASCII letters, whose characters and bytes are the same.

use crate::format::join;
use crate::matcher::encoded;
use crate::text::is_clean;
use crate::text::lemma_tokens_of_phrase;
use crate::text::phrase_of;
use crate::text::tokens;
use vstd::prelude::*;
use vstd::utf8::encode_utf8;
use vstd::utf8::is_ascii_chars;
use vstd::utf8::is_ascii_chars_encode_utf8;

verus! {

/// A word of small ASCII letters, at least one.
pub open spec fn is_plain(word: Seq<char>) -> bool {
    &&& word.len() > 0
    &&& forall|i: int| 0 <= i < word.len() ==> 'a' <= #[trigger] word[i] <= 'z'
}

/// Whether every word of a list is plain.
pub open spec fn all_plain(words: Seq<Seq<char>>) -> bool {
    forall|i: int| 0 <= i < words.len() ==> is_plain(#[trigger] words[i])
}

/// The bytes of a plain word are its letters, and make a clean word.
pub proof fn lemma_plain_bytes(word: Seq<char>)
    requires
        is_plain(word),
    ensures
        is_ascii_chars(word),
        encode_utf8(word).len() == word.len(),
        forall|i: int| 0 <= i < word.len() ==> #[trigger] encode_utf8(word)[i] == word[i] as u8,
        is_clean(encode_utf8(word)),
{
    assert(is_ascii_chars(word));
    is_ascii_chars_encode_utf8(word);
    let bytes = encode_utf8(word);
    assert forall|i: int| 0 <= i < bytes.len() implies 0x61 <= #[trigger] bytes[i] <= 0x7a by {
        assert('a' <= word[i] <= 'z');
        assert(bytes[i] == word[i] as u8);
    }
}

/// Plain words that differ have bytes that differ.
pub proof fn lemma_plain_bytes_differ(a: Seq<char>, b: Seq<char>)
    requires
        is_plain(a),
        is_plain(b),
        a != b,
    ensures
        encode_utf8(a) != encode_utf8(b),
{
    lemma_plain_bytes(a);
    lemma_plain_bytes(b);
    if encode_utf8(a) == encode_utf8(b) {
        assert forall|i: int| 0 <= i < a.len() implies a[i] == b[i] by {
            assert(encode_utf8(a)[i] == a[i] as u8);
            assert(encode_utf8(b)[i] == b[i] as u8);
            assert('a' <= a[i] <= 'z');
            assert('a' <= b[i] <= 'z');
        }
        assert(a =~= b);
    }
}

/// The bytes of ASCII text that is written in two parts are the bytes of
/// the parts.
pub proof fn lemma_ascii_bytes_concat(a: Seq<char>, b: Seq<char>)
    requires
        is_ascii_chars(a),
        is_ascii_chars(b),
    ensures
        is_ascii_chars(a + b),
        encode_utf8(a + b) == encode_utf8(a) + encode_utf8(b),
{
    assert(is_ascii_chars(a + b)) by {
        assert forall|i: int| 0 <= i < (a + b).len() implies '\0' <= #[trigger] (a + b)[i]
            <= '\u{7f}' by {
            if i < a.len() {
                assert((a + b)[i] == a[i]);
            } else {
                assert((a + b)[i] == b[i - a.len()]);
            }
        }
    }
    is_ascii_chars_encode_utf8(a);
    is_ascii_chars_encode_utf8(b);
    is_ascii_chars_encode_utf8(a + b);
    assert(encode_utf8(a + b) =~= encode_utf8(a) + encode_utf8(b)) by {
        assert forall|i: int| 0 <= i < (a + b).len() implies encode_utf8(a + b)[i] == (encode_utf8(
            a,
        ) + encode_utf8(b))[i] by {
            assert(encode_utf8(a + b)[i] == (a + b)[i] as u8);
            if i < a.len() {
                assert(encode_utf8(a)[i] == a[i] as u8);
            } else {
                assert(encode_utf8(b)[i - a.len()] == b[i - a.len()] as u8);
            }
        }
    }
}

/// Lists of plain words make a list of plain words.
pub proof fn lemma_all_plain_concat(a: Seq<Seq<char>>, b: Seq<Seq<char>>)
    requires
        all_plain(a),
        all_plain(b),
    ensures
        all_plain(a + b),
{
    assert forall|i: int| 0 <= i < (a + b).len() implies is_plain(#[trigger] (a + b)[i]) by {
        if i < a.len() {
            assert((a + b)[i] == a[i]);
        } else {
            assert((a + b)[i] == b[i - a.len()]);
        }
    }
}

/// The bytes of plain words joined are the phrase of their bytes.
pub proof fn lemma_bytes_of_joined(words: Seq<Seq<char>>)
    requires
        forall|i: int| 0 <= i < words.len() ==> is_plain(#[trigger] words[i]),
    ensures
        is_ascii_chars(join(words)),
        encode_utf8(join(words)) == phrase_of(encoded(words)),
        forall|i: int| 0 <= i < words.len() ==> is_clean(#[trigger] encoded(words)[i]),
    decreases words.len(),
{
    assert forall|i: int| 0 <= i < words.len() implies is_clean(#[trigger] encoded(words)[i]) by {
        assert(is_plain(words[i]));
        lemma_plain_bytes(words[i]);
    }
    if words.len() == 0 {
        assert(encode_utf8(join(words)) =~= phrase_of(encoded(words)));
    } else {
        let last = words.last();
        assert(is_plain(words[words.len() - 1]));
        lemma_plain_bytes(last);
        if words.len() > 1 {
            let front = words.drop_last();
            assert forall|i: int| 0 <= i < front.len() implies is_plain(#[trigger] front[i]) by {
                assert(front[i] == words[i]);
            }
            lemma_bytes_of_joined(front);
            let gap = seq![' '];
            assert(is_ascii_chars(gap));
            is_ascii_chars_encode_utf8(gap);
            assert(encode_utf8(gap) =~= seq![0x20u8]);
            lemma_ascii_bytes_concat(join(front), gap);
            lemma_ascii_bytes_concat(join(front) + gap, last);
            assert(encoded(words).drop_last() =~= encoded(front));
        }
    }
}

/// The name of every number in plain words, turned to bytes and split into
/// tokens, is those words again.
pub proof fn lemma_tokens_of_joined(words: Seq<Seq<char>>)
    requires
        forall|i: int| 0 <= i < words.len() ==> is_plain(#[trigger] words[i]),
    ensures
        tokens(encode_utf8(join(words))) == encoded(words),
{
    lemma_bytes_of_joined(words);
    lemma_tokens_of_phrase(encoded(words));
}

/// Text without a space at either end and without two spaces in a row.
pub open spec fn is_tidy(text: Seq<char>) -> bool {
    &&& text.len() > 0 ==> text[0] != ' ' && text.last() != ' '
    &&& forall|i: int|
        0 <= i < text.len() - 1 ==> !(#[trigger] text[i] == ' ' && text[i + 1] == ' ')
}

/// Plain words joined make tidy text, which is empty only if there is no
/// word.
pub proof fn lemma_joined_is_tidy(words: Seq<Seq<char>>)
    requires
        all_plain(words),
    ensures
        is_tidy(join(words)),
        words.len() > 0 ==> join(words).len() > 0,
    decreases words.len(),
{
    if words.len() > 0 {
        let last = words.last();
        assert(is_plain(words[words.len() - 1]));
        assert(last[0] != ' ' && last[last.len() - 1] != ' ') by {
            assert('a' <= last[0] <= 'z');
            assert('a' <= last[last.len() - 1] <= 'z');
        }
        assert forall|i: int| 0 <= i < last.len() implies #[trigger] last[i] != ' ' by {
            assert('a' <= last[i] <= 'z');
        }
        if words.len() > 1 {
            let front = words.drop_last();
            assert forall|i: int| 0 <= i < front.len() implies is_plain(#[trigger] front[i]) by {
                assert(front[i] == words[i]);
            }
            lemma_joined_is_tidy(front);
            let lead = join(front);
            let text = join(words);
            assert(text =~= lead + seq![' '] + last);
            assert(text[0] == lead[0]);
            assert(text.last() == last[last.len() - 1]);
            assert forall|i: int| 0 <= i < text.len() - 1 implies !(#[trigger] text[i] == ' '
                && text[i + 1] == ' ') by {
                if i < lead.len() - 1 {
                    assert(text[i] == lead[i] && text[i + 1] == lead[i + 1]);
                } else if i == lead.len() - 1 {
                    assert(text[i] == lead.last());
                } else if i == lead.len() {
                    assert(text[i + 1] == last[0]);
                } else {
                    assert(text[i] == last[i - lead.len() - 1]);
                }
            }
        }
    }
}

} // verus!

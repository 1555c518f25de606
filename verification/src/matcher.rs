//! Finding the word that a token was meant to be.

use crate::distance::bytes_distance;
use crate::distance::edit_distance;
use crate::distance::lemma_distance_to_self;
use crate::distance::lemma_distance_zero;
use crate::lexicon::str_views;
use vstd::prelude::*;
use vstd::string::StringExecFns;
use vstd::utf8::encode_utf8;

verus! {

/// The farthest that a token may be from the word it is read as.
pub const MAX_STRING_DISTANCE: usize = 1;

/// The bytes of each of the given words.
pub open spec fn encoded(words: Seq<Seq<char>>) -> Seq<Seq<u8>> {
    Seq::new(words.len(), |i: int| encode_utf8(words[i]))
}

/// The bytes of the word "negative".
pub open spec fn negative_bytes() -> Seq<u8> {
    encode_utf8("negative"@)
}

/// The index of the word nearest to `token`, the first of them if several
/// are equally near, or -1 if there is no word.
pub open spec fn nearest(token: Seq<u8>, words: Seq<Seq<u8>>) -> int
    decreases words.len(),
{
    if words.len() == 0 {
        -1
    } else {
        let k = nearest(token, words.drop_last());
        if k >= 0 && edit_distance(words[k], token) <= edit_distance(words.last(), token) {
            k
        } else {
            words.len() - 1
        }
    }
}

/// What a token is read as: the index of the nearest word if that is within
/// the accepted distance, and else the message that suggests a word, which is
/// "negative" for a token less than five edits from it, and the nearest word
/// for any other.
pub open spec fn find_match(token: Seq<u8>, words: Seq<Seq<char>>) -> Result<int, Seq<char>> {
    let k = nearest(token, encoded(words));
    if k >= 0 && edit_distance(encoded(words)[k], token) <= MAX_STRING_DISTANCE {
        Ok(k)
    } else if edit_distance(token, negative_bytes()) < 5 {
        Err("Did you mean negative?"@)
    } else if k >= 0 {
        Err("Did you mean "@ + words[k] + "?"@)
    } else {
        Err("Did you mean "@ + "?"@)
    }
}

/// The nearest word is a word, none is nearer, and none before it is as near.
pub proof fn lemma_nearest_is_first_least(token: Seq<u8>, words: Seq<Seq<u8>>)
    ensures
        words.len() == 0 ==> nearest(token, words) == -1,
        words.len() > 0 ==> 0 <= nearest(token, words) < words.len(),
        forall|j: int|
            0 <= j < words.len() ==> edit_distance(words[nearest(token, words)], token)
                <= edit_distance(#[trigger] words[j], token),
        forall|j: int|
            0 <= j < nearest(token, words) ==> edit_distance(words[nearest(token, words)], token)
                < edit_distance(#[trigger] words[j], token),
    decreases words.len(),
{
    if words.len() > 0 {
        let front = words.drop_last();
        lemma_nearest_is_first_least(token, front);
        assert forall|j: int| 0 <= j < front.len() implies front[j] == words[j] by {}
        let k = nearest(token, words);
        assert forall|j: int| 0 <= j < words.len() implies edit_distance(words[k], token)
            <= edit_distance(#[trigger] words[j], token) by {
            if j < front.len() {
                assert(front[j] == words[j]);
            }
        }
        assert forall|j: int| 0 <= j < k implies edit_distance(words[k], token) < edit_distance(
            #[trigger] words[j],
            token,
        ) by {
            assert(front[j] == words[j]);
        }
    }
}

/// A token that is one of the words is read as that word, at the first
/// place where it stands.
pub proof fn lemma_exact_match(token: Seq<u8>, words: Seq<Seq<char>>, k: int)
    requires
        0 <= k < words.len(),
        encode_utf8(words[k]) == token,
    ensures
        find_match(token, words) matches Ok(j) && 0 <= j <= k && encode_utf8(words[j]) == token,
{
    let bytes = encoded(words);
    lemma_nearest_is_first_least(token, bytes);
    let j = nearest(token, bytes);
    lemma_distance_to_self(token);
    assert(edit_distance(bytes[j], token) <= edit_distance(bytes[k], token));
    lemma_distance_zero(bytes[j], token);
}

/// The index of the word nearest to `token` and its distance from it, if
/// there is any word.
pub fn closest(token: &[u8], words: &Vec<&str>) -> (r: Option<(usize, usize)>)
    ensures
        match r {
            None => nearest(token@, encoded(str_views(words@))) == -1,
            Some((k, d)) => {
                &&& k < words@.len()
                &&& k == nearest(token@, encoded(str_views(words@)))
                &&& d == edit_distance(encode_utf8(words@[k as int]@), token@)
            },
        },
{
    let ghost all = encoded(str_views(words@));
    let mut best: Option<(usize, usize)> = None;
    let mut i: usize = 0;
    proof {
        assert(all.take(0) =~= Seq::<Seq<u8>>::empty());
    }
    while i < words.len()
        invariant
            i <= words@.len(),
            all == encoded(str_views(words@)),
            match best {
                None => nearest(token@, all.take(i as int)) == -1,
                Some((k, d)) => {
                    &&& k < i
                    &&& k == nearest(token@, all.take(i as int))
                    &&& d == edit_distance(all[k as int], token@)
                },
            },
        decreases words@.len() - i,
    {
        let d: usize = bytes_distance(words[i].as_bytes(), token);
        proof {
            let next = all.take(i + 1);
            assert(next.drop_last() =~= all.take(i as int));
            assert(next.last() == all[i as int]);
            assert(all[i as int] == encode_utf8(words@[i as int]@));
        }
        best = match best {
            Some((k, least)) if least <= d => Some((k, least)),
            _ => Some((i, d)),
        };
        i += 1;
    }
    proof {
        assert(all.take(i as int) =~= all);
    }
    best
}

/// Reads `token` as one of `words`: the index of the nearest word if that is
/// within the accepted distance, and else the message that suggests a word.
pub fn match_token(token: &[u8], words: &Vec<&str>) -> (r: Result<usize, String>)
    ensures
        match find_match(token@, str_views(words@)) {
            Ok(k) => r matches Ok(i) && i == k && 0 <= k < words@.len(),
            Err(m) => r matches Err(e) && e@ == m,
        },
{
    let found = closest(token, words);
    match found {
        Some((k, d)) if d <= MAX_STRING_DISTANCE => Ok(k),
        _ => {
            if bytes_distance(token, "negative".as_bytes()) < 5 {
                Err("Did you mean negative?".to_owned())
            } else {
                let mut message = "Did you mean ".to_owned();
                match found {
                    Some((k, _)) => {
                        message.append(words[k]);
                    },
                    None => {},
                }
                message.append("?");
                Err(message)
            }
        },
    }
}

/// The word of `words` that `word` is read as, or the message that suggests
/// one.
pub fn find_matching_word(word: &str, words: &Vec<&str>) -> (r: Result<String, String>)
    ensures
        match find_match(encode_utf8(word@), str_views(words@)) {
            Ok(k) => r matches Ok(s) && 0 <= k < words@.len() && s@ == words@[k]@,
            Err(m) => r matches Err(e) && e@ == m,
        },
{
    match match_token(word.as_bytes(), words) {
        Ok(k) => Ok(words[k].to_owned()),
        Err(e) => Err(e),
    }
}

} // verus!

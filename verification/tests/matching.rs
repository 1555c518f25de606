use to_int_and_back::distance::bytes_distance;
use to_int_and_back::distance::min_distance;
use to_int_and_back::matcher::closest;
use to_int_and_back::matcher::find_matching_word;
use to_int_and_back::matcher::match_token;
use to_int_and_back::matcher::MAX_STRING_DISTANCE;
use to_int_and_back::text::same_bytes;

#[test]
fn distance_of_classic_pairs() {
    assert_eq!(min_distance("kitten", "sitting"), 3);
    assert_eq!(min_distance("flaw", "lawn"), 2);
    assert_eq!(min_distance("saturday", "sunday"), 3);
    assert_eq!(min_distance("", ""), 0);
    assert_eq!(min_distance("", "abc"), 3);
    assert_eq!(min_distance("abc", ""), 3);
    assert_eq!(min_distance("a", "b"), 1);
    assert_eq!(min_distance("ab", "ba"), 2);
    assert_eq!(min_distance("eighteen", "negative"), 6);
}

#[test]
fn distance_counts_bytes() {
    assert_eq!(min_distance("\u{e9}", "e"), 2);
    assert_eq!(min_distance("\u{e9}", "\u{e8}"), 1);
    assert_eq!(bytes_distance(&[0xff, 0x00], &[0x00]), 1);
    assert_eq!(bytes_distance(b"big fish", b"big wish"), 1);
}

#[test]
fn distance_is_zero_for_equal_strings_only() {
    let words = ["", "a", "one", "negative", "quadrillion"];
    for a in words {
        for b in words {
            assert_eq!(min_distance(a, b) == 0, a == b);
        }
    }
}

#[test]
fn distance_is_symmetric_and_obeys_the_triangle() {
    let words = ["", "one", "two", "three", "negative", "ngtiv", "hundred", "hured", "point"];
    for a in words {
        for b in words {
            assert_eq!(min_distance(a, b), min_distance(b, a));
            for c in words {
                assert!(min_distance(a, c) <= min_distance(a, b) + min_distance(b, c));
            }
        }
    }
}

#[test]
fn distance_stays_within_the_lengths() {
    let words = ["", "one", "seventeen", "negative", "x"];
    for a in words {
        for b in words {
            let d = min_distance(a, b);
            assert!(d <= a.len().max(b.len()));
            assert!(d >= a.len().max(b.len()) - a.len().min(b.len()));
        }
    }
}

#[test]
fn accepted_distance_is_one() {
    assert_eq!(MAX_STRING_DISTANCE, 1);
}

#[test]
fn exact_word_is_returned_unchanged() {
    let words = vec!["gourami", "tetra", "snail"];
    assert_eq!(find_matching_word("tetra", &words).unwrap(), "tetra");
    assert_eq!(find_matching_word("snail", &words).unwrap(), "snail");
}

#[test]
fn first_of_equally_near_words_wins() {
    let words = vec!["cat", "bat", "rat"];
    assert_eq!(find_matching_word("hat", &words).unwrap(), "cat");
    assert_eq!(closest(b"hat", &words), Some((0, 1)));
    let words = vec!["rat", "bat", "cat"];
    assert_eq!(find_matching_word("hat", &words).unwrap(), "rat");
    assert_eq!(closest(b"bat", &words), Some((1, 0)));
}

#[test]
fn no_words_no_match() {
    let words: Vec<&str> = Vec::new();
    assert_eq!(closest(b"one", &words), None);
    assert_eq!(find_matching_word("one", &words).unwrap_err(), "Did you mean ?");
    assert_eq!(
        find_matching_word("negativ", &words).unwrap_err(),
        "Did you mean negative?"
    );
}

#[test]
fn suggestion_is_negative_below_five_edits_from_it() {
    let words = vec!["gourami", "tetra", "snail"];
    assert_eq!(
        find_matching_word("ngtiv", &words).unwrap_err(),
        "Did you mean negative?"
    );
    assert_eq!(
        find_matching_word("negat", &words).unwrap_err(),
        "Did you mean negative?"
    );
    assert_eq!(min_distance("tive", "negative"), 4);
    assert_eq!(
        find_matching_word("tive", &words).unwrap_err(),
        "Did you mean negative?"
    );
    assert_eq!(min_distance("tet", "negative"), 6);
    assert_eq!(
        find_matching_word("tet", &words).unwrap_err(),
        "Did you mean tetra?"
    );
}

#[test]
fn token_is_matched_by_index() {
    let words = vec!["gourami", "tetra", "snail"];
    assert_eq!(match_token(b"snal", &words), Ok(2));
    assert_eq!(match_token(b"gourami", &words), Ok(0));
    assert_eq!(
        match_token(b"sna", &words),
        Err(String::from("Did you mean snail?"))
    );
}

#[test]
fn bytes_are_compared_one_by_one() {
    assert!(same_bytes(b"", b""));
    assert!(same_bytes(b"point", b"point"));
    assert!(!same_bytes(b"point", b"poinT"));
    assert!(!same_bytes(b"point", b"points"));
    assert!(!same_bytes(b"", b"a"));
}

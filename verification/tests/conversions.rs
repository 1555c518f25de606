use to_int_and_back::distance::min_distance;
use to_int_and_back::matcher::find_matching_word;
use to_int_and_back::to::integer;
use to_int_and_back::to::string;

#[test]
fn tests_should_not_panic_to_int() {
    assert_eq!(integer("One Hundred And Forty Two").unwrap(), 142);
    assert_eq!(
        integer("one million four hundred twenty seven thousand four hundred and seventy three")
            .unwrap(),
        1_427_473
    );
    assert_eq!(
        integer("negative seven thousand three hundred and ninety six").unwrap(),
        -7396
    );
    assert_eq!(integer("negativ three hundre and fifty fiv").unwrap(), -355);
    assert_eq!(
        integer(&string(-123_456_789_098_765_432)).unwrap(),
        -123_456_789_098_765_432
    );
}

#[test]
fn tests_should_not_panic_to_string() {
    assert_eq!(string(142), "one hundred forty two");
    assert_eq!(
        string(1_427_473),
        "one million four hundred twenty seven thousand four hundred seventy three"
    );
    assert_eq!(
        string(-7396),
        "negative seven thousand three hundred ninety six"
    );
    assert_eq!(string(-355), "negative three hundred fifty five");
    assert_eq!(
        string(integer("negative twenty seven thousand eight hundred sixty nine").unwrap()),
        "negative twenty seven thousand eight hundred sixty nine"
    );
}

#[test]
fn min_distance_tests() {
    assert_eq!(min_distance("big fish", "big wish"), 1);
    assert_eq!(min_distance("negative", "negativ"), 1);
    assert_eq!(min_distance("negative", "ngtiv"), 3);
    assert_eq!(min_distance("hello", "goodbye"), 7);
}

#[test]
fn find_matching_word_tests() {
    let words = vec!["gourami", "tetra", "snail"];
    assert_eq!(find_matching_word("gorami", &words).unwrap(), "gourami");
    assert_eq!(
        find_matching_word("gormi", &words).unwrap_err(),
        "Did you mean gourami?"
    );
    assert_eq!(find_matching_word("teta", &words).unwrap(), "tetra");
    assert_eq!(
        find_matching_word("tet", &words).unwrap_err(),
        "Did you mean tetra?"
    );
    assert_eq!(find_matching_word("sail", &words).unwrap(), "snail");
    assert_eq!(
        find_matching_word("sal", &words).unwrap_err(),
        "Did you mean snail?"
    );
}

#[test]
fn test_error_messages() {
    assert_eq!(
        integer("one hured and forty two").unwrap_err(),
        "Did you mean hundred?"
    );
    assert_eq!(
        integer("ngtiv one hundred forty two").unwrap_err(),
        "Did you mean negative?"
    );
    assert_eq!(
        integer("negative negative one hundred forty two").unwrap_err(),
        "Invalid input"
    );
    assert_eq!(integer("ten negative").unwrap_err(), "Invalid input");
}

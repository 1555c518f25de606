use to_int_and_back::lexicon::Lexicon;
use to_int_and_back::parse::effect_at;
use to_int_and_back::parse::get_power;
use to_int_and_back::parse::last_spelled;
use to_int_and_back::parse::power_of_ten;
use to_int_and_back::text::tokenize;
use to_int_and_back::to::decimal;
use to_int_and_back::to::integer;
use to_int_and_back::to::string;
use to_int_and_back::to::string_decimal;

#[test]
fn scale_folding() {
    assert_eq!(integer("one hundred forty two").unwrap(), 142);
    assert_eq!(integer("one thousand five").unwrap(), 1005);
    assert_eq!(integer("two hundred thousand").unwrap(), 200_000);
    assert_eq!(integer("one million one thousand one hundred one").unwrap(), 1_001_101);
    assert_eq!(integer("nine quadrillion").unwrap(), 9_000_000_000_000_000);
}

#[test]
fn fuzzy_tolerance() {
    assert_eq!(integer("frty twoo").unwrap(), 42);
    assert_eq!(integer("negativ three hundre and fifty fiv").unwrap(), -355);
    assert_eq!(integer("forty two").unwrap(), 42);
    assert_eq!(integer("negative forty two").unwrap(), -42);
    assert_eq!(integer("ngativ ten").unwrap(), -10);
}

#[test]
fn fuzzy_rejection_with_suggestion() {
    assert_eq!(
        integer("one hured and forty two").unwrap_err(),
        "Did you mean hundred?"
    );
    assert_eq!(integer("fty two").unwrap_err(), "Did you mean forty?");
    assert_eq!(integer("three thosad").unwrap_err(), "Did you mean thousand?");
}

#[test]
fn illegal_negation() {
    assert_eq!(
        integer("negative negative one hundred forty two").unwrap_err(),
        "Invalid input"
    );
    assert_eq!(integer("ten negative").unwrap_err(), "Invalid input");
    assert_eq!(integer("ten ngativ").unwrap_err(), "Invalid input");
}

#[test]
fn garbled_negation_is_suggested() {
    assert_eq!(
        integer("ngtiv one hundred forty two").unwrap_err(),
        "Did you mean negative?"
    );
    assert_eq!(integer("one negatory").unwrap_err(), "Did you mean negative?");
}

#[test]
fn first_refused_token_decides() {
    assert_eq!(integer("one hured negative").unwrap_err(), "Did you mean hundred?");
    assert_eq!(integer("one negative hured").unwrap_err(), "Invalid input");
}

#[test]
fn number_out_of_range() {
    assert_eq!(
        integer(
            "nine hundred hundred hundred hundred hundred hundred hundred hundred hundred hundred"
        )
        .unwrap_err(),
        "Number out of range"
    );
    assert_eq!(
        integer(
            "nine hundred hundred hundred hundred hundred hundred hundred hundred hundred hundred \
             hured"
        )
        .unwrap_err(),
        "Did you mean hundred?"
    );
    assert_eq!(
        integer("nine hundred hundred hundred hundred").unwrap(),
        900_000_000
    );
}

#[test]
fn largest_number() {
    let most = "ninety two hundred twenty three quadrillion three hundred seventy two trillion \
                thirty six billion eight hundred fifty four million \
                seven hundred seventy five thousand eight hundred";
    assert_eq!(integer(&format!("{} seven", most)).unwrap(), isize::MAX);
    assert_eq!(
        integer(&format!("negative {} seven", most)).unwrap(),
        -isize::MAX
    );
    assert_eq!(
        integer(&format!("{} eight", most)).unwrap_err(),
        "Number out of range"
    );
    assert_eq!(
        integer(&format!("negative {} eight", most)).unwrap_err(),
        "Number out of range"
    );
}

#[test]
fn phrases_without_number_words() {
    assert_eq!(integer("").unwrap(), 0);
    assert_eq!(integer("   ").unwrap(), 0);
    assert_eq!(integer("and").unwrap(), 0);
    assert_eq!(integer("negative").unwrap(), 0);
    assert_eq!(integer("zero").unwrap(), 0);
    assert_eq!(integer("negative zero").unwrap(), 0);
    assert_eq!(integer("thousand").unwrap(), 0);
}

#[test]
fn case_and_spacing_do_not_matter() {
    assert_eq!(integer("One Hundred And Forty Two").unwrap(), 142);
    assert_eq!(integer("ONE HUNDRED FORTY TWO").unwrap(), 142);
    assert_eq!(integer("  one\thundred\nforty \r\n two  ").unwrap(), 142);
    assert_eq!(integer("one\u{b}thousand\u{c}five").unwrap(), 1005);
}

#[test]
fn single_letters_are_no_words() {
    assert_eq!(integer("x").unwrap_err(), "Did you mean six?");
    assert_eq!(integer("forty a").unwrap_err(), "Did you mean and?");
}

#[test]
fn round_trip() {
    for n in -2500isize..=2500 {
        assert_eq!(integer(&string(n)).unwrap(), n);
    }
    let mut n: isize = 1;
    while n < 1_000_000_000_000_000_000 / 7 {
        assert_eq!(integer(&string(n)).unwrap(), n);
        assert_eq!(integer(&string(-n)).unwrap(), -n);
        assert_eq!(integer(&string(n - 1)).unwrap(), n - 1);
        n = n * 7 + 3;
    }
    assert_eq!(
        integer(&string(999_999_999_999_999_999)).unwrap(),
        999_999_999_999_999_999
    );
    assert_eq!(
        integer(&string(-999_999_999_999_999_999)).unwrap(),
        -999_999_999_999_999_999
    );
    assert_eq!(
        integer(&string(-123_456_789_098_765_432)).unwrap(),
        -123_456_789_098_765_432
    );
}

#[test]
fn names_are_read_back_by_any_lexicon_made_of_the_english_lists() {
    let english = Lexicon::english();
    let units: Vec<String> = (0..20).map(|i| english.unit(i).to_string()).collect();
    let tens: Vec<String> = (0..10).map(|i| english.ten(i).to_string()).collect();
    let scales: Vec<String> = (0..6).map(|i| english.scale(i).to_string()).collect();
    let copy = Lexicon::new(units, tens, scales).unwrap();
    for n in [0isize, -1, 17, 70, 101, 12_345, -9_000_009] {
        assert_eq!(copy.spell(n), english.spell(n));
        assert_eq!(copy.parse(&copy.spell(n)).unwrap(), n);
    }
}

#[test]
fn correction_is_idempotent() {
    let pairs = [
        ("frty twoo", "forty two"),
        ("negativ three hundre and fifty fiv", "negative three hundred and fifty five"),
        ("ngativ  One   thosand", "negative one thousand"),
        ("one hured and forty two", "one hured and forty two"),
        ("ten negativ", "ten negative"),
    ];
    for (typed, corrected) in pairs {
        assert_eq!(integer(typed), integer(corrected));
    }
}

#[test]
fn lexicon_is_checked_when_made() {
    let words = |list: &[&str]| -> Vec<String> { list.iter().map(|w| w.to_string()).collect() };
    let english = Lexicon::english();
    let units: Vec<String> = (0..20).map(|i| english.unit(i).to_string()).collect();
    let tens: Vec<String> = (0..10).map(|i| english.ten(i).to_string()).collect();
    let scales: Vec<String> = (0..6).map(|i| english.scale(i).to_string()).collect();
    assert!(Lexicon::new(units.clone(), tens.clone(), scales.clone()).is_some());
    assert!(Lexicon::new(units[..19].to_vec(), tens.clone(), scales.clone()).is_none());
    assert!(Lexicon::new(units.clone(), tens[..9].to_vec(), scales.clone()).is_none());
    assert!(Lexicon::new(units.clone(), tens.clone(), scales[..5].to_vec()).is_none());
    assert!(Lexicon::new(words(&["zero"]), words(&[""]), words(&["hundred"])).is_none());
    let mut wrong_zero = units.clone();
    wrong_zero[0] = String::from("nought");
    assert!(Lexicon::new(wrong_zero, tens.clone(), scales.clone()).is_none());
    let mut wrong_tens = tens.clone();
    wrong_tens[1] = String::from("ten");
    assert!(Lexicon::new(units.clone(), wrong_tens, scales.clone()).is_none());
}

#[test]
fn vocabulary_order_and_effects() {
    let english = Lexicon::english();
    let all = english.vocabulary();
    assert_eq!(all.len(), 35);
    assert_eq!(all[0], "and");
    assert_eq!(all[1], "zero");
    assert_eq!(all[20], "nineteen");
    assert_eq!(all[21], "twenty");
    assert_eq!(all[28], "ninety");
    assert_eq!(all[29], "hundred");
    assert_eq!(all[34], "quadrillion");
    assert_eq!(effect_at(0), (1, 0));
    assert_eq!(effect_at(1), (1, 0));
    assert_eq!(effect_at(20), (1, 19));
    assert_eq!(effect_at(21), (1, 20));
    assert_eq!(effect_at(28), (1, 90));
    assert_eq!(effect_at(29), (100, 0));
    assert_eq!(effect_at(30), (1_000, 0));
    assert_eq!(effect_at(31), (1_000_000, 0));
    assert_eq!(effect_at(34), (1_000_000_000_000_000, 0));
}

#[test]
fn powers_of_the_scales() {
    assert_eq!(get_power(0), 2);
    assert_eq!(get_power(1), 3);
    assert_eq!(get_power(2), 6);
    assert_eq!(get_power(5), 15);
    assert_eq!(power_of_ten(0), 1);
    assert_eq!(power_of_ten(2), 100);
    assert_eq!(power_of_ten(15), 1_000_000_000_000_000);
}

#[test]
fn the_later_of_two_like_words_decides() {
    let words = vec!["one", "two", "one", "three"];
    assert_eq!(last_spelled(&words, 0), 2);
    assert_eq!(last_spelled(&words, 1), 1);
    assert_eq!(last_spelled(&words, 2), 2);
    assert_eq!(last_spelled(&words, 3), 3);
}

#[test]
fn tokens_are_folded_words() {
    assert_eq!(
        tokenize(b"  One\tHUNDRED\n\nforty-Two "),
        vec![b"one".to_vec(), b"hundred".to_vec(), b"forty-two".to_vec()]
    );
    assert_eq!(tokenize(b""), Vec::<Vec<u8>>::new());
    assert_eq!(tokenize(b" \t\r\n\x0b\x0c"), Vec::<Vec<u8>>::new());
    assert_eq!(tokenize(b"a"), vec![b"a".to_vec()]);
    assert_eq!(tokenize("\u{c9}t\u{e9}".as_bytes()), vec!["\u{c9}t\u{e9}".as_bytes().to_vec()]);
}

fn value(text: &str) -> Result<f32, String> {
    let parts = decimal(text)?;
    let mut tail = String::from("0.");
    for d in &parts.digits {
        tail.push(char::from_digit(*d as u32, 10).unwrap());
    }
    let h = parts.head as f32;
    let t = tail.parse::<f32>().unwrap();
    if h < 0_f32 {
        Ok(h - t)
    } else {
        Ok(h + t)
    }
}

#[test]
fn decimal_parts() {
    let d = decimal("zero point four two").unwrap();
    assert_eq!((d.head, d.digits), (0, vec![4, 2]));
    let d = decimal("negative three point five").unwrap();
    assert_eq!((d.head, d.digits), (-3, vec![5]));
    let d = decimal("forty too point four two").unwrap();
    assert_eq!((d.head, d.digits), (42, vec![4, 2]));
    let d = decimal("point four two").unwrap();
    assert_eq!((d.head, d.digits), (0, vec![4, 2]));
    let d = decimal("three").unwrap();
    assert_eq!((d.head, d.digits), (3, vec![]));
    let d = decimal("three point").unwrap();
    assert_eq!((d.head, d.digits), (3, vec![]));
    let d = decimal("Three POINT zero nine").unwrap();
    assert_eq!((d.head, d.digits), (3, vec![0, 9]));
    let d = decimal(
        "one million four hundred twenty seven thousand four hundred and seventy three
                    point seven six nine nine eight",
    )
    .unwrap();
    assert_eq!((d.head, d.digits), (1_427_473, vec![7, 6, 9, 9, 8]));
}

#[test]
fn decimal_values() {
    assert_eq!(value("negative three point five").unwrap(), -3.5 as f32);
    assert_eq!(value("forty too point four two").unwrap(), 42.42 as f32);
    assert_eq!(value("zero point four two").unwrap(), 0.42 as f32);
    assert_eq!(value("point four two").unwrap(), 0.42 as f32);
    assert_eq!(value("three point five").unwrap(), 3.5 as f32);
    assert_eq!(value("three").unwrap(), 3 as f32);
    assert_eq!(value("forty two point seven").unwrap(), 42.7 as f32);
    assert_eq!(value("negative forty two point nine").unwrap(), -42.9 as f32);
    assert_eq!(value("frty twoo point zero").unwrap(), 42.0 as f32);
    assert_eq!(
        value(
            "one million four hundred twenty seven thousand four hundred and seventy three
                    point seven six nine nine eight"
        )
        .unwrap(),
        1_427_473.769_98 as f32
    );
}

#[test]
fn decimal_separator_typo() {
    assert_eq!(
        decimal("three poin sixty two").unwrap_err(),
        "Did you mean point?"
    );
    assert_eq!(decimal("three pint five").unwrap_err(), "Did you mean point?");
    assert_eq!(
        decimal("thre hured points five").unwrap_err(),
        "Did you mean point?"
    );
}

#[test]
fn decimal_tail_validity() {
    assert_eq!(
        decimal("three point sixty two").unwrap_err(),
        "Invalid value in tail string."
    );
    assert_eq!(
        decimal("three point ten").unwrap_err(),
        "Invalid value in tail string."
    );
    assert_eq!(
        decimal("three point fve sixty").unwrap_err(),
        "Invalid value in tail string."
    );
}

#[test]
fn decimal_errors_of_head_and_tail() {
    assert_eq!(
        decimal("three thosad point four two").unwrap_err(),
        "Did you mean thousand?"
    );
    assert_eq!(decimal("fty two").unwrap_err(), "Did you mean forty?");
    assert_eq!(
        decimal("three thosad point sixty").unwrap_err(),
        "Invalid value in tail string."
    );
    assert_eq!(
        decimal("three point four twelv hured").unwrap_err(),
        "Invalid value in tail string."
    );
    assert_eq!(
        decimal("three point four hured").unwrap_err(),
        "Did you mean hundred?"
    );
    assert_eq!(
        decimal("ten negative point one").unwrap_err(),
        "Invalid input"
    );
    assert_eq!(
        decimal(
            "nine hundred hundred hundred hundred hundred hundred hundred hundred hundred hundred \
             point one"
        )
        .unwrap_err(),
        "Number out of range"
    );
}

#[test]
fn decimal_tail_words_that_stand_for_zero() {
    let d = decimal("one point and hundred negative zero").unwrap();
    assert_eq!((d.head, d.digits), (1, vec![0, 0, 0, 0]));
}

#[test]
fn decimal_with_a_second_point() {
    assert_eq!(
        decimal("one point two point three").unwrap_err(),
        "Did you mean one?"
    );
}

#[test]
fn decimal_round_trip() {
    let heads = [0isize, 1, -1, 19, 20, -42, 100, 1005, -7396, 1_427_473, -999_999_999_999_999_999];
    let tails: [&[u8]; 5] = [&[], &[0], &[5], &[4, 2], &[9, 8, 7, 6, 5, 4, 3, 2, 1, 0]];
    for head in heads {
        for tail in tails {
            let read = decimal(&string_decimal(head, &tail.to_vec())).unwrap();
            assert_eq!(read.head, head);
            assert_eq!(read.digits, tail.to_vec());
        }
    }
}

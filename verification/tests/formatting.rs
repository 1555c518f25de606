use to_int_and_back::format::Sentence;
use to_int_and_back::format::to_string_helper;
use to_int_and_back::lexicon::Lexicon;
use to_int_and_back::to::string;
use to_int_and_back::to::string_decimal;

#[test]
fn zero_is_zero() {
    assert_eq!(string(0), "zero");
    assert_eq!(Lexicon::english().spell(0), "zero");
}

#[test]
fn units_and_teens() {
    assert_eq!(string(1), "one");
    assert_eq!(string(9), "nine");
    assert_eq!(string(10), "ten");
    assert_eq!(string(11), "eleven");
    assert_eq!(string(13), "thirteen");
    assert_eq!(string(19), "nineteen");
}

#[test]
fn tens_with_and_without_units() {
    assert_eq!(string(20), "twenty");
    assert_eq!(string(21), "twenty one");
    assert_eq!(string(42), "forty two");
    assert_eq!(string(90), "ninety");
    assert_eq!(string(99), "ninety nine");
}

#[test]
fn hundreds() {
    assert_eq!(string(100), "one hundred");
    assert_eq!(string(101), "one hundred one");
    assert_eq!(string(110), "one hundred ten");
    assert_eq!(string(119), "one hundred nineteen");
    assert_eq!(string(120), "one hundred twenty");
    assert_eq!(string(999), "nine hundred ninety nine");
}

#[test]
fn groups_and_scales() {
    assert_eq!(string(1000), "one thousand");
    assert_eq!(string(1005), "one thousand five");
    assert_eq!(string(1_000_000), "one million");
    assert_eq!(string(1_000_001), "one million one");
    assert_eq!(string(2_000_300), "two million three hundred");
    assert_eq!(string(1_000_000_000), "one billion");
    assert_eq!(string(1_000_000_000_000), "one trillion");
    assert_eq!(string(1_000_000_000_000_000), "one quadrillion");
    assert_eq!(
        string(999_999_999_999_999_999),
        "nine hundred ninety nine quadrillion nine hundred ninety nine trillion \
         nine hundred ninety nine billion nine hundred ninety nine million \
         nine hundred ninety nine thousand nine hundred ninety nine"
    );
}

#[test]
fn large_negative_number() {
    assert_eq!(
        string(-123_456_789_098_765_432),
        "negative one hundred twenty three quadrillion four hundred fifty six trillion \
         seven hundred eighty nine billion ninety eight million \
         seven hundred sixty five thousand four hundred thirty two"
    );
    assert_eq!(
        string(-999_999_999_999_999_999),
        String::from("negative ") + &string(999_999_999_999_999_999)
    );
}

#[test]
fn sign_symmetry() {
    for n in [1isize, 7, 19, 20, 42, 100, 355, 7396, 1_000_000, 1_427_473] {
        assert_eq!(string(-n), String::from("negative ") + &string(n));
    }
}

#[test]
fn names_have_single_spaces_and_no_edge_spaces() {
    for n in [0isize, 5, 100, 1000, 100_000, 1_000_000, -1_000_000, 20_000_020] {
        let name = string(n);
        assert!(!name.starts_with(' '));
        assert!(!name.ends_with(' '));
        assert!(!name.contains("  "));
    }
}

#[test]
fn helper_writes_one_group() {
    let lexicon = Lexicon::english();
    let mut out = Sentence::new();
    to_string_helper(0, &lexicon, &mut out);
    assert_eq!(out.finish(), "");
    let mut out = Sentence::new();
    to_string_helper(7, &lexicon, &mut out);
    assert_eq!(out.finish(), "seven");
    let mut out = Sentence::new();
    to_string_helper(142, &lexicon, &mut out);
    assert_eq!(out.finish(), "one hundred forty two");
    let mut out = Sentence::new();
    to_string_helper(800, &lexicon, &mut out);
    to_string_helper(15, &lexicon, &mut out);
    assert_eq!(out.finish(), "eight hundred fifteen");
}

#[test]
fn sentence_joins_words_with_one_space() {
    let mut out = Sentence::new();
    out.push("a");
    out.push("");
    out.push("b");
    assert_eq!(out.finish(), "a  b");
    assert_eq!(Sentence::new().finish(), "");
}

#[test]
fn write_number_appends_to_what_is_there() {
    let lexicon = Lexicon::english();
    let mut out = Sentence::new();
    out.push("about");
    lexicon.write_number(-21, &mut out);
    assert_eq!(out.finish(), "about negative twenty one");
}

fn dutch() -> Lexicon {
    let units = [
        "zero", "een", "twee", "drie", "vier", "vijf", "zes", "zeven", "acht", "negen", "tien",
        "elf", "twaalf", "dertien", "veertien", "vijftien", "zestien", "zeventien", "achttien",
        "negentien",
    ];
    let tens = [
        "", "", "twintig", "dertig", "veertig", "vijftig", "zestig", "zeventig", "tachtig",
        "negentig",
    ];
    let scales = ["honderd", "duizend", "miljoen", "miljard", "biljoen", "biljard"];
    Lexicon::new(
        units.iter().map(|w| w.to_string()).collect(),
        tens.iter().map(|w| w.to_string()).collect(),
        scales.iter().map(|w| w.to_string()).collect(),
    )
    .unwrap()
}

#[test]
fn another_lexicon_gives_its_own_words() {
    let lexicon = dutch();
    assert_eq!(lexicon.spell(0), "zero");
    assert_eq!(lexicon.spell(42), "veertig twee");
    assert_eq!(lexicon.spell(-3_000_017), "negative drie miljoen zeventien");
    assert_eq!(lexicon.spell(142), "een hundred veertig twee");
    assert_eq!(lexicon.parse("drie duizend en twee").unwrap(), 3003);
    assert_eq!(lexicon.parse("drie duizend ook twee").unwrap_err(), "Did you mean and?");
    assert_eq!(lexicon.parse("drie duizend twee").unwrap(), 3002);
    assert_eq!(lexicon.parse("drie honderd and twe").unwrap(), 302);
}

#[test]
fn decimal_names() {
    assert_eq!(string_decimal(3, &vec![1, 4]), "three point one four");
    assert_eq!(
        string_decimal(-42, &vec![5, 3]),
        "negative forty two point five three"
    );
    assert_eq!(string_decimal(1, &vec![5, 4]), "one point five four");
    assert_eq!(
        string_decimal(-33, &vec![5, 3]),
        "negative thirty three point five three"
    );
    assert_eq!(string_decimal(3, &vec![4]), "three point four");
    assert_eq!(string_decimal(-3, &vec![5]), "negative three point five");
    assert_eq!(
        string_decimal(1_427_473, &vec![7, 5]),
        "one million four hundred twenty seven thousand four hundred seventy three point seven five"
    );
    assert_eq!(string_decimal(14, &vec![2, 7]), "fourteen point two seven");
    assert_eq!(string_decimal(0, &vec![0, 9]), "zero point zero nine");
    assert_eq!(
        string_decimal(7, &vec![0, 1, 2, 3, 4, 5, 6, 7, 8, 9]),
        "seven point zero one two three four five six seven eight nine"
    );
    assert_eq!(string_decimal(2, &vec![]), "two point");
}

use psets::caesar::caesar;
use psets::scrabble::{compute_score, scrabble};
use psets::substitution::{is_key_valid, substitution};

#[test]
fn et_tu() {
    let test_cases = [
        ("a", 1, "b"),
        ("barfoo", 23, "yxocll"),
        ("BARFOO", 3, "EDUIRR"),
        ("BaRFoo", 4, "FeVJss"),
        ("barfoo", 65, "onesbb"),
        ("world, say hello!", 12, "iadxp, emk tqxxa!"),
    ];

    for (plaintext, key, expected) in test_cases.iter() {
        assert_eq!(caesar(plaintext.to_string(), *key), expected.to_string());
    }
}

#[test]
fn caesar_wraps_and_keeps_others() {
    assert_eq!(caesar("xyz XYZ".to_string(), 3), "abc ABC");
    assert_eq!(caesar("héllo".to_string(), 26), "héllo");
    assert_eq!(caesar("z".to_string(), u32::MAX), "u");
    assert_eq!(caesar(String::new(), 5), "");
}

#[test]
fn test_compute_score() {
    let test_cases = [
        ("././1./1./.43    \n 5./252/5.2;';.25", 0),
        ("code", 7),
        ("Oops!", 6),
    ];
    for (word, expected) in test_cases.iter() {
        let word = (*word).to_owned();
        assert_eq!(compute_score(word), *expected);
    }
}

#[test]
fn score_of_every_letter() {
    assert_eq!(compute_score("abcdefghijklmnopqrstuvwxyz".to_string()), 87);
    assert_eq!(compute_score("QZ".to_string()), 20);
    assert_eq!(compute_score(String::new()), 0);
}

#[test]
fn test_head_to_head() {
    let test_cases = [
        ("COMPUTER", "science", "Player 1 wins!\n"),
        ("Oh,", "hai!", "Player 2 wins!\n"),
        ("pig", "dog", "Player 1 wins!\n"),
        ("figure?", "Skating!", "Player 2 wins!\n"),
        ("LETTERCASE", "lettercase", "Tie!\n"),
        ("Punctuation!?!?", "punctuation", "Tie!\n"),
        ("drawing", "illustration", "Tie!\n"),
    ];
    for (p1, p2, expected) in test_cases.iter() {
        let p1 = (*p1).to_owned();
        let p2 = (*p2).to_owned();
        assert_eq!(scrabble(p1, p2), expected.to_owned());
    }
}

#[test]
fn test_is_key_valid() {
    let test_cases = [
        ("abcdefghijklmnopqrstuvwxyz", true),
        ("ABCDEFGHIJKLMNOPQRSTUVWXYZ", true),
        ("ZBcDeFgHiJkLmNoPqsRTuVwXya", true),
        ("aBcDeFgHiJkLmNoPqRsTuVwXyZa", false),
        ("aBcDeFgHiJkLmNoPqRsTuVwXyZ1", false),
        ("aBcDeFgHiJkLmNoPqRsTuVwXyZ!", false),
        ("aBcDeFgHiJkLmNoPqRsTuVwXy", false),
        ("aBcDeFgHiJkLmNoPqRsTuVwXyZd", false),
    ];
    for (key, expected) in test_cases.iter() {
        assert_eq!(is_key_valid(&key.to_string()), *expected);
    }
}

#[test]
fn key_with_a_repeat_or_a_non_letter() {
    assert!(!is_key_valid("abcdefghijklmnopqrstuvwxya"));
    assert!(!is_key_valid("abcdefghijklmnopqrstuvwxy1"));
    assert!(!is_key_valid(""));
}

#[test]
fn test_substitution() {
    let test_cases = [
        ("A", "ZYXWVUTSRQPONMLKJIHGFEDCBA", "Z"),
        ("a", "ZYXWVUTSRQPONMLKJIHGFEDCBA", "z"),
        ("ABC", "NJQSUYBRXMOPFTHZVAWCGILKED", "NJQ"),
        ("XyZ", "NJQSUYBRXMOPFTHZVAWCGILKED", "KeD"),
        (
            "The quick brown fox jumps over the lazy dog",
            "dwusXNPQKEGCZFJBTLYROHiavm",
            "Rqx tokug wljif nja eozby jhxl rqx cdmv sjp",
        ),
        (
            "Shh... Don't tell!",
            "DWUSxnpqKEGCZFJBTLyrohIAVM",
            "Yqq... Sjf'r rxcc!",
        ),
    ];
    for (plaintext, key, expected) in test_cases.iter() {
        assert_eq!(
            substitution(plaintext.to_string(), key.to_string()),
            expected.to_string()
        );
    }
}

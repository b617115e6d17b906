use psets::speller::{line_words, Spellcheck, MAX_LENGTH};

#[test]
fn words_are_taken_from_the_end() {
    assert_eq!(
        line_words("Hello, world! rust50's it's 'tis"),
        vec!["tis", "it's", "s", "world", "Hello"]
    );
}

#[test]
fn empty_and_punctuation_lines_have_no_words() {
    assert!(line_words("").is_empty());
    assert!(line_words("... -- !!").is_empty());
    assert!(line_words("'''").is_empty());
}

#[test]
fn numbers_and_long_words_are_skipped() {
    assert!(line_words("100 2024").is_empty());
    assert_eq!(line_words("100's"), vec!["s"]);
    let long = "a".repeat(MAX_LENGTH + 1);
    assert!(line_words(&long).is_empty());
    let just_fits = "a".repeat(MAX_LENGTH);
    assert_eq!(line_words(&just_fits), vec![just_fits.clone()]);
}

#[test]
fn non_ascii_letters_cut_words() {
    assert_eq!(line_words("café au lait"), vec!["lait", "au", "caf"]);
}

#[test]
fn spellcheck_counts_words_and_misspellings() {
    let mut c = Spellcheck::new();
    c.record(true);
    c.record(false);
    c.record(true);
    assert_eq!(c, Spellcheck { words: 3, misspellings: 1 });
}

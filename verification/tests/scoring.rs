use peacenik::score::{score, Word};
use peacenik::words::get_words;

#[test]
fn test_apostrophe() {
    let words = get_words("she\u{2019}s").unwrap();
    let word = &words[0];
    assert_eq!(word.score, 7);
}

#[test]
fn score_exact_values() {
    assert_eq!(score("hello"), 8);
    assert_eq!(score("quartz"), 24);
    assert_eq!(score("a"), 1);
    assert_eq!(score(""), 0);
    assert_eq!(score("why"), 12);
    assert_eq!(score("..."), 0);
}

#[test]
fn score_case_insensitive() {
    assert_eq!(score("HeLLo"), score("hello"));
    assert_eq!(score("QUARTZ"), score("quartz"));
    assert_eq!(score("Why"), 12);
}

#[test]
fn score_wraps_at_256() {
    // twenty-six q's are worth 260 points, which wraps to 4
    let word = "q".repeat(26);
    assert_eq!(score(&word), 4);
}

#[test]
fn word_score_getter() {
    let w = Word { word: String::from("hello"), score: 8 };
    assert_eq!(w.score(), 8);
}

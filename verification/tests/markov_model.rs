use peacenik::markov::{generate_markov, make_beatnik, MarkovInfo};
use peacenik::score::{score, Word};
use peacenik::words::get_words;

fn prog(scores: &[u8]) -> Vec<Word> {
    scores.iter().map(|s| Word { word: String::new(), score: *s }).collect()
}

#[test]
fn sample_scores_exact_on_empty_model() {
    // even an untrained model must return a word of exactly the asked
    // score, for every score
    let m = MarkovInfo::new();
    let last = String::new();
    for sc in [0u8, 1, 5, 9, 17, 23, 100, 200, 255] {
        let w = m.get_token(&last, sc);
        assert_eq!(score(&w), sc, "score mismatch for {} on word {:?}", sc, w);
    }
}

#[test]
fn empty_model_synthesizes_filler() {
    let m = MarkovInfo::new();
    let last = String::new();
    // 23 = two z's and three a's
    assert_eq!(m.get_token(&last, 23), "zzaaa");
    assert_eq!(m.get_token(&last, 250), "z".repeat(25));
}

#[test]
fn sample_scores_exact_on_trained_model() {
    let m = generate_markov("the quick brown fox jumps over the lazy dog. why? (no.)")
        .unwrap();
    let last = String::new();
    for sc in 0u8..=40 {
        let w = m.get_token(&last, sc);
        assert_eq!(score(&w), sc, "score mismatch for {} on word {:?}", sc, w);
    }
}

#[test]
fn trained_model_returns_corpus_word() {
    // with no punctuation in the corpus the draw is deterministic: the one
    // word that followed the beginning of the stream
    let m = generate_markov("hello world").unwrap();
    let w = m.get_token(&String::new(), 8);
    assert_eq!(w, "hello");
    let w2 = m.get_token(&String::from("hello"), 9);
    assert_eq!(w2, "world");
}

#[test]
fn lone_i_stays_plain_without_punctuation() {
    // with no zero-score bucket the draw takes the early path, which does
    // not capitalize
    let m = generate_markov("i am").unwrap();
    assert_eq!(m.get_token(&String::new(), 1), "i");
}

#[test]
fn lone_i_is_capitalized() {
    // an unknown context falls back to the whole-corpus table, which has a
    // zero-score bucket here; on that path a drawn lone i becomes I. The
    // only zero-score token is a bracket, which never triggers the
    // title-casing that would lowercase the I again, so whatever prefixes
    // the draw picks the result still ends in a capital I.
    let m = generate_markov("( i ( i").unwrap();
    let w = m.get_token(&String::from("unknown"), 1);
    assert_eq!(score(&w), 1);
    assert!(w.ends_with('I'), "expected a capital I, got {:?}", w);
}

#[test]
fn context_table_is_preferred() {
    // fox and fix both score 13; with the context given, the draw must
    // come from that context's own table
    let m = generate_markov("go fox. it fix").unwrap();
    assert_eq!(m.get_token(&String::from("go"), 13), "fox");
    assert_eq!(m.get_token(&String::from("it"), 13), "fix");
    // an unseen context falls back to the whole corpus, which may also
    // prefix punctuation; only the score is certain
    let fallback = m.get_token(&String::from("unseen"), 13);
    assert_eq!(score(&fallback), 13);
}

#[test]
fn add_token_then_sample() {
    let mut m = MarkovInfo::new();
    m.add_token(String::new(), &String::from("hello"));
    m.add_token(String::from("hello"), &String::from("world"));
    assert_eq!(m.get_token(&String::new(), 8), "hello");
}

#[test]
fn synthesize_empty_program() {
    let m = generate_markov("some words here").unwrap();
    assert_eq!(make_beatnik(&prog(&[]), &m), "");
}

#[test]
fn synthesize_round_trip() {
    // the central property: synthesized text re-tokenizes to exactly the
    // requested score sequence
    let corpus = "What a wonderful day for a walk, she said. Why not go further? \
                  The quick brown fox jumps over the lazy dog; everyone cheered.";
    let m = generate_markov(corpus).unwrap();
    let targets: Vec<u8> = vec![8, 6, 5, 1, 9, 13, 2, 17, 30, 200, 7];
    let text = make_beatnik(&prog(&targets), &m);
    let words_out = get_words(&text).unwrap();
    let scores_out: Vec<u8> = words_out.iter().map(|w| w.score).filter(|s| *s != 0).collect();
    assert_eq!(scores_out, targets, "synthesized text was {:?}", text);
}

#[test]
fn synthesize_starts_with_a_capital() {
    let m = generate_markov("hello world").unwrap();
    let text = make_beatnik(&prog(&[8]), &m);
    assert_eq!(text, "Hello");
}

#[test]
fn synthesize_separates_words_with_spaces() {
    let m = generate_markov("hello world").unwrap();
    let text = make_beatnik(&prog(&[8, 9]), &m);
    assert_eq!(text, "Hello world");
}

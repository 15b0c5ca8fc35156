use peacenik::tokens::{get_tokens, Token};
use peacenik::words::get_words;

#[test]
fn copes_with_utf_8() {
    get_tokens("why\u{2014}I").unwrap();
}

#[test]
fn em_dash_single_word() {
    // the em-dash continues a word instead of splitting it
    let words = get_words("why\u{2014}I").unwrap();
    assert_eq!(words.len(), 1);
    assert_eq!(words[0].word, "why\u{2014}I");
    assert_eq!(words[0].score, 13);
}

#[test]
fn em_dash_single_token() {
    let tokens = get_tokens("why\u{2014}I").unwrap();
    assert_eq!(tokens.len(), 1);
    assert_eq!(tokens[0], Token::Word(String::from("why\u{2014}I")));
    assert_eq!(tokens[0].clone().string(), "why\u{2014}i");
}

#[test]
fn words_drop_junk() {
    let words = get_words("one, two! 3 three?").unwrap();
    let texts: Vec<&str> = words.iter().map(|w| w.word.as_str()).collect();
    assert_eq!(texts, vec!["one", "two", "three"]);
}

#[test]
fn punctuation_tokens() {
    let tokens = get_tokens("a. b, c? (d) e: \"f\" 'g'\nh").unwrap();
    let mut kinds = Vec::new();
    for t in &tokens {
        kinds.push(match t {
            Token::Word(_) => "w",
            Token::FullStop => ".",
            Token::Comma => ",",
            Token::QuestionMark => "?",
            Token::OpenBracket => "(",
            Token::CloseBracket => ")",
            Token::Colon => ":",
            Token::Quote => "\"",
            Token::SingleQuote => "'",
            Token::Newline => "n",
            Token::Junk => "j",
            Token::Begin => "b",
        });
    }
    // the word rule swallows a trailing apostrophe: `g'` is one word
    assert_eq!(
        kinds,
        vec![
            "w", ".", "j", "w", ",", "j", "w", "?", "j", "(", "w", ")", "j", "w", ":", "j", "\"",
            "w", "\"", "j", "'", "w", "n", "w"
        ]
    );
}

#[test]
fn quote_runs_collapse() {
    // a run of quotation marks is a single token, as is a run of newlines
    let tokens = get_tokens("\"\"\u{201C}a\r\n\nb").unwrap();
    assert_eq!(tokens.len(), 4);
    assert!(matches!(tokens[0], Token::Quote));
    assert!(matches!(tokens[1], Token::Word(_)));
    assert!(matches!(tokens[2], Token::Newline));
    assert!(matches!(tokens[3], Token::Word(_)));
}

#[test]
fn token_renderings() {
    assert_eq!(Token::FullStop.string(), ". ");
    assert_eq!(Token::Comma.string(), ", ");
    assert_eq!(Token::Colon.string(), ": ");
    assert_eq!(Token::QuestionMark.string(), "? ");
    assert_eq!(Token::OpenBracket.string(), "(");
    assert_eq!(Token::CloseBracket.string(), ")");
    assert_eq!(Token::Quote.string(), "\"");
    assert_eq!(Token::SingleQuote.string(), "'");
    assert_eq!(Token::Newline.string(), "\n");
    assert_eq!(Token::Junk.string(), " ");
    assert_eq!(Token::Begin.string(), "");
    assert_eq!(Token::Word(String::from("AbC")).string(), "abc");
}

#[test]
fn word_rendering_is_unicode_lowercase() {
    // the canonical rendering lowercases beyond ASCII too
    assert_eq!(Token::Word(String::from("\u{c9}t\u{e9}")).string(), "\u{e9}t\u{e9}");
    // the capital dotted I expands to an i with a combining dot above
    assert_eq!(Token::Word(String::from("\u{130}")).string(), "i\u{307}");
}

#[test]
fn apostrophe_stays_in_word() {
    let words = get_words("don't stop").unwrap();
    assert_eq!(words.len(), 2);
    assert_eq!(words[0].word, "don't");
}

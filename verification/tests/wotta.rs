use peacenik::codec::{wottasquare_lines, wottasquare_text};
use peacenik::machine::action;
use peacenik::score::Word;
use peacenik::words::{get_wottas, ParseError};

fn prog(scores: &[u8]) -> Vec<Word> {
    scores.iter().map(|s| Word { word: String::new(), score: *s }).collect()
}

#[test]
fn wotta_lines_name_opcodes() {
    let lines = wottasquare_lines(&prog(&[5, 1, 17]));
    assert_eq!(lines, vec!["[5:PUSH]", "[1:NOP]", "[17:STOP]"]);
}

#[test]
fn command_names() {
    assert_eq!(action(13).name(), "SKIP_AHEAD_ZERO");
    assert_eq!(action(16).name(), "SKIP_BACK_NONZERO");
    assert_eq!(action(10).name(), "SUBTRACT");
}

#[test]
fn wotta_round_trip() {
    // encoding a score sequence and decoding it yields the same scores
    let scores: Vec<u8> = vec![5, 1, 9, 13, 2, 200, 255, 17];
    let text = wottasquare_text(&prog(&scores));
    let back = get_wottas(&text).unwrap();
    let out: Vec<u8> = back.iter().map(|w| w.score).collect();
    assert_eq!(out, scores);
}

#[test]
fn wotta_decodes_comments() {
    let words = get_wottas("[7:lovely words]\n[12:why]\n").unwrap();
    assert_eq!(words.len(), 2);
    assert_eq!(words[0].word, "lovely words");
    assert_eq!(words[0].score, 7);
    assert_eq!(words[1].word, "why");
    assert_eq!(words[1].score, 12);
}

#[test]
fn wotta_bracket_follows_bracket() {
    // a following bracket ends a line as well as a newline does
    let words = get_wottas("[1:a][2:b]\n").unwrap();
    assert_eq!(words.len(), 2);
    assert_eq!(words[1].score, 2);
}

#[test]
fn wotta_incomplete_final_bracket_is_dropped() {
    // input ending inside a bracket is treated as end of stream
    assert_eq!(get_wottas("[5:x").unwrap().len(), 0);
    assert_eq!(get_wottas("[12").unwrap().len(), 0);
    // even a complete bracket is dropped when the input ends right after
    // it, where a trailing newline could still have followed
    assert_eq!(get_wottas("[5:x]").unwrap().len(), 0);
    let words = get_wottas("[1:a]\n[5:x]").unwrap();
    assert_eq!(words.len(), 1);
    assert_eq!(words[0].score, 1);
}

#[test]
fn wotta_malformed_input() {
    match get_wottas("hello") {
        Err(ParseError::MalformedInput { offset, snippet }) => {
            assert_eq!(offset, 0);
            assert_eq!(snippet, "hello");
        },
        other => panic!("unexpected result: {:?}", other),
    }
}

#[test]
fn wotta_malformed_midway() {
    match get_wottas("[1:a]\nnope") {
        Err(ParseError::MalformedInput { offset, snippet }) => {
            assert_eq!(offset, 6);
            assert_eq!(snippet, "nope");
        },
        other => panic!("unexpected result: {:?}", other),
    }
}

#[test]
fn wotta_missing_comment_is_malformed() {
    assert!(matches!(
        get_wottas("[5]\n"),
        Err(ParseError::MalformedInput { .. })
    ));
    assert!(matches!(
        get_wottas("[5:]\n"),
        Err(ParseError::MalformedInput { .. })
    ));
}

#[test]
fn wotta_bad_score_literal() {
    match get_wottas("[999:abc]\n") {
        Err(ParseError::BadScoreLiteral { offset }) => assert_eq!(offset, 0),
        other => panic!("unexpected result: {:?}", other),
    }
    // scores up to 255 still fit
    assert_eq!(get_wottas("[255:abc]\n").unwrap()[0].score, 255);
}

#[test]
fn wotta_snippet_is_bounded() {
    let long = "x".repeat(80);
    match get_wottas(&long) {
        Err(ParseError::MalformedInput { offset, snippet }) => {
            assert_eq!(offset, 0);
            assert_eq!(snippet.len(), 50);
        },
        other => panic!("unexpected result: {:?}", other),
    }
}

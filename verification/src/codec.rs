//! The wottasquare encoder: each word becomes a line `[<score>:<name>]`
//! naming the instruction its score selects. Decoding such lines (the
//! decoder lives with the tokenizers) recovers exactly the score sequence.
use vstd::prelude::*;
use vstd::string::StringExecFns;

use crate::machine::{action, action_spec, scores_of, Command};
use crate::score::Word;
use crate::words::{digit_end, digit_value, digits_val, is_digit, nonbr_end, wotta_spec, WottaSpec};

verus! {

/// The decimal digit character for a value below ten.
pub open spec fn digit_char(d: int) -> char {
    if d == 0 {
        '0'
    } else if d == 1 {
        '1'
    } else if d == 2 {
        '2'
    } else if d == 3 {
        '3'
    } else if d == 4 {
        '4'
    } else if d == 5 {
        '5'
    } else if d == 6 {
        '6'
    } else if d == 7 {
        '7'
    } else if d == 8 {
        '8'
    } else {
        '9'
    }
}

/// The decimal rendering of a number, without leading zeroes.
pub open spec fn dec_digits(n: nat) -> Seq<char>
    decreases n,
{
    if n < 10 {
        seq![digit_char(n as int)]
    } else {
        dec_digits(n / 10).push(digit_char((n % 10) as int))
    }
}

/// The name of an instruction, as it appears in a wottasquare comment.
pub open spec fn command_name(c: Command) -> Seq<char> {
    match c {
        Command::PUSH => seq!['P', 'U', 'S', 'H'],
        Command::DISCARD => seq!['D', 'I', 'S', 'C', 'A', 'R', 'D'],
        Command::ADD => seq!['A', 'D', 'D'],
        Command::INPUT => seq!['I', 'N', 'P', 'U', 'T'],
        Command::OUTPUT => seq!['O', 'U', 'T', 'P', 'U', 'T'],
        Command::SUBTRACT => seq!['S', 'U', 'B', 'T', 'R', 'A', 'C', 'T'],
        Command::SWAP => seq!['S', 'W', 'A', 'P'],
        Command::DUP => seq!['D', 'U', 'P'],
        Command::SKIP_AHEAD_ZERO => seq![
            'S',
            'K',
            'I',
            'P',
            '_',
            'A',
            'H',
            'E',
            'A',
            'D',
            '_',
            'Z',
            'E',
            'R',
            'O',
        ],
        Command::SKIP_AHEAD_NONZERO => seq![
            'S',
            'K',
            'I',
            'P',
            '_',
            'A',
            'H',
            'E',
            'A',
            'D',
            '_',
            'N',
            'O',
            'N',
            'Z',
            'E',
            'R',
            'O',
        ],
        Command::SKIP_BACK_ZERO => seq![
            'S',
            'K',
            'I',
            'P',
            '_',
            'B',
            'A',
            'C',
            'K',
            '_',
            'Z',
            'E',
            'R',
            'O',
        ],
        Command::SKIP_BACK_NONZERO => seq![
            'S',
            'K',
            'I',
            'P',
            '_',
            'B',
            'A',
            'C',
            'K',
            '_',
            'N',
            'O',
            'N',
            'Z',
            'E',
            'R',
            'O',
        ],
        Command::STOP => seq!['S', 'T', 'O', 'P'],
        Command::NOP => seq!['N', 'O', 'P'],
    }
}

impl Command {
    /// The instruction's name.
    pub fn name(&self) -> (r: String)
        ensures
            r@ == command_name(*self),
    {
        match self {
            Command::PUSH => {
                let r = String::from_str("PUSH");
                proof {
                    reveal_strlit("PUSH");
                    assert(r@ =~= command_name(Command::PUSH));
                }
                r
            },
            Command::DISCARD => {
                let r = String::from_str("DISCARD");
                proof {
                    reveal_strlit("DISCARD");
                    assert(r@ =~= command_name(Command::DISCARD));
                }
                r
            },
            Command::ADD => {
                let r = String::from_str("ADD");
                proof {
                    reveal_strlit("ADD");
                    assert(r@ =~= command_name(Command::ADD));
                }
                r
            },
            Command::INPUT => {
                let r = String::from_str("INPUT");
                proof {
                    reveal_strlit("INPUT");
                    assert(r@ =~= command_name(Command::INPUT));
                }
                r
            },
            Command::OUTPUT => {
                let r = String::from_str("OUTPUT");
                proof {
                    reveal_strlit("OUTPUT");
                    assert(r@ =~= command_name(Command::OUTPUT));
                }
                r
            },
            Command::SUBTRACT => {
                let r = String::from_str("SUBTRACT");
                proof {
                    reveal_strlit("SUBTRACT");
                    assert(r@ =~= command_name(Command::SUBTRACT));
                }
                r
            },
            Command::SWAP => {
                let r = String::from_str("SWAP");
                proof {
                    reveal_strlit("SWAP");
                    assert(r@ =~= command_name(Command::SWAP));
                }
                r
            },
            Command::DUP => {
                let r = String::from_str("DUP");
                proof {
                    reveal_strlit("DUP");
                    assert(r@ =~= command_name(Command::DUP));
                }
                r
            },
            Command::SKIP_AHEAD_ZERO => {
                let r = String::from_str("SKIP_AHEAD_ZERO");
                proof {
                    reveal_strlit("SKIP_AHEAD_ZERO");
                    assert(r@ =~= command_name(Command::SKIP_AHEAD_ZERO));
                }
                r
            },
            Command::SKIP_AHEAD_NONZERO => {
                let r = String::from_str("SKIP_AHEAD_NONZERO");
                proof {
                    reveal_strlit("SKIP_AHEAD_NONZERO");
                    assert(r@ =~= command_name(Command::SKIP_AHEAD_NONZERO));
                }
                r
            },
            Command::SKIP_BACK_ZERO => {
                let r = String::from_str("SKIP_BACK_ZERO");
                proof {
                    reveal_strlit("SKIP_BACK_ZERO");
                    assert(r@ =~= command_name(Command::SKIP_BACK_ZERO));
                }
                r
            },
            Command::SKIP_BACK_NONZERO => {
                let r = String::from_str("SKIP_BACK_NONZERO");
                proof {
                    reveal_strlit("SKIP_BACK_NONZERO");
                    assert(r@ =~= command_name(Command::SKIP_BACK_NONZERO));
                }
                r
            },
            Command::STOP => {
                let r = String::from_str("STOP");
                proof {
                    reveal_strlit("STOP");
                    assert(r@ =~= command_name(Command::STOP));
                }
                r
            },
            Command::NOP => {
                let r = String::from_str("NOP");
                proof {
                    reveal_strlit("NOP");
                    assert(r@ =~= command_name(Command::NOP));
                }
                r
            },
        }
    }
}

/// The decimal rendering of a score.
pub fn score_digits(n: u8) -> (r: String)
    ensures
        r@ == dec_digits(n as nat),
{
    let mut r = String::new();
    if n >= 100 {
        crate::chars::push_char(&mut r, digit_of(n / 100));
        crate::chars::push_char(&mut r, digit_of((n / 10) % 10));
        crate::chars::push_char(&mut r, digit_of(n % 10));
        proof {
            vstd::arithmetic::div_mod::lemma_div_denominator(n as int, 10, 10);
            assert(dec_digits(n as nat) == dec_digits((n as nat) / 10).push(
                digit_char((n as nat % 10) as int),
            ));
            assert(dec_digits((n as nat) / 10) == dec_digits((n as nat) / 10 / 10).push(
                digit_char(((n as nat) / 10 % 10) as int),
            ));
            assert((n as nat) / 10 / 10 == (n as nat) / 100);
            assert(r@ =~= dec_digits(n as nat));
        }
    } else if n >= 10 {
        crate::chars::push_char(&mut r, digit_of(n / 10));
        crate::chars::push_char(&mut r, digit_of(n % 10));
        proof {
            assert(dec_digits(n as nat) == dec_digits((n as nat) / 10).push(
                digit_char((n as nat % 10) as int),
            ));
            assert(r@ =~= dec_digits(n as nat));
        }
    } else {
        crate::chars::push_char(&mut r, digit_of(n));
        proof {
            assert(r@ =~= dec_digits(n as nat));
        }
    }
    r
}

fn digit_of(d: u8) -> (r: char)
    requires
        d < 10,
    ensures
        r == digit_char(d as int),
{
    match d {
        0 => '0',
        1 => '1',
        2 => '2',
        3 => '3',
        4 => '4',
        5 => '5',
        6 => '6',
        7 => '7',
        8 => '8',
        _ => '9',
    }
}

/// One encoded line: the score in decimal, then the name of the instruction
/// it selects, in brackets.
pub open spec fn line_spec(sc: u8) -> Seq<char> {
    seq!['['] + dec_digits(sc as nat) + seq![':'] + command_name(action_spec(sc)) + seq![']']
}

/// A whole encoded program: one line per word, each ended by a newline.
pub open spec fn encode_all(scores: Seq<u8>) -> Seq<char>
    decreases scores.len(),
{
    if scores.len() == 0 {
        Seq::empty()
    } else {
        line_spec(scores[0]) + seq!['\n'] + encode_all(scores.drop_first())
    }
}

/// The wottasquare lines for a program, one per word, without newlines.
pub fn wottasquare_lines(words: &Vec<Word>) -> (r: Vec<String>)
    ensures
        r@.len() == words@.len(),
        forall|k: int| 0 <= k < words@.len() ==> (#[trigger] r@[k])@ == line_spec(words@[k].score),
{
    let mut r: Vec<String> = Vec::new();
    let mut i: usize = 0;
    while i < words.len()
        invariant
            i <= words@.len(),
            r@.len() == i,
            forall|k: int| 0 <= k < i ==> (#[trigger] r@[k])@ == line_spec(words@[k].score),
        decreases words@.len() - i,
    {
        let sc = words[i].score;
        let mut line = String::new();
        crate::chars::push_char(&mut line, '[');
        line.append(score_digits(sc).as_str());
        crate::chars::push_char(&mut line, ':');
        line.append(action(sc).name().as_str());
        crate::chars::push_char(&mut line, ']');
        proof {
            assert(line@ =~= line_spec(sc));
        }
        r.push(line);
        i = i + 1;
    }
    r
}

/// The whole encoded program as one text, each line ended by a newline.
pub fn wottasquare_text(words: &Vec<Word>) -> (r: String)
    ensures
        r@ == encode_all(scores_of(words@)),
{
    let lines = wottasquare_lines(words);
    let mut r = String::new();
    let mut i: usize = 0;
    while i < lines.len()
        invariant
            i <= lines@.len(),
            lines@.len() == words@.len(),
            forall|k: int|
                0 <= k < words@.len() ==> (#[trigger] lines@[k])@ == line_spec(words@[k].score),
            r@ == encode_all(scores_of(words@.subrange(0, i as int))),
        decreases lines@.len() - i,
    {
        line_append(&mut r, &lines[i]);
        i = i + 1;
        proof {
            lemma_encode_all_push(words@.map_values(|w: Word| w.score), i as int);
            assert(scores_of(words@.subrange(0, i as int)) =~= scores_of(words@).subrange(
                0,
                i as int,
            ));
            assert(scores_of(words@.subrange(0, i - 1)) =~= scores_of(words@).subrange(0, i - 1));
        }
    }
    proof {
        assert(words@.subrange(0, words@.len() as int) =~= words@);
    }
    r
}

fn line_append(r: &mut String, line: &String)
    ensures
        final(r)@ == old(r)@ + line@ + seq!['\n'],
{
    r.append(line.as_str());
    crate::chars::push_char(r, '\n');
    proof {
        assert(old(r)@ + line@ + seq!['\n'] =~= (old(r)@ + line@).push('\n'));
    }
}

/// Every character of a decimal rendering is a digit.
proof fn lemma_dec_digits_are_digits(n: nat)
    ensures
        dec_digits(n).len() >= 1,
        forall|k: int| 0 <= k < dec_digits(n).len() ==> is_digit(#[trigger] dec_digits(n)[k]),
    decreases n,
{
    if n >= 10 {
        lemma_dec_digits_are_digits(n / 10);
    }
}

/// The value of a digit run depends only on the characters it covers.
proof fn lemma_digits_val_congruent(s: Seq<char>, t: Seq<char>, i: int, j: int, shift: int)
    requires
        forall|k: int| i <= k < j ==> #[trigger] s[k] == t[k + shift],
    ensures
        digits_val(s, i, j) == digits_val(t, i + shift, j + shift),
    decreases j - i,
{
    if i < j {
        lemma_digits_val_congruent(s, t, i, j - 1, shift);
    }
}

/// A decimal rendering evaluates back to the number it renders.
proof fn lemma_dec_digits_value(n: nat)
    ensures
        digits_val(dec_digits(n), 0, dec_digits(n).len() as int) == n,
    decreases n,
{
    if n < 10 {
        assert(digits_val(dec_digits(n), 0, 0) == 0);
        assert(digits_val(dec_digits(n), 0, 1) == digit_value(dec_digits(n)[0]));
    } else {
        lemma_dec_digits_value(n / 10);
        let d = dec_digits(n / 10);
        let full = dec_digits(n);
        let len = full.len() as int;
        assert(full == d.push(digit_char((n % 10) as int)));
        assert(forall|k: int| 0 <= k < d.len() ==> #[trigger] d[k] == full[k + 0]);
        lemma_digits_val_congruent(d, full, 0, d.len() as int, 0);
        assert(digits_val(full, 0, len) == digits_val(full, 0, len - 1) * 10 + digit_value(
            full[len - 1],
        ));
    }
}

/// No instruction name contains a closing bracket.
proof fn lemma_name_no_br(c: Command)
    ensures
        command_name(c).len() >= 3,
        forall|k: int| 0 <= k < command_name(c).len() ==> #[trigger] command_name(c)[k] != ']',
{
}

/// Decoding a tail that is exactly an encoded program yields its scores.
proof fn lemma_parse_encoded(s: Seq<char>, i: int, scores: Seq<u8>)
    requires
        0 <= i <= s.len(),
        s.subrange(i, s.len() as int) == encode_all(scores),
    ensures
        wotta_spec(s, i) matches WottaSpec::Done(ws) && ws.len() == scores.len() && (forall|k: int|
            0 <= k < scores.len() ==> (#[trigger] ws[k]).1 == scores[k] && ws[k].0 == command_name(
                action_spec(scores[k]),
            )),
    decreases scores.len(),
{
    let n = s.len() as int;
    let enc = encode_all(scores);
    assert(forall|t: int| 0 <= t < n - i ==> #[trigger] s[i + t] == enc[t]) by {
        assert(forall|t: int|
            0 <= t < n - i ==> #[trigger] enc[t] == s.subrange(i, s.len() as int)[t]);
    }
    if scores.len() == 0 {
        assert(n - i == 0);
    } else {
        let sc = scores[0];
        let rest = scores.drop_first();
        let dd = dec_digits(sc as nat);
        let nm = command_name(action_spec(sc));
        let line = line_spec(sc);
        let d = dd.len() as int;
        let w = nm.len() as int;
        lemma_dec_digits_are_digits(sc as nat);
        lemma_name_no_br(action_spec(sc));
        assert(enc == line + seq!['\n'] + encode_all(rest));
        assert(line.len() == d + w + 3);
        assert(n - i == enc.len());
        // the characters of the line, region by region
        assert(line[0] == '[');
        assert(forall|t: int| 0 <= t < d ==> #[trigger] line[1 + t] == dd[t]);
        assert(line[1 + d] == ':');
        assert(forall|t: int| 0 <= t < w ==> #[trigger] line[2 + d + t] == nm[t]);
        assert(line[2 + d + w] == ']');
        assert(forall|t: int| 0 <= t < line.len() ==> #[trigger] enc[t] == line[t]);
        assert(enc[line.len() as int] == '\n');
        assert(s[i] == '[') by {
            assert(s[i + 0] == enc[0]);
        }
        assert forall|k: int| i + 1 <= k < i + 1 + d implies is_digit(#[trigger] s[k]) by {
            let t = k - i;
            assert(s[i + t] == enc[t]);
            assert(enc[t] == line[t]);
            assert(line[1 + (t - 1)] == dd[t - 1]);
        }
        assert(s[i + 1 + d] == ':') by {
            assert(s[i + (1 + d)] == enc[1 + d]);
            assert(enc[1 + d] == line[1 + d]);
        }
        assert(!is_digit(':'));
        crate::words::lemma_digit_end_of_run(s, i + 1, i + 1 + d);
        assert(digit_end(s, i + 1) == i + 1 + d);
        assert forall|k: int| i + 2 + d <= k < i + 2 + d + w implies #[trigger] s[k] != ']' by {
            let t = k - i;
            assert(s[i + t] == enc[t]);
            assert(enc[t] == line[t]);
            assert(line[2 + d + (t - 2 - d)] == nm[t - 2 - d]);
        }
        assert(s[i + 2 + d + w] == ']') by {
            assert(s[i + (2 + d + w)] == enc[2 + d + w]);
            assert(enc[2 + d + w] == line[2 + d + w]);
        }
        crate::words::lemma_nonbr_end_of_run(s, i + 2 + d, i + 2 + d + w);
        assert(nonbr_end(s, i + 2 + d) == i + 2 + d + w);
        assert(s[i + 3 + d + w] == '\n') by {
            assert(s[i + (3 + d + w)] == enc[3 + d + w]);
        }
        let m = i + 4 + d + w;
        assert(m <= n);
        // the score field reads back as the score
        assert forall|t: int| 0 <= t < d implies #[trigger] dd[t] == s[t + (i + 1)] by {
            assert(s[i + (1 + t)] == enc[1 + t]);
            assert(enc[1 + t] == line[1 + t]);
            assert(line[1 + t] == dd[t]);
        }
        lemma_digits_val_congruent(dd, s, 0, d, i + 1);
        lemma_dec_digits_value(sc as nat);
        assert(digits_val(s, i + 1, i + 1 + d) == sc);
        // the rest of the text is the encoding of the remaining scores
        assert(s.subrange(m, n) =~= encode_all(rest)) by {
            assert(forall|t: int|
                0 <= t < n - m ==> #[trigger] s.subrange(m, n)[t] == enc[line.len() + 1 + t]);
            assert(forall|t: int|
                0 <= t < n - m ==> #[trigger] enc[line.len() + 1 + t] == encode_all(rest)[t]);
        }
        lemma_parse_encoded(s, m, rest);
        let wsr = wotta_spec(s, m)->Done_0;
        assert(s.subrange(i + 2 + d, i + 2 + d + w) =~= nm) by {
            assert forall|t: int| 0 <= t < w implies #[trigger] s.subrange(
                i + 2 + d,
                i + 2 + d + w,
            )[t] == nm[t] by {
                assert(s[i + (2 + d + t)] == enc[2 + d + t]);
                assert(enc[2 + d + t] == line[2 + d + t]);
                assert(line[2 + d + (t)] == nm[t]);
            }
        }
        assert(wotta_spec(s, i) == WottaSpec::Done(
            seq![(s.subrange(i + 2 + d, i + 2 + d + w), sc)] + wsr,
        ));
    }
}

/// Encoding a program as wottasquare and decoding the text again yields
/// exactly the original score sequence, each word carrying the name of its
/// instruction as the comment: the codec round-trips scores.
pub proof fn lemma_wottasquare_round_trip(scores: Seq<u8>)
    ensures
        wotta_spec(encode_all(scores), 0) matches WottaSpec::Done(ws) && ws.len() == scores.len()
            && (forall|k: int|
            0 <= k < scores.len() ==> (#[trigger] ws[k]).1 == scores[k] && ws[k].0 == command_name(
                action_spec(scores[k]),
            )),
{
    let enc = encode_all(scores);
    assert(enc.subrange(0, enc.len() as int) =~= enc);
    lemma_parse_encoded(enc, 0, scores);
}

/// Encoding one more word appends its line.
proof fn lemma_encode_all_push(scores: Seq<u8>, i: int)
    requires
        0 < i <= scores.len(),
    ensures
        encode_all(scores.subrange(0, i)) == encode_all(scores.subrange(0, i - 1)) + line_spec(
            scores[i - 1],
        ) + seq!['\n'],
    decreases i,
{
    if i == 1 {
        assert(scores.subrange(0, 1).drop_first() =~= Seq::<u8>::empty());
        assert(scores.subrange(0, 0) =~= Seq::<u8>::empty());
        assert(encode_all(scores.subrange(0, 1)) == line_spec(scores[0]) + seq!['\n'] + encode_all(
            Seq::empty(),
        ));
        assert(encode_all(scores.subrange(0, 1)) =~= encode_all(scores.subrange(0, 0)) + line_spec(
            scores[0],
        ) + seq!['\n']);
    } else {
        let a = scores.subrange(0, i);
        let b = scores.subrange(0, i - 1);
        assert(a.drop_first() =~= scores.subrange(1, scores.len() as int).subrange(0, i - 1));
        assert(b.drop_first() =~= scores.subrange(1, scores.len() as int).subrange(0, i - 2));
        lemma_encode_all_push(scores.subrange(1, scores.len() as int), i - 1);
        assert(a[0] == scores[0] && b[0] == scores[0]);
        assert(encode_all(a) == line_spec(scores[0]) + seq!['\n'] + encode_all(a.drop_first()));
        assert(encode_all(b) == line_spec(scores[0]) + seq!['\n'] + encode_all(b.drop_first()));
        assert(scores.subrange(1, scores.len() as int)[i - 2] == scores[i - 1]);
        assert(encode_all(a) =~= encode_all(b) + line_spec(scores[i - 1]) + seq!['\n']);
    }
}

} // verus!

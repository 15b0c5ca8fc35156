//! The prose tokenizer that feeds the Markov trainer. It recognises the
//! structural punctuation of English text, words under the same grammar as
//! the word/junk tokenizer, and a one-character junk rule for everything
//! else, so it is total.
use vstd::prelude::*;
use vstd::string::StringExecFns;

use crate::chars::{
    alphabetic, ascii_seq, chars_of, is_alpha, lower_of, lower_seq, lowercase, string_of, subvec,
};
use crate::words::{cont_end, lemma_cont_end_bounds, scan_cont, ParseError};

verus! {

/// A token of prose text. Each token has a canonical lowercase rendering,
/// given by `string`.
#[derive(Debug, PartialEq, Eq, Clone)]
pub enum Token {
    Junk,
    Comma,
    FullStop,
    QuestionMark,
    OpenBracket,
    CloseBracket,
    Colon,
    Quote,
    SingleQuote,
    Newline,
    Word(String),
    Begin,
}

/// The shape of a token, with word text as a character sequence.
pub enum TokenView {
    Junk,
    Comma,
    FullStop,
    QuestionMark,
    OpenBracket,
    CloseBracket,
    Colon,
    Quote,
    SingleQuote,
    Newline,
    Word(Seq<char>),
    Begin,
}

impl View for Token {
    type V = TokenView;

    open spec fn view(&self) -> TokenView {
        match self {
            Token::Junk => TokenView::Junk,
            Token::Comma => TokenView::Comma,
            Token::FullStop => TokenView::FullStop,
            Token::QuestionMark => TokenView::QuestionMark,
            Token::OpenBracket => TokenView::OpenBracket,
            Token::CloseBracket => TokenView::CloseBracket,
            Token::Colon => TokenView::Colon,
            Token::Quote => TokenView::Quote,
            Token::SingleQuote => TokenView::SingleQuote,
            Token::Newline => TokenView::Newline,
            Token::Word(w) => TokenView::Word(w@),
            Token::Begin => TokenView::Begin,
        }
    }
}

/// The canonical lowercase rendering of a token: a word's text under the
/// Unicode lowercasing, a structural token's fixed short string.
pub open spec fn token_string(t: TokenView) -> Seq<char> {
    match t {
        TokenView::Word(w) => lower_of(w),
        TokenView::Junk => seq![' '],
        TokenView::Comma => seq![',', ' '],
        TokenView::FullStop => seq!['.', ' '],
        TokenView::QuestionMark => seq!['?', ' '],
        TokenView::OpenBracket => seq!['('],
        TokenView::CloseBracket => seq![')'],
        TokenView::Colon => seq![':', ' '],
        TokenView::Quote => seq!['"'],
        TokenView::SingleQuote => seq!['\''],
        TokenView::Newline => seq!['\n'],
        TokenView::Begin => Seq::empty(),
    }
}

impl Token {
    /// The token's canonical lowercase rendering.
    pub fn string(self: Token) -> (r: String)
        ensures
            r@ == token_string(self@),
            (self@ matches TokenView::Word(w) && ascii_seq(w)) ==> r@ == lower_seq(
                self@->Word_0,
            ),
    {
        self.render()
    }

    /// The token's canonical lowercase rendering, without consuming it.
    pub fn render(&self) -> (r: String)
        ensures
            r@ == token_string(self@),
            (self@ matches TokenView::Word(w) && ascii_seq(w)) ==> r@ == lower_seq(
                self@->Word_0,
            ),
    {
        match self {
            Token::Word(word) => lowercase(word.as_str()),
            Token::Junk => {
                let r = String::from_str(" ");
                proof {
                    reveal_strlit(" ");
                    assert(r@ =~= seq![' ']);
                }
                r
            },
            Token::Comma => {
                let r = String::from_str(", ");
                proof {
                    reveal_strlit(", ");
                    assert(r@ =~= seq![',', ' ']);
                }
                r
            },
            Token::FullStop => {
                let r = String::from_str(". ");
                proof {
                    reveal_strlit(". ");
                    assert(r@ =~= seq!['.', ' ']);
                }
                r
            },
            Token::QuestionMark => {
                let r = String::from_str("? ");
                proof {
                    reveal_strlit("? ");
                    assert(r@ =~= seq!['?', ' ']);
                }
                r
            },
            Token::OpenBracket => {
                let r = String::from_str("(");
                proof {
                    reveal_strlit("(");
                    assert(r@ =~= seq!['(']);
                }
                r
            },
            Token::CloseBracket => {
                let r = String::from_str(")");
                proof {
                    reveal_strlit(")");
                    assert(r@ =~= seq![')']);
                }
                r
            },
            Token::Colon => {
                let r = String::from_str(": ");
                proof {
                    reveal_strlit(": ");
                    assert(r@ =~= seq![':', ' ']);
                }
                r
            },
            Token::Quote => {
                let r = String::from_str("\"");
                proof {
                    reveal_strlit("\"");
                    assert(r@ =~= seq!['"']);
                }
                r
            },
            Token::SingleQuote => {
                let r = String::from_str("\'");
                proof {
                    reveal_strlit("\'");
                    assert(r@ =~= seq!['\'']);
                }
                r
            },
            Token::Newline => {
                let r = String::from_str("\n");
                proof {
                    reveal_strlit("\n");
                    assert(r@ =~= seq!['\n']);
                }
                r
            },
            Token::Begin => String::new(),
        }
    }
}

pub open spec fn is_quote_char(c: char) -> bool {
    c == '"' || c == '\u{201C}' || c == '\u{201D}'
}

pub open spec fn is_nl_char(c: char) -> bool {
    c == '\r' || c == '\n'
}

/// End of the run of quotation characters that begins at `i`.
pub open spec fn quote_end(s: Seq<char>, i: int) -> int
    decreases s.len() - i,
{
    if 0 <= i < s.len() && is_quote_char(s[i]) {
        quote_end(s, i + 1)
    } else {
        i
    }
}

/// End of the run of line-break characters that begins at `i`.
pub open spec fn nl_end(s: Seq<char>, i: int) -> int
    decreases s.len() - i,
{
    if 0 <= i < s.len() && is_nl_char(s[i]) {
        nl_end(s, i + 1)
    } else {
        i
    }
}

/// End of the run of straight apostrophes that begins at `i`.
pub open spec fn squote_end(s: Seq<char>, i: int) -> int
    decreases s.len() - i,
{
    if 0 <= i < s.len() && s[i] == '\'' {
        squote_end(s, i + 1)
    } else {
        i
    }
}

pub proof fn lemma_quote_end_bounds(s: Seq<char>, i: int)
    requires
        0 <= i <= s.len(),
    ensures
        i <= quote_end(s, i) <= s.len(),
    decreases s.len() - i,
{
    if i < s.len() && is_quote_char(s[i]) {
        lemma_quote_end_bounds(s, i + 1);
    }
}

pub proof fn lemma_nl_end_bounds(s: Seq<char>, i: int)
    requires
        0 <= i <= s.len(),
    ensures
        i <= nl_end(s, i) <= s.len(),
    decreases s.len() - i,
{
    if i < s.len() && is_nl_char(s[i]) {
        lemma_nl_end_bounds(s, i + 1);
    }
}

pub proof fn lemma_squote_end_bounds(s: Seq<char>, i: int)
    requires
        0 <= i <= s.len(),
    ensures
        i <= squote_end(s, i) <= s.len(),
    decreases s.len() - i,
{
    if i < s.len() && s[i] == '\'' {
        lemma_squote_end_bounds(s, i + 1);
    }
}

proof fn lemma_quote_end_of_run(s: Seq<char>, i: int, j: int)
    requires
        0 <= i <= j <= s.len(),
        forall|k: int| i <= k < j ==> is_quote_char(#[trigger] s[k]),
        j == s.len() || !is_quote_char(s[j]),
    ensures
        quote_end(s, i) == j,
    decreases j - i,
{
    if i < j {
        lemma_quote_end_of_run(s, i + 1, j);
    }
}

proof fn lemma_nl_end_of_run(s: Seq<char>, i: int, j: int)
    requires
        0 <= i <= j <= s.len(),
        forall|k: int| i <= k < j ==> is_nl_char(#[trigger] s[k]),
        j == s.len() || !is_nl_char(s[j]),
    ensures
        nl_end(s, i) == j,
    decreases j - i,
{
    if i < j {
        lemma_nl_end_of_run(s, i + 1, j);
    }
}

proof fn lemma_squote_end_of_run(s: Seq<char>, i: int, j: int)
    requires
        0 <= i <= j <= s.len(),
        forall|k: int| i <= k < j ==> #[trigger] s[k] == '\'',
        j == s.len() || s[j] != '\'',
    ensures
        squote_end(s, i) == j,
    decreases j - i,
{
    if i < j {
        lemma_squote_end_of_run(s, i + 1, j);
    }
}

/// The tokens of the input from position `i` on. The rules are tried in a
/// fixed order: the single punctuation marks, then runs of quotes, line
/// breaks and apostrophes, then words, then one character of junk.
pub open spec fn tokens_spec(s: Seq<char>, i: int) -> Seq<TokenView>
    decreases s.len() - i when 0 <= i via tokens_spec_decreases
{
    if i >= s.len() {
        Seq::empty()
    } else {
        let c = s[i];
        if c == '.' {
            seq![TokenView::FullStop] + tokens_spec(s, i + 1)
        } else if c == ',' {
            seq![TokenView::Comma] + tokens_spec(s, i + 1)
        } else if c == ':' {
            seq![TokenView::Colon] + tokens_spec(s, i + 1)
        } else if c == '?' {
            seq![TokenView::QuestionMark] + tokens_spec(s, i + 1)
        } else if c == '(' {
            seq![TokenView::OpenBracket] + tokens_spec(s, i + 1)
        } else if c == ')' {
            seq![TokenView::CloseBracket] + tokens_spec(s, i + 1)
        } else if is_quote_char(c) {
            seq![TokenView::Quote] + tokens_spec(s, quote_end(s, i + 1))
        } else if is_nl_char(c) {
            seq![TokenView::Newline] + tokens_spec(s, nl_end(s, i + 1))
        } else if c == '\'' {
            seq![TokenView::SingleQuote] + tokens_spec(s, squote_end(s, i + 1))
        } else if is_alpha(c) {
            seq![TokenView::Word(s.subrange(i, cont_end(s, i + 1)))] + tokens_spec(
                s,
                cont_end(s, i + 1),
            )
        } else {
            seq![TokenView::Junk] + tokens_spec(s, i + 1)
        }
    }
}

#[via_fn]
proof fn tokens_spec_decreases(s: Seq<char>, i: int) {
    if 0 <= i < s.len() {
        lemma_quote_end_bounds(s, i + 1);
        lemma_nl_end_bounds(s, i + 1);
        lemma_squote_end_bounds(s, i + 1);
        lemma_cont_end_bounds(s, i + 1);
    }
}

fn quote_char(c: char) -> (r: bool)
    ensures
        r == is_quote_char(c),
{
    c == '"' || c == '\u{201C}' || c == '\u{201D}'
}

fn nl_char(c: char) -> (r: bool)
    ensures
        r == is_nl_char(c),
{
    c == '\r' || c == '\n'
}

fn scan_quotes(v: &Vec<char>, i: usize) -> (j: usize)
    requires
        i <= v@.len(),
    ensures
        j == quote_end(v@, i as int),
        i <= j <= v@.len(),
{
    let n = v.len();
    let mut j = i;
    loop
        invariant
            i <= j <= n,
            n == v@.len(),
            forall|k: int| i <= k < j ==> is_quote_char(#[trigger] v@[k]),
        ensures
            j == quote_end(v@, i as int),
            i <= j <= n,
        decreases n - j,
    {
        if j == n {
            proof {
                lemma_quote_end_of_run(v@, i as int, j as int);
            }
            break;
        }
        if !quote_char(v[j]) {
            proof {
                lemma_quote_end_of_run(v@, i as int, j as int);
            }
            break;
        }
        j = j + 1;
    }
    j
}

fn scan_newlines(v: &Vec<char>, i: usize) -> (j: usize)
    requires
        i <= v@.len(),
    ensures
        j == nl_end(v@, i as int),
        i <= j <= v@.len(),
{
    let n = v.len();
    let mut j = i;
    loop
        invariant
            i <= j <= n,
            n == v@.len(),
            forall|k: int| i <= k < j ==> is_nl_char(#[trigger] v@[k]),
        ensures
            j == nl_end(v@, i as int),
            i <= j <= n,
        decreases n - j,
    {
        if j == n {
            proof {
                lemma_nl_end_of_run(v@, i as int, j as int);
            }
            break;
        }
        if !nl_char(v[j]) {
            proof {
                lemma_nl_end_of_run(v@, i as int, j as int);
            }
            break;
        }
        j = j + 1;
    }
    j
}

fn scan_squotes(v: &Vec<char>, i: usize) -> (j: usize)
    requires
        i <= v@.len(),
    ensures
        j == squote_end(v@, i as int),
        i <= j <= v@.len(),
{
    let n = v.len();
    let mut j = i;
    loop
        invariant
            i <= j <= n,
            n == v@.len(),
            forall|k: int| i <= k < j ==> #[trigger] v@[k] == '\'',
        ensures
            j == squote_end(v@, i as int),
            i <= j <= n,
        decreases n - j,
    {
        if j == n {
            proof {
                lemma_squote_end_of_run(v@, i as int, j as int);
            }
            break;
        }
        if v[j] != '\'' {
            proof {
                lemma_squote_end_of_run(v@, i as int, j as int);
            }
            break;
        }
        j = j + 1;
    }
    j
}

/// Splits prose into tokens. The grammar is total, so this never fails.
pub fn get_tokens(buffer: &str) -> (r: Result<Vec<Token>, ParseError>)
    ensures
        r matches Ok(v) && v@.map_values(|t: Token| t@) == tokens_spec(buffer@, 0),
{
    let v = chars_of(buffer);
    let n = v.len();
    let mut tokens: Vec<Token> = Vec::new();
    let mut i: usize = 0;
    while i < n
        invariant
            i <= n,
            n == v@.len(),
            v@ == buffer@,
            tokens_spec(buffer@, 0) == tokens@.map_values(|t: Token| t@) + tokens_spec(
                buffer@,
                i as int,
            ),
        decreases n - i,
    {
        let ghost done = tokens@.map_values(|t: Token| t@);
        let c = v[i];
        let next: usize;
        if c == '.' {
            tokens.push(Token::FullStop);
            next = i + 1;
        } else if c == ',' {
            tokens.push(Token::Comma);
            next = i + 1;
        } else if c == ':' {
            tokens.push(Token::Colon);
            next = i + 1;
        } else if c == '?' {
            tokens.push(Token::QuestionMark);
            next = i + 1;
        } else if c == '(' {
            tokens.push(Token::OpenBracket);
            next = i + 1;
        } else if c == ')' {
            tokens.push(Token::CloseBracket);
            next = i + 1;
        } else if quote_char(c) {
            tokens.push(Token::Quote);
            next = scan_quotes(&v, i + 1);
        } else if nl_char(c) {
            tokens.push(Token::Newline);
            next = scan_newlines(&v, i + 1);
        } else if c == '\'' {
            tokens.push(Token::SingleQuote);
            next = scan_squotes(&v, i + 1);
        } else if alphabetic(c) {
            let j = scan_cont(&v, i + 1);
            let text = string_of(&subvec(&v, i, j));
            tokens.push(Token::Word(text));
            next = j;
        } else {
            tokens.push(Token::Junk);
            next = i + 1;
        }
        proof {
            assert(tokens@.map_values(|t: Token| t@) =~= done.push(tokens@.last()@));
            assert(tokens_spec(buffer@, i as int) == seq![tokens@.last()@] + tokens_spec(
                buffer@,
                next as int,
            ));
            assert(done + (seq![tokens@.last()@] + tokens_spec(buffer@, next as int))
                =~= done.push(tokens@.last()@) + tokens_spec(buffer@, next as int));
        }
        i = next;
    }
    Ok(tokens)
}

} // verus!

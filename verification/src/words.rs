//! The word/junk tokenizer and the wottasquare decoder.
//!
//! A word is one or more alphabetic characters followed by any run of
//! word-continuation characters; every other character is junk and is
//! dropped. The wottasquare notation is a sequence of brackets
//! `[<score>:<comment>]`, each optionally followed by a newline.
use vstd::prelude::*;

use crate::chars::{alphabetic, chars_of, is_alpha, is_word_char, string_of, subvec, word_char};
use crate::score::{letter_score, score, word_score, Word};

verus! {

/// A failure while tokenizing or decoding.
#[derive(Debug, Clone)]
pub enum ParseError {
    /// Input that no rule matches, with the offset where it begins and up to
    /// its first fifty characters.
    MalformedInput { offset: usize, snippet: String },
    /// A wottasquare score field that does not fit a byte.
    BadScoreLiteral { offset: usize },
}

/// End of the run of word-continuation characters that begins at `i`.
pub open spec fn cont_end(s: Seq<char>, i: int) -> int
    decreases s.len() - i,
{
    if 0 <= i < s.len() && is_word_char(s[i]) {
        cont_end(s, i + 1)
    } else {
        i
    }
}

pub proof fn lemma_cont_end_bounds(s: Seq<char>, i: int)
    requires
        0 <= i <= s.len(),
    ensures
        i <= cont_end(s, i) <= s.len(),
    decreases s.len() - i,
{
    if i < s.len() && is_word_char(s[i]) {
        lemma_cont_end_bounds(s, i + 1);
    }
}

/// A run of word-continuation characters, and nothing after it that would
/// extend it, reaches exactly its end.
pub proof fn lemma_cont_end_of_run(s: Seq<char>, i: int, j: int)
    requires
        0 <= i <= j <= s.len(),
        forall|k: int| i <= k < j ==> is_word_char(#[trigger] s[k]),
        j == s.len() || !is_word_char(s[j]),
    ensures
        cont_end(s, i) == j,
    decreases j - i,
{
    if i < j {
        lemma_cont_end_of_run(s, i + 1, j);
    }
}

/// The texts of the words of the input from position `i` on, in order; junk
/// is dropped.
pub open spec fn word_tokens(s: Seq<char>, i: int) -> Seq<Seq<char>>
    decreases s.len() - i when 0 <= i via word_tokens_decreases
{
    if i >= s.len() {
        Seq::empty()
    } else if is_alpha(s[i]) {
        let j = cont_end(s, i + 1);
        seq![s.subrange(i, j)] + word_tokens(s, j)
    } else {
        word_tokens(s, i + 1)
    }
}

#[via_fn]
proof fn word_tokens_decreases(s: Seq<char>, i: int) {
    if 0 <= i < s.len() && is_alpha(s[i]) {
        lemma_cont_end_bounds(s, i + 1);
    }
}

/// Scans the maximal word-continuation run beginning at `i`.
pub(crate) fn scan_cont(v: &Vec<char>, i: usize) -> (j: usize)
    requires
        i <= v@.len(),
    ensures
        j == cont_end(v@, i as int),
        i <= j <= v@.len(),
{
    let n = v.len();
    let mut j = i;
    loop
        invariant
            i <= j <= n,
            n == v@.len(),
            forall|k: int| i <= k < j ==> is_word_char(#[trigger] v@[k]),
        ensures
            j == cont_end(v@, i as int),
            i <= j <= n,
        decreases n - j,
    {
        if j == n {
            proof {
                lemma_cont_end_of_run(v@, i as int, j as int);
            }
            break;
        }
        if !word_char(v[j]) {
            proof {
                lemma_cont_end_of_run(v@, i as int, j as int);
            }
            break;
        }
        j = j + 1;
    }
    j
}

/// Splits the input into scored words; junk between words is dropped. The
/// word/junk grammar is total, so this never fails.
pub fn get_words(buffer: &str) -> (r: Result<Vec<Word>, ParseError>)
    ensures
        r matches Ok(v) && v@.map_values(|w: Word| w.word@) == word_tokens(buffer@, 0) && (forall|
            k: int,
        |
            0 <= k < v@.len() ==> (#[trigger] v@[k]).score == word_score(v@[k].word@)),
{
    let v = chars_of(buffer);
    let n = v.len();
    let mut words: Vec<Word> = Vec::new();
    let mut i: usize = 0;
    while i < n
        invariant
            i <= n,
            n == v@.len(),
            v@ == buffer@,
            word_tokens(buffer@, 0) == words@.map_values(|w: Word| w.word@) + word_tokens(
                buffer@,
                i as int,
            ),
            forall|k: int|
                0 <= k < words@.len() ==> (#[trigger] words@[k]).score == word_score(
                    words@[k].word@,
                ),
        decreases n - i,
    {
        if alphabetic(v[i]) {
            let j = scan_cont(&v, i + 1);
            let text = string_of(&subvec(&v, i, j));
            let sc = score(text.as_str());
            let w = Word { word: text, score: sc };
            words.push(w);
            proof {
                assert(words@.map_values(|w: Word| w.word@) =~= words@.drop_last().map_values(
                    |w: Word| w.word@,
                ).push(v@.subrange(i as int, j as int)));
            }
            i = j;
        } else {
            i = i + 1;
        }
    }
    Ok(words)
}

pub open spec fn is_digit(c: char) -> bool {
    48 <= c as u32 && c as u32 <= 57
}

pub open spec fn digit_value(c: char) -> int {
    c as u32 - 48
}

/// End of the run of decimal digits that begins at `i`.
pub open spec fn digit_end(s: Seq<char>, i: int) -> int
    decreases s.len() - i,
{
    if 0 <= i < s.len() && is_digit(s[i]) {
        digit_end(s, i + 1)
    } else {
        i
    }
}

/// End of the run of characters other than `]` that begins at `i`.
pub open spec fn nonbr_end(s: Seq<char>, i: int) -> int
    decreases s.len() - i,
{
    if 0 <= i < s.len() && s[i] != ']' {
        nonbr_end(s, i + 1)
    } else {
        i
    }
}

/// The value of the decimal digits in positions `i..j`.
pub open spec fn digits_val(s: Seq<char>, i: int, j: int) -> int
    decreases j - i,
{
    if i >= j {
        0
    } else {
        digits_val(s, i, j - 1) * 10 + digit_value(s[j - 1])
    }
}

/// What decoding a wottasquare input from position `i` yields: the scored
/// comments of the complete brackets, or the first failure. Input that ends
/// in the middle of a bracket (its optional trailing newline included) is
/// treated as end of stream and the incomplete bracket is dropped.
pub enum WottaSpec {
    Done(Seq<(Seq<char>, u8)>),
    Malformed(int),
    BadScore(int),
}

pub open spec fn wotta_spec(s: Seq<char>, i: int) -> WottaSpec
    decreases s.len() - i when 0 <= i via wotta_spec_decreases
{
    let n = s.len() as int;
    if i >= n {
        WottaSpec::Done(Seq::empty())
    } else if s[i] != '[' {
        WottaSpec::Malformed(i)
    } else if i + 1 >= n {
        WottaSpec::Done(Seq::empty())
    } else {
        let j = digit_end(s, i + 1);
        if j == i + 1 {
            WottaSpec::Malformed(i)
        } else if j >= n {
            WottaSpec::Done(Seq::empty())
        } else if s[j] != ':' {
            WottaSpec::Malformed(i)
        } else {
            let k = nonbr_end(s, j + 1);
            if k == j + 1 {
                if j + 1 >= n {
                    WottaSpec::Done(Seq::empty())
                } else {
                    WottaSpec::Malformed(i)
                }
            } else if k >= n {
                WottaSpec::Done(Seq::empty())
            } else if k + 1 >= n {
                WottaSpec::Done(Seq::empty())
            } else {
                let m = if s[k + 1] == '\n' {
                    k + 2
                } else {
                    k + 1
                };
                let val = digits_val(s, i + 1, j);
                if val > 255 {
                    WottaSpec::BadScore(i)
                } else {
                    match wotta_spec(s, m) {
                        WottaSpec::Done(ws) => WottaSpec::Done(
                            seq![(s.subrange(j + 1, k), val as u8)] + ws,
                        ),
                        e => e,
                    }
                }
            }
        }
    }
}

pub proof fn lemma_digit_end_bounds(s: Seq<char>, i: int)
    requires
        0 <= i <= s.len(),
    ensures
        i <= digit_end(s, i) <= s.len(),
    decreases s.len() - i,
{
    if i < s.len() && is_digit(s[i]) {
        lemma_digit_end_bounds(s, i + 1);
    }
}

pub proof fn lemma_nonbr_end_bounds(s: Seq<char>, i: int)
    requires
        0 <= i <= s.len(),
    ensures
        i <= nonbr_end(s, i) <= s.len(),
    decreases s.len() - i,
{
    if i < s.len() && s[i] != ']' {
        lemma_nonbr_end_bounds(s, i + 1);
    }
}

#[via_fn]
proof fn wotta_spec_decreases(s: Seq<char>, i: int) {
    let n = s.len() as int;
    if 0 <= i < n && s[i] == '[' && i + 1 < n {
        lemma_digit_end_bounds(s, i + 1);
        let j = digit_end(s, i + 1);
        if i + 1 < j < n && s[j] == ':' {
            lemma_nonbr_end_bounds(s, j + 1);
        }
    }
}

pub proof fn lemma_digit_end_of_run(s: Seq<char>, i: int, j: int)
    requires
        0 <= i <= j <= s.len(),
        forall|k: int| i <= k < j ==> is_digit(#[trigger] s[k]),
        j == s.len() || !is_digit(s[j]),
    ensures
        digit_end(s, i) == j,
    decreases j - i,
{
    if i < j {
        lemma_digit_end_of_run(s, i + 1, j);
    }
}

pub proof fn lemma_nonbr_end_of_run(s: Seq<char>, i: int, j: int)
    requires
        0 <= i <= j <= s.len(),
        forall|k: int| i <= k < j ==> #[trigger] s[k] != ']',
        j == s.len() || s[j] == ']',
    ensures
        nonbr_end(s, i) == j,
    decreases j - i,
{
    if i < j {
        lemma_nonbr_end_of_run(s, i + 1, j);
    }
}

/// A digit run's value never shrinks as the run extends.
proof fn lemma_digits_val_monotone(s: Seq<char>, i: int, j1: int, j2: int)
    requires
        i <= j1 <= j2,
        forall|k: int| i <= k < j2 ==> is_digit(#[trigger] s[k]),
        0 <= i,
        j2 <= s.len(),
    ensures
        digits_val(s, i, j1) <= digits_val(s, i, j2),
        digits_val(s, i, j1) >= 0,
    decreases j2 - j1,
{
    lemma_digits_val_nonneg(s, i, j1);
    if j1 < j2 {
        lemma_digits_val_monotone(s, i, j1, j2 - 1);
        lemma_digits_val_nonneg(s, i, j2 - 1);
    }
}

proof fn lemma_digits_val_nonneg(s: Seq<char>, i: int, j: int)
    requires
        forall|k: int| i <= k < j ==> is_digit(#[trigger] s[k]),
    ensures
        digits_val(s, i, j) >= 0,
    decreases j - i,
{
    if i < j {
        lemma_digits_val_nonneg(s, i, j - 1);
    }
}

/// Reads the value of the digit run in `v[from..to]`, or reports that it
/// exceeds a byte.
fn digits_to_score(v: &Vec<char>, from: usize, to: usize) -> (r: Option<u8>)
    requires
        from <= to <= v@.len(),
        forall|k: int| from <= k < to ==> is_digit(#[trigger] v@[k]),
    ensures
        match r {
            Some(x) => digits_val(v@, from as int, to as int) == x,
            None => digits_val(v@, from as int, to as int) > 255,
        },
{
    let mut val: u32 = 0;
    let mut i = from;
    while i < to
        invariant
            from <= i <= to <= v@.len(),
            forall|k: int| from <= k < to ==> is_digit(#[trigger] v@[k]),
            val <= 255,
            val == digits_val(v@, from as int, i as int),
        decreases to - i,
    {
        let c = v[i];
        let d = (c as u32) - 48;
        val = val * 10 + d;
        i = i + 1;
        if val > 255 {
            proof {
                lemma_digits_val_monotone(v@, from as int, i as int, to as int);
            }
            return None;
        }
    }
    Some(val as u8)
}

/// Up to fifty characters of the input from position `off` on.
fn snippet_from(v: &Vec<char>, off: usize) -> (r: String)
    requires
        off <= v@.len(),
    ensures
        r@ == v@.subrange(
            off as int,
            if off + 50 <= v@.len() {
                off + 50
            } else {
                v@.len() as int
            },
        ),
{
    let end = if v.len() - off >= 50 {
        off + 50
    } else {
        v.len()
    };
    string_of(&subvec(v, off, end))
}

/// Prepends already-decoded words to a decode outcome.
pub open spec fn wotta_glue(acc: Seq<(Seq<char>, u8)>, rest: WottaSpec) -> WottaSpec {
    match rest {
        WottaSpec::Done(ws) => WottaSpec::Done(acc + ws),
        e => e,
    }
}

/// Decodes wottasquare notation into scored words: each bracket
/// `[<score>:<comment>]` yields the comment with the stated score.
pub fn get_wottas(buffer: &str) -> (r: Result<Vec<Word>, ParseError>)
    ensures
        match wotta_spec(buffer@, 0) {
            WottaSpec::Done(ws) => r matches Ok(v) && v@.len() == ws.len() && (forall|k: int|
                0 <= k < ws.len() ==> (#[trigger] v@[k]).word@ == ws[k].0 && v@[k].score
                    == ws[k].1),
            WottaSpec::Malformed(off) => r matches Err(ParseError::MalformedInput {
                offset,
                snippet,
            }) && offset == off && snippet@ == buffer@.subrange(
                off,
                if off + 50 <= buffer@.len() {
                    off + 50
                } else {
                    buffer@.len() as int
                },
            ),
            WottaSpec::BadScore(off) => r matches Err(ParseError::BadScoreLiteral { offset })
                && offset == off,
        },
{
    let v = chars_of(buffer);
    let n = v.len();
    let mut words: Vec<Word> = Vec::new();
    let mut i: usize = 0;
    loop
        invariant
            i <= n,
            n == v@.len(),
            v@ == buffer@,
            wotta_spec(buffer@, 0) == wotta_glue(
                words@.map_values(|w: Word| (w.word@, w.score)),
                wotta_spec(buffer@, i as int),
            ),
        ensures
            ({
                let done = words@.map_values(|w: Word| (w.word@, w.score));
                wotta_spec(buffer@, 0) == WottaSpec::Done(done)
            }),
        decreases n - i,
    {
        let ghost acc = words@.map_values(|w: Word| (w.word@, w.score));
        if i == n {
            proof {
                assert(acc + Seq::<(Seq<char>, u8)>::empty() =~= acc);
            }
            break;
        }
        if v[i] != '[' {
            let snippet = snippet_from(&v, i);
            return Err(ParseError::MalformedInput { offset: i, snippet });
        }
        if i + 1 == n {
            proof {
                assert(acc + Seq::<(Seq<char>, u8)>::empty() =~= acc);
            }
            break;
        }
        // the digits of the score field
        let mut j = i + 1;
        loop
            invariant
                i + 1 <= j <= n,
                n == v@.len(),
                forall|k: int| i + 1 <= k < j ==> is_digit(#[trigger] v@[k]),
            ensures
                j == digit_end(v@, i as int + 1),
                i + 1 <= j <= n,
            decreases n - j,
        {
            if j == n {
                proof {
                    lemma_digit_end_of_run(v@, i as int + 1, j as int);
                }
                break;
            }
            let c = v[j];
            if !((c as u32) >= 48 && (c as u32) <= 57) {
                proof {
                    lemma_digit_end_of_run(v@, i as int + 1, j as int);
                }
                break;
            }
            j = j + 1;
        }
        if j == i + 1 {
            let snippet = snippet_from(&v, i);
            return Err(ParseError::MalformedInput { offset: i, snippet });
        }
        if j == n {
            proof {
                assert(acc + Seq::<(Seq<char>, u8)>::empty() =~= acc);
            }
            break;
        }
        if v[j] != ':' {
            let snippet = snippet_from(&v, i);
            return Err(ParseError::MalformedInput { offset: i, snippet });
        }
        // the comment: everything up to the closing bracket
        let mut k = j + 1;
        loop
            invariant
                j + 1 <= k <= n,
                n == v@.len(),
                forall|t: int| j + 1 <= t < k ==> #[trigger] v@[t] != ']',
            ensures
                k == nonbr_end(v@, j as int + 1),
                j + 1 <= k <= n,
            decreases n - k,
        {
            if k == n {
                proof {
                    lemma_nonbr_end_of_run(v@, j as int + 1, k as int);
                }
                break;
            }
            if v[k] == ']' {
                proof {
                    lemma_nonbr_end_of_run(v@, j as int + 1, k as int);
                }
                break;
            }
            k = k + 1;
        }
        if k == j + 1 {
            if j + 1 == n {
                proof {
                    assert(acc + Seq::<(Seq<char>, u8)>::empty() =~= acc);
                }
                break;
            }
            let snippet = snippet_from(&v, i);
            return Err(ParseError::MalformedInput { offset: i, snippet });
        }
        if k == n || k + 1 == n {
            proof {
                assert(acc + Seq::<(Seq<char>, u8)>::empty() =~= acc);
            }
            break;
        }
        let next = if v[k + 1] == '\n' {
            k + 2
        } else {
            k + 1
        };
        let sc = match digits_to_score(&v, i + 1, j) {
            Some(sc) => sc,
            None => {
                return Err(ParseError::BadScoreLiteral { offset: i });
            },
        };
        let text = string_of(&subvec(&v, j + 1, k));
        words.push(Word { word: text, score: sc });
        proof {
            let w = (v@.subrange(j as int + 1, k as int), sc);
            assert(words@.map_values(|w: Word| (w.word@, w.score)) =~= acc.push(w));
            assert(seq![w] + match wotta_spec(buffer@, next as int) {
                WottaSpec::Done(ws) => ws,
                _ => Seq::<(Seq<char>, u8)>::empty(),
            } =~= seq![w] + match wotta_spec(buffer@, next as int) {
                WottaSpec::Done(ws) => ws,
                _ => Seq::<(Seq<char>, u8)>::empty(),
            });
            if wotta_spec(buffer@, next as int) is Done {
                let ws = wotta_spec(buffer@, next as int)->Done_0;
                assert(acc + (seq![w] + ws) =~= acc.push(w) + ws);
            }
        }
        i = next;
    }
    Ok(words)
}

/// A word under the tokenizer's grammar: an alphabetic character followed
/// by word-continuation characters only.
pub open spec fn word_shaped(w: Seq<char>) -> bool {
    w.len() >= 1 && is_alpha(w[0]) && (forall|k: int| 1 <= k < w.len() ==> is_word_char(#[trigger] w[k]))
}

/// The scores of the words of a text, zero scores dropped.
pub open spec fn nz_scores(s: Seq<char>) -> Seq<u8> {
    word_tokens(s, 0).map_values(|w: Seq<char>| word_score(w)).filter(|x: u8| x != 0)
}

/// Every character of a continuation run continues a word.
pub proof fn lemma_cont_end_chars(s: Seq<char>, i: int)
    requires
        0 <= i <= s.len(),
    ensures
        forall|k: int| i <= k < cont_end(s, i) ==> is_word_char(#[trigger] s[k]),
    decreases s.len() - i,
{
    lemma_cont_end_bounds(s, i);
    if i < s.len() && is_word_char(s[i]) {
        lemma_cont_end_chars(s, i + 1);
    }
}

/// A continuation run in a suffix is the run in the whole, shifted.
pub proof fn lemma_cont_end_shift(a: Seq<char>, b: Seq<char>, k: int)
    requires
        0 <= k <= b.len(),
    ensures
        cont_end(a + b, a.len() + k) == a.len() + cont_end(b, k),
    decreases b.len() - k,
{
    if k < b.len() {
        assert((a + b)[a.len() + k] == b[k]);
        if is_word_char(b[k]) {
            lemma_cont_end_shift(a, b, k + 1);
        }
    }
}

/// The words of a suffix are the words of the whole from that point on.
pub proof fn lemma_word_tokens_shift(a: Seq<char>, b: Seq<char>, k: int)
    requires
        0 <= k <= b.len(),
    ensures
        word_tokens(a + b, a.len() + k) == word_tokens(b, k),
    decreases b.len() - k,
{
    let s = a + b;
    if k == b.len() {
        assert(word_tokens(s, a.len() + k) =~= word_tokens(b, k));
    } else {
        assert(s[a.len() + k] == b[k]);
        if is_alpha(b[k]) {
            lemma_cont_end_shift(a, b, k + 1);
            let j = cont_end(b, k + 1);
            lemma_cont_end_bounds(b, k + 1);
            lemma_word_tokens_shift(a, b, j);
            assert(s.subrange(a.len() + k, a.len() + j) =~= b.subrange(k, j));
            assert(word_tokens(s, a.len() + k) =~= word_tokens(b, k));
        } else {
            lemma_word_tokens_shift(a, b, k + 1);
            assert(word_tokens(s, a.len() + k) =~= word_tokens(b, k));
        }
    }
}

/// A continuation run that starts in a prefix stays in it when the suffix
/// cannot extend it.
pub proof fn lemma_cont_end_prefix(a: Seq<char>, b: Seq<char>, i: int)
    requires
        0 <= i <= a.len(),
        b.len() == 0 || !is_word_char(b[0]),
    ensures
        cont_end(a + b, i) == cont_end(a, i),
        cont_end(a, i) <= a.len(),
    decreases a.len() - i,
{
    lemma_cont_end_bounds(a, i);
    let s = a + b;
    if i < a.len() {
        assert(s[i] == a[i]);
        if is_word_char(a[i]) {
            lemma_cont_end_prefix(a, b, i + 1);
        }
    } else {
        if b.len() > 0 {
            assert(s[i] == b[0]);
        }
    }
}

/// Tokenization splits at a boundary that no word can cross: the suffix
/// must not begin with a character that starts or continues a word.
pub proof fn lemma_word_tokens_split_at(a: Seq<char>, b: Seq<char>, i: int)
    requires
        0 <= i <= a.len(),
        b.len() == 0 || (!is_alpha(b[0]) && !is_word_char(b[0])),
    ensures
        word_tokens(a + b, i) == word_tokens(a, i) + word_tokens(b, 0),
    decreases a.len() - i,
{
    let s = a + b;
    if i == a.len() {
        lemma_word_tokens_shift(a, b, 0);
        assert(word_tokens(a, i) =~= Seq::<Seq<char>>::empty());
        assert(Seq::<Seq<char>>::empty() + word_tokens(b, 0) =~= word_tokens(b, 0));
    } else {
        assert(s[i] == a[i]);
        if is_alpha(a[i]) {
            lemma_cont_end_prefix(a, b, i + 1);
            lemma_cont_end_bounds(a, i + 1);
            let j = cont_end(a, i + 1);
            lemma_word_tokens_split_at(a, b, j);
            assert(s.subrange(i, j) =~= a.subrange(i, j));
            assert(seq![a.subrange(i, j)] + (word_tokens(a, j) + word_tokens(b, 0)) =~= (seq![
                a.subrange(i, j),
            ] + word_tokens(a, j)) + word_tokens(b, 0));
        } else {
            lemma_word_tokens_split_at(a, b, i + 1);
        }
    }
}

/// A prefix without alphabetic characters contributes no words, whatever
/// follows it.
pub proof fn lemma_word_tokens_junk_prefix(a: Seq<char>, b: Seq<char>)
    requires
        forall|k: int| 0 <= k < a.len() ==> !is_alpha(#[trigger] a[k]),
    ensures
        word_tokens(a + b, 0) == word_tokens(b, 0),
{
    lemma_word_tokens_junk_prefix_at(a, b, 0);
    lemma_word_tokens_shift(a, b, 0);
}

proof fn lemma_word_tokens_junk_prefix_at(a: Seq<char>, b: Seq<char>, i: int)
    requires
        0 <= i <= a.len(),
        forall|k: int| 0 <= k < a.len() ==> !is_alpha(#[trigger] a[k]),
    ensures
        word_tokens(a + b, i) == word_tokens(a + b, a.len() as int),
    decreases a.len() - i,
{
    if i < a.len() {
        assert((a + b)[i] == a[i]);
        lemma_word_tokens_junk_prefix_at(a, b, i + 1);
    }
}

/// A word-shaped text is one word.
pub proof fn lemma_word_shaped_single(w: Seq<char>)
    requires
        word_shaped(w),
    ensures
        word_tokens(w, 0) == seq![w],
{
    lemma_cont_end_of_run(w, 1, w.len() as int);
    assert(w.subrange(0, w.len() as int) =~= w);
    assert(word_tokens(w, w.len() as int) =~= Seq::<Seq<char>>::empty());
    assert(word_tokens(w, 0) =~= seq![w]);
}

/// Word scores depend only on each character's letter score.
proof fn lemma_word_score_pointwise(s: Seq<char>, t: Seq<char>)
    requires
        s.len() == t.len(),
        forall|k: int| 0 <= k < s.len() ==> letter_score(#[trigger] s[k]) == letter_score(t[k]),
    ensures
        word_score(s) == word_score(t),
    decreases s.len(),
{
    if s.len() > 0 {
        lemma_word_score_pointwise(s.drop_last(), t.drop_last());
        assert(forall|k: int|
            0 <= k < s.len() - 1 ==> #[trigger] s.drop_last()[k] == s[k] && t.drop_last()[k]
                == t[k]);
    }
}

/// Replacing each character by one of the same classes and letter score
/// leaves the continuation runs in place.
proof fn lemma_cont_end_charmap(s: Seq<char>, t: Seq<char>, i: int)
    requires
        s.len() == t.len(),
        forall|k: int|
            0 <= k < s.len() ==> is_word_char(#[trigger] t[k]) == is_word_char(s[k]),
        0 <= i,
    ensures
        cont_end(t, i) == cont_end(s, i),
    decreases s.len() - i,
{
    if 0 <= i < s.len() && is_word_char(s[i]) {
        lemma_cont_end_charmap(s, t, i + 1);
    }
}

/// Replacing each character by one of the same classes and letter score
/// leaves the word scores of a text unchanged.
pub proof fn lemma_nz_scores_charmap(s: Seq<char>, t: Seq<char>)
    requires
        s.len() == t.len(),
        forall|k: int| 0 <= k < s.len() ==> is_alpha(#[trigger] t[k]) == is_alpha(s[k]),
        forall|k: int|
            0 <= k < s.len() ==> is_word_char(#[trigger] t[k]) == is_word_char(s[k]),
        forall|k: int|
            0 <= k < s.len() ==> letter_score(#[trigger] t[k]) == letter_score(s[k]),
    ensures
        nz_scores(t) == nz_scores(s),
{
    lemma_word_scores_charmap_at(s, t, 0);
    assert(word_tokens(t, 0).map_values(|w: Seq<char>| word_score(w)) == word_tokens(
        s,
        0,
    ).map_values(|w: Seq<char>| word_score(w)));
}

proof fn lemma_word_scores_charmap_at(s: Seq<char>, t: Seq<char>, i: int)
    requires
        s.len() == t.len(),
        forall|k: int| 0 <= k < s.len() ==> is_alpha(#[trigger] t[k]) == is_alpha(s[k]),
        forall|k: int|
            0 <= k < s.len() ==> is_word_char(#[trigger] t[k]) == is_word_char(s[k]),
        forall|k: int|
            0 <= k < s.len() ==> letter_score(#[trigger] t[k]) == letter_score(s[k]),
        0 <= i,
    ensures
        word_tokens(t, i).map_values(|w: Seq<char>| word_score(w)) == word_tokens(s, i).map_values(
            |w: Seq<char>| word_score(w),
        ),
    decreases s.len() - i,
{
    let f = |w: Seq<char>| word_score(w);
    if i >= s.len() {
        assert(word_tokens(t, i).map_values(f) =~= word_tokens(s, i).map_values(f));
    } else if is_alpha(s[i]) {
        lemma_cont_end_charmap(s, t, i + 1);
        let j = cont_end(s, i + 1);
        lemma_cont_end_bounds(s, i + 1);
        lemma_word_scores_charmap_at(s, t, j);
        assert(forall|k: int|
            0 <= k < j - i ==> #[trigger] s.subrange(i, j)[k] == s[i + k] && t.subrange(i, j)[k]
                == t[i + k]);
        lemma_word_score_pointwise(s.subrange(i, j), t.subrange(i, j));
        assert(word_tokens(s, i) == seq![s.subrange(i, j)] + word_tokens(s, j));
        assert(word_tokens(t, i) == seq![t.subrange(i, j)] + word_tokens(t, j));
        assert(word_tokens(s, i).map_values(f) =~= seq![f(s.subrange(i, j))] + word_tokens(
            s,
            j,
        ).map_values(f));
        assert(word_tokens(t, i).map_values(f) =~= seq![f(t.subrange(i, j))] + word_tokens(
            t,
            j,
        ).map_values(f));
        assert(word_tokens(t, i).map_values(f) =~= word_tokens(s, i).map_values(f));
    } else {
        lemma_word_scores_charmap_at(s, t, i + 1);
    }
}

/// Word scores split at a boundary no word can cross.
pub proof fn lemma_nz_scores_split(a: Seq<char>, b: Seq<char>)
    requires
        b.len() == 0 || (!is_alpha(b[0]) && !is_word_char(b[0])),
    ensures
        nz_scores(a + b) == nz_scores(a) + nz_scores(b),
{
    lemma_word_tokens_split_at(a, b, 0);
    let f = |w: Seq<char>| word_score(w);
    let p = |x: u8| x != 0;
    assert((word_tokens(a, 0) + word_tokens(b, 0)).map_values(f) =~= word_tokens(a, 0).map_values(
        f,
    ) + word_tokens(b, 0).map_values(f));
    Seq::filter_distributes_over_add(
        word_tokens(a, 0).map_values(f),
        word_tokens(b, 0).map_values(f),
        p,
    );
}

/// A prefix without alphabetic characters contributes no word scores.
pub proof fn lemma_nz_scores_junk_prefix(a: Seq<char>, b: Seq<char>)
    requires
        forall|k: int| 0 <= k < a.len() ==> !is_alpha(#[trigger] a[k]),
    ensures
        nz_scores(a + b) == nz_scores(b),
{
    lemma_word_tokens_junk_prefix(a, b);
}

/// Title casing a text leaves its word scores in place.
pub proof fn lemma_nz_scores_title(w: Seq<char>)
    ensures
        nz_scores(crate::chars::title_seq(w)) == nz_scores(w),
{
    if w.len() == 0 {
        assert(crate::chars::title_seq(w) == w);
    } else {
        let t = crate::chars::title_seq(w);
        assert(t.len() == w.len());
        assert forall|k: int| 0 <= k < w.len() implies is_alpha(#[trigger] t[k]) == is_alpha(w[k])
            && is_word_char(t[k]) == is_word_char(w[k]) && letter_score(t[k]) == letter_score(
            w[k],
        ) by {
            if k == 0 {
                assert(t[0] == crate::chars::to_upper_char(w[0]));
                crate::chars::lemma_class_upper(w[0]);
                crate::score::lemma_letter_score_upper(w[0]);
            } else {
                assert(t[k] == crate::chars::to_lower_char(w.subrange(1, w.len() as int)[k - 1]));
                assert(w.subrange(1, w.len() as int)[k - 1] == w[k]);
                crate::chars::lemma_class_lower(w[k]);
                crate::score::lemma_letter_score_lower(w[k]);
            }
        }
        lemma_nz_scores_charmap(w, t);
    }
}

/// A word-shaped text has its own score as its one word score.
pub proof fn lemma_nz_scores_word(w: Seq<char>)
    requires
        word_shaped(w),
    ensures
        nz_scores(w) == (if word_score(w) == 0 {
            Seq::<u8>::empty()
        } else {
            seq![word_score(w)]
        }),
{
    lemma_word_shaped_single(w);
    let f = |v: Seq<char>| word_score(v);
    let p = |x: u8| x != 0;
    assert(word_tokens(w, 0).map_values(f) =~= seq![word_score(w)]);
    assert(seq![word_score(w)] =~= seq![word_score(w)] + Seq::<u8>::empty());
    Seq::lemma_filter_prepend(Seq::<u8>::empty(), word_score(w), p);
    assert(Seq::<u8>::empty().filter(p) =~= Seq::<u8>::empty());
    if p(word_score(w)) {
        assert(nz_scores(w) =~= seq![word_score(w)]);
    } else {
        assert(nz_scores(w) =~= Seq::<u8>::empty());
    }
}

/// The empty text has no word scores.
pub proof fn lemma_nz_scores_empty()
    ensures
        nz_scores(Seq::<char>::empty()) == Seq::<u8>::empty(),
{
    assert(word_tokens(Seq::<char>::empty(), 0) =~= Seq::<Seq<char>>::empty());
    assert(word_tokens(Seq::<char>::empty(), 0).map_values(|w: Seq<char>| word_score(w))
        =~= Seq::<u8>::empty());
    assert(Seq::<u8>::empty().filter(|x: u8| x != 0) =~= Seq::<u8>::empty());
}

/// A continuation run within one run of word characters.
pub proof fn lemma_cont_end_join(s: Seq<char>, i: int, m: int)
    requires
        0 <= i <= m <= s.len(),
        forall|k: int| i <= k < m ==> is_word_char(#[trigger] s[k]),
    ensures
        cont_end(s, i) == cont_end(s, m),
    decreases m - i,
{
    if i < m {
        lemma_cont_end_join(s, i + 1, m);
    }
}

/// A word-continuation character that no word has begun over scores
/// nothing: it is an apostrophe, a hyphen or a dash.
proof fn lemma_cont_not_alpha_scoreless(c: char)
    requires
        is_word_char(c),
        !is_alpha(c),
    ensures
        letter_score(c) == 0,
{
}

/// Reading a text's whole leading word-character run as one word of its
/// summed score changes nothing once zero scores are dropped: apostrophes
/// and hyphens in the run score nothing, and the letters in it form at
/// most one word, whose score the sum carries.
pub proof fn lemma_nz_scores_run_merge(w: Seq<char>)
    ensures
        ({
            let j = cont_end(w, 0);
            let f = |v: Seq<char>| word_score(v);
            let p = |x: u8| x != 0;
            nz_scores(w) == (seq![word_score(w.subrange(0, j))] + word_tokens(w, j).map_values(
                f,
            )).filter(p)
        }),
    decreases w.len(),
{
    let j = cont_end(w, 0);
    let f = |v: Seq<char>| word_score(v);
    let p = |x: u8| x != 0;
    lemma_cont_end_bounds(w, 0);
    if j == 0 {
        assert(w.subrange(0, 0) =~= Seq::<char>::empty());
        assert(word_score(w.subrange(0, 0)) == 0);
        Seq::lemma_filter_prepend(word_tokens(w, 0).map_values(f), 0u8, p);
        assert(seq![0u8] + word_tokens(w, 0).map_values(f) =~= seq![word_score(w.subrange(0, 0))]
            + word_tokens(w, j).map_values(f));
    } else if is_alpha(w[0]) {
        assert(cont_end(w, 1) == j);
        assert(word_tokens(w, 0) == seq![w.subrange(0, j)] + word_tokens(w, j));
        assert(word_tokens(w, 0).map_values(f) =~= seq![word_score(w.subrange(0, j))]
            + word_tokens(w, j).map_values(f));
    } else {
        // the leading character continues no word and scores nothing
        let a = w.subrange(0, 1);
        let rest = w.subrange(1, w.len() as int);
        assert(a + rest =~= w);
        lemma_nz_scores_run_merge(rest);
        let jr = cont_end(rest, 0);
        lemma_cont_end_bounds(rest, 0);
        lemma_cont_end_shift(a, rest, 0);
        assert(cont_end(w, 1) == 1 + jr);
        assert(cont_end(w, 0) == cont_end(w, 1));
        assert(j == 1 + jr);
        lemma_word_tokens_shift(a, rest, 0);
        assert(word_tokens(w, 1) == word_tokens(rest, 0));
        assert(word_tokens(w, 0) == word_tokens(w, 1));
        lemma_word_tokens_shift(a, rest, jr);
        assert(word_tokens(w, j) == word_tokens(rest, jr));
        lemma_cont_not_alpha_scoreless(w[0]);
        assert(word_score(w.subrange(0, j)) == word_score(rest.subrange(0, jr))) by {
            let head = seq![w[0]];
            assert(w.subrange(0, j) =~= head + rest.subrange(0, jr));
            crate::score::lemma_word_score_concat(head, rest.subrange(0, jr));
            assert(head.drop_last() =~= Seq::<char>::empty());
            assert(head.last() == w[0]);
            assert(word_score(Seq::<char>::empty()) == 0);
            assert(word_score(head) == ((word_score(head.drop_last()) as int + letter_score(
                head.last(),
            ) as int) % 256) as u8);
            assert(word_score(head) == 0);
            vstd::arithmetic::div_mod::lemma_small_mod(
                word_score(rest.subrange(0, jr)) as nat,
                256,
            );
        }
        assert(nz_scores(w) == nz_scores(rest)) by {
            assert(word_tokens(w, 0).map_values(f) =~= word_tokens(rest, 0).map_values(f));
        }
    }
}

/// Prefixing a text with a scoreless word changes no word scores: the word
/// merges with whatever run follows, and the merged word's score is the
/// run's own.
pub proof fn lemma_nz_scores_word_prefix(z: Seq<char>, w: Seq<char>)
    requires
        word_shaped(z),
        word_score(z) == 0,
    ensures
        nz_scores(z + w) == nz_scores(w),
{
    let s = z + w;
    let f = |v: Seq<char>| word_score(v);
    let p = |x: u8| x != 0;
    let j = cont_end(w, 0);
    lemma_cont_end_bounds(w, 0);
    assert(forall|k: int| 0 <= k < z.len() ==> is_word_char(#[trigger] z[k]));
    assert(forall|k: int| 0 <= k < z.len() ==> #[trigger] s[k] == z[k]);
    lemma_cont_end_join(s, 1, z.len() as int);
    lemma_cont_end_shift(z, w, 0);
    assert(cont_end(s, 1) == z.len() + j);
    assert(is_alpha(s[0]));
    assert(word_tokens(s, 0) == seq![s.subrange(0, z.len() + j)] + word_tokens(s, z.len() + j));
    lemma_word_tokens_shift(z, w, j);
    assert(word_tokens(s, z.len() + j) == word_tokens(w, j));
    assert(word_score(s.subrange(0, z.len() + j)) == word_score(w.subrange(0, j))) by {
        assert(s.subrange(0, z.len() + j) =~= z + w.subrange(0, j));
        crate::score::lemma_word_score_concat(z, w.subrange(0, j));
        vstd::arithmetic::div_mod::lemma_small_mod(word_score(w.subrange(0, j)) as nat, 256);
    }
    lemma_nz_scores_run_merge(w);
    assert(word_tokens(s, 0).map_values(f) =~= seq![word_score(w.subrange(0, j))] + word_tokens(
        w,
        j,
    ).map_values(f));
}

} // verus!

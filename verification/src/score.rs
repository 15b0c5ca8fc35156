//! The score function: each letter carries its English Scrabble value, and a
//! word's score is the sum of its letters, wrapping at 256. Scoring is
//! case-insensitive over ASCII; characters outside the table score nothing.
use vstd::prelude::*;

use crate::chars::{lower_seq, title_seq, to_lower_char, to_upper_char};

verus! {

/// The Scrabble value of a single character, case-insensitively.
pub open spec fn letter_score(c: char) -> u8 {
    let l = to_lower_char(c);
    if l == 'a' || l == 'e' || l == 'i' || l == 'o' || l == 'u' || l == 'n' || l == 'r' || l == 't'
        || l == 'l' || l == 's' {
        1
    } else if l == 'd' || l == 'g' {
        2
    } else if l == 'b' || l == 'c' || l == 'm' || l == 'p' {
        3
    } else if l == 'f' || l == 'h' || l == 'v' || l == 'w' || l == 'y' {
        4
    } else if l == 'k' {
        5
    } else if l == 'j' || l == 'x' {
        8
    } else if l == 'q' || l == 'z' {
        10
    } else {
        0
    }
}

/// The score of a word: the letter scores summed, wrapping at 256.
pub open spec fn word_score(s: Seq<char>) -> u8
    decreases s.len(),
{
    if s.len() == 0 {
        0
    } else {
        (((word_score(s.drop_last()) as int + letter_score(s.last()) as int) % 256) as u8)
    }
}

fn letter_value(c: char) -> (r: u8)
    ensures
        r == letter_score(c),
{
    let l = crate::chars::lower_char(c);
    if l == 'a' || l == 'e' || l == 'i' || l == 'o' || l == 'u' || l == 'n' || l == 'r' || l == 't'
        || l == 'l' || l == 's' {
        1
    } else if l == 'd' || l == 'g' {
        2
    } else if l == 'b' || l == 'c' || l == 'm' || l == 'p' {
        3
    } else if l == 'f' || l == 'h' || l == 'v' || l == 'w' || l == 'y' {
        4
    } else if l == 'k' {
        5
    } else if l == 'j' || l == 'x' {
        8
    } else if l == 'q' || l == 'z' {
        10
    } else {
        0
    }
}

/// The score of a word.
pub fn score(word: &str) -> (r: u8)
    ensures
        r == word_score(word@),
{
    let v = crate::chars::chars_of(word);
    let mut r: u8 = 0;
    let mut i: usize = 0;
    while i < v.len()
        invariant
            i <= v@.len(),
            v@ == word@,
            r == word_score(word@.subrange(0, i as int)),
        decreases v@.len() - i,
    {
        let l = letter_value(v[i]);
        let sum: u16 = (r as u16) + (l as u16);
        r = (sum % 256) as u8;
        i = i + 1;
        proof {
            let pre = word@.subrange(0, i as int);
            assert(pre.drop_last() =~= word@.subrange(0, i - 1));
            assert(pre.last() == word@[i - 1]);
        }
    }
    proof {
        assert(word@.subrange(0, word@.len() as int) =~= word@);
    }
    r
}

/// A word of the source text together with its score.
#[derive(Debug, Clone)]
pub struct Word {
    pub word: String,
    pub score: u8,
}

impl Word {
    pub fn score(self: &Word) -> (r: u8)
        ensures
            r == self.score,
    {
        self.score
    }
}

/// Appending a character adds its letter score, wrapping at 256.
pub proof fn lemma_word_score_push(s: Seq<char>, c: char)
    ensures
        word_score(s.push(c)) == ((word_score(s) as int + letter_score(c) as int) % 256) as u8,
{
    assert(s.push(c).drop_last() =~= s);
    assert(s.push(c).last() == c);
}

/// Scores add up over concatenation, wrapping at 256.
pub proof fn lemma_word_score_concat(a: Seq<char>, b: Seq<char>)
    ensures
        word_score(a + b) == ((word_score(a) as int + word_score(b) as int) % 256) as u8,
    decreases b.len(),
{
    if b.len() == 0 {
        assert(a + b =~= a);
        vstd::arithmetic::div_mod::lemma_small_mod(word_score(a) as nat, 256);
    } else {
        let b0 = b.drop_last();
        let c = b.last();
        lemma_word_score_concat(a, b0);
        assert((a + b).drop_last() =~= a + b0);
        assert((a + b).last() == c);
        let x = word_score(a) as int;
        let y = word_score(b0) as int;
        let l = letter_score(c) as int;
        vstd::arithmetic::div_mod::lemma_small_mod(l as nat, 256);
        vstd::arithmetic::div_mod::lemma_add_mod_noop(x + y, l, 256);
        vstd::arithmetic::div_mod::lemma_add_mod_noop_right(x, y + l, 256);
        assert(word_score(a + b) as int == ((x + y) % 256 + l % 256) % 256);
        assert(word_score(b) as int == (y + l) % 256);
        assert(((x + y) % 256 + l % 256) % 256 == (x + y + l) % 256);
        assert((x + (y + l) % 256) % 256 == (x + y + l) % 256);
    }
}

/// Lowercasing a character does not change its score.
pub proof fn lemma_letter_score_lower(c: char)
    ensures
        letter_score(to_lower_char(c)) == letter_score(c),
{
}

/// Uppercasing a character does not change its score.
pub proof fn lemma_letter_score_upper(c: char)
    ensures
        letter_score(to_upper_char(c)) == letter_score(c),
{
}

/// Scoring is case-insensitive: any word scores the same as its lowercase
/// form.
pub proof fn lemma_score_case_insensitive(w: Seq<char>)
    ensures
        word_score(lower_seq(w)) == word_score(w),
    decreases w.len(),
{
    if w.len() == 0 {
        assert(lower_seq(w) =~= w);
    } else {
        lemma_score_case_insensitive(w.drop_last());
        assert(lower_seq(w).drop_last() =~= lower_seq(w.drop_last()));
        assert(lower_seq(w).last() == to_lower_char(w.last()));
        lemma_letter_score_lower(w.last());
    }
}

/// Title casing does not change a word's score.
pub proof fn lemma_score_title(w: Seq<char>)
    ensures
        word_score(title_seq(w)) == word_score(w),
{
    if w.len() == 0 {
    } else {
        let t = title_seq(w);
        let head = seq![to_upper_char(w[0])];
        let tail = lower_seq(w.subrange(1, w.len() as int));
        lemma_word_score_concat(head, tail);
        assert(head.drop_last() =~= Seq::<char>::empty());
        lemma_letter_score_upper(w[0]);
        lemma_score_case_insensitive(w.subrange(1, w.len() as int));
        let head0 = seq![w[0]];
        lemma_word_score_concat(head0, w.subrange(1, w.len() as int));
        assert(head0.drop_last() =~= Seq::<char>::empty());
        assert(head0 + w.subrange(1, w.len() as int) =~= w);
    }
}

} // verus!

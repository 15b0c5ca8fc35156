//! The Markov model: a three-level frequency structure learned from a
//! tokenized corpus, and the weighted sampler that inverts the score
//! function — for a target score it returns a word scoring exactly that,
//! falling back from context-conditioned words to unconditioned words to a
//! synthesized filler word.
use vstd::prelude::*;
use vstd::assert_by_contradiction;
use vstd::string::StringExecFns;

use rand::RngExt;

use crate::chars::{
    ascii_seq, is_alpha, lemma_ascii_casing, lemma_ascii_concat, push_char, title_case, title_of,
};
use crate::score::{
    lemma_score_title, lemma_word_score_concat, lemma_word_score_push, letter_score, score,
    word_score, Word,
};
use crate::tokens::{token_string, tokens_spec, Token, TokenView};
use crate::words::{
    lemma_nz_scores_empty, lemma_nz_scores_junk_prefix, lemma_nz_scores_split,
    lemma_nz_scores_title, lemma_nz_scores_word, nz_scores, word_shaped, ParseError,
};

verus! {

/// Relies on rand's `random_range` on the thread-local generator: the draw
/// lies in the half-open range below `n`, which must not be empty.
#[verifier::external_body]
fn random_below(n: u64) -> (r: u64)
    requires
        n > 0,
    ensures
        r < n,
{
    rand::rng().random_range(0..n)
}

/// Well-formed entries of a weighted multiset: distinct words, and no
/// count of zero.
pub open spec fn sym_wf(es: Seq<(Seq<char>, u64)>) -> bool {
    (forall|a: int, b: int| 0 <= a < b < es.len() ==> (#[trigger] es[a]).0 != (#[trigger] es[b]).0)
        && (forall|k: int| 0 <= k < es.len() ==> (#[trigger] es[k]).1 >= 1)
}

/// The total of the counts.
pub open spec fn sym_total(es: Seq<(Seq<char>, u64)>) -> int
    decreases es.len(),
{
    if es.len() == 0 {
        0
    } else {
        es[0].1 + sym_total(es.drop_first())
    }
}

/// The position of a word among the entries, or -1.
pub open spec fn find_key(es: Seq<(Seq<char>, u64)>, w: Seq<char>) -> int
    decreases es.len(),
{
    if es.len() == 0 {
        -1
    } else if es[0].0 == w {
        0
    } else {
        let r = find_key(es.drop_first(), w);
        if r == -1 {
            -1
        } else {
            r + 1
        }
    }
}

/// One more observation of a word: its count rises by one, a first
/// observation appends the word with count one.
pub open spec fn sym_absorb(es: Seq<(Seq<char>, u64)>, w: Seq<char>) -> Seq<(Seq<char>, u64)> {
    let idx = find_key(es, w);
    if idx == -1 {
        es.push((w, 1))
    } else {
        es.update(idx, (w, (es[idx].1 + 1) as u64))
    }
}

/// The word the weighted draw `c` falls on: counts are laid end to end and
/// the entry covering position `c` is chosen.
pub open spec fn pick_spec(es: Seq<(Seq<char>, u64)>, c: int) -> Seq<char>
    decreases es.len(),
{
    if es.len() == 0 {
        Seq::empty()
    } else if c < es[0].1 {
        es[0].0
    } else {
        pick_spec(es.drop_first(), c - es[0].1)
    }
}

pub proof fn lemma_find_key_props(es: Seq<(Seq<char>, u64)>, w: Seq<char>)
    ensures
        ({
            let idx = find_key(es, w);
            &&& (idx == -1 ==> forall|k: int| 0 <= k < es.len() ==> (#[trigger] es[k]).0 != w)
            &&& (idx != -1 ==> 0 <= idx < es.len() && es[idx].0 == w && (forall|k: int|
                0 <= k < idx ==> (#[trigger] es[k]).0 != w))
        }),
    decreases es.len(),
{
    if es.len() > 0 && es[0].0 != w {
        let rest = es.drop_first();
        lemma_find_key_props(rest, w);
        assert(forall|k: int| 0 <= k < rest.len() ==> #[trigger] rest[k] == es[k + 1]);
        let idx0 = find_key(rest, w);
        if idx0 == -1 {
            assert(find_key(es, w) == -1);
            assert forall|k: int| 0 <= k < es.len() implies (#[trigger] es[k]).0 != w by {
                if k > 0 {
                    assert(rest[k - 1] == es[k]);
                }
            }
        } else {
            assert(find_key(es, w) == idx0 + 1);
            assert(es[idx0 + 1] == rest[idx0]);
            assert forall|k: int| 0 <= k < idx0 + 1 implies (#[trigger] es[k]).0 != w by {
                if k > 0 {
                    assert(rest[k - 1] == es[k]);
                }
            }
        }
    }
}

proof fn lemma_sym_total_push(es: Seq<(Seq<char>, u64)>, e: (Seq<char>, u64))
    ensures
        sym_total(es.push(e)) == sym_total(es) + e.1,
    decreases es.len(),
{
    if es.len() == 0 {
        assert(es.push(e).drop_first() =~= Seq::<(Seq<char>, u64)>::empty());
        assert(sym_total(Seq::<(Seq<char>, u64)>::empty()) == 0);
        assert(es.push(e).len() == 1);
        assert(es.push(e)[0] == e);
        assert(sym_total(es.push(e)) == es.push(e)[0].1 + sym_total(es.push(e).drop_first()));
        assert(sym_total(es) == 0);
    } else {
        assert(es.push(e).drop_first() =~= es.drop_first().push(e));
        lemma_sym_total_push(es.drop_first(), e);
        assert(es.push(e).len() > 0);
        assert(es.push(e)[0] == es[0]);
        assert(sym_total(es.push(e)) == es.push(e)[0].1 + sym_total(es.push(e).drop_first()));
        assert(sym_total(es) == es[0].1 + sym_total(es.drop_first()));
    }
}

proof fn lemma_sym_total_update(es: Seq<(Seq<char>, u64)>, idx: int, e: (Seq<char>, u64))
    requires
        0 <= idx < es.len(),
    ensures
        sym_total(es.update(idx, e)) == sym_total(es) - es[idx].1 + e.1,
    decreases es.len(),
{
    if idx == 0 {
        assert(es.update(0, e).drop_first() =~= es.drop_first());
    } else {
        assert(es.update(idx, e).drop_first() =~= es.drop_first().update(idx - 1, e));
        lemma_sym_total_update(es.drop_first(), idx - 1, e);
    }
}

/// Every count is part of the total.
proof fn lemma_sym_total_bounds(es: Seq<(Seq<char>, u64)>, idx: int)
    requires
        0 <= idx < es.len(),
    ensures
        sym_total(es) >= es[idx].1,
        sym_total(es) >= 0,
    decreases es.len(),
{
    lemma_sym_total_nonneg(es);
    if idx == 0 {
        lemma_sym_total_nonneg(es.drop_first());
    } else {
        lemma_sym_total_bounds(es.drop_first(), idx - 1);
        assert(es.drop_first()[idx - 1] == es[idx]);
    }
}

proof fn lemma_sym_total_nonneg(es: Seq<(Seq<char>, u64)>)
    ensures
        sym_total(es) >= 0,
    decreases es.len(),
{
    if es.len() > 0 {
        lemma_sym_total_nonneg(es.drop_first());
    }
}

/// A weighted draw lands on a stored word.
pub proof fn lemma_pick_is_stored(es: Seq<(Seq<char>, u64)>, c: int)
    requires
        0 <= c < sym_total(es),
    ensures
        exists|k: int| 0 <= k < es.len() && (#[trigger] es[k]).0 == pick_spec(es, c),
    decreases es.len(),
{
    lemma_sym_total_nonneg(es);
    if es.len() > 0 {
        if c < es[0].1 {
            assert(es[0].0 == pick_spec(es, c));
        } else {
            lemma_pick_is_stored(es.drop_first(), c - es[0].1);
            let k0 = choose|k: int|
                0 <= k < es.drop_first().len() && (#[trigger] es.drop_first()[k]).0 == pick_spec(
                    es.drop_first(),
                    c - es[0].1,
                );
            assert(es[k0 + 1].0 == pick_spec(es, c));
        }
    }
}

/// The fixed renderings of the structural tokens: the zero-score strings a
/// trained model stores.
pub open spec fn rendering_shape(w: Seq<char>) -> bool {
    w == seq![' '] || w == seq![',', ' '] || w == seq!['.', ' '] || w == seq!['?', ' '] || w
        == seq!['('] || w == seq![')'] || w == seq![':', ' '] || w == seq!['"'] || w == seq!['\'']
        || w == seq!['\n']
}

/// What a trained model stores under a score: ASCII words, and, under
/// score zero only, also the punctuation renderings. The ASCII bound is
/// what lets the synthesizer's title casing be reasoned about exactly.
pub open spec fn stored_shape(w: Seq<char>, s: u8) -> bool {
    ascii_seq(w) && if s == 0 {
        rendering_shape(w) || word_shaped(w)
    } else {
        word_shaped(w)
    }
}

/// Every word of every bucket has the shape its score demands.
pub open spec fn sc_shaped(sv: ScoresView) -> bool {
    forall|k: int, t: int|
        0 <= k < sv.len() && 0 <= t < sv[k].1.len() ==> stored_shape(
            (#[trigger] sv[k].1[t]).0,
            sv[k].0,
        )
}

/// No rendering contains an alphabetic character.
proof fn lemma_rendering_no_alpha(w: Seq<char>)
    requires
        rendering_shape(w),
    ensures
        forall|k: int| 0 <= k < w.len() ==> !is_alpha(#[trigger] w[k]),
{
    assert forall|k: int| 0 <= k < w.len() implies !is_alpha(#[trigger] w[k]) by {
        if w.len() == 1 {
            assert(w[0] == w[0]);
        } else {
            if k == 0 {
            } else {
                assert(k == 1);
            }
        }
    }
}

/// What a drawn string contributes to the word scores of the output: one
/// word of exactly the target score, or nothing when the target is zero.
pub open spec fn piece_nz(w: Seq<char>, s: u8) -> bool {
    nz_scores(w) == (if s == 0 {
        Seq::<u8>::empty()
    } else {
        seq![s]
    })
}

/// A stored string is a well-behaved piece for its own score.
proof fn lemma_stored_piece(w: Seq<char>, s: u8)
    requires
        stored_shape(w, s),
        word_score(w) == s,
    ensures
        piece_nz(w, s),
{
    if s == 0 && rendering_shape(w) {
        lemma_rendering_no_alpha(w);
        assert(w + Seq::<char>::empty() =~= w);
        lemma_nz_scores_junk_prefix(w, Seq::empty());
        lemma_nz_scores_empty();
    } else {
        lemma_nz_scores_word(w);
    }
}

/// Prefixing a piece with any zero-score stored string leaves its word
/// scores alone: a rendering contributes only junk, and a scoreless word
/// merges into the run after it without changing its score.
proof fn lemma_piece_prepend_zero(z: Seq<char>, w: Seq<char>, s: u8)
    requires
        stored_shape(z, 0),
        word_score(z) == 0,
        piece_nz(w, s),
    ensures
        piece_nz(z + w, s),
{
    if rendering_shape(z) {
        lemma_rendering_no_alpha(z);
        crate::words::lemma_nz_scores_junk_prefix(z, w);
    } else {
        crate::words::lemma_nz_scores_word_prefix(z, w);
    }
}

/// One stored word and how often it has been seen.
#[derive(Debug)]
struct SymEntry {
    word: String,
    count: u64,
}

/// One weighted multiset of words, all sharing a score: each stored word
/// with its count, and the running total of the counts.
#[derive(Debug)]
pub struct MarkovSymbols {
    count: u64,
    tokens: Vec<SymEntry>,
}

impl MarkovSymbols {
    /// The stored words and counts, in first-observation order.
    pub closed spec fn entries(&self) -> Seq<(Seq<char>, u64)> {
        self.tokens@.map_values(|p: SymEntry| (p.word@, p.count))
    }

    /// The stored total equals the sum of the entry counts, the words are
    /// distinct, and no count is zero.
    pub closed spec fn wf(&self) -> bool {
        sym_wf(self.entries()) && self.count == sym_total(self.entries())
    }

    fn new() -> (r: MarkovSymbols)
        ensures
            r.wf(),
            r.entries() == Seq::<(Seq<char>, u64)>::empty(),
            r.count == 0,
    {
        let r = MarkovSymbols { count: 0, tokens: Vec::new() };
        proof {
            assert(r.entries() =~= Seq::<(Seq<char>, u64)>::empty());
        }
        r
    }

    /// Records one more observation of the word.
    fn add_token(&mut self, token: &String)
        requires
            old(self).wf(),
            old(self).count < u64::MAX,
        ensures
            final(self).wf(),
            final(self).entries() == sym_absorb(old(self).entries(), token@),
            final(self).count == old(self).count + 1,
    {
        let ghost es = self.entries();
        proof {
            lemma_find_key_props(es, token@);
        }
        let n = self.tokens.len();
        let mut i: usize = 0;
        while i < n
            invariant
                i <= n,
                n == self.tokens@.len(),
                *self == *old(self),
                es == self.entries(),
                sym_wf(es),
                self.count == sym_total(es),
                self.count < u64::MAX,
                forall|k: int| 0 <= k < i ==> (#[trigger] es[k]).0 != token@,
            decreases n - i,
        {
            if self.tokens[i].word == *token {
                proof {
                    assert(es[i as int].0 == token@);
                    assert(find_key(es, token@) == i as int) by {
                        lemma_find_key_props(es, token@);
                        let idx = find_key(es, token@);
                        if idx < i {
                            assert(es[idx].0 == token@);
                        }
                        if idx == -1 {
                            assert(es[i as int].0 != token@);
                        }
                        assert(sym_wf(es));
                        if idx > i {
                            assert(es[i as int].0 == es[idx].0);
                        }
                    }
                    lemma_sym_total_bounds(es, i as int);
                }
                let cnt = self.tokens[i].count;
                let key = self.tokens[i].word.clone();
                self.tokens.set(i, SymEntry { word: key, count: cnt + 1 });
                self.count = self.count + 1;
                proof {
                    let es2 = es.update(i as int, (token@, (cnt + 1) as u64));
                    assert(self.entries() =~= es2);
                    lemma_sym_total_update(es, i as int, (token@, (cnt + 1) as u64));
                    assert(sym_wf(es2)) by {
                        assert(forall|k: int|
                            0 <= k < es2.len() && k != i ==> #[trigger] es2[k] == es[k]);
                    }
                }
                return ;
            }
            i = i + 1;
        }
        proof {
            assert(find_key(es, token@) == -1) by {
                lemma_find_key_props(es, token@);
                let idx = find_key(es, token@);
                if idx != -1 {
                    assert(es[idx].0 == token@);
                }
            }
        }
        self.tokens.push(SymEntry { word: token.clone(), count: 1 });
        self.count = self.count + 1;
        proof {
            let es2 = es.push((token@, 1));
            assert(self.entries() =~= es2);
            lemma_sym_total_push(es, (token@, 1));
            assert(sym_wf(es2)) by {
                assert(forall|k: int| 0 <= k < es.len() ==> #[trigger] es2[k] == es[k]);
                assert(es2[es.len() as int] == (token@, 1u64));
            }
        }
    }

    /// The word the weighted draw `choice` falls on.
    fn pick(&self, choice: u64) -> (r: String)
        requires
            self.wf(),
            choice < self.count,
        ensures
            r@ == pick_spec(self.entries(), choice as int),
    {
        let ghost es = self.entries();
        let n = self.tokens.len();
        let mut c = choice;
        let mut i: usize = 0;
        proof {
            assert(es.skip(0) =~= es);
        }
        loop
            invariant
                es == self.entries(),
                n == self.tokens@.len(),
                i <= n,
                pick_spec(es, choice as int) == pick_spec(es.skip(i as int), c as int),
                (c as int) < sym_total(es.skip(i as int)),
            ensures
                i < self.tokens@.len(),
                pick_spec(es, choice as int) == self.tokens@[i as int].word@,
            decreases self.tokens@.len() - i,
        {
            proof {
                if i as int == self.tokens@.len() {
                    assert(es.skip(i as int) =~= Seq::<(Seq<char>, u64)>::empty());
                    assert(sym_total(es.skip(i as int)) == 0);
                    assert(false);
                }
                assert(es.skip(i as int)[0] == es[i as int]);
            }
            if c < self.tokens[i].count {
                proof {
                    assert(pick_spec(es.skip(i as int), c as int) == es[i as int].0);
                }
                break ;
            }
            proof {
                assert(es.skip(i as int).drop_first() =~= es.skip(i as int + 1));
                assert(sym_total(es.skip(i as int)) == es[i as int].1 + sym_total(
                    es.skip(i as int + 1),
                ));
            }
            c = c - self.tokens[i].count;
            i = i + 1;
        }
        self.tokens[i].word.clone()
    }

    /// A weighted random draw among the stored words.
    fn get_key(&self) -> (r: String)
        requires
            self.wf(),
            self.count > 0,
        ensures
            exists|c: int| 0 <= c < self.count && r@ == #[trigger] pick_spec(self.entries(), c),
    {
        let choice = random_below(self.count);
        let r = self.pick(choice);
        proof {
            assert(r@ == pick_spec(self.entries(), choice as int));
        }
        r
    }

    pub closed spec fn spec_count(&self) -> u64 {
        self.count
    }

    fn count(&self) -> (r: u64)
        ensures
            r == self.count,
    {
        self.count
    }
}

/// The position of a key among keyed entries, or -1.
pub open spec fn find_in<K, V>(es: Seq<(K, V)>, key: K) -> int
    decreases es.len(),
{
    if es.len() == 0 {
        -1
    } else if es[0].0 == key {
        0
    } else {
        let r = find_in(es.drop_first(), key);
        if r == -1 {
            -1
        } else {
            r + 1
        }
    }
}

pub proof fn lemma_find_in_props<K, V>(es: Seq<(K, V)>, key: K)
    ensures
        ({
            let idx = find_in(es, key);
            &&& (idx == -1 ==> forall|k: int| 0 <= k < es.len() ==> (#[trigger] es[k]).0 != key)
            &&& (idx != -1 ==> 0 <= idx < es.len() && es[idx].0 == key && (forall|k: int|
                0 <= k < idx ==> (#[trigger] es[k]).0 != key))
        }),
    decreases es.len(),
{
    if es.len() > 0 && es[0].0 != key {
        let rest = es.drop_first();
        lemma_find_in_props(rest, key);
        assert(forall|k: int| 0 <= k < rest.len() ==> #[trigger] rest[k] == es[k + 1]);
        let idx0 = find_in(rest, key);
        if idx0 == -1 {
            assert forall|k: int| 0 <= k < es.len() implies (#[trigger] es[k]).0 != key by {
                if k > 0 {
                    assert(rest[k - 1] == es[k]);
                }
            }
        } else {
            assert(es[idx0 + 1] == rest[idx0]);
            assert forall|k: int| 0 <= k < idx0 + 1 implies (#[trigger] es[k]).0 != key by {
                if k > 0 {
                    assert(rest[k - 1] == es[k]);
                }
            }
        }
    }
}

/// The entries of one score bucket.
pub type SymView = Seq<(Seq<char>, u64)>;

/// The buckets of a score table, each score with its bucket.
pub type ScoresView = Seq<(u8, SymView)>;

/// The total count over all buckets of a score table.
pub open spec fn sc_total(sv: ScoresView) -> int
    decreases sv.len(),
{
    if sv.len() == 0 {
        0
    } else {
        sym_total(sv[0].1) + sc_total(sv.drop_first())
    }
}

proof fn lemma_sc_total_nonneg(sv: ScoresView)
    ensures
        sc_total(sv) >= 0,
    decreases sv.len(),
{
    if sv.len() > 0 {
        lemma_sym_total_nonneg(sv[0].1);
        lemma_sc_total_nonneg(sv.drop_first());
    }
}

/// Each bucket's total is part of the table's total.
proof fn lemma_sc_total_bounds(sv: ScoresView, idx: int)
    requires
        0 <= idx < sv.len(),
    ensures
        sc_total(sv) >= sym_total(sv[idx].1),
        sc_total(sv) >= 0,
    decreases sv.len(),
{
    lemma_sc_total_nonneg(sv);
    if idx == 0 {
        lemma_sc_total_nonneg(sv.drop_first());
        lemma_sym_total_nonneg(sv[0].1);
    } else {
        lemma_sc_total_bounds(sv.drop_first(), idx - 1);
        assert(sv.drop_first()[idx - 1] == sv[idx]);
        lemma_sym_total_nonneg(sv[0].1);
    }
}

proof fn lemma_sc_total_push(sv: ScoresView, e: (u8, SymView))
    ensures
        sc_total(sv.push(e)) == sc_total(sv) + sym_total(e.1),
    decreases sv.len(),
{
    if sv.len() == 0 {
        assert(sv.push(e).drop_first() =~= Seq::<(u8, SymView)>::empty());
        assert(sv.push(e)[0] == e);
        assert(sc_total(sv.push(e)) == sym_total(sv.push(e)[0].1) + sc_total(
            sv.push(e).drop_first(),
        ));
    } else {
        assert(sv.push(e).drop_first() =~= sv.drop_first().push(e));
        lemma_sc_total_push(sv.drop_first(), e);
        assert(sv.push(e)[0] == sv[0]);
        assert(sc_total(sv.push(e)) == sym_total(sv.push(e)[0].1) + sc_total(
            sv.push(e).drop_first(),
        ));
        assert(sc_total(sv) == sym_total(sv[0].1) + sc_total(sv.drop_first()));
    }
}

proof fn lemma_sc_total_update(sv: ScoresView, idx: int, e: (u8, SymView))
    requires
        0 <= idx < sv.len(),
    ensures
        sc_total(sv.update(idx, e)) == sc_total(sv) - sym_total(sv[idx].1) + sym_total(e.1),
    decreases sv.len(),
{
    if idx == 0 {
        assert(sv.update(0, e).drop_first() =~= sv.drop_first());
        assert(sv.update(0, e)[0] == e);
    } else {
        assert(sv.update(idx, e).drop_first() =~= sv.drop_first().update(idx - 1, e));
        lemma_sc_total_update(sv.drop_first(), idx - 1, e);
        assert(sv.update(idx, e)[0] == sv[0]);
        assert(sv.drop_first()[idx - 1] == sv[idx]);
    }
}

/// One more observation of a word under a score: the bucket for the score
/// absorbs the word, a first observation opens the bucket.
pub open spec fn sc_absorb(sv: ScoresView, score: u8, w: Seq<char>) -> ScoresView {
    let idx = find_in(sv, score);
    if idx == -1 {
        sv.push((score, seq![(w, 1u64)]))
    } else {
        sv.update(idx, (score, sym_absorb(sv[idx].1, w)))
    }
}

/// Distinct scores, well-formed non-empty buckets, a coherent running
/// total, and every stored word scoring exactly its bucket's score.
pub open spec fn sc_view_wf(sv: ScoresView) -> bool {
    (forall|a: int, b: int| 0 <= a < b < sv.len() ==> (#[trigger] sv[a]).0 != (#[trigger] sv[b]).0)
        && (forall|k: int| 0 <= k < sv.len() ==> sym_wf((#[trigger] sv[k]).1))
        && (forall|k: int| 0 <= k < sv.len() ==> (#[trigger] sv[k]).1.len() >= 1)
        && (forall|k: int, t: int|
        0 <= k < sv.len() && 0 <= t < sv[k].1.len() ==> word_score(
            (#[trigger] sv[k].1[t]).0,
        ) == sv[k].0)
}

/// One score's bucket of words with their counts.
#[derive(Debug)]
struct ScoreEntry {
    score: u8,
    syms: MarkovSymbols,
}

/// A score table: for each score seen so far, the weighted multiset of
/// words that carry it, with a running total over all buckets.
#[derive(Debug)]
struct MarkovScores {
    tokens: Vec<ScoreEntry>,
    count: u64,
}

impl MarkovScores {
    /// The buckets, in first-observation order of their scores.
    pub closed spec fn sv(&self) -> ScoresView {
        self.tokens@.map_values(|p: ScoreEntry| (p.score, p.syms.entries()))
    }

    pub closed spec fn wf(&self) -> bool {
        sc_view_wf(self.sv()) && (forall|k: int|
            0 <= k < self.tokens@.len() ==> (#[trigger] self.tokens@[k]).syms.wf())
            && self.count == sc_total(self.sv())
    }

    pub closed spec fn spec_count(&self) -> u64 {
        self.count
    }

    fn new() -> (r: MarkovScores)
        ensures
            r.wf(),
            r.sv() == Seq::<(u8, SymView)>::empty(),
            r.spec_count() == 0,
    {
        let r = MarkovScores { tokens: Vec::new(), count: 0 };
        proof {
            assert(r.sv() =~= Seq::<(u8, SymView)>::empty());
        }
        r
    }

    /// Looks up the bucket for a score.
    fn find_bucket(&self, score: u8) -> (r: Option<usize>)
        ensures
            match r {
                Some(i) => i < self.tokens@.len() && self.sv()[i as int].0 == score && find_in(
                    self.sv(),
                    score,
                ) == i as int,
                None => find_in(self.sv(), score) == -1,
            },
    {
        let ghost sv = self.sv();
        proof {
            lemma_find_in_props(sv, score);
        }
        let n = self.tokens.len();
        let mut i: usize = 0;
        while i < n
            invariant
                i <= n,
                n == self.tokens@.len(),
                sv == self.sv(),
                forall|k: int| 0 <= k < i ==> (#[trigger] sv[k]).0 != score,
            decreases n - i,
        {
            if self.tokens[i].score == score {
                proof {
                    lemma_find_in_props(sv, score);
                    let idx = find_in(sv, score);
                    if idx == -1 {
                        assert(sv[i as int].0 != score);
                    }
                    if idx != -1 && idx < i {
                        assert(sv[idx].0 == score);
                    }
                }
                return Some(i);
            }
            i = i + 1;
        }
        proof {
            lemma_find_in_props(sv, score);
            let idx = find_in(sv, score);
            if idx != -1 {
                assert(sv[idx].0 == score);
            }
        }
        None
    }

    /// Records one more observation of the word under the score.
    fn add_token(&mut self, score: u8, token: &String)
        requires
            old(self).wf(),
            old(self).spec_count() < u64::MAX,
            word_score(token@) == score,
        ensures
            final(self).wf(),
            final(self).sv() == sc_absorb(old(self).sv(), score, token@),
            final(self).spec_count() == old(self).spec_count() + 1,
    {
        let ghost sv = self.sv();
        match self.find_bucket(score) {
            Some(i) => {
                proof {
                    lemma_sc_total_bounds(sv, i as int);
                    lemma_sym_total_nonneg(sv[i as int].1);
                }
                let mut entry = self.tokens.remove(i);
                entry.syms.add_token(token);
                self.tokens.insert(i, entry);
                self.count = self.count + 1;
                proof {
                    let bucket2 = sym_absorb(sv[i as int].1, token@);
                    let sv2 = sv.update(i as int, (score, bucket2));
                    assert(self.sv() =~= sv2);
                    lemma_sc_total_update(sv, i as int, (score, bucket2));
                    assert(sc_view_wf(sv2)) by {
                        lemma_find_key_props(sv[i as int].1, token@);
                        assert forall|t: int|
                            0 <= t < sv[i as int].1.len() implies (#[trigger] sv[i as int].1[t]).1
                            < u64::MAX by {
                            lemma_sym_total_bounds(sv[i as int].1, t);
                            lemma_sc_total_bounds(sv, i as int);
                        }
                        lemma_sym_absorb_wf(sv[i as int].1, token@, score);
                        assert(forall|k: int|
                            0 <= k < sv2.len() && k != i ==> #[trigger] sv2[k] == sv[k]);
                    }
                }
            },
            None => {
                let mut syms = MarkovSymbols::new();
                syms.add_token(token);
                self.tokens.push(ScoreEntry { score, syms });
                self.count = self.count + 1;
                proof {
                    let bucket2 = sym_absorb(Seq::empty(), token@);
                    assert(bucket2 =~= seq![(token@, 1u64)]);
                    let sv2 = sv.push((score, bucket2));
                    assert(self.sv() =~= sv2);
                    lemma_sc_total_push(sv, (score, bucket2));
                    assert(sym_total(bucket2) == 1) by {
                        assert(bucket2.drop_first() =~= Seq::<(Seq<char>, u64)>::empty());
                    }
                    lemma_find_in_props(sv, score);
                    assert(sc_view_wf(sv2)) by {
                        lemma_sym_absorb_wf(Seq::empty(), token@, score);
                        assert(forall|k: int| 0 <= k < sv.len() ==> #[trigger] sv2[k] == sv[k]);
                        assert(sv2[sv.len() as int] == (score, bucket2));
                    }
                    lemma_sc_total_nonneg(sv);
                }
            },
        }
    }
}

/// Whether a table's bucket for a score holds a word.
pub open spec fn table_has(sv: ScoresView, s: u8, w: Seq<char>) -> bool {
    let i = find_in(sv, s);
    i != -1 && exists|t: int| 0 <= t < sv[i].1.len() && (#[trigger] sv[i].1[t]).0 == w
}

/// What the bounded draw on one score table can return: a stored word of
/// the score (a stored lone `i` possibly as `I`), or, while rounds
/// remain, a stored zero-score word prefixed to a further draw, the rest
/// title-cased when the prefix ends a sentence.
pub open spec fn drawn(sv: ScoresView, s: u8, w: Seq<char>, rounds: nat) -> bool
    decreases rounds,
{
    ||| table_has(sv, s, w)
    ||| (w == seq!['I'] && table_has(sv, s, seq!['i']))
    ||| (rounds > 0 && exists|z: Seq<char>, rest: Seq<char>|
        #![trigger z + rest]
        #![trigger z + title_of(rest)]
        {
            &&& table_has(sv, 0, z)
            &&& drawn(sv, s, rest, (rounds - 1) as nat)
            &&& (w == z + rest || w == z + title_of(rest))
        })
}

/// Where a draw for a context and score comes from: the context's own
/// table when it holds the score, else the whole-corpus table when it
/// does, else the deterministic filler word.
pub open spec fn chosen(gv: ScoresView, cv: CtxView, last: Seq<char>, s: u8, w: Seq<char>) -> bool {
    let ci = find_in(cv, last);
    if ci != -1 && find_in(cv[ci].1, s) != -1 {
        drawn(cv[ci].1, s, w, PREFIX_ROUNDS as nat)
    } else if find_in(gv, s) != -1 {
        drawn(gv, s, w, PREFIX_ROUNDS as nat)
    } else {
        w == filler_word(s)
    }
}

/// A zero-score stored word prefixed to a draw is again a draw.
proof fn lemma_drawn_prefix(
    sv: ScoresView,
    s: u8,
    z: Seq<char>,
    rest: Seq<char>,
    w: Seq<char>,
    rounds: nat,
)
    requires
        rounds > 0,
        table_has(sv, 0, z),
        drawn(sv, s, rest, (rounds - 1) as nat),
        w == z + rest || w == z + title_of(rest),
    ensures
        drawn(sv, s, w, rounds),
{
    assert_by_contradiction!(drawn(sv, s, w, rounds), {
        assert(table_has(sv, 0, z));
        assert(drawn(sv, s, rest, (rounds - 1) as nat));
        if w == z + rest {
            assert(w == z + rest);
        } else {
            assert(w == z + title_of(rest));
        }
    });
}

/// The texts one synthesis pass can produce for the program from word `i`
/// on: each word is drawn for its score with the previous draw's text as
/// context; a draw after the empty context is title-cased; every other
/// draw is preceded by one space unless it begins with a full stop,
/// question mark or comma, which attach to the previous word.
pub open spec fn assembles(
    gv: ScoresView,
    cv: CtxView,
    ws: Seq<Word>,
    i: int,
    last: Seq<char>,
    rest: Seq<char>,
) -> bool
    decreases ws.len() - i,
{
    if i >= ws.len() {
        rest == Seq::<char>::empty()
    } else {
        exists|t: Seq<char>|
            {
                &&& #[trigger] chosen(gv, cv, last, ws[i].score, t)
                &&& if last.len() == 0 {
                    title_of(t).is_prefix_of(rest) && assembles(
                        gv,
                        cv,
                        ws,
                        i + 1,
                        title_of(t),
                        rest.skip(title_of(t).len() as int),
                    )
                } else if t.len() > 0 && (t[0] == '.' || t[0] == '?' || t[0] == ',') {
                    t.is_prefix_of(rest) && assembles(
                        gv,
                        cv,
                        ws,
                        i + 1,
                        t,
                        rest.skip(t.len() as int),
                    )
                } else {
                    (seq![' '] + t).is_prefix_of(rest) && assembles(
                        gv,
                        cv,
                        ws,
                        i + 1,
                        t,
                        rest.skip(t.len() as int + 1),
                    )
                }
            }
    }
}

/// One drawn word, set in front of an assembly of the rest, assembles.
proof fn lemma_assembles_step(
    gv: ScoresView,
    cv: CtxView,
    ws: Seq<Word>,
    i: int,
    last: Seq<char>,
    t: Seq<char>,
    tail: Seq<char>,
    rest: Seq<char>,
)
    requires
        0 <= i < ws.len(),
        chosen(gv, cv, last, ws[i].score, t),
        ({
            if last.len() == 0 {
                rest == title_of(t) + tail && assembles(gv, cv, ws, i + 1, title_of(t), tail)
            } else if t.len() > 0 && (t[0] == '.' || t[0] == '?' || t[0] == ',') {
                rest == t + tail && assembles(gv, cv, ws, i + 1, t, tail)
            } else {
                rest == seq![' '] + t + tail && assembles(gv, cv, ws, i + 1, t, tail)
            }
        }),
    ensures
        assembles(gv, cv, ws, i, last, rest),
{
    if last.len() == 0 {
        assert(title_of(t).is_prefix_of(rest)) by {
            assert(rest.subrange(0, title_of(t).len() as int) =~= title_of(t));
        }
        assert(rest.skip(title_of(t).len() as int) =~= tail);
    } else if t.len() > 0 && (t[0] == '.' || t[0] == '?' || t[0] == ',') {
        assert(t.is_prefix_of(rest)) by {
            assert(rest.subrange(0, t.len() as int) =~= t);
        }
        assert(rest.skip(t.len() as int) =~= tail);
    } else {
        assert((seq![' '] + t).is_prefix_of(rest)) by {
            assert(rest.subrange(0, t.len() as int + 1) =~= seq![' '] + t);
        }
        assert(rest.skip(t.len() as int + 1) =~= tail);
    }
    assert_by_contradiction!(assembles(gv, cv, ws, i, last, rest), {
        assert(chosen(gv, cv, last, ws[i].score, t));
    });
}

/// With distinct keys, a key's position is wherever it stands.
proof fn lemma_find_in_unique<K, V>(es: Seq<(K, V)>, idx: int)
    requires
        0 <= idx < es.len(),
        forall|a: int, b: int|
            0 <= a < b < es.len() ==> (#[trigger] es[a]).0 != (#[trigger] es[b]).0,
    ensures
        find_in(es, es[idx].0) == idx,
{
    lemma_find_in_props(es, es[idx].0);
    let f = find_in(es, es[idx].0);
    if f == -1 {
        assert(es[idx].0 != es[idx].0);
    } else if f < idx {
        assert(es[f].0 != es[idx].0);
    } else if f > idx {
        assert(es[idx].0 != es[f].0);
    }
}

impl MarkovScores {
    /// A weighted draw from a bucket known to exist. On the path that may
    /// mix in zero-score prefixes, a drawn lone `i` becomes `I`.
    fn normal_draw(&self, idx: usize, score: u8, capitalize_i: bool) -> (r: String)
        requires
            self.wf(),
            idx < self.tokens@.len(),
            self.sv()[idx as int].0 == score,
        ensures
            word_score(r@) == score,
            table_has(self.sv(), score, r@) || (r@ == seq!['I'] && table_has(
                self.sv(),
                score,
                seq!['i'],
            )),
            sc_shaped(self.sv()) ==> piece_nz(r@, score) && ascii_seq(r@),
    {
        let ghost es = self.tokens@[idx as int].syms.entries();
        proof {
            assert(self.sv()[idx as int].1 == es);
            assert(sym_wf(es) && es.len() >= 1);
            lemma_sym_total_bounds(es, 0);
            lemma_find_in_unique(self.sv(), idx as int);
        }
        let w = self.tokens[idx].syms.get_key();
        proof {
            let c = choose|c: int|
                0 <= c < self.tokens@[idx as int].syms.spec_count() && w@ == #[trigger] pick_spec(
                    es,
                    c,
                );
            lemma_pick_is_stored(es, c);
            let k = choose|k: int| 0 <= k < es.len() && (#[trigger] es[k]).0 == w@;
            assert(word_score(es[k].0) == score);
            assert(table_has(self.sv(), score, w@));
            if sc_shaped(self.sv()) {
                assert(stored_shape(w@, score));
                lemma_stored_piece(w@, score);
            }
        }
        if !capitalize_i {
            return w;
        }
        let is_i = String::from_str("i");
        proof {
            reveal_strlit("i");
            reveal_strlit("I");
        }
        if w == is_i {
            let r = String::from_str("I");
            proof {
                assert(w@ =~= seq!['i']);
                assert(word_score(Seq::<char>::empty()) == 0);
                assert(seq!['i'].drop_last() =~= Seq::<char>::empty());
                assert(seq!['i'].last() == 'i');
                assert(letter_score('i') == 1);
                assert(word_score(seq!['i']) == 1);
                assert(r@ =~= seq!['I']);
                assert(seq!['I'].drop_last() =~= Seq::<char>::empty());
                assert(seq!['I'].last() == 'I');
                assert(letter_score('I') == 1);
                assert(word_score(seq!['I']) == 1);
                assert(ascii_seq(r@));
                if sc_shaped(self.sv()) {
                    assert(word_shaped(r@));
                    lemma_nz_scores_word(r@);
                }
            }
            r
        } else {
            w
        }
    }

    /// Draws a word for the score: a weighted draw from the score's bucket,
    /// possibly prefixed by zero-score tokens as the corpus's punctuation
    /// rhythm dictates, the first word after a sentence-ending prefix
    /// title-cased. Yields nothing only when no word with the score has
    /// been seen. The number of prefix rounds is bounded; when the bound
    /// runs out the word is drawn without a further prefix.
    fn get_key(&self, score: u8, fuel: u8) -> (r: Option<String>)
        requires
            self.wf(),
        ensures
            match r {
                Some(w) => find_in(self.sv(), score) != -1 && drawn(
                    self.sv(),
                    score,
                    w@,
                    fuel as nat,
                ) && (sc_shaped(self.sv()) ==> word_score(w@) == score && piece_nz(w@, score)
                    && ascii_seq(w@)),
                None => find_in(self.sv(), score) == -1,
            },
        decreases fuel,
    {
        let ghost sv = self.sv();
        let idx = match self.find_bucket(score) {
            Some(i) => i,
            None => {
                return None;
            },
        };
        let zidx_opt = self.find_bucket(0);
        let zero_total: u64 = match zidx_opt {
            Some(z) => self.tokens[z].syms.count(),
            None => 0,
        };
        proof {
            assert(sym_wf(sv[idx as int].1) && sv[idx as int].1.len() >= 1);
            lemma_sym_total_bounds(sv[idx as int].1, 0);
            lemma_sc_total_bounds(sv, idx as int);
        }
        if zero_total == 0 {
            let w = self.normal_draw(idx, score, false);
            proof {
                assert(drawn(sv, score, w@, fuel as nat));
            }
            return Some(w);
        }
        if fuel == 0 {
            let w = self.normal_draw(idx, score, true);
            proof {
                assert(drawn(sv, score, w@, fuel as nat));
            }
            return Some(w);
        }
        let choice = random_below(self.count);
        if choice < zero_total {
            let z = match zidx_opt {
                Some(z) => z,
                None => {
                    proof {
                        assert(false);
                    }
                    return None;
                },
            };
            let ghost zes = self.tokens@[z as int].syms.entries();
            proof {
                assert(sv[z as int].1 == zes);
            }
            let zt = self.tokens[z].syms.get_key();
            proof {
                let c = choose|c: int|
                    0 <= c < self.tokens@[z as int].syms.spec_count() && zt@
                        == #[trigger] pick_spec(zes, c);
                lemma_pick_is_stored(zes, c);
                let k = choose|k: int| 0 <= k < zes.len() && (#[trigger] zes[k]).0 == zt@;
                assert(word_score(zes[k].0) == 0);
                if sc_shaped(sv) {
                    assert(stored_shape(zt@, 0));
                }
            }
            let rest = match self.get_key(score, fuel - 1) {
                Some(w) => w,
                None => {
                    proof {
                        assert(false);
                    }
                    return None;
                },
            };
            let ghost restv = rest@;
            let fs = String::from_str(". ");
            let qs = String::from_str("? ");
            let nl = String::from_str("\n");
            let terminal = zt == fs || zt == qs || zt == nl;
            let rest2 = if terminal {
                title_case(rest.as_str())
            } else {
                rest
            };
            let out = zt.concat(rest2.as_str());
            proof {
                assert(out@ == zt@ + rest2@);
                assert(rest2@ == restv || rest2@ == title_of(restv));
                assert(table_has(sv, 0, zt@));
                assert(drawn(sv, score, restv, (fuel - 1) as nat));
                assert(((fuel as nat) - 1) as nat == (fuel - 1) as nat);
                lemma_drawn_prefix(sv, score, zt@, restv, out@, fuel as nat);
                if sc_shaped(sv) {
                    assert(ascii_seq(restv));
                    if terminal {
                        assert(rest2@ == crate::chars::title_seq(restv));
                        lemma_score_title(restv);
                        lemma_nz_scores_title(restv);
                        lemma_ascii_casing(restv);
                    }
                    assert(word_score(rest2@) == score);
                    assert(piece_nz(rest2@, score));
                    assert(ascii_seq(rest2@));
                    lemma_word_score_concat(zt@, rest2@);
                    vstd::arithmetic::div_mod::lemma_small_mod(score as nat, 256);
                    lemma_piece_prepend_zero(zt@, rest2@, score);
                    lemma_ascii_concat(zt@, rest2@);
                }
            }
            Some(out)
        } else {
            let w = self.normal_draw(idx, score, true);
            proof {
                assert(drawn(sv, score, w@, fuel as nat));
            }
            Some(w)
        }
    }
}

/// Absorbing a word whose score matches keeps a bucket well formed.
proof fn lemma_sym_absorb_wf(es: SymView, w: Seq<char>, score: u8)
    requires
        sym_wf(es),
        forall|t: int| 0 <= t < es.len() ==> word_score((#[trigger] es[t]).0) == score,
        word_score(w) == score,
        forall|t: int| 0 <= t < es.len() ==> (#[trigger] es[t]).1 < u64::MAX,
    ensures
        sym_wf(sym_absorb(es, w)),
        sym_absorb(es, w).len() >= 1,
        forall|t: int|
            0 <= t < sym_absorb(es, w).len() ==> word_score(
                (#[trigger] sym_absorb(es, w)[t]).0,
            ) == score,
{
    lemma_find_key_props(es, w);
    let idx = find_key(es, w);
    let es2 = sym_absorb(es, w);
    if idx == -1 {
        assert(forall|k: int| 0 <= k < es.len() ==> #[trigger] es2[k] == es[k]);
        assert(es2[es.len() as int] == (w, 1u64));
    } else {
        assert(forall|k: int| 0 <= k < es2.len() && k != idx ==> #[trigger] es2[k] == es[k]);
        assert(es2[idx] == (w, (es[idx].1 + 1) as u64));
    }
}

/// The context tables: each preceding-token text with its score table.
pub type CtxView = Seq<(Seq<char>, ScoresView)>;

/// The total count over all context tables.
pub open spec fn ctx_total(cv: CtxView) -> int
    decreases cv.len(),
{
    if cv.len() == 0 {
        0
    } else {
        sc_total(cv[0].1) + ctx_total(cv.drop_first())
    }
}

proof fn lemma_ctx_total_nonneg(cv: CtxView)
    ensures
        ctx_total(cv) >= 0,
    decreases cv.len(),
{
    if cv.len() > 0 {
        lemma_sc_total_nonneg(cv[0].1);
        lemma_ctx_total_nonneg(cv.drop_first());
    }
}

proof fn lemma_ctx_total_bounds(cv: CtxView, idx: int)
    requires
        0 <= idx < cv.len(),
    ensures
        ctx_total(cv) >= sc_total(cv[idx].1),
    decreases cv.len(),
{
    if idx == 0 {
        lemma_ctx_total_nonneg(cv.drop_first());
    } else {
        lemma_ctx_total_bounds(cv.drop_first(), idx - 1);
        assert(cv.drop_first()[idx - 1] == cv[idx]);
        lemma_sc_total_nonneg(cv[0].1);
    }
}

proof fn lemma_ctx_total_push(cv: CtxView, e: (Seq<char>, ScoresView))
    ensures
        ctx_total(cv.push(e)) == ctx_total(cv) + sc_total(e.1),
    decreases cv.len(),
{
    if cv.len() == 0 {
        assert(cv.push(e).drop_first() =~= Seq::<(Seq<char>, ScoresView)>::empty());
        assert(cv.push(e)[0] == e);
        assert(ctx_total(cv.push(e)) == sc_total(cv.push(e)[0].1) + ctx_total(
            cv.push(e).drop_first(),
        ));
    } else {
        assert(cv.push(e).drop_first() =~= cv.drop_first().push(e));
        lemma_ctx_total_push(cv.drop_first(), e);
        assert(cv.push(e)[0] == cv[0]);
        assert(ctx_total(cv.push(e)) == sc_total(cv.push(e)[0].1) + ctx_total(
            cv.push(e).drop_first(),
        ));
        assert(ctx_total(cv) == sc_total(cv[0].1) + ctx_total(cv.drop_first()));
    }
}

proof fn lemma_ctx_total_update(cv: CtxView, idx: int, e: (Seq<char>, ScoresView))
    requires
        0 <= idx < cv.len(),
    ensures
        ctx_total(cv.update(idx, e)) == ctx_total(cv) - sc_total(cv[idx].1) + sc_total(e.1),
    decreases cv.len(),
{
    if idx == 0 {
        assert(cv.update(0, e).drop_first() =~= cv.drop_first());
        assert(cv.update(0, e)[0] == e);
    } else {
        assert(cv.update(idx, e).drop_first() =~= cv.drop_first().update(idx - 1, e));
        lemma_ctx_total_update(cv.drop_first(), idx - 1, e);
        assert(cv.update(idx, e)[0] == cv[0]);
        assert(cv.drop_first()[idx - 1] == cv[idx]);
    }
}

/// One more observation under a context: that context's table absorbs the
/// scored word, a first observation opens the table.
pub open spec fn ctx_absorb(cv: CtxView, last: Seq<char>, score: u8, w: Seq<char>) -> CtxView {
    let idx = find_in(cv, last);
    if idx == -1 {
        cv.push((last, sc_absorb(Seq::empty(), score, w)))
    } else {
        cv.update(idx, (cv[idx].0, sc_absorb(cv[idx].1, score, w)))
    }
}

/// One context and the score table of the words that followed it.
#[derive(Debug)]
struct CtxEntry {
    context: String,
    scores: MarkovScores,
}

/// The Markov model: the unconditioned score table, and one score table
/// for each preceding-token context seen in training.
#[derive(Debug)]
pub struct MarkovInfo {
    scores: MarkovScores,
    lookup: Vec<CtxEntry>,
}

impl MarkovInfo {
    /// The unconditioned score table.
    pub closed spec fn global_view(&self) -> ScoresView {
        self.scores.sv()
    }

    /// The context-conditioned score tables.
    pub closed spec fn ctx_view(&self) -> CtxView {
        self.lookup@.map_values(|p: CtxEntry| (p.context@, p.scores.sv()))
    }

    /// How many observations the model has absorbed.
    pub closed spec fn total(&self) -> u64 {
        self.scores.spec_count()
    }

    /// The synthesizer's shape: every stored string, in the unconditioned
    /// table and in every context table, is an ASCII word or, under score
    /// zero, a punctuation rendering. Training on a corpus of ASCII words
    /// gives this shape; on it the synthesizer's output re-scores exactly.
    pub closed spec fn shaped(&self) -> bool {
        sc_shaped(self.global_view()) && (forall|k: int|
            0 <= k < self.ctx_view().len() ==> sc_shaped((#[trigger] self.ctx_view()[k]).1))
    }

    pub closed spec fn wf(&self) -> bool {
        self.scores.wf() && (forall|a: int, b: int|
            0 <= a < b < self.lookup@.len() ==> (#[trigger] self.lookup@[a]).context@ != (
            #[trigger] self.lookup@[b]).context@) && (forall|k: int|
            0 <= k < self.lookup@.len() ==> (#[trigger] self.lookup@[k]).scores.wf())
            && ctx_total(self.ctx_view()) == self.scores.spec_count()
    }

    /// An empty model.
    pub fn new() -> (r: MarkovInfo)
        ensures
            r.wf(),
            r.shaped(),
            r.global_view() == Seq::<(u8, SymView)>::empty(),
            r.ctx_view() == Seq::<(Seq<char>, ScoresView)>::empty(),
            r.total() == 0,
    {
        let r = MarkovInfo { scores: MarkovScores::new(), lookup: Vec::new() };
        proof {
            assert(r.ctx_view() =~= Seq::<(Seq<char>, ScoresView)>::empty());
        }
        r
    }

    /// Looks up the table for a context.
    fn find_ctx(&self, last: &String) -> (r: Option<usize>)
        ensures
            match r {
                Some(i) => i < self.lookup@.len() && self.ctx_view()[i as int].0 == last@
                    && find_in(self.ctx_view(), last@) == i as int,
                None => find_in(self.ctx_view(), last@) == -1,
            },
    {
        let ghost cv = self.ctx_view();
        let n = self.lookup.len();
        let mut i: usize = 0;
        while i < n
            invariant
                i <= n,
                n == self.lookup@.len(),
                cv == self.ctx_view(),
                forall|k: int| 0 <= k < i ==> (#[trigger] cv[k]).0 != last@,
            decreases n - i,
        {
            if self.lookup[i].context == *last {
                proof {
                    let ghost le = self.lookup@[i as int];
                    assert(cv[i as int] == (le.context@, le.scores.sv()));
                    lemma_find_in_props(cv, last@);
                    let idx = find_in(cv, last@);
                    if idx == -1 {
                        assert(cv[i as int].0 != last@);
                    }
                    if idx != -1 && idx < i {
                        assert(cv[idx].0 == last@);
                    }
                }
                return Some(i);
            }
            i = i + 1;
        }
        proof {
            lemma_find_in_props(cv, last@);
            let idx = find_in(cv, last@);
            if idx != -1 {
                assert(cv[idx].0 == last@);
            }
        }
        None
    }

    /// Absorbs one observed transition: the word is scored, and both the
    /// context's table and the unconditioned table count it under that
    /// score.
    pub fn add_token(&mut self, last: String, token: &String)
        requires
            old(self).wf(),
            old(self).total() < u64::MAX,
        ensures
            final(self).wf(),
            final(self).total() == old(self).total() + 1,
            final(self).global_view() == sc_absorb(
                old(self).global_view(),
                word_score(token@),
                token@,
            ),
            final(self).ctx_view() == ctx_absorb(
                old(self).ctx_view(),
                last@,
                word_score(token@),
                token@,
            ),
            old(self).shaped() && absorbable(token@) ==> final(self).shaped(),
    {
        let token_score = score(token.as_str());
        let ghost cv = self.ctx_view();
        let ghost lastv = last@;
        proof {
            assert forall|k: int| 0 <= k < cv.len() implies (#[trigger] cv[k]).0 == old(
                self,
            ).lookup@[k].context@ by {
                let ghost le = self.lookup@[k];
                assert(cv[k] == (le.context@, le.scores.sv()));
            }
        }
        match self.find_ctx(&last) {
            Some(i) => {
                proof {
                    lemma_ctx_total_bounds(cv, i as int);
                    lemma_sc_total_nonneg(cv[i as int].1);
                }
                proof {
                    let ghost le = self.lookup@[i as int];
                    assert(cv[i as int] == (le.context@, le.scores.sv()));
                }
                let mut entry = self.lookup.remove(i);
                entry.scores.add_token(token_score, token);
                self.lookup.insert(i, entry);
                proof {
                    let cv2 = cv.update(
                        i as int,
                        (cv[i as int].0, sc_absorb(cv[i as int].1, token_score, token@)),
                    );
                    assert(self.ctx_view() =~= cv2);
                    lemma_ctx_total_update(
                        cv,
                        i as int,
                        (cv[i as int].0, sc_absorb(cv[i as int].1, token_score, token@)),
                    );
                    assert(forall|k: int|
                        0 <= k < cv2.len() && k != i ==> #[trigger] cv2[k] == cv[k]);
                    assert(forall|k: int|
                        0 <= k < self.lookup@.len() && k != i ==> #[trigger] self.lookup@[k]
                            == old(self).lookup@[k]);
                    assert(self.lookup@[i as int].context@ == cv[i as int].0);
                    assert forall|a: int, b: int|
                        0 <= a < b < self.lookup@.len() implies (#[trigger] self.lookup@[a]).context@
                        != (#[trigger] self.lookup@[b]).context@ by {
                        assert(self.lookup@[a].context@ == old(self).lookup@[a].context@);
                        assert(self.lookup@[b].context@ == old(self).lookup@[b].context@);
                        assert(old(self).lookup@[a].context@ != old(self).lookup@[b].context@);
                    }
                }
            },
            None => {
                proof {
                    lemma_find_in_props(cv, last@);
                }
                let mut table = MarkovScores::new();
                table.add_token(token_score, token);
                self.lookup.push(CtxEntry { context: last, scores: table });
                proof {
                    let tv = sc_absorb(Seq::empty(), token_score, token@);
                    let cv2 = cv.push((self.lookup@.last().context@, tv));
                    assert(self.ctx_view() =~= cv2);
                    lemma_ctx_total_push(cv, (self.lookup@.last().context@, tv));
                    assert(forall|k: int| 0 <= k < cv.len() ==> #[trigger] cv2[k] == cv[k]);
                    assert(forall|k: int|
                        0 <= k < old(self).lookup@.len() ==> #[trigger] self.lookup@[k] == old(
                            self,
                        ).lookup@[k]);
                    assert(self.lookup@.last().context@ == lastv);
                    assert(forall|k: int| 0 <= k < cv.len() ==> (#[trigger] cv[k]).0 != lastv);
                    assert forall|a: int, b: int|
                        0 <= a < b < self.lookup@.len() implies (#[trigger] self.lookup@[a]).context@
                        != (#[trigger] self.lookup@[b]).context@ by {
                        if b < cv.len() {
                            assert(self.lookup@[a] == old(self).lookup@[a]);
                            assert(self.lookup@[b] == old(self).lookup@[b]);
                            assert(old(self).lookup@[a].context@ != old(self).lookup@[b].context@);
                        } else {
                            assert(self.lookup@[a] == old(self).lookup@[a]);
                            assert(cv[a].0 == old(self).lookup@[a].context@);
                            assert(cv[a].0 != lastv);
                            assert(self.lookup@[b].context@ == lastv);
                        }
                    }
                }
            },
        }
        self.scores.add_token(token_score, token);
        proof {
            if old(self).shaped() && absorbable(token@) {
                lemma_sc_absorb_shaped(old(self).global_view(), token_score, token@);
                lemma_ctx_absorb_shaped(old(self).ctx_view(), lastv, token_score, token@);
            }
        }
    }

    /// The unconditioned fallback: a word drawn from the whole corpus's
    /// table for the score, or, when no word with this score was ever
    /// seen, exactly the synthesized filler word for it.
    fn default_get(&self, score: u8) -> (r: String)
        requires
            self.wf(),
        ensures
            find_in(self.global_view(), score) != -1 ==> drawn(
                self.global_view(),
                score,
                r@,
                PREFIX_ROUNDS as nat,
            ),
            find_in(self.global_view(), score) == -1 ==> r@ == filler_word(score) && word_score(
                r@,
            ) == score,
            self.shaped() ==> word_score(r@) == score && piece_nz(r@, score) && ascii_seq(r@),
    {
        match self.scores.get_key(score, PREFIX_ROUNDS) {
            Some(w) => w,
            None => {
                let w = synth_word(score);
                proof {
                    lemma_filler_props(score);
                }
                w
            },
        }
    }

    /// A word for the target score, drawn first from the context's table,
    /// then from the whole corpus, then synthesized — `chosen` states that
    /// order exactly. On a model in the synthesizer's shape the result
    /// scores exactly `score`; a stored word whose Unicode casing expands
    /// (a capital dotted I, a sharp s under title casing) escapes that
    /// bound, as it does in the language's own semantics.
    pub fn get_token(&self, last: &String, score: u8) -> (r: String)
        requires
            self.wf(),
        ensures
            chosen(self.global_view(), self.ctx_view(), last@, score, r@),
            self.shaped() ==> word_score(r@) == score && piece_nz(r@, score) && ascii_seq(r@),
    {
        match self.find_ctx(last) {
            Some(i) => {
                proof {
                    let ghost le = self.lookup@[i as int];
                    assert(self.ctx_view()[i as int] == (le.context@, le.scores.sv()));
                    if self.shaped() {
                        assert(sc_shaped(self.ctx_view()[i as int].1));
                    }
                }
                match self.lookup[i].scores.get_key(score, PREFIX_ROUNDS) {
                    Some(w) => w,
                    None => self.default_get(score),
                }
            },
            None => self.default_get(score),
        }
    }
}

/// How many zero-score prefix rounds a single draw may take.
pub const PREFIX_ROUNDS: u8 = 32;

/// The deterministic filler word for a score: `z`s worth ten points, then
/// `a`s worth one, summing exactly to the score.
pub open spec fn filler_word(s: u8) -> Seq<char> {
    Seq::new(
        (s / 10 + s % 10) as nat,
        |k: int|
            if k < s / 10 {
                'z'
            } else {
                'a'
            },
    )
}

/// The synthetic filler word for a score: `z`s worth ten and `a`s worth
/// one, summing exactly to the score.
fn synth_word(score: u8) -> (r: String)
    ensures
        r@ == filler_word(score),
        word_score(r@) == score,
        r@.len() == score / 10 + score % 10,
{
    let mut r = String::new();
    let zs = score / 10;
    let others = score % 10;
    let mut i: u8 = 0;
    while i < zs
        invariant
            i <= zs,
            zs == score / 10,
            word_score(r@) == 10 * i,
            r@.len() == i,
            forall|k: int| 0 <= k < r@.len() ==> #[trigger] r@[k] == 'z',
        decreases zs - i,
    {
        let ghost r0 = r@;
        push_char(&mut r, 'z');
        i = i + 1;
        proof {
            assert(letter_score('z') == 10);
            lemma_word_score_push(r0, 'z');
            assert(r@ == r0.push('z'));
            vstd::arithmetic::div_mod::lemma_small_mod((10 * i) as nat, 256);
        }
    }
    let mut j: u8 = 0;
    while j < others
        invariant
            j <= others,
            others == score % 10,
            zs == score / 10,
            word_score(r@) == 10 * (score / 10) + j,
            r@.len() == zs + j,
            forall|k: int| 0 <= k < r@.len() && k < zs ==> #[trigger] r@[k] == 'z',
            forall|k: int| zs <= k < r@.len() ==> #[trigger] r@[k] == 'a',
        decreases others - j,
    {
        let ghost r0 = r@;
        push_char(&mut r, 'a');
        j = j + 1;
        proof {
            assert(letter_score('a') == 1);
            lemma_word_score_push(r0, 'a');
            assert(r@ == r0.push('a'));
            vstd::arithmetic::div_mod::lemma_small_mod((10 * (score / 10) + j) as nat, 256);
        }
    }
    proof {
        assert(r@ =~= filler_word(score));
    }
    r
}

/// The filler is ASCII, and a well-behaved piece for its score.
proof fn lemma_filler_props(s: u8)
    ensures
        ascii_seq(filler_word(s)),
        word_score(filler_word(s)) == s ==> piece_nz(filler_word(s), s),
        s != 0 ==> word_shaped(filler_word(s)),
        s == 0 ==> filler_word(s) == Seq::<char>::empty(),
{
    let w = filler_word(s);
    assert(ascii_seq(w));
    if s == 0 {
        assert(w =~= Seq::<char>::empty());
    } else {
        assert(w.len() > 0) by {
            vstd::arithmetic::div_mod::lemma_fundamental_div_mod(s as int, 10);
        }
        assert(is_alpha(w[0]));
        assert(word_shaped(w));
        if word_score(w) == s {
            lemma_nz_scores_word(w);
        }
    }
    if s == 0 && word_score(w) == s {
        crate::words::lemma_nz_scores_empty();
    }
}

/// The renderings of the tokens, junk dropped: the word stream a corpus
/// contributes to the model.
pub open spec fn rendered(ts: Seq<TokenView>) -> Seq<Seq<char>> {
    ts.filter(|t: TokenView| !(t is Junk)).map_values(|t: TokenView| token_string(t))
}

/// The model contents after absorbing the word stream in order, starting
/// from the given tables and context.
pub open spec fn train_from(
    gv: ScoresView,
    cv: CtxView,
    last: Seq<char>,
    strings: Seq<Seq<char>>,
) -> (ScoresView, CtxView)
    decreases strings.len(),
{
    if strings.len() == 0 {
        (gv, cv)
    } else {
        let w = strings[0];
        let s = word_score(w);
        train_from(sc_absorb(gv, s, w), ctx_absorb(cv, last, s, w), w, strings.drop_first())
    }
}

/// Peeling one token off the front of the stream.
proof fn lemma_rendered_skip(ts: Seq<TokenView>, i: int)
    requires
        0 <= i < ts.len(),
    ensures
        rendered(ts.skip(i)) == (if ts[i] is Junk {
            rendered(ts.skip(i + 1))
        } else {
            seq![token_string(ts[i])] + rendered(ts.skip(i + 1))
        }),
{
    let x = ts[i];
    let rest = ts.skip(i + 1);
    let p = |t: TokenView| !(t is Junk);
    let f = |t: TokenView| token_string(t);
    assert(ts.skip(i) =~= seq![x] + rest);
    Seq::lemma_filter_prepend(rest, x, p);
    if p(x) {
        assert((seq![x] + rest).filter(p) == seq![x] + rest.filter(p));
        assert((seq![x] + rest.filter(p)).map_values(f) =~= seq![f(x)] + rest.filter(p).map_values(
            f,
        ));
    } else {
        assert((seq![x] + rest).filter(p) == Seq::<TokenView>::empty() + rest.filter(p));
        assert(Seq::<TokenView>::empty() + rest.filter(p) =~= rest.filter(p));
    }
}

/// A corpus whose words are written in ASCII; its punctuation and junk
/// may be anything. Such a corpus trains to a model in the shape the
/// synthesizer's round-trip rests on. (A word spelled with characters
/// whose Unicode lowercasing expands, such as a capital dotted I, genuinely
/// escapes that shape, in the rendering as much as in the round trip.)
pub open spec fn ascii_corpus(tv: Seq<TokenView>) -> bool {
    forall|k: int|
        0 <= k < tv.len() ==> ((#[trigger] tv[k]) is Word ==> ascii_seq(tv[k]->Word_0))
}

/// Learns a model from a corpus: the corpus is tokenized, junk dropped,
/// and each adjacent pair of renderings absorbed in order, seeded with the
/// begin-of-stream context. The model's count is the number of non-junk
/// tokens, and a corpus of ASCII words gives it the synthesizer's shape.
pub fn generate_markov(text: &str) -> (r: Result<MarkovInfo, ParseError>)
    ensures
        r matches Ok(m) && m.wf() && m.total() == rendered(tokens_spec(text@, 0)).len() && (
        ascii_corpus(tokens_spec(text@, 0)) ==> m.shaped()) && ({
            let folded = train_from(
                Seq::empty(),
                Seq::empty(),
                Seq::empty(),
                rendered(tokens_spec(text@, 0)),
            );
            m.global_view() == folded.0 && m.ctx_view() == folded.1
        }),
{
    let tokens = match crate::tokens::get_tokens(text) {
        Ok(t) => t,
        Err(e) => {
            proof {
                assert(false);
            }
            return Err(e);
        },
    };
    let ghost tv = tokens@.map_values(|t: Token| t@);
    let n = tokens.len();
    let mut res = MarkovInfo::new();
    let mut last = Token::Begin.string();
    let mut i: usize = 0;
    proof {
        assert(tv.skip(0) =~= tv);
    }
    while i < n
        invariant
            i <= n,
            n == tokens@.len(),
            tv == tokens@.map_values(|t: Token| t@),
            tv == tokens_spec(text@, 0),
            res.wf(),
            res.total() <= i,
            res.total() + rendered(tv.skip(i as int)).len() == rendered(tv).len(),
            ascii_corpus(tv) ==> res.shaped(),
            train_from(
                Seq::empty(),
                Seq::empty(),
                Seq::empty(),
                rendered(tokens_spec(text@, 0)),
            ) == train_from(
                res.global_view(),
                res.ctx_view(),
                last@,
                rendered(tv.skip(i as int)),
            ),
        decreases n - i,
    {
        proof {
            lemma_rendered_skip(tv, i as int);
            assert(tv[i as int] == tokens@[i as int]@);
        }
        let is_junk = match &tokens[i] {
            Token::Junk => true,
            _ => false,
        };
        if !is_junk {
            let ghost gv0 = res.global_view();
            let ghost cv0 = res.ctx_view();
            let ghost last0 = last@;
            let token = tokens[i].render();
            proof {
                if ascii_corpus(tv) {
                    assert(absorbable(token@)) by {
                        lemma_tokens_spec_shapes(text@, 0);
                        match tv[i as int] {
                            TokenView::Word(w) => {
                                assert(ascii_seq(w));
                                assert(token@ == crate::chars::lower_seq(w));
                                assert(word_shaped(w));
                                lemma_lower_word_shaped(w);
                                lemma_ascii_casing(w);
                            },
                            TokenView::Junk => {
                                assert(false);
                            },
                            TokenView::Begin => {
                                assert(false);
                            },
                            _ => {
                                assert(rendering_shape(token@));
                                lemma_rendering_score(token@);
                                assert(ascii_seq(token@));
                            },
                        }
                    }
                }
            }
            res.add_token(last, &token);
            last = token;
            proof {
                let w = token_string(tv[i as int]);
                assert(last@ == w);
                let strs = seq![w] + rendered(tv.skip(i as int + 1));
                assert(rendered(tv.skip(i as int)) == strs);
                assert(strs[0] == w);
                assert(strs.drop_first() =~= rendered(tv.skip(i as int + 1)));
                assert(train_from(gv0, cv0, last0, strs) == train_from(
                    sc_absorb(gv0, word_score(w), w),
                    ctx_absorb(cv0, last0, word_score(w), w),
                    w,
                    rendered(tv.skip(i as int + 1)),
                ));
            }
        }
        i = i + 1;
    }
    proof {
        assert(tv.skip(n as int) =~= Seq::<TokenView>::empty());
        assert(rendered(Seq::<TokenView>::empty()) =~= Seq::<Seq<char>>::empty());
    }
    Ok(res)
}

/// Renders a score sequence as text: for each word of the program a word
/// with that score is drawn, conditioned on the word drawn before it; the
/// first word is title-cased and later words are preceded by a space
/// unless they begin with punctuation that attaches to the previous word.
/// `assembles` states that construction exactly; on a model in the
/// synthesizer's shape, re-tokenizing and re-scoring the text gives back
/// exactly the program's nonzero scores.
pub fn make_beatnik(words: &Vec<Word>, markov: &MarkovInfo) -> (r: String)
    requires
        markov.wf(),
    ensures
        assembles(markov.global_view(), markov.ctx_view(), words@, 0, Seq::empty(), r@),
        (markov.shaped() && (forall|k: int|
            0 <= k < words@.len() ==> (#[trigger] words@[k]).score != 0)) ==> nz_scores(r@)
            == crate::machine::scores_of(words@),
{
    let ghost gv = markov.global_view();
    let ghost cv = markov.ctx_view();
    let ghost hyp = markov.shaped() && (forall|k: int|
        0 <= k < words@.len() ==> (#[trigger] words@[k]).score != 0);
    let mut last = Token::Begin.string();
    let mut out = String::new();
    let mut i: usize = 0;
    proof {
        lemma_nz_scores_empty();
        assert(crate::machine::scores_of(words@.subrange(0, 0)) =~= Seq::<u8>::empty());
    }
    while i < words.len()
        invariant
            i <= words@.len(),
            markov.wf(),
            gv == markov.global_view(),
            cv == markov.ctx_view(),
            hyp == (markov.shaped() && (forall|k: int|
                0 <= k < words@.len() ==> (#[trigger] words@[k]).score != 0)),
            forall|rest: Seq<char>|
                #[trigger] assembles(gv, cv, words@, i as int, last@, rest) ==> assembles(
                    gv,
                    cv,
                    words@,
                    0,
                    Seq::empty(),
                    out@ + rest,
                ),
            hyp ==> nz_scores(out@) == crate::machine::scores_of(words@.subrange(0, i as int)),
            hyp && i > 0 ==> last@.len() > 0,
            i == 0 ==> last@ == Seq::<char>::empty() && out@ == Seq::<char>::empty(),
        decreases words@.len() - i,
    {
        let ghost out0 = out@;
        let ghost last0 = last@;
        let sc = words[i].score();
        let mut token = markov.get_token(&last, sc);
        let ghost tok0 = token@;
        let ghost chunk: Seq<char>;
        if last.as_str().is_empty() {
            token = title_case(token.as_str());
            proof {
                chunk = title_of(tok0);
                assert(token@ == chunk);
                if hyp {
                    lemma_nz_scores_title(tok0);
                    assert(out0 + token@ =~= token@);
                }
            }
        } else {
            let tchars = crate::chars::chars_of(token.as_str());
            let attaches = tchars.len() > 0 && (tchars[0] == '.' || tchars[0] == '?' || tchars[0]
                == ',');
            if !attaches {
                push_char(&mut out, ' ');
            }
            proof {
                chunk = if attaches {
                    tok0
                } else {
                    seq![' '] + tok0
                };
                if hyp {
                    assert(token@.len() > 0);
                    if attaches {
                        lemma_nz_scores_split(out0, token@);
                    } else {
                        assert(out@ == out0.push(' '));
                        assert(out@ + token@ =~= out0 + (seq![' '] + token@));
                        lemma_nz_scores_split(out0, seq![' '] + token@);
                        lemma_nz_scores_junk_prefix(seq![' '], token@);
                    }
                }
            }
        }
        out.append(token.as_str());
        last = token;
        i = i + 1;
        proof {
            assert(out@ =~= out0 + chunk);
            assert forall|rest: Seq<char>|
                #[trigger] assembles(gv, cv, words@, i as int, last@, rest) implies assembles(
                gv,
                cv,
                words@,
                0,
                Seq::empty(),
                out@ + rest,
            ) by {
                if last0.len() == 0 {
                    assert(last@ == title_of(tok0));
                    assert(chunk + rest =~= title_of(tok0) + rest);
                } else if tok0.len() > 0 && (tok0[0] == '.' || tok0[0] == '?' || tok0[0] == ',') {
                    assert(chunk + rest =~= tok0 + rest);
                } else {
                    assert(chunk + rest =~= seq![' '] + tok0 + rest);
                }
                lemma_assembles_step(gv, cv, words@, i - 1, last0, tok0, rest, chunk + rest);
                assert(assembles(gv, cv, words@, 0, Seq::empty(), out0 + (chunk + rest)));
                assert(out@ + rest =~= out0 + (chunk + rest));
            }
            if hyp {
                lemma_score_title(tok0);
                assert(word_score(last@) == sc);
                assert(crate::machine::scores_of(words@.subrange(0, i as int))
                    =~= crate::machine::scores_of(words@.subrange(0, i - 1)) + seq![sc]);
            }
        }
    }
    proof {
        assert(words@.subrange(0, words@.len() as int) =~= words@);
        assert(assembles(gv, cv, words@, words@.len() as int, last@, Seq::empty()));
        assert(out@ + Seq::<char>::empty() =~= out@);
    }
    out
}

/// Absorbing a word of the shape its score demands keeps a bucket's words
/// in shape.
proof fn lemma_sym_absorb_shape(es: SymView, w: Seq<char>, s: u8)
    requires
        forall|t: int| 0 <= t < es.len() ==> stored_shape((#[trigger] es[t]).0, s),
        stored_shape(w, s),
    ensures
        forall|t: int|
            0 <= t < sym_absorb(es, w).len() ==> stored_shape(
                (#[trigger] sym_absorb(es, w)[t]).0,
                s,
            ),
{
    lemma_find_key_props(es, w);
    let idx = find_key(es, w);
    let es2 = sym_absorb(es, w);
    if idx == -1 {
        assert(forall|k: int| 0 <= k < es.len() ==> #[trigger] es2[k] == es[k]);
        assert(es2[es.len() as int] == (w, 1u64));
    } else {
        assert(forall|k: int| 0 <= k < es2.len() && k != idx ==> #[trigger] es2[k] == es[k]);
        assert(es2[idx] == (w, (es[idx].1 + 1) as u64));
    }
}

/// Absorbing a word of the shape its score demands keeps a score table in
/// shape.
proof fn lemma_sc_absorb_shaped(sv: ScoresView, s: u8, w: Seq<char>)
    requires
        sc_shaped(sv),
        stored_shape(w, s),
    ensures
        sc_shaped(sc_absorb(sv, s, w)),
{
    lemma_find_in_props(sv, s);
    let idx = find_in(sv, s);
    let sv2 = sc_absorb(sv, s, w);
    if idx == -1 {
        assert(forall|k: int| 0 <= k < sv.len() ==> #[trigger] sv2[k] == sv[k]);
        assert(sv2[sv.len() as int] == (s, seq![(w, 1u64)]));
        assert(seq![(w, 1u64)][0] == (w, 1u64));
    } else {
        assert(sv[idx].0 == s);
        assert(forall|t: int|
            0 <= t < sv[idx].1.len() ==> stored_shape((#[trigger] sv[idx].1[t]).0, s));
        lemma_sym_absorb_shape(sv[idx].1, w, s);
        assert(forall|k: int| 0 <= k < sv2.len() && k != idx ==> #[trigger] sv2[k] == sv[k]);
        assert(sv2[idx] == (s, sym_absorb(sv[idx].1, w)));
    }
}

/// Absorbing a word of the shape its score demands keeps every context
/// table in shape.
proof fn lemma_ctx_absorb_shaped(cv: CtxView, last: Seq<char>, s: u8, w: Seq<char>)
    requires
        forall|k: int| 0 <= k < cv.len() ==> sc_shaped((#[trigger] cv[k]).1),
        stored_shape(w, s),
    ensures
        forall|k: int|
            0 <= k < ctx_absorb(cv, last, s, w).len() ==> sc_shaped(
                (#[trigger] ctx_absorb(cv, last, s, w)[k]).1,
            ),
{
    lemma_find_in_props(cv, last);
    let idx = find_in(cv, last);
    let cv2 = ctx_absorb(cv, last, s, w);
    if idx == -1 {
        assert(forall|k: int| 0 <= k < cv.len() ==> #[trigger] cv2[k] == cv[k]);
        assert(sc_shaped(Seq::<(u8, SymView)>::empty()));
        lemma_sc_absorb_shaped(Seq::empty(), s, w);
        assert(cv2[cv.len() as int] == (last, sc_absorb(Seq::empty(), s, w)));
    } else {
        lemma_sc_absorb_shaped(cv[idx].1, s, w);
        assert(forall|k: int| 0 <= k < cv2.len() && k != idx ==> #[trigger] cv2[k] == cv[k]);
        assert(cv2[idx] == (cv[idx].0, sc_absorb(cv[idx].1, s, w)));
    }
}

/// A string a corpus may store: its shape matches its own score.
pub open spec fn absorbable(w: Seq<char>) -> bool {
    stored_shape(w, word_score(w))
}

/// Every rendering of a structural token scores zero.
proof fn lemma_rendering_score(w: Seq<char>)
    requires
        rendering_shape(w),
    ensures
        word_score(w) == 0,
{
    assert(word_score(Seq::<char>::empty()) == 0);
    if w.len() == 1 {
        assert(w =~= seq![w[0]]);
        assert(w.drop_last() =~= Seq::<char>::empty());
        assert(w.last() == w[0]);
        assert(letter_score(w[0]) == 0);
        assert(word_score(w) == ((word_score(w.drop_last()) as int + letter_score(w.last()) as int)
            % 256) as u8);
    } else {
        assert(w.len() == 2);
        assert(w.drop_last() =~= seq![w[0]]);
        assert(w.last() == w[1]);
        assert(seq![w[0]].drop_last() =~= Seq::<char>::empty());
        assert(seq![w[0]].last() == w[0]);
        assert(letter_score(w[0]) == 0);
        assert(letter_score(w[1]) == 0);
        assert(word_score(seq![w[0]]) == ((word_score(Seq::<char>::empty()) as int + letter_score(
            w[0],
        ) as int) % 256) as u8);
        assert(word_score(w) == ((word_score(w.drop_last()) as int + letter_score(w.last()) as int)
            % 256) as u8);
    }
}

/// Lowercasing keeps a word word-shaped.
proof fn lemma_lower_word_shaped(w: Seq<char>)
    requires
        word_shaped(w),
    ensures
        word_shaped(crate::chars::lower_seq(w)),
{
    let l = crate::chars::lower_seq(w);
    assert forall|k: int| 0 <= k < w.len() implies is_alpha(#[trigger] l[k]) == is_alpha(w[k])
        && crate::chars::is_word_char(l[k]) == crate::chars::is_word_char(w[k]) by {
        crate::chars::lemma_class_lower(w[k]);
    }
}

/// The words of the prose tokenizer are word-shaped, and the
/// begin-of-stream sentinel never appears among its tokens.
proof fn lemma_tokens_spec_shapes(s: Seq<char>, i: int)
    requires
        0 <= i,
    ensures
        forall|k: int|
            0 <= k < tokens_spec(s, i).len() ==> (((#[trigger] tokens_spec(s, i)[k]) is Word
                ==> word_shaped(tokens_spec(s, i)[k]->Word_0)) && !(tokens_spec(s, i)[k]
                is Begin)),
    decreases s.len() - i,
{
    if i < s.len() {
        let c = s[i];
        if c == '.' || c == ',' || c == ':' || c == '?' || c == '(' || c == ')' {
            lemma_tokens_spec_shapes(s, i + 1);
        } else if crate::tokens::is_quote_char(c) {
            crate::tokens::lemma_quote_end_bounds(s, i + 1);
            lemma_tokens_spec_shapes(s, crate::tokens::quote_end(s, i + 1));
        } else if crate::tokens::is_nl_char(c) {
            crate::tokens::lemma_nl_end_bounds(s, i + 1);
            lemma_tokens_spec_shapes(s, crate::tokens::nl_end(s, i + 1));
        } else if c == '\'' {
            crate::tokens::lemma_squote_end_bounds(s, i + 1);
            lemma_tokens_spec_shapes(s, crate::tokens::squote_end(s, i + 1));
        } else if is_alpha(c) {
            let j = crate::words::cont_end(s, i + 1);
            crate::words::lemma_cont_end_bounds(s, i + 1);
            crate::words::lemma_cont_end_chars(s, i + 1);
            let w = s.subrange(i, j);
            assert(word_shaped(w)) by {
                assert(w[0] == s[i]);
                assert(forall|k: int| 1 <= k < w.len() ==> #[trigger] w[k] == s[i + k]);
            }
            lemma_tokens_spec_shapes(s, j);
        } else {
            lemma_tokens_spec_shapes(s, i + 1);
        }
    }
}

} // verus!

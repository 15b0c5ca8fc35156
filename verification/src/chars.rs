//! Character classes and ASCII case mapping shared by the tokenizers, the
//! score function and the synthesizer.
use vstd::prelude::*;

verus! {

/// Whether a character beyond ASCII has the Unicode `Alphabetic` property.
/// The exact extent of that class is decided by the standard library; only
/// the trusted wrapper `alphabetic` below says anything about this name.
pub uninterp spec fn unicode_alpha(c: char) -> bool;

pub open spec fn is_ascii_lower(c: char) -> bool {
    97 <= c as u32 && c as u32 <= 122
}

pub open spec fn is_ascii_upper(c: char) -> bool {
    65 <= c as u32 && c as u32 <= 90
}

pub open spec fn is_ascii_letter(c: char) -> bool {
    is_ascii_lower(c) || is_ascii_upper(c)
}

/// The alphabetic characters: within ASCII exactly the letters, beyond ASCII
/// the Unicode `Alphabetic` class.
pub open spec fn is_alpha(c: char) -> bool {
    if (c as u32) < 128 {
        is_ascii_letter(c)
    } else {
        unicode_alpha(c)
    }
}

/// Relies on `char::is_alphabetic` of std: within ASCII exactly the letters
/// are alphabetic; beyond ASCII the result is the Unicode `Alphabetic`
/// property, named here by `unicode_alpha`.
#[verifier::external_body]
pub(crate) fn alphabetic(c: char) -> (r: bool)
    ensures
        r == is_alpha(c),
        c as u32 >= 128 ==> r == unicode_alpha(c),
{
    c.is_alphabetic()
}

/// A character that may continue a word once one has begun: letters,
/// apostrophes (straight or curly), hyphens and em-dashes.
pub open spec fn is_word_char(c: char) -> bool {
    is_alpha(c) || c == '\'' || c == '\u{2019}' || c == '-' || c == '\u{2014}'
}

pub fn word_char(c: char) -> (r: bool)
    ensures
        r == is_word_char(c),
{
    alphabetic(c) || c == '\'' || c == '\u{2019}' || c == '-' || c == '\u{2014}'
}

/// ASCII lowercasing of one character; anything else is left alone.
pub open spec fn to_lower_char(c: char) -> char {
    if is_ascii_upper(c) {
        ((c as u8) + 32) as char
    } else {
        c
    }
}

/// ASCII uppercasing of one character; anything else is left alone.
pub open spec fn to_upper_char(c: char) -> char {
    if is_ascii_lower(c) {
        ((c as u8) - 32) as char
    } else {
        c
    }
}

pub fn lower_char(c: char) -> (r: char)
    ensures
        r == to_lower_char(c),
{
    if c as u32 >= 65 && c as u32 <= 90 {
        ((c as u8) + 32) as char
    } else {
        c
    }
}

pub open spec fn lower_seq(s: Seq<char>) -> Seq<char> {
    s.map_values(|c: char| to_lower_char(c))
}

/// Title casing: the first character uppercased (ASCII only), the rest
/// lowercased.
pub open spec fn title_seq(s: Seq<char>) -> Seq<char> {
    if s.len() == 0 {
        s
    } else {
        seq![to_upper_char(s[0])] + lower_seq(s.subrange(1, s.len() as int))
    }
}

/// Relies on `String::push` of std: appends exactly the one character.
#[verifier::external_body]
pub(crate) fn push_char(s: &mut String, c: char)
    ensures
        final(s)@ == old(s)@.push(c),
{
    s.push(c);
}

/// The characters of a string, as a vector.
pub fn chars_of(s: &str) -> (v: Vec<char>)
    ensures
        v@ == s@,
{
    let n = s.unicode_len();
    let mut v: Vec<char> = Vec::new();
    let mut i: usize = 0;
    while i < n
        invariant
            i <= n,
            n == s@.len(),
            v@ == s@.subrange(0, i as int),
        decreases n - i,
    {
        v.push(s.get_char(i));
        i = i + 1;
        proof {
            assert(v@ =~= s@.subrange(0, i as int));
        }
    }
    proof {
        assert(v@ =~= s@);
    }
    v
}

/// A string built from the given characters.
pub fn string_of(v: &Vec<char>) -> (s: String)
    ensures
        s@ == v@,
{
    let mut s = String::new();
    let mut i: usize = 0;
    while i < v.len()
        invariant
            i <= v@.len(),
            s@ == v@.subrange(0, i as int),
        decreases v@.len() - i,
    {
        push_char(&mut s, v[i]);
        i = i + 1;
        proof {
            assert(s@ =~= v@.subrange(0, i as int));
        }
    }
    proof {
        assert(s@ =~= v@);
    }
    s
}

/// A copy of the characters in positions `a..b`.
pub fn subvec(v: &Vec<char>, a: usize, b: usize) -> (w: Vec<char>)
    requires
        a <= b <= v@.len(),
    ensures
        w@ == v@.subrange(a as int, b as int),
{
    let mut w: Vec<char> = Vec::new();
    let mut i: usize = a;
    while i < b
        invariant
            a <= i <= b <= v@.len(),
            w@ == v@.subrange(a as int, i as int),
        decreases b - i,
    {
        w.push(v[i]);
        i = i + 1;
        proof {
            assert(w@ =~= v@.subrange(a as int, i as int));
        }
    }
    w
}

/// Whether every character of a text is ASCII.
pub open spec fn ascii_seq(s: Seq<char>) -> bool {
    forall|k: int| 0 <= k < s.len() ==> ((#[trigger] s[k]) as u32) < 128
}

/// The Unicode lowercasing of a whole string. Beyond ASCII its extent is
/// the standard library's (a character may lowercase to several, and a
/// final sigma is context-sensitive); only the trusted wrapper `lowercase`
/// below says anything about this name.
pub uninterp spec fn lower_of(s: Seq<char>) -> Seq<char>;

/// Relies on `str::to_lowercase` of std: the result depends on the
/// characters alone, named `lower_of`; an ASCII string is lowercased
/// character by character, exactly as the ASCII map says; an empty string
/// stays empty.
#[verifier::external_body]
pub(crate) fn lowercase(s: &str) -> (r: String)
    ensures
        r@ == lower_of(s@),
        ascii_seq(s@) ==> r@ == lower_seq(s@),
        s@.len() == 0 ==> r@.len() == 0,
{
    s.to_lowercase()
}

/// The Unicode uppercasing of one character, possibly several characters
/// long; only the trusted wrapper `upper_char_full` says anything about
/// this name.
pub uninterp spec fn upper_of(c: char) -> Seq<char>;

/// Relies on `char::to_uppercase` of std: the result depends on the
/// character alone, named `upper_of`; an ASCII character uppercases to
/// exactly its one-character ASCII uppercase form.
#[verifier::external_body]
fn upper_char_full(c: char) -> (r: String)
    ensures
        r@ == upper_of(c),
        (c as u32) < 128 ==> r@ == seq![to_upper_char(c)],
{
    c.to_uppercase().collect()
}

/// The Unicode lowercasing of one character, possibly several characters
/// long; only the trusted wrapper `lower_char_full` says anything about
/// this name.
pub uninterp spec fn lower_char_of(c: char) -> Seq<char>;

/// Relies on `char::to_lowercase` of std: the result depends on the
/// character alone, named `lower_char_of`; an ASCII character lowercases
/// to exactly its one-character ASCII lowercase form.
#[verifier::external_body]
fn lower_char_full(c: char) -> (r: String)
    ensures
        r@ == lower_char_of(c),
        (c as u32) < 128 ==> r@ == seq![to_lower_char(c)],
{
    c.to_lowercase().collect()
}

/// The character-by-character Unicode lowercasings of a text, laid end to
/// end.
pub open spec fn lower_chars_of(s: Seq<char>) -> Seq<char>
    decreases s.len(),
{
    if s.len() == 0 {
        Seq::empty()
    } else {
        lower_char_of(s[0]) + lower_chars_of(s.drop_first())
    }
}

/// The title casing the synthesizer applies: the first character's Unicode
/// uppercasing, then each later character's Unicode lowercasing.
pub open spec fn title_of(s: Seq<char>) -> Seq<char> {
    if s.len() == 0 {
        s
    } else {
        upper_of(s[0]) + lower_chars_of(s.drop_first())
    }
}

proof fn lemma_lower_chars_of_snoc(s: Seq<char>, c: char)
    ensures
        lower_chars_of(s.push(c)) == lower_chars_of(s) + lower_char_of(c),
    decreases s.len(),
{
    if s.len() == 0 {
        assert(s.push(c).drop_first() =~= Seq::<char>::empty());
        assert(s.push(c)[0] == c);
        assert(lower_chars_of(Seq::<char>::empty()) == Seq::<char>::empty());
        assert(lower_chars_of(s.push(c)) == lower_char_of(c) + Seq::<char>::empty());
        assert(lower_chars_of(s) == Seq::<char>::empty());
        assert(lower_chars_of(s.push(c)) =~= lower_chars_of(s) + lower_char_of(c));
    } else {
        assert(s.push(c).drop_first() =~= s.drop_first().push(c));
        assert(s.push(c)[0] == s[0]);
        lemma_lower_chars_of_snoc(s.drop_first(), c);
        assert(lower_char_of(s[0]) + (lower_chars_of(s.drop_first()) + lower_char_of(c))
            =~= (lower_char_of(s[0]) + lower_chars_of(s.drop_first())) + lower_char_of(c));
    }
}

/// Title casing of a whole string: the first character Unicode-uppercased,
/// every later character Unicode-lowercased. Over ASCII this is exactly
/// the one-for-one map `title_seq`.
pub fn title_case(s: &str) -> (r: String)
    ensures
        r@ == title_of(s@),
        ascii_seq(s@) ==> r@ == title_seq(s@),
{
    let v = chars_of(s);
    if v.len() == 0 {
        let r = String::new();
        proof {
            assert(r@ =~= title_of(s@));
        }
        return r;
    }
    let mut r = upper_char_full(v[0]);
    let mut i: usize = 1;
    while i < v.len()
        invariant
            1 <= i <= v@.len(),
            v@ == s@,
            v@.len() > 0,
            r@ == upper_of(s@[0]) + lower_chars_of(s@.subrange(1, i as int)),
            ascii_seq(s@) ==> r@ == title_seq(s@).subrange(0, i as int),
        decreases v@.len() - i,
    {
        let piece = lower_char_full(v[i]);
        r.append(piece.as_str());
        i = i + 1;
        proof {
            assert(s@.subrange(1, i as int) =~= s@.subrange(1, i - 1).push(s@[i - 1]));
            lemma_lower_chars_of_snoc(s@.subrange(1, i - 1), s@[i - 1]);
            assert(r@ =~= upper_of(s@[0]) + lower_chars_of(s@.subrange(1, i as int)));
            if ascii_seq(s@) {
                assert(piece@ == seq![to_lower_char(s@[i - 1])]);
                assert(title_seq(s@).len() == s@.len());
                assert(title_seq(s@)[i - 1] == to_lower_char(s@[i - 1])) by {
                    assert(lower_seq(s@.subrange(1, s@.len() as int))[i - 2] == to_lower_char(
                        s@.subrange(1, s@.len() as int)[i - 2],
                    ));
                }
                assert(r@ =~= title_seq(s@).subrange(0, i as int));
            }
        }
    }
    proof {
        assert(s@.subrange(1, s@.len() as int) =~= s@.subrange(1, v@.len() as int));
        assert(r@ =~= title_of(s@));
        if ascii_seq(s@) {
            assert(r@ =~= title_seq(s@));
        }
    }
    r
}

/// ASCII maps keep a text ASCII.
pub proof fn lemma_ascii_casing(s: Seq<char>)
    requires
        ascii_seq(s),
    ensures
        ascii_seq(lower_seq(s)),
        ascii_seq(title_seq(s)),
{
    assert forall|k: int| 0 <= k < lower_seq(s).len() implies ((#[trigger] lower_seq(s)[k]) as u32)
        < 128 by {
        assert((s[k] as u32) < 128);
        assert(lower_seq(s)[k] == to_lower_char(s[k]));
        lemma_ascii_char_casing(s[k]);
    }
    if s.len() > 0 {
        assert forall|k: int|
            0 <= k < title_seq(s).len() implies ((#[trigger] title_seq(s)[k]) as u32) < 128 by {
            if k == 0 {
                assert((s[0] as u32) < 128);
                assert(title_seq(s)[0] == to_upper_char(s[0]));
                lemma_ascii_char_casing(s[0]);
            } else {
                assert((s[k] as u32) < 128);
                assert(title_seq(s)[k] == to_lower_char(s.subrange(1, s.len() as int)[k - 1]));
                assert(s.subrange(1, s.len() as int)[k - 1] == s[k]);
                lemma_ascii_char_casing(s[k]);
            }
        }
    }
}

/// The ASCII case maps stay within ASCII.
proof fn lemma_ascii_char_casing(c: char)
    requires
        (c as u32) < 128,
    ensures
        (to_lower_char(c) as u32) < 128,
        (to_upper_char(c) as u32) < 128,
{
    if is_ascii_upper(c) {
        assert(c as u8 == c as u32);
        assert((((c as u8) + 32) as char) as u32 == (c as u32) + 32);
    }
    if is_ascii_lower(c) {
        assert(c as u8 == c as u32);
        assert((((c as u8) - 32) as char) as u32 == (c as u32) - 32);
    }
}

/// ASCII survives concatenation.
pub proof fn lemma_ascii_concat(a: Seq<char>, b: Seq<char>)
    requires
        ascii_seq(a),
        ascii_seq(b),
    ensures
        ascii_seq(a + b),
{
    assert forall|k: int| 0 <= k < (a + b).len() implies (((#[trigger] (a + b)[k]) as u32))
        < 128 by {
        if k < a.len() {
            assert((a + b)[k] == a[k]);
        } else {
            assert((a + b)[k] == b[k - a.len()]);
        }
    }
}

/// Lowercasing keeps a character's classes.
pub proof fn lemma_class_lower(c: char)
    ensures
        is_alpha(to_lower_char(c)) == is_alpha(c),
        is_word_char(to_lower_char(c)) == is_word_char(c),
{
}

/// Uppercasing keeps a character's classes.
pub proof fn lemma_class_upper(c: char)
    ensures
        is_alpha(to_upper_char(c)) == is_alpha(c),
        is_word_char(to_upper_char(c)) == is_word_char(c),
{
}

} // verus!

//! Wordlists: the bundled EFF large wordlist, and lists taken from text.
//!
//! A text is read as whitespace-separated tokens; each token is lowercased and
//! kept when it is a valid word (lowercase ASCII letters only).
use vstd::prelude::*;
use vstd::string::StrSliceExecFns;
use crate::wordset::word_views;
use crate::wordset::WordSet;

verus! {

/// A word is non-empty and made of the letters `a` to `z` only.
pub open spec fn valid_word(w: Seq<char>) -> bool {
    &&& w.len() > 0
    &&& forall|i: int| 0 <= i < w.len() ==> 'a' <= #[trigger] w[i] <= 'z'
}

/// What `str::split_whitespace` yields on a text.
pub uninterp spec fn tokens_of(s: Seq<char>) -> Seq<Seq<char>>;

/// What `str::to_lowercase` yields on a string.
pub uninterp spec fn lower_of(s: Seq<char>) -> Seq<char>;

/// The text of a wordlist that chbs bundles, by name (`eff` for its EFF large wordlist).
pub uninterp spec fn builtin_text_of(name: Seq<char>) -> Seq<char>;

/// The words of the bundled EFF large wordlist.
pub open spec fn bundled_words() -> Set<Seq<char>> {
    words_of_text(builtin_text_of(seq!['e', 'f', 'f']))
}

/// The words that a sequence of tokens contributes: each token lowercased, kept
/// when it is a valid word.
pub open spec fn words_of_tokens(tokens: Seq<Seq<char>>) -> Set<Seq<char>>
    decreases tokens.len(),
{
    if tokens.len() == 0 {
        Set::empty()
    } else {
        let w = lower_of(tokens.last());
        let rest = words_of_tokens(tokens.drop_last());
        if valid_word(w) {
            rest.insert(w)
        } else {
            rest
        }
    }
}

/// The words of a text.
pub open spec fn words_of_text(text: Seq<char>) -> Set<Seq<char>> {
    words_of_tokens(tokens_of(text))
}

/// The words of several texts together.
pub open spec fn words_of_texts(texts: Seq<Seq<char>>) -> Set<Seq<char>>
    decreases texts.len(),
{
    if texts.len() == 0 {
        Set::empty()
    } else {
        words_of_texts(texts.drop_last()).union(words_of_text(texts.last()))
    }
}

/// Relies on `str::split_whitespace`: the text's tokens, in order.
#[verifier::external_body]
fn split_tokens(text: &str) -> (r: Vec<String>)
    ensures
        word_views(r@) == tokens_of(text@),
{
    text.split_whitespace().map(|t| t.to_string()).collect()
}

/// Relies on `str::to_lowercase`: the result depends on the characters alone.
#[verifier::external_body]
fn lowercase(s: &str) -> (r: String)
    ensures
        r@ == lower_of(s@),
{
    s.to_lowercase()
}

/// Relies on chbs's `word::BUILTIN_EFF_LARGE`: the EFF large wordlist, one word per line.
#[verifier::external_body]
fn bundled_text() -> (r: &'static str)
    ensures
        r@ == builtin_text_of(seq!['e', 'f', 'f']),
{
    chbs::word::BUILTIN_EFF_LARGE
}

/// Returns true if the word is non-empty and contains only lowercase ASCII letters.
pub fn is_valid_word(word: &str) -> (r: bool)
    ensures
        r == valid_word(word@),
{
    let n = word.unicode_len();
    if n == 0 {
        return false;
    }
    let mut i: usize = 0;
    while i < n
        invariant
            n == word@.len(),
            i <= n,
            forall|j: int| 0 <= j < i ==> 'a' <= #[trigger] word@[j] <= 'z',
        decreases n - i,
    {
        let c = word.get_char(i);
        if c < 'a' || c > 'z' {
            return false;
        }
        i = i + 1;
    }
    true
}

/// The words of a text: its whitespace-separated tokens, lowercased, that are valid words.
pub fn words_from_text(text: &str) -> (r: WordSet)
    ensures
        r.wf(),
        r@ == words_of_text(text@),
{
    let tokens = split_tokens(text);
    let ghost ts = word_views(tokens@);
    let mut set = WordSet::new();
    let mut i: usize = 0;
    while i < tokens.len()
        invariant
            i <= tokens.len(),
            ts == word_views(tokens@),
            set.wf(),
            set@ == words_of_tokens(ts.subrange(0, i as int)),
        decreases tokens.len() - i,
    {
        let w = lowercase(tokens[i].as_str());
        proof {
            assert(ts.subrange(0, i + 1).drop_last() =~= ts.subrange(0, i as int));
            assert(ts.subrange(0, i + 1).last() == tokens@[i as int]@);
        }
        if is_valid_word(w.as_str()) {
            set.insert(w);
        }
        i = i + 1;
    }
    assert(ts.subrange(0, i as int) =~= ts);
    set
}

/// Loads the words of the bundled EFF large wordlist.
pub fn load_bundled() -> (r: WordSet)
    ensures
        r.wf(),
        r@ == bundled_words(),
{
    words_from_text(bundled_text())
}

/// Merges the words of several wordlist texts; with no text at all, the bundled
/// wordlist is used.
pub fn load_wordlists(texts: &Vec<String>) -> (r: WordSet)
    ensures
        r.wf(),
        texts.len() == 0 ==> r@ == bundled_words(),
        texts.len() > 0 ==> r@ == words_of_texts(word_views(texts@)),
{
    if texts.len() == 0 {
        return load_bundled();
    }
    let ghost ts = word_views(texts@);
    let mut words = WordSet::new();
    let mut i: usize = 0;
    assert(ts.subrange(0, 0) =~= Seq::<Seq<char>>::empty());
    while i < texts.len()
        invariant
            i <= texts.len(),
            ts == word_views(texts@),
            words.wf(),
            words@ == words_of_texts(ts.subrange(0, i as int)),
        decreases texts.len() - i,
    {
        let file_words = words_from_text(texts[i].as_str());
        words.extend(&file_words);
        proof {
            assert(ts.subrange(0, i + 1).drop_last() =~= ts.subrange(0, i as int));
        }
        i = i + 1;
    }
    assert(ts.subrange(0, i as int) =~= ts);
    words
}

} // verus!

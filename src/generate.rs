//! Passphrase generation: how many words a target entropy needs, and a uniform
//! draw of that many distinct words from a secure random source.
use vstd::prelude::*;
use vstd::string::StringExecFns;
use rand::seq::IndexedRandom;
use vstd::arithmetic::power::lemma_pow_increases;
use vstd::arithmetic::power2::lemma_pow2_strictly_increases;
use crate::entropy::covers;
use crate::entropy::is_word_count;
use crate::entropy::word_count;
use crate::wordlist::valid_word;
use crate::wordset::word_views;
use crate::wordset::WordSet;

verus! {

/// A generated passphrase and the entropy accounting behind it.
#[derive(Debug, Clone)]
pub struct PassphraseInfo {
    /// Total number of distinct words in the source wordlist.
    pub wordlist_size: usize,
    /// The generated passphrase words.
    pub words: Vec<String>,
}

/// Why no passphrase could be generated.
#[derive(Debug, Clone, Copy, PartialEq, Eq, Structural)]
pub enum GenerateError {
    /// The wordlist has no word to draw from.
    EmptyWordlist,
}

/// The words joined by single spaces.
pub open spec fn joined(ws: Seq<Seq<char>>) -> Seq<char>
    decreases ws.len(),
{
    if ws.len() == 0 {
        Seq::empty()
    } else if ws.len() == 1 {
        ws[0]
    } else {
        joined(ws.drop_last()) + seq![' '] + ws.last()
    }
}

/// ASCII whitespace, the separators of `str::split_ascii_whitespace`.
pub open spec fn is_blank(c: char) -> bool {
    c == ' ' || c == '\t' || c == '\n' || c == '\x0C' || c == '\r'
}

/// The maximal runs of non-blank characters of `s`, in order: `s` split on whitespace.
pub open spec fn fields(s: Seq<char>) -> Seq<Seq<char>>
    decreases s.len(),
{
    if s.len() == 0 {
        Seq::empty()
    } else if is_blank(s.last()) {
        fields(s.drop_last())
    } else if s.len() >= 2 && !is_blank(s[s.len() - 2]) {
        let f = fields(s.drop_last());
        f.drop_last().push(f.last().push(s.last()))
    } else {
        fields(s.drop_last()).push(seq![s.last()])
    }
}

/// `r` holds the entries of `words` found at the pairwise distinct positions `idx`.
pub open spec fn picks(words: Seq<String>, r: Seq<String>, idx: Seq<int>) -> bool {
    &&& idx.len() == r.len()
    &&& idx.no_duplicates()
    &&& forall|i: int|
        #![trigger idx[i]]
        0 <= i < idx.len() ==> 0 <= idx[i] < words.len() && r[i] == words[idx[i]]
}

/// `info` is a passphrase for a target of `bits` bits drawn from the words `list`:
/// it reports the list's size, holds as many words as the target needs (at most
/// the whole list), no word twice, and only words of the list.
pub open spec fn is_passphrase_for(info: PassphraseInfo, list: Set<Seq<char>>, bits: nat) -> bool {
    &&& info.wordlist_size == list.len()
    &&& is_word_count(list.len(), bits, info.words.len() as nat)
    &&& word_views(info.words@).no_duplicates()
    &&& forall|i: int| 0 <= i < info.words.len() ==> list.contains(#[trigger] info.words@[i]@)
}

impl PassphraseInfo {
    /// The passphrase as one string: the words separated by single spaces.
    pub fn passphrase(&self) -> (s: String)
        ensures
            s@ == joined(word_views(self.words@)),
    {
        let mut s = String::new();
        let mut i: usize = 0;
        while i < self.words.len()
            invariant
                i <= self.words.len(),
                s@ == joined(word_views(self.words@).subrange(0, i as int)),
            decreases self.words.len() - i,
        {
            let ghost ws = word_views(self.words@).subrange(0, i + 1);
            proof {
                assert(ws.drop_last() =~= word_views(self.words@).subrange(0, i as int));
                reveal_strlit(" ");
                assert(" "@ =~= seq![' ']);
            }
            if i > 0 {
                s.append(" ");
            } else {
                assert(s@ =~= Seq::<char>::empty());
                assert(s@ + self.words@[0]@ =~= ws[0]);
            }
            s.append(self.words[i].as_str());
            i = i + 1;
        }
        assert(word_views(self.words@).subrange(0, i as int) =~= word_views(self.words@));
        s
    }
}

/// Lexicographic order by code point, the order of `str`'s `Ord`.
pub open spec fn text_le(a: Seq<char>, b: Seq<char>) -> bool
    decreases a.len(),
{
    if a.len() == 0 {
        true
    } else if b.len() == 0 {
        false
    } else if a[0] != b[0] {
        (a[0] as u32) < (b[0] as u32)
    } else {
        text_le(a.drop_first(), b.drop_first())
    }
}

/// Relies on `slice::sort`: it puts the words in ascending order, adding and losing none.
#[verifier::external_body]
fn sort_words(v: &mut Vec<String>)
    ensures
        word_views(final(v)@).to_multiset() == word_views(old(v)@).to_multiset(),
        forall|i: int, j: int|
            0 <= i < j < final(v)@.len() ==> text_le(final(v)@[i]@, final(v)@[j]@),
{
    v.sort();
}

/// Relies on rand's `IndexedRandom::choose_multiple`, fed by the operating-system
/// seeded `rand::rng()`: it returns `min(amount, words.len())` entries taken at
/// distinct positions (`index::sample`), in random order.
#[verifier::external_body]
fn choose_words(words: &Vec<String>, amount: usize) -> (r: Vec<String>)
    ensures
        r.len() == if amount <= words.len() {
            amount
        } else {
            words.len()
        },
        exists|idx: Seq<int>| picks(words@, r@, idx),
{
    words.choose_multiple(&mut rand::rng(), amount).cloned().collect()
}

/// Generates a passphrase of at least `bits` bits of entropy from `wordlist`.
///
/// The word count is the least `k` with `k * log2(n) >= bits` for a list of `n`
/// words, clamped to `n`; the words are drawn uniformly, without repetition.
/// Fails with `EmptyWordlist`, before any randomness is drawn, when the list is empty.
pub fn generate(bits: u32, wordlist: &WordSet) -> (r: Result<PassphraseInfo, GenerateError>)
    requires
        wordlist.wf(),
    ensures
        match r {
            Ok(info) => wordlist@.len() > 0 && is_passphrase_for(info, wordlist@, bits as nat),
            Err(e) => wordlist@.len() == 0 && e == GenerateError::EmptyWordlist,
        },
{
    if wordlist.is_empty() {
        return Err(GenerateError::EmptyWordlist);
    }
    let n = wordlist.len();
    let needed = word_count(n, bits);
    let mut sorted = wordlist.to_vec();
    let ghost pre = word_views(sorted@);
    sort_words(&mut sorted);
    let ghost post = word_views(sorted@);
    proof {
        pre.lemma_multiset_has_no_duplicates();
        post.lemma_multiset_has_no_duplicates_conv();
        vstd::seq_lib::to_multiset_len(pre);
        vstd::seq_lib::to_multiset_len(post);
        assert forall|i: int| 0 <= i < post.len() implies wordlist@.contains(post[i]) by {
            vstd::seq_lib::to_multiset_contains(post, post[i]);
            vstd::seq_lib::to_multiset_contains(pre, post[i]);
        }
    }
    let chosen = choose_words(&sorted, needed);
    proof {
        let idx = choose|idx: Seq<int>| picks(sorted@, chosen@, idx);
        let cv = word_views(chosen@);
        assert forall|i: int, j: int|
            0 <= i < cv.len() && 0 <= j < cv.len() && i != j implies cv[i] != cv[j] by {
            assert(cv[i] == post[idx[i]]);
            assert(cv[j] == post[idx[j]]);
        }
        assert forall|i: int| 0 <= i < chosen.len() implies wordlist@.contains(
            #[trigger] chosen@[i]@,
        ) by {
            assert(chosen@[i]@ == post[idx[i]]);
        }
    }
    Ok(PassphraseInfo { wordlist_size: n, words: chosen })
}

/// For a fixed wordlist, a larger target never yields fewer words.
pub proof fn lemma_word_count_monotonic(
    list: Set<Seq<char>>,
    low: PassphraseInfo,
    low_bits: nat,
    high: PassphraseInfo,
    high_bits: nat,
)
    requires
        low_bits <= high_bits,
        is_passphrase_for(low, list, low_bits),
        is_passphrase_for(high, list, high_bits),
    ensures
        low.words.len() <= high.words.len(),
{
    let n = list.len();
    let k1 = low.words.len() as nat;
    let k2 = high.words.len() as nat;
    if k2 < k1 {
        if low_bits < high_bits {
            lemma_pow2_strictly_increases(low_bits, high_bits);
        }
        assert(covers(n, k2, low_bits));
        assert(!covers(n, k2, low_bits));
    }
}

/// When some count of words up to the whole list reaches the target, the passphrase
/// reaches it too: its entropy is at least the target.
pub proof fn lemma_target_met(list: Set<Seq<char>>, info: PassphraseInfo, bits: nat, j: nat)
    requires
        is_passphrase_for(info, list, bits),
        j <= list.len(),
        covers(list.len(), j, bits),
    ensures
        covers(list.len(), info.words.len() as nat, bits),
{
    let n = list.len();
    if info.words.len() == n && n > 0 {
        lemma_pow_increases(n, j, n);
    }
}

/// When no count of words up to the whole list reaches the target, the whole list
/// is drawn, and the entropy it gives stays below the target.
pub proof fn lemma_clamped_to_list(list: Set<Seq<char>>, info: PassphraseInfo, bits: nat)
    requires
        is_passphrase_for(info, list, bits),
        forall|j: nat| j <= list.len() ==> !covers(list.len(), j, bits),
    ensures
        info.words.len() == list.len(),
        !covers(list.len(), info.words.len() as nat, bits),
{
}

proof fn lemma_fields_append(a: Seq<char>, w: Seq<char>)
    requires
        a.len() == 0 || is_blank(a.last()),
        w.len() > 0,
        forall|i: int| 0 <= i < w.len() ==> !is_blank(#[trigger] w[i]),
    ensures
        fields(a + w) == fields(a).push(w),
    decreases w.len(),
{
    let s = a + w;
    assert(s.drop_last() =~= a + w.drop_last());
    if w.len() == 1 {
        assert(s.drop_last() =~= a);
        assert(seq![s.last()] =~= w);
    } else {
        lemma_fields_append(a, w.drop_last());
        assert(s[s.len() - 2] == w[w.len() - 2]);
        assert(w.drop_last().push(w.last()) =~= w);
    }
}

/// Splitting a passphrase text on whitespace gives back exactly its words, in order,
/// when every word is a valid word.
pub proof fn lemma_text_round_trip(words: Seq<Seq<char>>)
    requires
        forall|i: int| 0 <= i < words.len() ==> valid_word(#[trigger] words[i]),
    ensures
        fields(joined(words)) == words,
    decreases words.len(),
{
    if words.len() == 0 {
        assert(fields(joined(words)) =~= words);
    } else {
        let w = words.last();
        assert(w == words[words.len() - 1]);
        assert forall|i: int| 0 <= i < w.len() implies !is_blank(#[trigger] w[i]) by {
            assert('a' <= w[i] <= 'z');
        }
        if words.len() == 1 {
            lemma_fields_append(Seq::empty(), w);
            assert(Seq::<char>::empty() + w =~= w);
            assert(Seq::<Seq<char>>::empty().push(w) =~= words);
        } else {
            let rest = words.drop_last();
            assert forall|i: int| 0 <= i < rest.len() implies valid_word(#[trigger] rest[i]) by {
                assert(rest[i] == words[i]);
            }
            lemma_text_round_trip(rest);
            let a = joined(rest) + seq![' '];
            assert(a.drop_last() =~= joined(rest));
            lemma_fields_append(a, w);
            assert(joined(words) == a + w);
            assert(rest.push(w) =~= words);
        }
    }
}

} // verus!

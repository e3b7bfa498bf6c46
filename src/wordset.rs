//! A set of distinct words, kept in insertion order.
use vstd::prelude::*;

verus! {

/// A finite set of words. Two words are the same when they hold the same characters.
pub struct WordSet {
    words: Vec<String>,
}

/// The characters of each word, in order.
pub open spec fn word_views(v: Seq<String>) -> Seq<Seq<char>> {
    v.map_values(|w: String| w@)
}

impl View for WordSet {
    type V = Set<Seq<char>>;

    open spec fn view(&self) -> Set<Seq<char>> {
        self.entries().to_set()
    }
}

impl WordSet {
    /// The words in the order in which they were first added.
    pub closed spec fn entries(&self) -> Seq<Seq<char>> {
        word_views(self.words@)
    }

    /// No word is held twice.
    pub open spec fn wf(&self) -> bool {
        self.entries().no_duplicates()
    }

    /// An empty set.
    pub fn new() -> (s: Self)
        ensures
            s.wf(),
            s@ == Set::<Seq<char>>::empty(),
    {
        let s = WordSet { words: Vec::new() };
        assert(s.entries() =~= Seq::<Seq<char>>::empty());
        assert(s@ =~= Set::<Seq<char>>::empty());
        s
    }

    /// The number of words in the set.
    pub fn len(&self) -> (n: usize)
        requires
            self.wf(),
        ensures
            n == self@.len(),
    {
        proof {
            self.entries().unique_seq_to_set();
        }
        self.words.len()
    }

    /// True when the set has no word.
    pub fn is_empty(&self) -> (r: bool)
        requires
            self.wf(),
        ensures
            r == (self@.len() == 0),
    {
        proof {
            self.entries().unique_seq_to_set();
        }
        self.words.len() == 0
    }

    /// True when `word` is a member of the set.
    pub fn contains(&self, word: &str) -> (r: bool)
        requires
            self.wf(),
        ensures
            r == self@.contains(word@),
    {
        let w: String = word.to_owned();
        let mut i: usize = 0;
        while i < self.words.len()
            invariant
                i <= self.words.len(),
                w@ == word@,
                forall|j: int| 0 <= j < i ==> self.entries()[j] != word@,
            decreases self.words.len() - i,
        {
            if self.words[i] == w {
                assert(self.entries()[i as int] == word@);
                return true;
            }
            i = i + 1;
        }
        assert(!self.entries().contains(word@));
        false
    }

    /// Adds `word`; returns true when it was not a member before.
    pub fn insert(&mut self, word: String) -> (added: bool)
        requires
            old(self).wf(),
        ensures
            final(self).wf(),
            final(self)@ == old(self)@.insert(word@),
            added == !old(self)@.contains(word@),
    {
        if self.contains(word.as_str()) {
            return false;
        }
        let ghost before = self.entries();
        self.words.push(word);
        assert(self.entries() =~= before.push(word@));
        proof {
            before.lemma_push_to_set_commute(word@);
        }
        assert(self@ =~= old(self)@.insert(word@));
        true
    }

    /// Adds every word of `other`.
    pub fn extend(&mut self, other: &WordSet)
        requires
            old(self).wf(),
        ensures
            final(self).wf(),
            final(self)@ == old(self)@.union(other@),
    {
        let mut i: usize = 0;
        while i < other.words.len()
            invariant
                i <= other.words.len(),
                self.wf(),
                self@ == old(self)@.union(other.entries().subrange(0, i as int).to_set()),
            decreases other.words.len() - i,
        {
            let ghost prefix = other.entries().subrange(0, i as int);
            let w = other.words[i].clone();
            self.insert(w);
            proof {
                assert(other.entries().subrange(0, i + 1) =~= prefix.push(w@));
                prefix.lemma_push_to_set_commute(w@);
            }
            i = i + 1;
        }
        assert(other.entries().subrange(0, i as int) =~= other.entries());
        assert(self@ =~= old(self)@.union(other@));
    }

    /// The words as a vector, in the set's own order.
    pub fn to_vec(&self) -> (v: Vec<String>)
        requires
            self.wf(),
        ensures
            word_views(v@) == self.entries(),
            word_views(v@).no_duplicates(),
            v@.len() == self@.len(),
    {
        proof {
            self.entries().unique_seq_to_set();
        }
        let mut v: Vec<String> = Vec::new();
        let mut i: usize = 0;
        while i < self.words.len()
            invariant
                i <= self.words.len(),
                word_views(v@) == self.entries().subrange(0, i as int),
            decreases self.words.len() - i,
        {
            let w = self.words[i].clone();
            let ghost before = v@;
            v.push(w);
            assert(word_views(v@) =~= word_views(before).push(w@));
            assert(self.entries().subrange(0, i + 1) =~= self.entries().subrange(0, i as int).push(
                w@,
            ));
            i = i + 1;
        }
        assert(self.entries().subrange(0, i as int) =~= self.entries());
        v
    }
}

} // verus!

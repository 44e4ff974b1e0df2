//! A standalone lexicon: a collection of recognized words with an
//! exact-match membership test and an entry count. It is independent of the
//! game engine; an application may consult it before or after submitting.

use vstd::prelude::*;

verus! {

/// The capability of a word collection: membership test and count.
pub trait ValidWords {
    /// The stored words, in insertion order, as character sequences.
    /// Duplicates are kept: no deduplication is performed.
    spec fn words_model(&self) -> Seq<Seq<char>>;

    /// Whether `word` is stored, by exact match.
    fn contains(&self, word: String) -> (r: bool)
        ensures
            r == self.words_model().contains(word@),
    ;

    /// The number of stored entries, duplicates included.
    fn size(&self) -> (r: i32)
        requires
            self.words_model().len() <= i32::MAX as int,
        ensures
            r == self.words_model().len(),
    ;
}

/// A word collection backed by a vector, in insertion order.
pub struct AllowedWords {
    pub words: Vec<String>,
}

impl AllowedWords {
    /// A collection holding exactly the one given word.
    pub fn new(word: String) -> (r: Self)
        ensures
            r.words_model() == seq![word@],
    {
        let r = AllowedWords { words: vec![word] };
        proof {
            assert(r.words_model() =~= seq![r.words@[0]@]);
        }
        r
    }

    /// Appends a word to the collection; duplicates are permitted.
    pub fn add(&mut self, word: String)
        ensures
            final(self).words_model() == old(self).words_model().push(word@),
    {
        let ghost prior = self.words@;
        self.words.push(word);
        proof {
            assert(self.words_model() =~= prior.map_values(|w: String| w@).push(
                self.words@.last()@,
            ));
        }
    }
}

impl ValidWords for AllowedWords {
    open spec fn words_model(&self) -> Seq<Seq<char>> {
        self.words@.map_values(|w: String| w@)
    }

    fn contains(&self, word: String) -> (r: bool) {
        let mut i: usize = 0;
        while i < self.words.len()
            invariant
                0 <= i <= self.words@.len(),
                forall|j: int| 0 <= j < i ==> #[trigger] self.words@[j]@ != word@,
            decreases self.words@.len() - i,
        {
            if self.words[i] == word {
                assert(self.words_model()[i as int] == word@);
                return true;
            }
            i += 1;
        }
        assert forall|j: int| 0 <= j < self.words_model().len() implies #[trigger] self
            .words_model()[j] != word@ by {
            assert(self.words@[j]@ != word@);
        }
        false
    }

    fn size(&self) -> (r: i32) {
        self.words.len() as i32
    }
}

} // verus!

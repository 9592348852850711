//! The embedding store: an immutable-after-load mapping from word to a
//! fixed-dimensionality vector.
//!
//! Entries are kept in insertion order, and that order is the iteration
//! order of every scan over the store; ranking ties are broken by it.  Each
//! vector component is the bit pattern of an IEEE double.

use vstd::prelude::*;

verus! {

/// The embedding store.  All vectors share the dimensionality `dim`, and no
/// word occurs twice.
pub struct Model {
    pub dim: usize,
    pub words: Vec<String>,
    pub vecs: Vec<Vec<u64>>,
}

impl Model {
    /// The store invariant: one vector per word, all of dimension `dim`,
    /// and pairwise distinct words.
    pub open spec fn wf(self) -> bool {
        &&& self.words@.len() == self.vecs@.len()
        &&& forall|i: int|
            0 <= i < self.vecs@.len() ==> (#[trigger] self.vecs@[i])@.len() == self.dim
        &&& forall|i: int, j: int|
            0 <= i < j < self.words@.len() ==> (#[trigger] self.words@[i])@ != (
            #[trigger] self.words@[j])@
    }

    pub open spec fn spec_len(self) -> nat {
        self.words@.len()
    }

    /// Whether `w` is a word of the store.
    pub open spec fn has_word(self, w: Seq<char>) -> bool {
        exists|i: int| 0 <= i < self.words@.len() && (#[trigger] self.words@[i])@ == w
    }

    pub fn new(dim: usize) -> (r: Model)
        ensures
            r.wf(),
            r.spec_len() == 0,
            r.dim == dim,
    {
        Model { dim, words: Vec::new(), vecs: Vec::new() }
    }

    pub fn len(&self) -> (r: usize)
        ensures
            r == self.spec_len(),
    {
        self.words.len()
    }

    /// The position of `w` in the store, if any.
    pub fn index_of(&self, w: &String) -> (r: Option<usize>)
        ensures
            match r {
                Some(i) => i < self.words@.len() && self.words@[i as int]@ == w@,
                None => !self.has_word(w@),
            },
    {
        let n = self.words.len();
        let mut i: usize = 0;
        while i < n
            invariant
                n == self.words@.len(),
                i <= n,
                forall|j: int| 0 <= j < i ==> (#[trigger] self.words@[j])@ != w@,
            decreases n - i,
        {
            if crate::text::string_eq(&self.words[i], w) {
                return Some(i);
            }
            i = i + 1;
        }
        None
    }

    pub fn contains(&self, w: &String) -> (r: bool)
        ensures
            r == self.has_word(w@),
    {
        match self.index_of(w) {
            Some(_) => true,
            None => false,
        }
    }

    /// Adds an entry, replacing the vector in place when the word is already
    /// present, so that the insertion order of words is preserved.
    pub fn insert(&mut self, w: String, v: Vec<u64>)
        requires
            old(self).wf(),
            v@.len() == old(self).dim,
        ensures
            final(self).wf(),
            final(self).dim == old(self).dim,
            old(self).has_word(w@) ==> final(self).words == old(self).words && (exists|i: int|
                0 <= i < old(self).words@.len() && (#[trigger] old(self).words@[i])@ == w@
                    && final(self).vecs@ == old(self).vecs@.update(i, v)),
            !old(self).has_word(w@) ==> final(self).words@ == old(self).words@.push(w)
                && final(self).vecs@ == old(self).vecs@.push(v),
    {
        match self.index_of(&w) {
            Some(i) => {
                self.vecs[i] = v;
            },
            None => {
                self.words.push(w);
                self.vecs.push(v);
            },
        }
    }

    /// Removes an entry; later entries keep their relative order.
    pub fn remove(&mut self, w: &String)
        requires
            old(self).wf(),
        ensures
            final(self).wf(),
            final(self).dim == old(self).dim,
            !old(self).has_word(w@) ==> final(self).words == old(self).words && final(self).vecs
                == old(self).vecs,
            old(self).has_word(w@) ==> (exists|i: int|
                0 <= i < old(self).words@.len() && (#[trigger] old(self).words@[i])@ == w@
                    && final(self).words@ == old(self).words@.remove(i) && final(self).vecs@
                    == old(self).vecs@.remove(i)),
    {
        match self.index_of(w) {
            Some(i) => {
                self.words.remove(i);
                self.vecs.remove(i);
            },
            None => {},
        }
    }
}

} // verus!

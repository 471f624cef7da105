//! The list of words that passwords are made from.

use vstd::prelude::*;
use vstd::utf8::is_ascii_chars;
use crate::text::texts;
use crate::trusted::is_rearrangement;
use crate::trusted::rearranged;
use crate::trusted::shuffle;

verus! {

/// What a list asks of each word: it is not empty, and a list of ASCII words
/// holds ASCII only.
pub open spec fn word_ok(word: Seq<char>, ascii: bool) -> bool {
    word.len() > 0 && (ascii ==> is_ascii_chars(word))
}

/// Every word of `words` meets `word_ok`.
pub open spec fn words_ok(words: Seq<Seq<char>>, ascii: bool) -> bool {
    forall|i: int| 0 <= i < words.len() ==> word_ok(#[trigger] words[i], ascii)
}

/// An ordered list of words, none of them empty. With `ASCII` set, every word
/// is ASCII as well.
#[derive(Debug)]
pub struct WordList<const ASCII: bool> {
    items: Vec<String>,
}

impl<const ASCII: bool> View for WordList<ASCII> {
    type V = Seq<Seq<char>>;

    closed spec fn view(&self) -> Seq<Seq<char>> {
        texts(self.items@)
    }
}

impl<const ASCII: bool> WordList<ASCII> {
    #[verifier::type_invariant]
    spec fn well_formed(self) -> bool {
        words_ok(texts(self.items@), ASCII)
    }

    /// The empty list.
    pub fn new() -> (r: Self)
        ensures
            r@ == Seq::<Seq<char>>::empty(),
    {
        WordList { items: Vec::new() }
    }

    /// The number of words.
    pub fn len(&self) -> (n: usize)
        ensures
            n == self@.len(),
    {
        self.items.len()
    }

    /// The words, in order.
    pub fn as_vec(&self) -> (r: &Vec<String>)
        ensures
            texts(r@) == self@,
            words_ok(self@, ASCII),
    {
        proof {
            use_type_invariant(self);
        }
        &self.items
    }

    /// Appends `word` if the list can hold it, and says whether it did.
    pub fn push(&mut self, word: String) -> (added: bool)
        ensures
            added == word_ok(word@, ASCII),
            final(self)@ == if added {
                old(self)@.push(word@)
            } else {
                old(self)@
            },
    {
        proof {
            use_type_invariant(&*self);
        }
        if word.as_str().is_empty() || (ASCII && !word.as_str().is_ascii()) {
            return false;
        }
        let mut items: Vec<String> = Vec::new();
        core::mem::swap(&mut items, &mut self.items);
        let ghost before = items@;
        items.push(word);
        assert(texts(items@) =~= texts(before).push(word@));
        self.items = items;
        true
    }

    /// Removes every word.
    pub fn clear(&mut self)
        ensures
            final(self)@ == Seq::<Seq<char>>::empty(),
    {
        self.items = Vec::new();
    }

    /// Removes and returns the word at `index`; `None`, and no change, where
    /// the list has no such word.
    pub fn remove(&mut self, index: usize) -> (r: Option<String>)
        ensures
            r is Some <==> index < old(self)@.len(),
            r matches Some(word) ==> word@ == old(self)@[index as int] && final(self)@ == old(
                self,
            )@.remove(index as int),
            r is None ==> final(self)@ == old(self)@,
    {
        proof {
            use_type_invariant(&*self);
        }
        if index >= self.items.len() {
            return None;
        }
        let mut items: Vec<String> = Vec::new();
        core::mem::swap(&mut items, &mut self.items);
        let ghost before = items@;
        let word = items.remove(index);
        assert(texts(items@) =~= texts(before).remove(index as int));
        self.items = items;
        Some(word)
    }

    /// Puts the words in a random order.
    pub fn shuffle(&mut self)
        ensures
            is_rearrangement(old(self)@, final(self)@),
    {
        proof {
            use_type_invariant(&*self);
        }
        let mut items: Vec<String> = Vec::new();
        core::mem::swap(&mut items, &mut self.items);
        let ghost before = items@;
        shuffle(&mut items);
        proof {
            let p = choose|p: Seq<int>| rearranged(before, items@, p);
            assert(rearranged(texts(before), texts(items@), p));
        }
        self.items = items;
    }
}

} // verus!

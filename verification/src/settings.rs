//! The settings of the password generator, with the words it draws on.

use vstd::prelude::*;
use vstd::utf8::is_ascii_chars;
use crate::helpers::RangeSpec;
use crate::password::Password;
use crate::text::lemma_runs_after_ok;
use crate::text::runs;
use crate::text::texts;
use crate::text::word_chars;
use crate::trusted::is_rearrangement;
use crate::trusted::regex_matches;
use crate::trusted::transliterate;
use crate::trusted::transliteration;
use crate::words::word_ok;
use crate::words::WordList;

verus! {

/// The characters that may be inserted as special characters. All of them
/// are ASCII.
#[derive(Debug)]
pub struct SpecialChars {
    text: String,
}

impl View for SpecialChars {
    type V = Seq<char>;

    closed spec fn view(&self) -> Seq<char> {
        self.text@
    }
}

impl SpecialChars {
    #[verifier::type_invariant]
    spec fn well_formed(self) -> bool {
        is_ascii_chars(self.text@)
    }

    /// The characters of `text`, if all of them are ASCII.
    pub fn new(text: &str) -> (r: Option<SpecialChars>)
        ensures
            r is Some <==> is_ascii_chars(text@),
            r matches Some(chars) ==> chars@ == text@,
    {
        if text.is_ascii() {
            Some(SpecialChars { text: text.to_owned() })
        } else {
            None
        }
    }

    /// The characters, as a string.
    pub fn as_str(&self) -> (r: &str)
        ensures
            r@ == self@,
            is_ascii_chars(self@),
    {
        proof {
            use_type_invariant(self);
        }
        self.text.as_str()
    }
}

/// What the password generator goes by.
#[derive(Debug)]
pub struct PasswordSettings {
    /// Write the first character of every word in upper case.
    pub capitalise: bool,
    /// Put digits and special characters in the place of characters of the
    /// words, and not between them.
    pub replace: bool,
    /// Put the words in a random order whenever words are added.
    pub randomise: bool,
    /// How many passwords `generate` makes.
    pub pass_amount: usize,
    /// How often the choice of words may start again before a password that
    /// does not fit is cut to its greatest length.
    pub reset_amount: usize,
    /// The length of a password.
    pub length: RangeSpec,
    /// How many digits are put in.
    pub number_amount: RangeSpec,
    /// How many special characters are put in.
    pub special_chars_amount: RangeSpec,
    /// The special characters to choose from.
    pub special_chars: SpecialChars,
    /// How many upper-case letters are asked for.
    pub upper_amount: RangeSpec,
    /// How many lower-case letters are asked for.
    pub lower_amount: RangeSpec,
    /// Take numbers of the text as words.
    pub keep_numbers: bool,
    /// Raise letters to upper case even where the password has some.
    pub force_upper: bool,
    /// Lower letters to lower case even where the password has some.
    pub force_lower: bool,
    /// Never raise a letter.
    pub dont_upper: bool,
    /// Never lower a letter.
    pub dont_lower: bool,
    /// The words that passwords are made of.
    pub words: WordList<true>,
}

/// The special characters hold a character that is not ASCII.
#[derive(Clone, Copy, Debug, PartialEq, Eq)]
pub struct NonAsciiSpecialCharsError;

impl NonAsciiSpecialCharsError {
    /// The error in words.
    pub fn message(&self) -> (r: &'static str)
        ensures
            r@ == "non-ASCII special characters aren't allowed for insertables"@,
    {
        "non-ASCII special characters aren't allowed for insertables"
    }
}

/// The settings hold fewer than two words.
#[derive(Clone, Copy, Debug, PartialEq, Eq)]
pub struct NotEnoughWordsError;

impl NotEnoughWordsError {
    /// The error in words.
    pub fn message(&self) -> (r: &'static str)
        ensures
            r@ == "not enough words for password generation"@,
    {
        "not enough words for password generation"
    }
}

/// `text` as the words are taken from it: an ASCII text as it is, any other
/// in its transliteration to ASCII.
pub open spec fn ascii_form(text: Seq<char>) -> Seq<char> {
    if is_ascii_chars(text) {
        text
    } else {
        transliteration(text)
    }
}

/// The words of `text`: the stretches of letters of its ASCII form; with
/// `keep_numbers` the stretches of letters, digits and underscores.
pub open spec fn words_of(text: Seq<char>, keep_numbers: bool) -> Seq<Seq<char>> {
    runs(ascii_form(text), word_chars(keep_numbers))
}

/// `text` is a password for `config`: some fresh password makes it.
pub open spec fn is_password(config: &PasswordSettings, text: Seq<char>) -> bool {
    exists|fresh: Password| #[trigger] fresh.makes(config, text) && fresh.fresh_for(config)
}

impl Default for PasswordSettings {
    /// The settings that are recommended: one password of 24 to 30
    /// characters, with one or two digits, special characters, upper-case
    /// and lower-case letters each, ten starts, and no words yet.
    fn default() -> (r: Self)
        ensures
            !r.capitalise && !r.replace && !r.randomise && !r.keep_numbers,
            !r.force_upper && !r.force_lower && !r.dont_upper && !r.dont_lower,
            r.pass_amount == 1,
            r.reset_amount == 10,
            r.length.lo() == 24 && r.length.hi() == 30,
            r.number_amount.lo() == 1 && r.number_amount.hi() == 2,
            r.special_chars_amount.lo() == 1 && r.special_chars_amount.hi() == 2,
            r.upper_amount.lo() == 1 && r.upper_amount.hi() == 2,
            r.lower_amount.lo() == 1 && r.lower_amount.hi() == 2,
            r.special_chars@ == "^!(-_=)$<[@.#]>%{~,+}&*"@,
            r.words@.len() == 0,
    {
        let one_or_two = RangeSpec::new(1, 2).unwrap();
        proof {
            reveal_strlit("^!(-_=)$<[@.#]>%{~,+}&*");
        }
        let special_chars = SpecialChars::new("^!(-_=)$<[@.#]>%{~,+}&*").unwrap();
        PasswordSettings {
            capitalise: false,
            replace: false,
            randomise: false,
            pass_amount: 1,
            reset_amount: 10,
            length: RangeSpec::new(24, 30).unwrap(),
            number_amount: one_or_two,
            special_chars_amount: one_or_two,
            special_chars,
            upper_amount: one_or_two,
            lower_amount: one_or_two,
            keep_numbers: false,
            force_upper: false,
            force_lower: false,
            dont_upper: false,
            dont_lower: false,
            words: WordList::new(),
        }
    }
}

impl PasswordSettings {
    /// The recommended settings, as `default` gives them.
    pub fn new() -> (r: Self)
        ensures
            !r.capitalise && !r.replace && !r.randomise && !r.keep_numbers,
            !r.force_upper && !r.force_lower && !r.dont_upper && !r.dont_lower,
            r.pass_amount == 1,
            r.reset_amount == 10,
            r.length.lo() == 24 && r.length.hi() == 30,
            r.number_amount.lo() == 1 && r.number_amount.hi() == 2,
            r.special_chars_amount.lo() == 1 && r.special_chars_amount.hi() == 2,
            r.upper_amount.lo() == 1 && r.upper_amount.hi() == 2,
            r.lower_amount.lo() == 1 && r.lower_amount.hi() == 2,
            r.special_chars@ == "^!(-_=)$<[@.#]>%{~,+}&*"@,
            r.words@.len() == 0,
    {
        PasswordSettings::default()
    }

    /// Sets the special characters to those of `chars`, if all of them are
    /// ASCII. If one is not, the settings stay as they are.
    pub fn set_special_chars(&mut self, chars: &str) -> (r: Result<(), NonAsciiSpecialCharsError>)
        ensures
            r is Ok <==> is_ascii_chars(chars@),
            r is Ok ==> final(self).special_chars@ == chars@ && *final(self) == (PasswordSettings {
                special_chars: final(self).special_chars,
                ..*old(self)
            }),
            r is Err ==> *final(self) == *old(self),
    {
        match SpecialChars::new(chars) {
            Some(special_chars) => {
                self.special_chars = special_chars;
                Ok(())
            },
            None => Err(NonAsciiSpecialCharsError),
        }
    }

    /// The special characters.
    pub fn get_special_chars(&self) -> (r: &str)
        ensures
            r@ == self.special_chars@,
            is_ascii_chars(r@),
    {
        self.special_chars.as_str()
    }

    /// Adds the words of `text` to the list, in the order in which they
    /// stand, and then, with `randomise` set, puts the whole list in a random
    /// order. An empty text changes nothing.
    pub fn get_words_from_str(&mut self, text: &str)
        ensures
            *final(self) == (PasswordSettings { words: final(self).words, ..*old(self) }),
            text@.len() == 0 ==> final(self).words@ == old(self).words@,
            text@.len() > 0 && !old(self).randomise ==> final(self).words@ == old(self).words@
                + words_of(text@, old(self).keep_numbers),
            text@.len() > 0 && old(self).randomise ==> is_rearrangement(
                old(self).words@ + words_of(text@, old(self).keep_numbers),
                final(self).words@,
            ),
    {
        if text.is_empty() {
            return ;
        }
        let converted: String;
        let ascii: &str = if text.is_ascii() {
            text
        } else {
            converted = transliterate(text);
            converted.as_str()
        };
        proof {
            reveal_strlit("\\w+");
            reveal_strlit("[A-Za-z]+");
            assert("\\w+"@.len() != "[A-Za-z]+"@.len());
        }
        let found = if self.keep_numbers {
            regex_matches("\\w+", ascii)
        } else {
            regex_matches("[A-Za-z]+", ascii)
        };
        let ghost fresh = words_of(text@, self.keep_numbers);
        assert(texts(found@) == fresh);
        proof {
            lemma_runs_after_ok(ascii@, word_chars(self.keep_numbers), Seq::empty());
        }
        let mut i: usize = 0;
        while i < found.len()
            invariant
                i <= found.len(),
                texts(found@) == fresh,
                forall|j: int| 0 <= j < fresh.len() ==> word_ok(#[trigger] fresh[j], true),
                *self == (PasswordSettings { words: self.words, ..*old(self) }),
                self.words@ == old(self).words@ + fresh.take(i as int),
            decreases found.len() - i,
        {
            let word = found[i].clone();
            assert(word@ == fresh[i as int]);
            let added = self.words.push(word);
            assert(fresh.take(i as int + 1) == fresh.take(i as int).push(fresh[i as int]));
            i += 1;
        }
        assert(fresh.take(found.len() as int) == fresh);
        if self.randomise {
            self.words.shuffle();
        }
    }

    /// The words, in order.
    pub fn get_words(&self) -> (r: &Vec<String>)
        ensures
            texts(r@) == self.words@,
    {
        self.words.as_vec()
    }

    /// Removes every word.
    pub fn clear_words(&mut self)
        ensures
            final(self).words@.len() == 0,
            *final(self) == (PasswordSettings { words: final(self).words, ..*old(self) }),
    {
        self.words.clear();
    }

    /// Removes and returns the word at `index`; `None`, and no change, where
    /// the list has no such word.
    pub fn remove_word_at(&mut self, index: usize) -> (r: Option<String>)
        ensures
            r is Some <==> index < old(self).words@.len(),
            r matches Some(word) ==> word@ == old(self).words@[index as int]
                && final(self).words@ == old(self).words@.remove(index as int),
            r is None ==> final(self).words@ == old(self).words@,
            *final(self) == (PasswordSettings { words: final(self).words, ..*old(self) }),
    {
        self.words.remove(index)
    }

    /// `pass_amount` fresh passwords, each drawn on its own and each still to
    /// be made by `Password::generate`; none where the list holds fewer than
    /// two words.
    pub fn fresh_passwords(&self) -> (r: Result<Vec<Password>, NotEnoughWordsError>)
        ensures
            r is Ok <==> self.words@.len() >= 2,
            r matches Ok(fresh) ==> fresh@.len() == self.pass_amount && forall|i: int|
                0 <= i < fresh@.len() ==> (#[trigger] fresh@[i]).fresh_for(self),
    {
        if self.words.len() < 2 {
            return Err(NotEnoughWordsError);
        }
        let mut fresh: Vec<Password> = Vec::new();
        while fresh.len() < self.pass_amount
            invariant
                fresh@.len() <= self.pass_amount,
                forall|i: int| 0 <= i < fresh@.len() ==> (#[trigger] fresh@[i]).fresh_for(self),
            decreases self.pass_amount - fresh@.len(),
        {
            fresh.push(Password::new(self));
        }
        Ok(fresh)
    }

    /// Makes `pass_amount` passwords, each on its own; none where the list
    /// holds fewer than two words.
    pub fn generate(&self) -> (r: Result<Vec<String>, NotEnoughWordsError>)
        ensures
            r is Ok <==> self.words@.len() >= 2,
            r matches Ok(passwords) ==> {
                &&& passwords@.len() == self.pass_amount
                &&& forall|i: int|
                    0 <= i < passwords@.len() ==> {
                        &&& is_password(self, #[trigger] passwords@[i]@)
                        &&& is_ascii_chars(passwords@[i]@)
                        &&& passwords@[i]@.len() <= self.length.hi()
                    }
            },
    {
        if self.words.len() < 2 {
            return Err(NotEnoughWordsError);
        }
        let mut passwords: Vec<String> = Vec::new();
        let mut made: usize = 0;
        while made < self.pass_amount
            invariant
                made <= self.pass_amount,
                self.words@.len() >= 2,
                passwords@.len() == made,
                forall|i: int|
                    0 <= i < passwords@.len() ==> {
                        &&& is_password(self, #[trigger] passwords@[i]@)
                        &&& is_ascii_chars(passwords@[i]@)
                        &&& passwords@[i]@.len() <= self.length.hi()
                    },
            decreases self.pass_amount - made,
        {
            let mut password = Password::new(self);
            let ghost fresh = password;
            proof {
                fresh.lemma_fresh_fits(self);
            }
            let text = password.generate(self);
            proof {
                assert(fresh.makes(self, text@) && fresh.fresh_for(self));
            }
            passwords.push(text);
            made += 1;
        }
        Ok(passwords)
    }
}

} // verus!

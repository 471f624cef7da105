//! Words from text, by a choice of ways to split it, with a filter on the
//! characters of each word.

use vstd::prelude::*;
use crate::text::char_is_ascii;
use crate::text::char_is_ascii_control;
use crate::text::char_is_ascii_punctuation;
use crate::text::char_is_ascii_space;
use crate::text::char_is_digit;
use crate::text::chars_of;
use crate::text::is_ascii;
use crate::text::is_ascii_control;
use crate::text::is_ascii_punctuation;
use crate::text::is_ascii_space;
use crate::text::is_digit;
use crate::text::runs;
use crate::text::runs_after;
use crate::text::texts;
use crate::trusted::alphanumeric;
use crate::trusted::has_alphanumeric;
use crate::trusted::is_rearrangement;
use crate::trusted::joined;
use crate::trusted::split_word_bounds;
use crate::trusted::transliterate;
use crate::trusted::transliteration;
use crate::trusted::unicode_control;
use crate::trusted::unicode_numeric;
use crate::trusted::unicode_white_space;
use crate::trusted::unicode_words;
use crate::trusted::with_alphanumeric;
use crate::trusted::word_bound_segments;
use crate::words::WordList;

verus! {

/// The way to split a text into words.
#[derive(Debug, PartialEq, Eq)]
pub enum Split {
    /// At the word boundaries of Unicode, keeping the pieces that hold a
    /// letter or a number.
    UnicodeWords,
    /// At the word boundaries of Unicode, keeping every piece.
    WordBounds,
    /// At white space of Unicode.
    UnicodeWhitespace,
    /// At white space of ASCII.
    AsciiWhitespace,
    /// At each of the given characters.
    Chars(Vec<char>),
}

/// When a text is transliterated to ASCII.
#[derive(Debug, Clone, Copy, PartialEq, Eq)]
pub enum Deunicode {
    /// Never.
    Deactivated,
    /// The whole text, before it is split.
    BeforeSplitting,
    /// Each word, before its characters are filtered.
    BeforeFiltering,
    /// Each word, after its characters are filtered.
    AfterFiltering,
}

/// Filters on the characters of a word, for the common cases.
#[derive(Debug, Clone, Copy, PartialEq, Eq)]
pub enum CharFilter {
    Ascii,
    AsciiWithoutPunctuation,
    AsciiWithoutDigits,
    AsciiWithoutDigitsOrPunctuation,
    Unicode,
    UnicodeWithoutAsciiDigits,
    UnicodeWithoutNumbers,
    UnicodeWithoutAsciiPunctuation,
    UnicodeWithoutAsciiDigitsOrAsciiPunctuation,
    UnicodeWithoutNumbersOrAsciiPunctuation,
}

impl Default for Split {
    /// `UnicodeWords`.
    fn default() -> (r: Self)
        ensures
            r is UnicodeWords,
    {
        Split::UnicodeWords
    }
}

impl Default for Deunicode {
    /// `Deactivated`.
    fn default() -> (r: Self)
        ensures
            r is Deactivated,
    {
        Deunicode::Deactivated
    }
}

/// `c` is ASCII and neither white space nor a control code.
pub open spec fn ascii_visible(c: char) -> bool {
    is_ascii(c) && !is_ascii_space(c) && !is_ascii_control(c)
}

/// `c` is neither white space nor a control code of Unicode.
pub open spec fn unicode_visible(c: char) -> bool {
    !unicode_white_space(c) && !unicode_control(c)
}

impl CharFilter {
    /// Whether the filter keeps `c`.
    pub open spec fn keeps(&self, c: char) -> bool {
        match self {
            CharFilter::Ascii => ascii_visible(c),
            CharFilter::AsciiWithoutPunctuation => ascii_visible(c) && !is_ascii_punctuation(c),
            CharFilter::AsciiWithoutDigits => ascii_visible(c) && !is_digit(c),
            CharFilter::AsciiWithoutDigitsOrPunctuation => ascii_visible(c) && !is_digit(c)
                && !is_ascii_punctuation(c),
            CharFilter::Unicode => unicode_visible(c),
            CharFilter::UnicodeWithoutAsciiDigits => unicode_visible(c) && !is_digit(c),
            CharFilter::UnicodeWithoutNumbers => unicode_visible(c) && !unicode_numeric(c),
            CharFilter::UnicodeWithoutAsciiPunctuation => unicode_visible(c)
                && !is_ascii_punctuation(c),
            CharFilter::UnicodeWithoutAsciiDigitsOrAsciiPunctuation => unicode_visible(c)
                && !is_digit(c) && !is_ascii_punctuation(c),
            CharFilter::UnicodeWithoutNumbersOrAsciiPunctuation => unicode_visible(c)
                && !unicode_numeric(c) && !is_ascii_punctuation(c),
        }
    }

    /// Whether the filter keeps `c`.
    pub fn accepts(&self, c: char) -> (r: bool)
        ensures
            r == self.keeps(c),
    {
        let ascii = char_is_ascii(c) && !char_is_ascii_space(c) && !char_is_ascii_control(c);
        let unicode = !c.is_whitespace() && !c.is_control();
        match self {
            CharFilter::Ascii => ascii,
            CharFilter::AsciiWithoutPunctuation => ascii && !char_is_ascii_punctuation(c),
            CharFilter::AsciiWithoutDigits => ascii && !char_is_digit(c),
            CharFilter::AsciiWithoutDigitsOrPunctuation => ascii && !char_is_digit(c)
                && !char_is_ascii_punctuation(c),
            CharFilter::Unicode => unicode,
            CharFilter::UnicodeWithoutAsciiDigits => unicode && !char_is_digit(c),
            CharFilter::UnicodeWithoutNumbers => unicode && !c.is_numeric(),
            CharFilter::UnicodeWithoutAsciiPunctuation => unicode && !char_is_ascii_punctuation(c),
            CharFilter::UnicodeWithoutAsciiDigitsOrAsciiPunctuation => unicode && !char_is_digit(c)
                && !char_is_ascii_punctuation(c),
            CharFilter::UnicodeWithoutNumbersOrAsciiPunctuation => unicode && !c.is_numeric()
                && !char_is_ascii_punctuation(c),
        }
    }

    /// `keeps` as a predicate on characters.
    pub open spec fn keeping(&self) -> spec_fn(char) -> bool {
        |c: char| self.keeps(c)
    }

    /// The filter as a function, for `Lexicon::extract_words`: it can be
    /// asked about every character and answers as `keeps` says.
    pub fn closure(&self) -> (f: impl Fn(char) -> bool)
        ensures
            is_total(f),
            answers(f, self.keeping()),
    {
        let filter = *self;
        move |c: char| -> (r: bool)
            ensures
                r == filter.keeps(c),
            { filter.accepts(c) }
    }
}

/// A list of words drawn from text.
#[derive(Debug)]
pub struct Lexicon {
    /// The way to split a text into words.
    pub split: Split,
    /// When a text is transliterated to ASCII.
    pub deunicode: Deunicode,
    /// Put the words in a random order whenever words are added.
    pub randomise: bool,
    /// The words so far. None of them is empty.
    pub words: WordList<false>,
}

impl Default for Lexicon {
    /// A lexicon that splits into the words of Unicode, never
    /// transliterates, keeps the order of the words, and holds no word yet.
    fn default() -> (r: Self)
        ensures
            r.split is UnicodeWords,
            r.deunicode is Deactivated,
            !r.randomise,
            r.words@.len() == 0,
    {
        Lexicon::new(Split::UnicodeWords)
    }
}

impl Split {
    /// Whether the text is split at `c`. The two ways that go by word
    /// boundaries split at no character.
    pub open spec fn delimits(&self, c: char) -> bool {
        match self {
            Split::UnicodeWhitespace => unicode_white_space(c),
            Split::AsciiWhitespace => is_ascii_space(c),
            Split::Chars(chars) => chars@.contains(c),
            _ => false,
        }
    }

    /// The characters at which the text is not split.
    pub open spec fn inner(&self) -> spec_fn(char) -> bool {
        |c: char| !self.delimits(c)
    }

    /// The pieces into which `text` is split.
    pub open spec fn pieces(&self, text: Seq<char>) -> Seq<Seq<char>> {
        match self {
            Split::UnicodeWords => word_bound_segments(text).filter(with_alphanumeric()),
            Split::WordBounds => word_bound_segments(text),
            _ => runs(text, self.inner()),
        }
    }

    /// Whether the text is split at `c`.
    fn is_delimiter(&self, c: char) -> (r: bool)
        ensures
            r == self.delimits(c),
    {
        match self {
            Split::UnicodeWhitespace => c.is_whitespace(),
            Split::AsciiWhitespace => char_is_ascii_space(c),
            Split::Chars(chars) => {
                let mut i: usize = 0;
                while i < chars.len()
                    invariant
                        i <= chars.len(),
                        self.delimits(c) == chars@.contains(c),
                        forall|j: int| 0 <= j < i ==> chars@[j] != c,
                    decreases chars.len() - i,
                {
                    if chars[i] == c {
                        assert(chars@[i as int] == c);
                        return true;
                    }
                    i += 1;
                }
                false
            },
            _ => false,
        }
    }

    /// The pieces of `text` between the characters at which it is split.
    fn split_at_delimiters(&self, text: &str) -> (r: Vec<String>)
        ensures
            texts(r@) == runs(text@, self.inner()),
    {
        let chars = chars_of(text);
        let ghost p = self.inner();
        let mut out: Vec<String> = Vec::new();
        let mut current = String::new();
        let mut i: usize = 0;
        assert(chars@.skip(0) == chars@);
        while i < chars.len()
            invariant
                i <= chars.len(),
                chars@ == text@,
                p == self.inner(),
                runs(text@, p) == texts(out@) + runs_after(chars@.skip(i as int), p, current@),
            decreases chars.len() - i,
        {
            let c = chars[i];
            let ghost rest = chars@.skip(i as int);
            let ghost later = chars@.skip(i as int + 1);
            let ghost done = texts(out@);
            let ghost open = current@;
            proof {
                assert(rest[0] == c);
                assert(rest.drop_first() == later);
                assert(p(c) == !self.delimits(c));
            }
            if self.is_delimiter(c) {
                if !current.as_str().is_empty() {
                    out.push(current);
                    current = String::new();
                    proof {
                        let tail = runs_after(later, p, Seq::empty());
                        assert(texts(out@) == done + seq![open]);
                        assert(runs_after(rest, p, open) == seq![open] + tail);
                        assert(done + (seq![open] + tail) == (done + seq![open]) + tail);
                    }
                } else {
                    proof {
                        let tail = runs_after(later, p, Seq::empty());
                        assert(open == Seq::<char>::empty());
                        assert(runs_after(rest, p, open) == Seq::<Seq<char>>::empty() + tail);
                        assert(Seq::<Seq<char>>::empty() + tail == tail);
                    }
                }
            } else {
                current.push(c);
            }
            i += 1;
        }
        let ghost done = texts(out@);
        let ghost open = current@;
        assert(chars@.skip(chars.len() as int).len() == 0);
        if !current.as_str().is_empty() {
            out.push(current);
            assert(texts(out@) == done + seq![open]);
        } else {
            assert(done + Seq::<Seq<char>>::empty() == done);
        }
        out
    }

    /// The pieces into which `text` is split.
    pub fn split(&self, text: &str) -> (r: Vec<String>)
        ensures
            texts(r@) == self.pieces(text@),
            *self is WordBounds ==> joined(texts(r@)) == text@,
            *self is UnicodeWords ==> forall|i: int|
                0 <= i < r@.len() ==> has_alphanumeric(#[trigger] r@[i]@),
    {
        match self {
            Split::UnicodeWords => unicode_words(text),
            Split::WordBounds => split_word_bounds(text),
            _ => self.split_at_delimiters(text),
        }
    }
}

/// `keep` tells what `filter` answers: whatever it answers for a character
/// is what `keep` says of it.
pub open spec fn answers<F: Fn(char) -> bool>(filter: F, keep: spec_fn(char) -> bool) -> bool {
    forall|c: char, b: bool| #[trigger] call_ensures(filter, (c,), b) ==> b == keep(c)
}

/// `filter` can be asked about every character.
pub open spec fn is_total<F: Fn(char) -> bool>(filter: F) -> bool {
    forall|c: char| call_requires(filter, (c,))
}

/// What becomes of one piece of a text: it is transliterated before or
/// after its characters are filtered, if `mode` says so. An empty outcome
/// stands for a piece that gives no word.
pub open spec fn refined(piece: Seq<char>, mode: Deunicode, keep: spec_fn(char) -> bool) -> Seq<
    char,
> {
    if piece.len() == 0 {
        piece
    } else {
        let source = if mode is BeforeFiltering {
            transliteration(piece)
        } else {
            piece
        };
        let kept = source.filter(keep);
        if mode is AfterFiltering && kept.len() > 0 {
            transliteration(kept)
        } else {
            kept
        }
    }
}

/// The words that the pieces give, in their order: each piece refined, and
/// left out where nothing remains of it.
pub open spec fn gathered(pieces: Seq<Seq<char>>, mode: Deunicode, keep: spec_fn(char) -> bool) -> Seq<
    Seq<char>,
>
    decreases pieces.len(),
{
    if pieces.len() == 0 {
        Seq::empty()
    } else {
        let before = gathered(pieces.drop_last(), mode, keep);
        let word = refined(pieces.last(), mode, keep);
        if word.len() > 0 {
            before.push(word)
        } else {
            before
        }
    }
}

/// `keep` holds of `c`.
pub open spec fn keeps(keep: spec_fn(char) -> bool, c: char) -> bool {
    keep(c)
}

/// `keep` holds of every character.
pub open spec fn keeps_all(keep: spec_fn(char) -> bool) -> bool {
    forall|c: char| #[trigger] keeps(keep, c)
}

/// A filter that keeps every character leaves a text as it is.
proof fn lemma_filter_keeps_all(text: Seq<char>, keep: spec_fn(char) -> bool)
    requires
        keeps_all(keep),
    ensures
        text.filter(keep) == text,
    decreases text.len(),
{
    reveal(Seq::filter);
    if text.len() > 0 {
        lemma_filter_keeps_all(text.drop_last(), keep);
        assert(keeps(keep, text.last()));
        assert(text.drop_last().push(text.last()) == text);
    }
}

/// Two lists of parts joined are the one joined and then the other.
proof fn lemma_joined_add(a: Seq<Seq<char>>, b: Seq<Seq<char>>)
    ensures
        joined(a + b) == joined(a) + joined(b),
    decreases b.len(),
{
    if b.len() == 0 {
        assert(a + b == a);
    } else {
        assert((a + b).drop_last() == a + b.drop_last());
        lemma_joined_add(a, b.drop_last());
    }
}

/// Without transliteration and with a filter that keeps every character,
/// the words that the pieces of a text give are the pieces but for the empty
/// ones: written one after the other they give what the pieces give. For
/// the pieces between word boundaries that is the text.
pub proof fn law_word_bounds_keep_everything(pieces: Seq<Seq<char>>, keep: spec_fn(char) -> bool)
    requires
        keeps_all(keep),
    ensures
        joined(gathered(pieces, Deunicode::Deactivated, keep)) == joined(pieces),
    decreases pieces.len(),
{
    if pieces.len() > 0 {
        law_word_bounds_keep_everything(pieces.drop_last(), keep);
        lemma_filter_keeps_all(pieces.last(), keep);
        let before = gathered(pieces.drop_last(), Deunicode::Deactivated, keep);
        if pieces.last().len() > 0 {
            assert(before.push(pieces.last()).drop_last() == before);
        }
    }
}

/// A word keeps a letter or a number through a filter that keeps every
/// letter and every number.
proof fn lemma_kept_alphanumeric(word: Seq<char>, keep: spec_fn(char) -> bool)
    requires
        has_alphanumeric(word),
        forall|c: char| alphanumeric(c) ==> keep(c),
    ensures
        has_alphanumeric(word.filter(keep)),
{
    let j = choose|j: int| 0 <= j < word.len() && alphanumeric(#[trigger] word[j]);
    word.lemma_filter_contains(keep, j);
    let kept = word.filter(keep);
    let k = choose|k: int| 0 <= k < kept.len() && kept[k] == word[j];
    assert(alphanumeric(kept[k]));
}

/// Where every piece holds a letter or a number, so does every word that
/// the pieces give without transliteration, if the filter keeps every letter
/// and every number.
proof fn lemma_gathered_alphanumeric(pieces: Seq<Seq<char>>, keep: spec_fn(char) -> bool)
    requires
        forall|i: int| 0 <= i < pieces.len() ==> has_alphanumeric(#[trigger] pieces[i]),
        forall|c: char| alphanumeric(c) ==> keep(c),
    ensures
        forall|i: int|
            0 <= i < gathered(pieces, Deunicode::Deactivated, keep).len() ==> has_alphanumeric(
                #[trigger] gathered(pieces, Deunicode::Deactivated, keep)[i],
            ),
    decreases pieces.len(),
{
    if pieces.len() > 0 {
        let earlier = pieces.drop_last();
        assert forall|i: int| 0 <= i < earlier.len() implies has_alphanumeric(
            #[trigger] earlier[i],
        ) by {
            assert(earlier[i] == pieces[i]);
        }
        lemma_gathered_alphanumeric(earlier, keep);
        assert(has_alphanumeric(pieces[pieces.len() - 1]));
        lemma_kept_alphanumeric(pieces.last(), keep);
        let all = gathered(pieces, Deunicode::Deactivated, keep);
        let before = gathered(earlier, Deunicode::Deactivated, keep);
        let word = pieces.last().filter(keep);
        assert(refined(pieces.last(), Deunicode::Deactivated, keep) == word);
        assert(all == before.push(word));
        assert forall|i: int| 0 <= i < all.len() implies has_alphanumeric(#[trigger] all[i]) by {
            if i < before.len() {
                assert(all[i] == before[i]);
            } else {
                assert(all[i] == word);
            }
        }
    }
}

/// Split at the word boundaries of Unicode into the pieces that hold a
/// letter or a number, a text gives no word without a letter or a number:
/// none that is made of punctuation or symbols alone. This holds without
/// transliteration and for every filter that keeps the letters and numbers.
pub proof fn law_unicode_words_hold_alphanumerics(
    lexicon: Lexicon,
    text: Seq<char>,
    keep: spec_fn(char) -> bool,
)
    requires
        lexicon.split is UnicodeWords,
        lexicon.deunicode is Deactivated,
        forall|c: char| alphanumeric(c) ==> keep(c),
    ensures
        forall|i: int|
            0 <= i < lexicon.extracted(text, keep).len() ==> has_alphanumeric(
                #[trigger] lexicon.extracted(text, keep)[i],
            ),
{
    let pieces = lexicon.split.pieces(text);
    assert forall|i: int| 0 <= i < pieces.len() implies has_alphanumeric(#[trigger] pieces[i]) by {
        word_bound_segments(text).lemma_filter_pred(with_alphanumeric(), i);
    }
    lemma_gathered_alphanumeric(pieces, keep);
}

impl Lexicon {
    /// `after` is `self` with the words of `text` added, for a filter that
    /// answers as `keep` says: they stand behind the words that were there,
    /// or with `randomise` all the words stand in some order. An empty text
    /// adds nothing. Split at word boundaries, without transliteration and
    /// with every character kept, the words in their order give, written
    /// one after the other, the text again.
    pub open spec fn extracts(
        &self,
        after: &Lexicon,
        text: Seq<char>,
        keep: spec_fn(char) -> bool,
    ) -> bool {
        let added = if text.len() == 0 {
            Seq::empty()
        } else {
            self.extracted(text, keep)
        };
        &&& if self.randomise && text.len() > 0 {
            is_rearrangement(self.words@ + added, after.words@)
        } else {
            after.words@ == self.words@ + added
        }
        &&& self.split is WordBounds && self.deunicode is Deactivated && !self.randomise
            && keeps_all(keep) ==> joined(after.words@) == joined(self.words@) + text
    }

    /// The words that `text` gives under the settings of `self`.
    pub open spec fn extracted(&self, text: Seq<char>, keep: spec_fn(char) -> bool) -> Seq<
        Seq<char>,
    > {
        let source = if self.deunicode is BeforeSplitting {
            transliteration(text)
        } else {
            text
        };
        gathered(self.split.pieces(source), self.deunicode, keep)
    }

    /// A lexicon that splits by `split`, never transliterates, keeps the
    /// order of the words, and holds no word yet.
    pub fn new(split: Split) -> (r: Self)
        ensures
            r.split == split,
            r.deunicode is Deactivated,
            !r.randomise,
            r.words@.len() == 0,
    {
        Lexicon { split, deunicode: Deunicode::Deactivated, randomise: false, words: WordList::new() }
    }

    /// The characters of `word` that `filter` keeps, in their order.
    pub fn keep_chars<F: Fn(char) -> bool>(word: &str, filter: &F) -> (r: String)
        requires
            is_total(*filter),
        ensures
            forall|keep: spec_fn(char) -> bool| #[trigger]
                answers(*filter, keep) ==> r@ == word@.filter(keep),
    {
        let chars = chars_of(word);
        let mut out = String::new();
        let mut i: usize = 0;
        while i < chars.len()
            invariant
                i <= chars.len(),
                chars@ == word@,
                is_total(*filter),
                forall|keep: spec_fn(char) -> bool| #[trigger]
                    answers(*filter, keep) ==> out@ == chars@.take(i as int).filter(keep),
            decreases chars.len() - i,
        {
            let c = chars[i];
            let ghost before = out@;
            let kept = filter(c);
            if kept {
                out.push(c);
            }
            proof {
                assert(chars@.take(i as int + 1) == chars@.take(i as int).push(c));
                assert forall|keep: spec_fn(char) -> bool| #[trigger]
                    answers(*filter, keep) implies out@ == chars@.take(i as int + 1).filter(
                    keep,
                ) by {
                    assert(call_ensures(*filter, (c,), kept));
                    assert(kept == keep(c));
                    assert(before == chars@.take(i as int).filter(keep));
                    chars@.take(i as int).lemma_filter_push(c, keep);
                }
            }
            i += 1;
        }
        assert(chars@.take(chars.len() as int) == chars@);
        out
    }

    /// What becomes of one piece of a text.
    fn refine<F: Fn(char) -> bool>(piece: &str, mode: Deunicode, filter: &F) -> (r: String)
        requires
            is_total(*filter),
        ensures
            forall|keep: spec_fn(char) -> bool| #[trigger]
                answers(*filter, keep) ==> r@ == refined(piece@, mode, keep),
    {
        if piece.is_empty() {
            return String::new();
        }
        let kept = match mode {
            Deunicode::BeforeFiltering => {
                let source = transliterate(piece);
                Lexicon::keep_chars(source.as_str(), filter)
            },
            _ => Lexicon::keep_chars(piece, filter),
        };
        match mode {
            Deunicode::AfterFiltering => {
                if kept.as_str().is_empty() {
                    kept
                } else {
                    transliterate(kept.as_str())
                }
            },
            _ => kept,
        }
    }

    /// Adds the words that the pieces of a text give: each piece is
    /// filtered, and transliterated before or after that if `deunicode` says
    /// so, and what remains of it is a word, unless nothing remains. The
    /// order of the words is not changed.
    ///
    /// The words are stated for every `keep` that tells what `filter`
    /// answers.
    pub fn gather<F: Fn(char) -> bool>(&mut self, pieces: &Vec<String>, filter: &F)
        requires
            is_total(*filter),
        ensures
            *final(self) == (Lexicon { words: final(self).words, ..*old(self) }),
            forall|keep: spec_fn(char) -> bool| #[trigger]
                answers(*filter, keep) ==> final(self).words@ == old(self).words@ + gathered(
                    texts(pieces@),
                    old(self).deunicode,
                    keep,
                ),
    {
        let mut i: usize = 0;
        assert(texts(pieces@).take(0) == Seq::<Seq<char>>::empty());
        while i < pieces.len()
            invariant
                i <= pieces.len(),
                is_total(*filter),
                *self == (Lexicon { words: self.words, ..*old(self) }),
                forall|keep: spec_fn(char) -> bool| #[trigger]
                    answers(*filter, keep) ==> self.words@ == old(self).words@ + gathered(
                        texts(pieces@).take(i as int),
                        self.deunicode,
                        keep,
                    ),
            decreases pieces.len() - i,
        {
            let ghost before = self.words@;
            let word = Lexicon::refine(pieces[i].as_str(), self.deunicode, filter);
            let added = self.words.push(word);
            proof {
                let so_far = texts(pieces@).take(i as int + 1);
                assert(so_far.drop_last() == texts(pieces@).take(i as int));
                assert(so_far.last() == pieces@[i as int]@);
                assert forall|keep: spec_fn(char) -> bool| #[trigger]
                    answers(*filter, keep) implies self.words@ == old(self).words@ + gathered(
                    so_far,
                    self.deunicode,
                    keep,
                ) by {
                    assert(word@ == refined(pieces@[i as int]@, self.deunicode, keep));
                    assert(before == old(self).words@ + gathered(
                        texts(pieces@).take(i as int),
                        self.deunicode,
                        keep,
                    ));
                }
            }
            i += 1;
        }
        assert(texts(pieces@).take(pieces.len() as int) == texts(pieces@));
    }

    /// Adds the words of `text` to the list.
    ///
    /// The text is split as `split` says and each piece is filtered: of its
    /// characters those stay that `filter` keeps. What remains of a piece is
    /// a word, unless nothing remains. `deunicode` says whether the text or
    /// each piece is transliterated to ASCII on the way. With `randomise` set
    /// the whole list is then put in a random order. An empty text changes
    /// nothing.
    ///
    /// The words are stated for every `keep` that tells what `filter`
    /// answers. Split at word boundaries, without transliteration and with
    /// a `keep` that keeps every character, the words written one after the
    /// other give the text again.
    pub fn extract_words<F: Fn(char) -> bool>(&mut self, text: &str, filter: F)
        requires
            is_total(filter),
        ensures
            *final(self) == (Lexicon { words: final(self).words, ..*old(self) }),
            text@.len() == 0 ==> final(self).words@ == old(self).words@,
            forall|keep: spec_fn(char) -> bool| #[trigger]
                answers(filter, keep) ==> old(self).extracts(final(self), text@, keep),
    {
        if text.is_empty() {
            assert(joined(self.words@) + text@ == joined(self.words@));
            return ;
        }
        let pieces = match self.deunicode {
            Deunicode::BeforeSplitting => {
                let source = transliterate(text);
                self.split.split(source.as_str())
            },
            _ => self.split.split(text),
        };
        let ghost before = self.words@;
        self.gather(&pieces, &filter);
        let ghost gathered_words = self.words@;
        if self.randomise {
            self.words.shuffle();
        }
        proof {
            assert forall|keep: spec_fn(char) -> bool| #[trigger]
                answers(filter, keep) implies old(self).extracts(&*self, text@, keep) by {
                let fresh = old(self).extracted(text@, keep);
                assert(fresh == gathered(texts(pieces@), self.deunicode, keep));
                assert(gathered_words == before + fresh);
                if self.split is WordBounds && self.deunicode is Deactivated && keeps_all(keep) {
                    law_word_bounds_keep_everything(texts(pieces@), keep);
                    lemma_joined_add(before, fresh);
                }
            }
        }
    }

    /// Puts the words in a random order.
    pub fn randomise(&mut self)
        ensures
            is_rearrangement(old(self).words@, final(self).words@),
            *final(self) == (Lexicon { words: final(self).words, ..*old(self) }),
    {
        self.words.shuffle();
    }

    /// The words, in order. None of them is empty.
    pub fn words(&self) -> (r: &[String])
        ensures
            texts(r@) == self.words@,
            forall|i: int| 0 <= i < r@.len() ==> (#[trigger] r@[i])@.len() > 0,
    {
        let words = self.words.as_vec();
        assert forall|i: int| 0 <= i < words@.len() implies (#[trigger] words@[i])@.len() > 0 by {
            assert(crate::words::word_ok(self.words@[i], false));
        }
        words.as_slice()
    }

    /// Removes every word.
    pub fn clear_words(&mut self)
        ensures
            final(self).words@.len() == 0,
            *final(self) == (Lexicon { words: final(self).words, ..*old(self) }),
    {
        self.words.clear();
    }

    /// Removes and returns the word at `index`; `None`, and no change, where
    /// the list has no such word.
    pub fn remove_word_at(&mut self, index: usize) -> (r: Option<String>)
        ensures
            r is Some <==> index < old(self).words@.len(),
            r matches Some(word) ==> word@ == old(self).words@[index as int]
                && final(self).words@ == old(self).words@.remove(index as int),
            r is None ==> final(self).words@ == old(self).words@,
            *final(self) == (Lexicon { words: final(self).words, ..*old(self) }),
    {
        self.words.remove(index)
    }
}

} // verus!

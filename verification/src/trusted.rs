//! What this library relies on without proof: the contracts of the functions
//! it calls in `rand`, `regex`, `deunicode`, `unicode-segmentation` and
//! `simdutf8`, and of a few functions of `std`.

use rand::seq::SliceRandom;
use rand::Rng;
use regex::Regex;
use unicode_segmentation::UnicodeSegmentation;
use vstd::prelude::*;
use vstd::utf8::is_ascii_chars;
use vstd::utf8::valid_utf8;
use crate::helpers::squeeze_dashes;
use crate::text::runs;
use crate::text::texts;
use crate::text::word_chars;

verus! {

/// `p` lists each index below `n` once.
pub open spec fn is_index_permutation(p: Seq<int>, n: nat) -> bool {
    &&& p.len() == n
    &&& p.no_duplicates()
    &&& forall|i: int| 0 <= i < n ==> 0 <= #[trigger] p[i] < n
}

/// `after` holds the items of `before` in the order that `p` gives.
pub open spec fn rearranged<T>(before: Seq<T>, after: Seq<T>, p: Seq<int>) -> bool {
    &&& is_index_permutation(p, before.len())
    &&& after.len() == before.len()
    &&& forall|i: int| 0 <= i < after.len() ==> #[trigger] after[i] == before[p[i]]
}

/// `after` holds the items of `before` in some order.
pub open spec fn is_rearrangement<T>(before: Seq<T>, after: Seq<T>) -> bool {
    exists|p: Seq<int>| rearranged(before, after, p)
}

/// The parts of `parts` written one after the other.
pub open spec fn joined(parts: Seq<Seq<char>>) -> Seq<char>
    decreases parts.len(),
{
    if parts.len() == 0 {
        Seq::empty()
    } else {
        joined(parts.drop_last()) + parts.last()
    }
}

/// `String::push` of `std`: appends one character.
pub assume_specification[ String::push ](s: &mut String, c: char)
    ensures
        final(s)@ == old(s)@.push(c),
;

/// `Rng::gen_range` of `rand`, on the thread's generator and an inclusive
/// range of `usize`: some value of the range. It panics on an empty range,
/// which `requires` leaves out.
#[verifier::external_body]
pub(crate) fn random_in_range(lo: usize, hi: usize) -> (r: usize)
    requires
        lo <= hi,
    ensures
        lo <= r <= hi,
{
    rand::thread_rng().gen_range(lo..=hi)
}

/// `Rng::gen_ratio` of `rand`, on the thread's generator: `true` with
/// probability `numerator / denominator`. Only the two certain cases are
/// stated. It panics on a zero denominator and on a ratio above one.
#[verifier::external_body]
pub(crate) fn random_ratio(numerator: u32, denominator: u32) -> (r: bool)
    requires
        0 < denominator,
        numerator <= denominator,
    ensures
        numerator == denominator ==> r,
        numerator == 0 ==> !r,
{
    rand::thread_rng().gen_ratio(numerator, denominator)
}

/// `SliceRandom::shuffle` of `rand`, on the thread's generator: the same
/// items in a random order.
#[verifier::external_body]
pub(crate) fn shuffle<T>(items: &mut Vec<T>)
    ensures
        is_rearrangement(old(items)@, final(items)@),
{
    items.shuffle(&mut rand::thread_rng());
}

/// `Regex::replace_all` of `regex`, for the one pattern and replacement that
/// `requires` admits: every match of `-+`, which is every run of dashes as
/// long as it goes, gives way to a single dash, and the rest of the text
/// stays. The pattern compiles, so nothing in the body fails.
#[verifier::external_body]
pub(crate) fn regex_replace_all(pattern: &str, text: &str, replacement: &str) -> (r: String)
    requires
        pattern@ == "-+"@,
        replacement@ == "-"@,
    ensures
        r@ == squeeze_dashes(text@),
{
    Regex::new(pattern).unwrap().replace_all(text, replacement).into_owned()
}

/// `Regex::captures_iter` of `regex`, for the two patterns that `requires`
/// admits and an ASCII text: the matches from left to right, each the whole
/// of a stretch of word characters. In an ASCII text `\\w` stands for a
/// letter, a digit or the underscore, and `[A-Za-z]` for a letter. Both
/// patterns compile, and every match has its group 0.
#[verifier::external_body]
pub(crate) fn regex_matches(pattern: &str, text: &str) -> (r: Vec<String>)
    requires
        pattern@ == "\\w+"@ || pattern@ == "[A-Za-z]+"@,
        is_ascii_chars(text@),
    ensures
        texts(r@) == runs(text@, word_chars(pattern@ == "\\w+"@)),
{
    Regex::new(pattern).unwrap().captures_iter(text).map(|found| found[0].to_owned()).collect()
}

/// What `deunicode` makes of a text.
pub uninterp spec fn transliteration(text: Seq<char>) -> Seq<char>;

/// `deunicode::deunicode`: the text in ASCII. The outcome is ASCII
/// throughout. A text of characters below U+007F alone comes back as it is;
/// of any other text nothing more is claimed, since the table of the crate
/// drops U+007F, and the control codes behind a character that is not ASCII.
#[verifier::external_body]
pub(crate) fn transliterate(text: &str) -> (r: String)
    ensures
        r@ == transliteration(text@),
        is_ascii_chars(r@),
        (forall|i: int| 0 <= i < text@.len() ==> text@[i] < '\u{7f}') ==> r@ == text@,
{
    deunicode::deunicode(text)
}

/// Whether `c` has the property White_Space of Unicode, as `std` tells it.
pub uninterp spec fn unicode_white_space(c: char) -> bool;

/// `char::is_whitespace` of `std`.
pub assume_specification[ char::is_whitespace ](c: char) -> (r: bool)
    ensures
        r == unicode_white_space(c),
;

/// Whether `c` is a control code of Unicode, as `std` tells it.
pub uninterp spec fn unicode_control(c: char) -> bool;

/// `char::is_control` of `std`.
pub assume_specification[ char::is_control ](c: char) -> (r: bool)
    ensures
        r == unicode_control(c),
;

/// Whether `c` is a number of Unicode, as `std` tells it.
pub uninterp spec fn unicode_numeric(c: char) -> bool;

/// `char::is_numeric` of `std`.
pub assume_specification[ char::is_numeric ](c: char) -> (r: bool)
    ensures
        r == unicode_numeric(c),
;

/// The pieces into which `unicode-segmentation` cuts a text at the word
/// boundaries of Unicode.
pub uninterp spec fn word_bound_segments(text: Seq<char>) -> Seq<Seq<char>>;

/// Whether `unicode-segmentation` takes `c` for a letter or a number: a
/// character with the property Alphabetic or of the general category Number.
pub uninterp spec fn alphanumeric(c: char) -> bool;

/// `word` holds a letter or a number.
pub open spec fn has_alphanumeric(word: Seq<char>) -> bool {
    exists|j: int| 0 <= j < word.len() && alphanumeric(#[trigger] word[j])
}

/// `has_alphanumeric` as a predicate on words.
pub open spec fn with_alphanumeric() -> spec_fn(Seq<char>) -> bool {
    |word: Seq<char>| has_alphanumeric(word)
}

/// `UnicodeSegmentation::split_word_bounds` of `unicode-segmentation`: the
/// text cut at every word boundary. The pieces, written one after the other,
/// are the text again.
#[verifier::external_body]
pub(crate) fn split_word_bounds(text: &str) -> (r: Vec<String>)
    ensures
        texts(r@) == word_bound_segments(text@),
        joined(texts(r@)) == text@,
{
    text.split_word_bounds().map(str::to_owned).collect()
}

/// `UnicodeSegmentation::unicode_words` of `unicode-segmentation`: of the
/// pieces between word boundaries those that hold a letter or a number.
#[verifier::external_body]
pub(crate) fn unicode_words(text: &str) -> (r: Vec<String>)
    ensures
        texts(r@) == word_bound_segments(text@).filter(with_alphanumeric()),
        forall|i: int|
            0 <= i < r@.len() ==> exists|j: int|
                0 <= j < (#[trigger] r@[i])@.len() && alphanumeric(#[trigger] r@[i]@[j]),
{
    text.unicode_words().map(str::to_owned).collect()
}

/// `simdutf8::compat::from_utf8`, which answers as `std::str::from_utf8`
/// does: nothing where the bytes are UTF-8; else the length of the longest
/// part from the start that is UTF-8.
#[verifier::external_body]
pub(crate) fn utf8_valid_up_to(bytes: &[u8]) -> (r: Option<usize>)
    ensures
        r is None <==> valid_utf8(bytes@),
        r matches Some(n) ==> n < bytes@.len() && valid_utf8(bytes@.take(n as int)) && forall|
            m: int,
        | n < m <= bytes@.len() ==> !valid_utf8(#[trigger] bytes@.take(m)),
{
    match simdutf8::compat::from_utf8(bytes) {
        Ok(_) => None,
        Err(error) => Some(error.valid_up_to()),
    }
}

} // verus!

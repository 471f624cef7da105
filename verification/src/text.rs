//! Characters and character sequences: the classes of ASCII, case mapping,
//! runs of characters, and conversion between strings and vectors.

use vstd::prelude::*;
use vstd::utf8::char_u32_cast;
use vstd::utf8::is_ascii_chars;

verus! {

/// `'0'` to `'9'`.
pub open spec fn is_digit(c: char) -> bool {
    '0' <= c <= '9'
}

/// `'A'` to `'Z'`.
pub open spec fn is_upper(c: char) -> bool {
    'A' <= c <= 'Z'
}

/// `'a'` to `'z'`.
pub open spec fn is_lower(c: char) -> bool {
    'a' <= c <= 'z'
}

/// A code point below 128.
pub open spec fn is_ascii(c: char) -> bool {
    c <= '\u{7f}'
}

/// Space, tab, line feed, form feed or carriage return.
pub open spec fn is_ascii_space(c: char) -> bool {
    c == ' ' || c == '\t' || c == '\n' || c == '\u{c}' || c == '\r'
}

/// A code point below 32, or 127.
pub open spec fn is_ascii_control(c: char) -> bool {
    c <= '\u{1f}' || c == '\u{7f}'
}

/// The printable ASCII characters that are neither letter, digit nor space.
pub open spec fn is_ascii_punctuation(c: char) -> bool {
    '!' <= c <= '/' || ':' <= c <= '@' || '[' <= c <= '`' || '{' <= c <= '~'
}

/// The upper-case form of an ASCII lower-case letter; any other character itself.
pub open spec fn to_upper(c: char) -> char {
    if is_lower(c) {
        ((c as u8) - 32) as char
    } else {
        c
    }
}

/// The lower-case form of an ASCII upper-case letter; any other character itself.
pub open spec fn to_lower(c: char) -> char {
    if is_upper(c) {
        ((c as u8) + 32) as char
    } else {
        c
    }
}

/// An ASCII letter.
pub open spec fn is_letter(c: char) -> bool {
    is_upper(c) || is_lower(c)
}

/// A character of a word: an ASCII letter, and with `digits` a decimal
/// digit or the underscore too.
pub open spec fn is_word_char(c: char, digits: bool) -> bool {
    is_letter(c) || (digits && (is_digit(c) || c == '_'))
}

/// `is_word_char` as a predicate on characters.
pub open spec fn word_chars(digits: bool) -> spec_fn(char) -> bool {
    |c: char| is_word_char(c, digits)
}

/// The runs of `text`, with `current` as the run that is open at its start:
/// a run is a stretch of characters that meet `p`, as long as it goes.
pub open spec fn runs_after(text: Seq<char>, p: spec_fn(char) -> bool, current: Seq<char>) -> Seq<
    Seq<char>,
>
    decreases text.len(),
{
    let closed = if current.len() > 0 {
        seq![current]
    } else {
        Seq::empty()
    };
    if text.len() == 0 {
        closed
    } else if p(text[0]) {
        runs_after(text.drop_first(), p, current.push(text[0]))
    } else {
        closed + runs_after(text.drop_first(), p, Seq::empty())
    }
}

/// The runs of `text`, from left to right: the stretches of characters that
/// meet `p`, each as long as it goes and none empty.
pub open spec fn runs(text: Seq<char>, p: spec_fn(char) -> bool) -> Seq<Seq<char>> {
    runs_after(text, p, Seq::empty())
}

/// A text without its first character is ASCII if the text is.
proof fn lemma_rest_is_ascii(text: Seq<char>)
    requires
        text.len() > 0,
        is_ascii_chars(text),
    ensures
        is_ascii_chars(text.drop_first()),
{
    let rest = text.drop_first();
    assert forall|j: int| 0 <= j < rest.len() implies '\0' <= #[trigger] rest[j] <= '\u{7f}' by {
        assert(rest[j] == text[j + 1]);
    }
}

/// No run is empty, and the runs of an ASCII text are ASCII.
pub proof fn lemma_runs_after_ok(text: Seq<char>, p: spec_fn(char) -> bool, current: Seq<char>)
    ensures
        forall|i: int|
            0 <= i < runs_after(text, p, current).len() ==> (#[trigger] runs_after(
                text,
                p,
                current,
            )[i]).len() > 0,
        is_ascii_chars(text) && is_ascii_chars(current) ==> forall|i: int|
            0 <= i < runs_after(text, p, current).len() ==> is_ascii_chars(
                #[trigger] runs_after(text, p, current)[i],
            ),
    decreases text.len(),
{
    let all = runs_after(text, p, current);
    let closed = if current.len() > 0 {
        seq![current]
    } else {
        Seq::<Seq<char>>::empty()
    };
    let ascii = is_ascii_chars(text) && is_ascii_chars(current);
    if text.len() == 0 {
        assert(all == closed);
    } else {
        let rest = text.drop_first();
        if ascii {
            lemma_rest_is_ascii(text);
        }
        if p(text[0]) {
            let longer = current.push(text[0]);
            lemma_runs_after_ok(rest, p, longer);
            assert(all == runs_after(rest, p, longer));
            if ascii {
                assert('\0' <= text[0] <= '\u{7f}');
                assert(is_ascii_chars(longer));
            }
        } else {
            let later = runs_after(rest, p, Seq::empty());
            lemma_runs_after_ok(rest, p, Seq::empty());
            assert(all == closed + later);
            assert forall|i: int| 0 <= i < all.len() implies (#[trigger] all[i]).len() > 0 && (ascii
                ==> is_ascii_chars(all[i])) by {
                if i < closed.len() {
                    assert(all[i] == current);
                } else {
                    assert(all[i] == later[i - closed.len()]);
                }
            }
        }
    }
}

/// The views of a sequence of strings.
pub open spec fn texts(v: Seq<String>) -> Seq<Seq<char>> {
    v.map_values(|s: String| s@)
}

/// Whether `c` is a decimal digit.
pub fn char_is_digit(c: char) -> (r: bool)
    ensures
        r == is_digit(c),
{
    '0' <= c && c <= '9'
}

/// Whether `c` is an ASCII upper-case letter.
pub fn char_is_upper(c: char) -> (r: bool)
    ensures
        r == is_upper(c),
{
    'A' <= c && c <= 'Z'
}

/// Whether `c` is an ASCII lower-case letter.
pub fn char_is_lower(c: char) -> (r: bool)
    ensures
        r == is_lower(c),
{
    'a' <= c && c <= 'z'
}

/// Whether `c` is ASCII.
pub fn char_is_ascii(c: char) -> (r: bool)
    ensures
        r == is_ascii(c),
{
    c <= '\u{7f}'
}

/// Whether `c` is white space of ASCII.
pub fn char_is_ascii_space(c: char) -> (r: bool)
    ensures
        r == is_ascii_space(c),
{
    c == ' ' || c == '\t' || c == '\n' || c == '\u{c}' || c == '\r'
}

/// Whether `c` is a control code of ASCII.
pub fn char_is_ascii_control(c: char) -> (r: bool)
    ensures
        r == is_ascii_control(c),
{
    c <= '\u{1f}' || c == '\u{7f}'
}

/// Whether `c` is punctuation of ASCII.
pub fn char_is_ascii_punctuation(c: char) -> (r: bool)
    ensures
        r == is_ascii_punctuation(c),
{
    ('!' <= c && c <= '/') || (':' <= c && c <= '@') || ('[' <= c && c <= '`') || ('{' <= c && c
        <= '~')
}

/// `c` in upper case, if it is an ASCII lower-case letter.
pub fn char_to_upper(c: char) -> (r: char)
    ensures
        r == to_upper(c),
{
    if char_is_lower(c) {
        ((c as u8) - 32u8) as char
    } else {
        c
    }
}

/// `c` in lower case, if it is an ASCII upper-case letter.
pub fn char_to_lower(c: char) -> (r: char)
    ensures
        r == to_lower(c),
{
    if char_is_upper(c) {
        ((c as u8) + 32u8) as char
    } else {
        c
    }
}

/// Whether every character is ASCII.
pub fn chars_are_ascii(chars: &Vec<char>) -> (r: bool)
    ensures
        r == is_ascii_chars(chars@),
{
    let mut i: usize = 0;
    while i < chars.len()
        invariant
            i <= chars.len(),
            forall|j: int| 0 <= j < i ==> '\0' <= #[trigger] chars@[j] <= '\u{7f}',
        decreases chars.len() - i,
    {
        let c = chars[i];
        if !char_is_ascii(c) {
            assert(!('\0' <= chars@[i as int] <= '\u{7f}'));
            return false;
        }
        assert('\0' <= c) by {
            char_u32_cast(c, c as u32);
        }
        i += 1;
    }
    true
}

/// The characters of a string, in a vector.
pub fn chars_of(s: &str) -> (r: Vec<char>)
    ensures
        r@ == s@,
{
    let mut out: Vec<char> = Vec::new();
    for c in it: s.chars()
        invariant
            it.seq() == s@,
            out@ == it.seq().take(it.index() as int),
    {
        out.push(c);
    }
    out
}

/// The string that holds the given characters.
pub fn string_of(chars: &Vec<char>) -> (r: String)
    ensures
        r@ == chars@,
{
    let mut out = String::new();
    let mut i: usize = 0;
    while i < chars.len()
        invariant
            i <= chars.len(),
            out@ == chars@.take(i as int),
        decreases chars.len() - i,
    {
        out.push(chars[i]);
        i += 1;
    }
    out
}

} // verus!

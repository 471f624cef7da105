//! One password in the making: words are strung together until the length
//! fits, digits and special characters are put in, and the case of letters
//! is balanced.

use vstd::arithmetic::div_mod::lemma_fundamental_div_mod;
use vstd::arithmetic::div_mod::lemma_fundamental_div_mod_converse;
use vstd::arithmetic::div_mod::lemma_mod_bound;
use vstd::arithmetic::div_mod::lemma_small_mod;
use vstd::prelude::*;
use vstd::string::StrSliceExecFns;
use vstd::utf8::is_ascii_chars;
use crate::helpers::capitalise;
use crate::helpers::decapitalise;
use crate::settings::PasswordSettings;
use crate::text::char_is_lower;
use crate::text::char_is_upper;
use crate::text::char_to_upper;
use crate::text::chars_are_ascii;
use crate::text::chars_of;
use crate::text::is_digit;
use crate::text::is_lower;
use crate::text::is_upper;
use crate::text::string_of;
use crate::text::texts;
use crate::text::to_lower;
use crate::text::to_upper;
use crate::trusted::is_rearrangement;
use crate::trusted::random_in_range;
use crate::trusted::random_ratio;
use crate::trusted::rearranged;
use crate::trusted::shuffle;
use crate::words::word_ok;
use crate::words::words_ok;

verus! {

/// The widest span of lengths that a password is fitted to. A wider range of
/// lengths is narrowed to a span of this width, placed at random within it.
pub const LENGTH_SPAN: usize = 50;

/// Once a password has reached its least length, a further word that fits
/// is taken `GO_ON_ODDS.0` times out of `GO_ON_ODDS.1`.
pub const GO_ON_ODDS: (u32, u32) = (4, 5);

/// A password in the making.
#[derive(Debug)]
pub struct Password {
    password: Vec<char>,
    reset_count: usize,
    min_len: usize,
    max_len: usize,
    total_inserts: usize,
    upper: usize,
    lower: usize,
    force_upper: bool,
    force_lower: bool,
    insertables: Vec<char>,
}

/// The smaller of two numbers.
pub open spec fn least(a: int, b: int) -> int {
    if a <= b {
        a
    } else {
        b
    }
}

/// `chars` holds `digits` decimal digits and `specials` characters of
/// `special_chars`, in some order.
#[verifier::opaque]
pub open spec fn drawn(chars: Seq<char>, digits: nat, specials: nat, special_chars: Seq<char>) -> bool {
    exists|plain: Seq<char>| #[trigger]
        is_rearrangement(plain, chars) && plain.len() == digits + specials && (forall|i: int|
            0 <= i < digits ==> is_digit(#[trigger] plain[i])) && (forall|i: int|
            digits <= i < plain.len() ==> special_chars.contains(#[trigger] plain[i]))
}

/// A word as it enters a password: as it is, or with its first character in
/// upper case.
pub open spec fn shown(word: Seq<char>, capitalise: bool) -> Seq<char> {
    if capitalise && word.len() > 0 {
        word.update(0, to_upper(word[0]))
    } else {
        word
    }
}

/// `count` words in a row, written one after the other: the word at index
/// `start`, the one after it and so on, and after the last word of the list
/// its first word again.
pub open spec fn cyclic_concat(
    words: Seq<Seq<char>>,
    start: int,
    count: nat,
    capitalise: bool,
) -> Seq<char>
    decreases count,
{
    if count == 0 {
        Seq::empty()
    } else {
        cyclic_concat(words, start, (count - 1) as nat, capitalise) + shown(
            words[(start + count - 1) % (words.len() as int)],
            capitalise,
        )
    }
}

/// `buffer` is what stringing `count` words from index `start` on leaves:
/// all of them where their length lies between `least_len` and
/// `greatest_len`; else, and only with the starts used up, as much of them
/// as `greatest_len` allows.
pub open spec fn strung_from(
    words: Seq<Seq<char>>,
    capitalise: bool,
    least_len: nat,
    greatest_len: nat,
    used_up: bool,
    buffer: Seq<char>,
    start: int,
    count: nat,
) -> bool {
    let whole = cyclic_concat(words, start, count, capitalise);
    &&& 0 <= start < words.len()
    &&& count >= 1
    &&& if least_len <= whole.len() <= greatest_len {
        buffer == whole
    } else {
        used_up && buffer == whole.take(least(whole.len() as int, greatest_len as int))
    }
}

/// `buffer` is what stringing words of the list leaves, from some word on
/// and for some number of words.
pub open spec fn strung(
    words: Seq<Seq<char>>,
    capitalise: bool,
    least_len: nat,
    greatest_len: nat,
    used_up: bool,
    buffer: Seq<char>,
) -> bool {
    exists|start: int, count: nat| #[trigger]
        strung_from(words, capitalise, least_len, greatest_len, used_up, buffer, start, count)
}

/// How things stand once a word has been taken.
#[derive(Clone, Copy, Debug, PartialEq, Eq)]
pub enum Outlook {
    /// The words stand as they are, or cut to the greatest length: no
    /// further word is taken.
    Done,
    /// The next word does not fit and the words are too short or too long:
    /// they were dropped, and the choice starts again with the next word.
    Restart,
    /// The next word fits and the least length is not reached: the next
    /// word is taken.
    GoOn,
    /// The next word fits and the least length is reached: the next word
    /// may be taken or not.
    Open,
}

/// How things stand with words of the length `len` strung together, a next
/// word of the length `next_len`, and starts left or not.
pub open spec fn outlook(
    len: nat,
    next_len: nat,
    least_len: nat,
    greatest_len: nat,
    starts_left: bool,
) -> Outlook {
    let allowance = if len < greatest_len {
        greatest_len - len
    } else {
        0
    };
    if next_len > allowance {
        if least_len <= len <= greatest_len || !starts_left {
            Outlook::Done
        } else {
            Outlook::Restart
        }
    } else if len < least_len {
        Outlook::GoOn
    } else {
        Outlook::Open
    }
}

/// The position after `cursor` in a cycle of `n` positions.
pub open spec fn next_in_cycle(cursor: int, n: int) -> int {
    if cursor + 1 == n {
        0
    } else {
        cursor + 1
    }
}

/// The `count` characters that are taken first from `stock`, in the order in
/// which they are taken: the last of the stock first.
pub open spec fn taken(stock: Seq<char>, count: nat) -> Seq<char> {
    Seq::new(count, |j: int| stock[stock.len() - 1 - j])
}

/// `after` is `mid` with `c` put in at position `at`: in front of a
/// character of `mid`, or into the empty `mid`.
pub open spec fn put_in(mid: Seq<char>, at: int, c: char, after: Seq<char>) -> bool {
    &&& 0 <= at <= mid.len()
    &&& at < mid.len() || mid.len() == 0
    &&& after == mid.insert(at, c)
}

/// `after` is `before` with the characters of `chars` put in, one after the
/// other in their order, each at some position of what is there by then.
pub open spec fn woven(before: Seq<char>, chars: Seq<char>, after: Seq<char>) -> bool
    decreases chars.len(),
{
    if chars.len() == 0 {
        after == before
    } else {
        exists|mid: Seq<char>, at: int| #[trigger]
            put_in(mid, at, chars.last(), after) && woven(before, chars.drop_last(), mid)
    }
}

/// How many of `marks` are set.
pub open spec fn count_marked(marks: Seq<bool>) -> nat
    decreases marks.len(),
{
    if marks.len() == 0 {
        0
    } else {
        count_marked(marks.drop_last()) + if marks.last() {
            1nat
        } else {
            0nat
        }
    }
}

/// `before` with the character at each marked position replaced: at the
/// first marked position stands the first of `chars`, at the second the
/// second, and so on.
pub open spec fn overwritten(before: Seq<char>, marks: Seq<bool>, chars: Seq<char>) -> Seq<char>
    decreases before.len(),
{
    if before.len() == 0 {
        before
    } else {
        overwritten(before.drop_last(), marks.drop_last(), chars).push(
            if marks.last() {
                chars[count_marked(marks.drop_last()) as int]
            } else {
                before.last()
            },
        )
    }
}

/// `after` is `before` with as many characters replaced as `chars` holds,
/// at some positions, by the characters of `chars` from left to right.
pub open spec fn replaced(before: Seq<char>, chars: Seq<char>, after: Seq<char>) -> bool {
    exists|marks: Seq<bool>| #[trigger]
        count_marked(marks) == chars.len() && marks.len() == before.len() && after == overwritten(
            before,
            marks,
            chars,
        )
}

/// Setting a mark that was not set makes one more.
proof fn lemma_count_marked_set(marks: Seq<bool>, at: int)
    requires
        0 <= at < marks.len(),
        !marks[at],
    ensures
        count_marked(marks.update(at, true)) == count_marked(marks) + 1,
    decreases marks.len(),
{
    let set = marks.update(at, true);
    if at == marks.len() - 1 {
        assert(set.drop_last() == marks.drop_last());
    } else {
        assert(set.drop_last() == marks.drop_last().update(at, true));
        lemma_count_marked_set(marks.drop_last(), at);
    }
}

/// A part of the marks from the start holds no more marks than the whole.
proof fn lemma_count_marked_prefix(marks: Seq<bool>, n: int)
    requires
        0 <= n <= marks.len(),
    ensures
        count_marked(marks.take(n)) <= count_marked(marks),
        n < marks.len() && marks[n] ==> count_marked(marks.take(n)) < count_marked(marks),
    decreases marks.len() - n,
{
    if n == marks.len() {
        assert(marks.take(n) == marks);
    } else {
        assert(marks.take(n + 1).drop_last() == marks.take(n));
        lemma_count_marked_prefix(marks, n + 1);
    }
}

/// `c` is an ASCII letter of the given case.
pub open spec fn in_case(c: char, upper: bool) -> bool {
    if upper {
        is_upper(c)
    } else {
        is_lower(c)
    }
}

/// `c` brought to the given case.
pub open spec fn to_case(c: char, upper: bool) -> char {
    if upper {
        to_upper(c)
    } else {
        to_lower(c)
    }
}

/// How many ASCII letters of the given case `text` holds.
pub open spec fn count_case(text: Seq<char>, upper: bool) -> nat
    decreases text.len(),
{
    if text.len() == 0 {
        0
    } else {
        count_case(text.drop_last(), upper) + if in_case(text.last(), upper) {
            1nat
        } else {
            0nat
        }
    }
}

/// `after` is `before` with exactly `count` letters of the other case
/// brought to the given case, and nothing else changed.
pub open spec fn recased(before: Seq<char>, after: Seq<char>, count: nat, upper: bool) -> bool {
    &&& after.len() == before.len()
    &&& forall|i: int|
        0 <= i < before.len() ==> #[trigger] after[i] == before[i] || (in_case(before[i], !upper)
            && after[i] == to_case(before[i], upper))
    &&& count_case(after, upper) == count_case(before, upper) + count
    &&& count_case(after, !upper) + count == count_case(before, !upper)
}

/// Whether letters are brought to a case of which the password has `have`
/// letters and `quota` are asked for: always where it has none, and where it
/// has too few if that is `forced`.
pub open spec fn balancing(have: nat, quota: nat, forced: bool) -> bool {
    have == 0 || (forced && have < quota)
}

/// How many letters are still asked for in a case of which the password has
/// `have` letters, where `quota` are asked for and `other` letters could be
/// changed.
pub open spec fn missing(have: nat, other: nat, quota: nat) -> nat {
    let wanted = if 0 < have < quota {
        quota - have
    } else {
        quota as int
    };
    least(wanted, other as int) as nat
}

/// How many letters the balancing brings to a case.
pub open spec fn case_changes(have: nat, other: nat, quota: nat, forced: bool, never: bool) -> nat {
    if balancing(have, quota, forced) && !never {
        missing(have, other, quota)
    } else {
        0
    }
}

/// What a change of one character does to the count of a case.
proof fn lemma_count_case_update(text: Seq<char>, at: int, c: char, upper: bool)
    requires
        0 <= at < text.len(),
    ensures
        count_case(text.update(at, c), upper) + (if in_case(text[at], upper) {
            1nat
        } else {
            0nat
        }) == count_case(text, upper) + (if in_case(c, upper) {
            1nat
        } else {
            0nat
        }),
    decreases text.len(),
{
    let changed = text.update(at, c);
    if at == text.len() - 1 {
        assert(changed.drop_last() == text.drop_last());
    } else {
        assert(changed.drop_last() == text.drop_last().update(at, c));
        lemma_count_case_update(text.drop_last(), at, c, upper);
    }
}

/// `places` lists positions of `text`, none twice, that hold letters of the
/// given case.
pub open spec fn places_in_case(places: Seq<usize>, text: Seq<char>, upper: bool) -> bool {
    &&& forall|j: int|
        0 <= j < places.len() ==> #[trigger] places[j] < text.len() && in_case(
            text[places[j] as int],
            upper,
        )
    &&& forall|j: int, k: int| 0 <= j < k < places.len() ==> places[j] != places[k]
}

/// The positions of the letters of the given case, from left to right.
fn positions_in_case(text: &Vec<char>, upper: bool) -> (r: Vec<usize>)
    ensures
        r@.len() == count_case(text@, upper),
        places_in_case(r@, text@, upper),
{
    let mut places: Vec<usize> = Vec::new();
    let mut i: usize = 0;
    while i < text.len()
        invariant
            i <= text.len(),
            places@.len() == count_case(text@.take(i as int), upper),
            forall|j: int|
                0 <= j < places@.len() ==> #[trigger] places@[j] < i && in_case(
                    text@[places@[j] as int],
                    upper,
                ),
            forall|j: int, k: int| 0 <= j < k < places@.len() ==> places@[j] != places@[k],
        decreases text.len() - i,
    {
        assert(text@.take(i as int + 1).drop_last() == text@.take(i as int));
        let c = text[i];
        let found = if upper {
            char_is_upper(c)
        } else {
            char_is_lower(c)
        };
        if found {
            places.push(i);
        }
        i += 1;
    }
    assert(text@.take(text.len() as int) == text@);
    places
}

/// Brings `count` letters of `text` to the given case, at positions taken
/// at random from `places`.
fn recase_at_random(text: &mut Vec<char>, places: &mut Vec<usize>, count: usize, upper: bool)
    requires
        count <= old(places)@.len(),
        places_in_case(old(places)@, old(text)@, !upper),
        is_ascii_chars(old(text)@),
    ensures
        recased(old(text)@, final(text)@, count as nat, upper),
        final(places)@.len() == old(places)@.len() - count,
        places_in_case(final(places)@, final(text)@, !upper),
        is_ascii_chars(final(text)@),
{
    let mut done: usize = 0;
    while done < count
        invariant
            done <= count,
            places@.len() == old(places)@.len() - done,
            count <= old(places)@.len(),
            places_in_case(places@, text@, !upper),
            recased(old(text)@, text@, done as nat, upper),
            is_ascii_chars(text@),
        decreases count - done,
    {
        let pick = random_in_range(0, places.len() - 1);
        let ghost listed = places@;
        let ghost before = text@;
        let at = places.remove(pick);
        if upper {
            capitalise(text, at);
        } else {
            decapitalise(text, at);
        }
        proof {
            let c = text@[at as int];
            assert(at == listed[pick as int]);
            assert(in_case(before[at as int], !upper));
            assert(c == to_case(before[at as int], upper));
            assert(in_case(c, upper) && !in_case(c, !upper));
            assert('\0' <= before[at as int] <= '\u{7f}');
            lemma_count_case_update(before, at as int, c, upper);
            lemma_count_case_update(before, at as int, c, !upper);
            assert forall|j: int| 0 <= j < places@.len() implies #[trigger] places@[j]
                < text@.len() && in_case(text@[places@[j] as int], !upper) by {
                if j < pick {
                    assert(places@[j] == listed[j]);
                } else {
                    assert(places@[j] == listed[j + 1]);
                }
            }
            assert forall|j: int, k: int| 0 <= j < k < places@.len() implies places@[j]
                != places@[k] by {
                let from_j = if j < pick {
                    j
                } else {
                    j + 1
                };
                let from_k = if k < pick {
                    k
                } else {
                    k + 1
                };
                assert(places@[j] == listed[from_j]);
                assert(places@[k] == listed[from_k]);
            }
            assert forall|i: int| 0 <= i < before.len() implies #[trigger] text@[i] == old(
                text,
            )@[i] || (in_case(old(text)@[i], !upper) && text@[i] == to_case(
                old(text)@[i],
                upper,
            )) by {
                if i == at {
                    assert(before[i] == old(text)@[i] || (in_case(old(text)@[i], !upper)
                        && before[i] == to_case(old(text)@[i], upper)));
                } else {
                    assert(text@[i] == before[i]);
                }
            }
        }
        done += 1;
    }
}

/// Marks `count` of `len` positions, chosen at random.
fn marks_at_random(len: usize, count: usize) -> (r: Vec<bool>)
    requires
        count <= len,
    ensures
        r@.len() == len,
        count_marked(r@) == count,
{
    let mut marks: Vec<bool> = Vec::new();
    let mut free: Vec<usize> = Vec::new();
    let mut i: usize = 0;
    while i < len
        invariant
            i <= len,
            marks@.len() == i,
            free@.len() == i,
            count_marked(marks@) == 0,
            forall|j: int| 0 <= j < i ==> !#[trigger] marks@[j],
            forall|j: int| 0 <= j < i ==> #[trigger] free@[j] == j,
        decreases len - i,
    {
        let ghost before = marks@;
        marks.push(false);
        free.push(i);
        assert(marks@.drop_last() == before);
        i += 1;
    }
    let mut chosen: usize = 0;
    while chosen < count
        invariant
            chosen <= count <= len,
            marks@.len() == len,
            free@.len() == len - chosen,
            count_marked(marks@) == chosen,
            forall|j: int| 0 <= j < free@.len() ==> #[trigger] free@[j] < len,
            forall|j: int| 0 <= j < free@.len() ==> !marks@[#[trigger] free@[j] as int],
            forall|j: int, k: int| 0 <= j < k < free@.len() ==> free@[j] != free@[k],
        decreases count - chosen,
    {
        let pick = random_in_range(0, free.len() - 1);
        let ghost before = free@;
        let at = free.remove(pick);
        proof {
            lemma_count_marked_set(marks@, at as int);
            assert forall|j: int| 0 <= j < free@.len() implies #[trigger] free@[j] != at by {
                if j < pick {
                    assert(free@[j] == before[j]);
                } else {
                    assert(free@[j] == before[j + 1]);
                }
            }
        }
        marks.set(at, true);
        chosen += 1;
    }
    marks
}

/// What the balancing of one case goes by, for a password that has `have`
/// letters of the case and `other` letters of the other case: whether
/// letters are brought to the case, and how many are still asked for.
pub fn plan_case(have: usize, other: usize, quota: usize, forced: bool) -> (r: (bool, usize))
    ensures
        r.0 == balancing(have as nat, quota as nat, forced),
        r.1 == missing(have as nat, other as nat, quota as nat),
{
    let balancing = if have == 0 {
        true
    } else if have >= quota {
        false
    } else {
        forced
    };
    let wanted = if have == 0 || have >= quota {
        quota
    } else {
        quota - have
    };
    let missing = if wanted > other {
        other
    } else {
        wanted
    };
    (balancing, missing)
}

/// Balances one case of `text`: brings letters of the other case to it, at
/// positions chosen at random, as many as `case_changes` says. It returns
/// what `plan_case` says of the text as it was.
fn balance_case(text: &mut Vec<char>, quota: usize, forced: bool, never: bool, upper: bool) -> (r: (
    bool,
    usize,
))
    requires
        is_ascii_chars(old(text)@),
    ensures
        recased(
            old(text)@,
            final(text)@,
            case_changes(
                count_case(old(text)@, upper),
                count_case(old(text)@, !upper),
                quota as nat,
                forced,
                never,
            ),
            upper,
        ),
        r.0 == balancing(count_case(old(text)@, upper), quota as nat, forced),
        r.1 == missing(
            count_case(old(text)@, upper),
            count_case(old(text)@, !upper),
            quota as nat,
        ),
        is_ascii_chars(final(text)@),
{
    let have = positions_in_case(text, upper).len();
    let mut others = positions_in_case(text, !upper);
    let plan = plan_case(have, others.len(), quota, forced);
    let count = if plan.0 && !never {
        plan.1
    } else {
        0
    };
    recase_at_random(text, &mut others, count, upper);
    plan
}

/// One step further in a cycle of `n` positions.
proof fn lemma_next_in_cycle(x: int, n: int)
    requires
        0 <= x,
        0 < n,
    ensures
        (x + 1) % n == if x % n + 1 == n {
            0
        } else {
            x % n + 1
        },
{
    lemma_fundamental_div_mod(x, n);
    lemma_mod_bound(x, n);
    let q = x / n;
    let r = x % n;
    if r + 1 == n {
        assert(x + 1 == (q + 1) * n + 0) by (nonlinear_arith)
            requires
                x == n * q + r,
                r + 1 == n,
        ;
        lemma_fundamental_div_mod_converse(x + 1, n, q + 1, 0);
    } else {
        assert(x + 1 == q * n + (r + 1)) by (nonlinear_arith)
            requires
                x == n * q + r,
        ;
        lemma_fundamental_div_mod_converse(x + 1, n, q, r + 1);
    }
}

/// An ASCII word enters a password as ASCII.
proof fn lemma_shown_ascii(word: Seq<char>, capitalise: bool)
    requires
        is_ascii_chars(word),
    ensures
        is_ascii_chars(shown(word, capitalise)),
{
    let form = shown(word, capitalise);
    assert forall|i: int| 0 <= i < form.len() implies '\0' <= #[trigger] form[i] <= '\u{7f}' by {
        assert('\0' <= word[i] <= '\u{7f}');
    }
}

/// Appends `word` to `buffer`, its first character in upper case if
/// `capitalise` is set.
fn push_word(buffer: &mut Vec<char>, word: &str, capitalise: bool)
    ensures
        final(buffer)@ == old(buffer)@ + shown(word@, capitalise),
{
    let chars = chars_of(word);
    let ghost form = shown(word@, capitalise);
    let mut i: usize = 0;
    while i < chars.len()
        invariant
            i <= chars.len(),
            chars@ == word@,
            form == shown(word@, capitalise),
            buffer@ == old(buffer)@ + form.take(i as int),
        decreases chars.len() - i,
    {
        let c = if capitalise && i == 0 {
            char_to_upper(chars[i])
        } else {
            chars[i]
        };
        assert(form.take(i as int + 1) == form.take(i as int).push(c));
        buffer.push(c);
        i += 1;
    }
    assert(form.take(chars.len() as int) == form);
}

/// Draws `digits` decimal digits and `specials` characters of
/// `special_chars` at random, and mixes them.
fn draw_stock(digits: usize, specials: usize, special_chars: &Vec<char>) -> (r: Vec<char>)
    requires
        specials > 0 ==> special_chars@.len() > 0,
        is_ascii_chars(special_chars@),
    ensures
        drawn(r@, digits as nat, specials as nat, special_chars@),
        is_ascii_chars(r@),
        r@.len() == digits + specials,
{
    let mut chars: Vec<char> = Vec::new();
    let mut i: usize = 0;
    while i < digits
        invariant
            i <= digits,
            chars@.len() == i,
            forall|j: int| 0 <= j < i ==> is_digit(#[trigger] chars@[j]),
        decreases digits - i,
    {
        let digit = random_in_range(0, 9);
        chars.push((48u8 + digit as u8) as char);
        i += 1;
    }
    let mut k: usize = 0;
    while k < specials
        invariant
            k <= specials,
            specials > 0 ==> special_chars@.len() > 0,
            chars@.len() == digits + k,
            forall|j: int| 0 <= j < digits ==> is_digit(#[trigger] chars@[j]),
            forall|j: int|
                digits <= j < digits + k ==> special_chars@.contains(#[trigger] chars@[j]),
        decreases specials - k,
    {
        let index = random_in_range(0, special_chars.len() - 1);
        chars.push(special_chars[index]);
        k += 1;
    }
    let ghost plain = chars@;
    shuffle(&mut chars);
    proof {
        let p = choose|p: Seq<int>| rearranged(plain, chars@, p);
        assert forall|j: int| 0 <= j < chars@.len() implies '\0' <= #[trigger] chars@[j]
            <= '\u{7f}' by {
            let from = p[j];
            assert(chars@[j] == plain[from]);
            if from >= digits {
                assert(special_chars@.contains(plain[from]));
            } else {
                assert(is_digit(plain[from]));
            }
        }
        assert(is_rearrangement(plain, chars@));
        reveal(drawn);
    }
    chars
}

impl Password {
    /// The characters put together so far.
    pub closed spec fn buffer(&self) -> Seq<char> {
        self.password@
    }

    /// How often the choice of words has started again.
    pub closed spec fn resets(&self) -> nat {
        self.reset_count as nat
    }

    /// The least length of the words strung together.
    pub closed spec fn least_len(&self) -> nat {
        self.min_len as nat
    }

    /// The greatest length of the words strung together.
    pub closed spec fn greatest_len(&self) -> nat {
        self.max_len as nat
    }

    /// How many digits and special characters are put in.
    pub closed spec fn inserts(&self) -> nat {
        self.total_inserts as nat
    }

    /// The digits and special characters at hand; the last is taken first.
    pub closed spec fn stock(&self) -> Seq<char> {
        self.insertables@
    }

    /// How many upper-case letters are asked for.
    pub closed spec fn upper_quota(&self) -> nat {
        self.upper as nat
    }

    /// How many lower-case letters are asked for.
    pub closed spec fn lower_quota(&self) -> nat {
        self.lower as nat
    }

    /// Letters are raised even where the password has upper-case letters.
    pub closed spec fn forced_upper(&self) -> bool {
        self.force_upper
    }

    /// Letters are lowered even where the password has lower-case letters.
    pub closed spec fn forced_lower(&self) -> bool {
        self.force_lower
    }

    /// The lengths are in order, the stock holds what is to be put in, and
    /// everything is ASCII.
    pub closed spec fn well_formed(&self) -> bool {
        &&& self.min_len <= self.max_len
        &&& self.total_inserts <= self.insertables@.len()
        &&& is_ascii_chars(self.password@)
        &&& is_ascii_chars(self.insertables@)
    }

    /// How many characters of the length are kept free for what is put in
    /// between the words. Nothing is kept free where characters are replaced.
    pub open spec fn reserve(&self, replace: bool) -> nat {
        if replace {
            0
        } else {
            self.inserts()
        }
    }

    /// The widest span of lengths that lies in the range of lengths of
    /// `config`.
    pub open spec fn span_width(config: &PasswordSettings) -> nat {
        least(config.length.hi() - config.length.lo(), LENGTH_SPAN as int) as nat
    }

    /// A span of lengths that starts at `span_min` lies in the range of
    /// lengths of `config`.
    pub open spec fn span_fits(config: &PasswordSettings, span_min: nat) -> bool {
        config.length.lo() <= span_min && span_min + Self::span_width(config)
            <= config.length.hi()
    }

    /// `self` is a fresh password for `config`, for the span of lengths that
    /// starts at `span_min`, with the quotas `upper` and `lower` and with
    /// `stock` to put in. Of the stock as much is put in as the span leaves
    /// room for: its whole width where characters are replaced, and its
    /// least length where they go between the words, for which that room is
    /// then kept free.
    pub open spec fn laid_out(
        &self,
        config: &PasswordSettings,
        span_min: nat,
        upper: nat,
        lower: nat,
        stock: Seq<char>,
    ) -> bool {
        let span_max = span_min + Self::span_width(config);
        let room = if config.replace {
            span_max
        } else {
            span_min
        };
        &&& self.well_formed()
        &&& self.buffer().len() == 0
        &&& self.resets() == 0
        &&& self.forced_upper() == config.force_upper
        &&& self.forced_lower() == config.force_lower
        &&& self.upper_quota() == upper
        &&& self.lower_quota() == lower
        &&& self.stock() == stock
        &&& self.inserts() == least(stock.len() as int, room as int)
        &&& self.least_len() + self.reserve(config.replace) == span_min
        &&& self.greatest_len() + self.reserve(config.replace) == span_max
    }

    /// `self` is a password as `new` makes it for `config`, for a span of
    /// lengths that starts at `span_min`, with `digits` digits and `specials`
    /// special characters drawn. Where `config` names no special characters,
    /// none is put in the stock.
    pub open spec fn starts_as(
        &self,
        config: &PasswordSettings,
        span_min: nat,
        digits: nat,
        specials: nat,
    ) -> bool {
        let drawn_specials: nat = if config.special_chars@.len() == 0 {
            0
        } else {
            specials
        };
        &&& Self::span_fits(config, span_min)
        &&& config.length.hi() - config.length.lo() <= LENGTH_SPAN ==> span_min
            == config.length.lo()
        &&& config.number_amount.lo() <= digits <= config.number_amount.hi()
        &&& config.special_chars_amount.lo() <= specials <= config.special_chars_amount.hi()
        &&& config.upper_amount.lo() <= self.upper_quota() <= config.upper_amount.hi()
        &&& config.lower_amount.lo() <= self.lower_quota() <= config.lower_amount.hi()
        &&& self.stock().len() == digits + drawn_specials
        &&& drawn(self.stock(), digits, drawn_specials, config.special_chars@)
        &&& self.laid_out(config, span_min, self.upper_quota(), self.lower_quota(), self.stock())
    }

    /// `self` is a password as `new` makes it for `config`.
    pub open spec fn fresh_for(&self, config: &PasswordSettings) -> bool {
        exists|span_min: nat, digits: nat, specials: nat| #[trigger]
            self.starts_as(config, span_min, digits, specials)
    }

    /// The lengths that a fresh password is made for lie in the range of
    /// lengths of `config`, and no more than `LENGTH_SPAN` apart.
    pub proof fn lemma_fresh_fits(&self, config: &PasswordSettings)
        requires
            self.fresh_for(config),
        ensures
            self.well_formed(),
            self.buffer().len() == 0,
            self.resets() == 0,
            config.length.lo() <= self.least_len() + self.reserve(config.replace),
            self.greatest_len() + self.reserve(config.replace) <= config.length.hi(),
            self.greatest_len() - self.least_len() <= LENGTH_SPAN,
            config.length.hi() - config.length.lo() <= LENGTH_SPAN ==> self.least_len()
                + self.reserve(config.replace) == config.length.lo() && self.greatest_len()
                + self.reserve(config.replace) == config.length.hi(),
    {
        let (span_min, digits, specials) = choose|span_min: nat, digits: nat, specials: nat| #[trigger]
            self.starts_as(config, span_min, digits, specials);
    }

    /// A fresh password for `config` from what has been drawn: the start
    /// `span_min` of its span of lengths, its quotas `upper` and `lower`, and
    /// the `stock` of characters to put in. There is none where the span
    /// does not lie in the range of lengths of `config`, or where the stock
    /// holds a character that is not ASCII.
    pub fn with_draws(
        config: &PasswordSettings,
        span_min: usize,
        upper: usize,
        lower: usize,
        stock: Vec<char>,
    ) -> (r: Option<Password>)
        ensures
            r is Some <==> Self::span_fits(config, span_min as nat) && is_ascii_chars(stock@),
            r matches Some(fresh) ==> fresh.laid_out(
                config,
                span_min as nat,
                upper as nat,
                lower as nat,
                stock@,
            ),
    {
        let lo = config.length.min();
        let hi = config.length.max();
        let width = if hi - lo > LENGTH_SPAN {
            LENGTH_SPAN
        } else {
            hi - lo
        };
        if span_min < lo || span_min > hi - width || !chars_are_ascii(&stock) {
            return None;
        }
        let span_max = span_min + width;
        let room = if config.replace {
            span_max
        } else {
            span_min
        };
        let total_inserts = if stock.len() > room {
            room
        } else {
            stock.len()
        };
        let reserve = if config.replace {
            0
        } else {
            total_inserts
        };
        Some(
            Password {
                password: Vec::new(),
                reset_count: 0,
                min_len: span_min - reserve,
                max_len: span_max - reserve,
                total_inserts,
                upper,
                lower,
                force_upper: config.force_upper,
                force_lower: config.force_lower,
                insertables: stock,
            },
        )
    }

    /// A fresh password for `config`. The span of lengths, the number of
    /// digits and of special characters and the two quotas of case are drawn
    /// at random from the ranges of `config`; the digits and special
    /// characters are drawn and mixed.
    pub fn new(config: &PasswordSettings) -> (r: Password)
        ensures
            r.fresh_for(config),
    {
        let lo = config.length.min();
        let hi = config.length.max();
        let span_min = if hi - lo > LENGTH_SPAN {
            random_in_range(lo, hi - LENGTH_SPAN)
        } else {
            lo
        };
        let digits = random_in_range(config.number_amount.min(), config.number_amount.max());
        let special_chars = chars_of(config.special_chars.as_str());
        let specials = random_in_range(
            config.special_chars_amount.min(),
            config.special_chars_amount.max(),
        );
        let drawn_specials = if special_chars.len() == 0 {
            0
        } else {
            specials
        };
        let upper = random_in_range(config.upper_amount.min(), config.upper_amount.max());
        let lower = random_in_range(config.lower_amount.min(), config.lower_amount.max());
        let stock = draw_stock(digits, drawn_specials, &special_chars);
        let fresh = Password::with_draws(config, span_min, upper, lower, stock).unwrap();
        proof {
            assert(fresh.starts_as(config, span_min as nat, digits as nat, specials as nat));
        }
        fresh
    }

    /// The characters put together so far, as a string.
    pub fn password(&self) -> (r: String)
        ensures
            r@ == self.buffer(),
    {
        string_of(&self.password)
    }

    /// How often the choice of words has started again.
    pub fn reset_count(&self) -> (r: usize)
        ensures
            r == self.resets(),
    {
        self.reset_count
    }

    /// The least length of the words strung together.
    pub fn min_len(&self) -> (r: usize)
        ensures
            r == self.least_len(),
    {
        self.min_len
    }

    /// The greatest length of the words strung together.
    pub fn max_len(&self) -> (r: usize)
        ensures
            r == self.greatest_len(),
    {
        self.max_len
    }

    /// How many digits and special characters are still to be put in.
    pub fn total_inserts(&self) -> (r: usize)
        ensures
            r == self.inserts(),
    {
        self.total_inserts
    }

    /// The digits and special characters at hand, as a string; the last is
    /// taken first.
    pub fn insertables(&self) -> (r: String)
        ensures
            r@ == self.stock(),
    {
        string_of(&self.insertables)
    }

    /// The starts that `budget` allows are used up.
    pub open spec fn out_of_starts(&self, budget: usize) -> bool {
        self.resets() >= budget
    }

    /// What is left of the starts that `budget` allows.
    pub open spec fn starts_left(&self, budget: usize) -> nat {
        if self.resets() < budget {
            (budget - self.resets()) as nat
        } else {
            0
        }
    }

    /// `after` is `self` once the word at `cursor` has been taken, with
    /// `outlook` as the outcome: the word stands behind the others, unless
    /// all of them were dropped for a new start, for which one start is
    /// counted, or were cut to the greatest length at the end.
    pub open spec fn after_word(
        &self,
        after: &Password,
        config: &PasswordSettings,
        cursor: int,
        outcome: Outlook,
    ) -> bool {
        let words = config.words@;
        let whole = self.buffer() + shown(words[cursor], config.capitalise);
        let next = words[next_in_cycle(cursor, words.len() as int)];
        &&& outcome == outlook(
            whole.len(),
            next.len(),
            self.least_len(),
            self.greatest_len(),
            !self.out_of_starts(config.reset_amount),
        )
        &&& after.buffer() == match outcome {
            Outlook::Restart => Seq::empty(),
            Outlook::Done => whole.take(least(whole.len() as int, self.greatest_len() as int)),
            _ => whole,
        }
        &&& after.resets() == self.resets() + if outcome is Restart {
            1nat
        } else {
            0nat
        }
        &&& after.least_len() == self.least_len()
        &&& after.greatest_len() == self.greatest_len()
        &&& after.inserts() == self.inserts()
        &&& after.stock() == self.stock()
        &&& after.upper_quota() == self.upper_quota()
        &&& after.lower_quota() == self.lower_quota()
        &&& after.forced_upper() == self.forced_upper()
        &&& after.forced_lower() == self.forced_lower()
    }

    /// How things stand for `self` once the word at `cursor` has been taken.
    pub open spec fn word_outlook(&self, config: &PasswordSettings, cursor: int) -> Outlook {
        let words = config.words@;
        let whole = self.buffer() + shown(words[cursor], config.capitalise);
        let next = words[next_in_cycle(cursor, words.len() as int)];
        outlook(
            whole.len(),
            next.len(),
            self.least_len(),
            self.greatest_len(),
            !self.out_of_starts(config.reset_amount),
        )
    }

    /// `after` is `self` one step of the walk through the words further:
    /// the word at `cursor` has been taken. After a step that is not the
    /// last the walk goes on, so the words did not come to stand by it;
    /// after the last step they stand, or the next word was left though it
    /// fits.
    pub open spec fn step(
        &self,
        after: &Password,
        config: &PasswordSettings,
        cursor: int,
        last: bool,
    ) -> bool {
        let outcome = self.word_outlook(config, cursor);
        &&& self.after_word(after, config, cursor, outcome)
        &&& if last {
            outcome is Done || outcome is Open
        } else {
            outcome !is Done
        }
    }

    /// The password before step `i` of a walk that begins with `first` and
    /// goes through `states`.
    pub open spec fn state_before(first: Password, states: Seq<Password>, i: int) -> Password {
        if i == 0 {
            first
        } else {
            states[i - 1]
        }
    }

    /// `states` are the passwords that the steps of a walk so far leave, none
    /// of them the last.
    #[verifier::opaque]
    pub open spec fn walked(
        &self,
        config: &PasswordSettings,
        start: int,
        states: Seq<Password>,
    ) -> bool {
        let n = config.words@.len() as int;
        &&& 0 <= start < n
        &&& forall|i: int|
            0 <= i < states.len() ==> Self::state_before(*self, states, i).step(
                #[trigger] &states[i],
                config,
                (start + i) % n,
                false,
            )
    }

    /// A walk so far with one step more is a walk so far again, or with a
    /// last step a whole walk.
    pub proof fn lemma_walk_further(
        &self,
        config: &PasswordSettings,
        start: int,
        states: Seq<Password>,
        now: Password,
        last: bool,
    )
        requires
            self.walked(config, start, states),
            Self::state_before(*self, states, states.len() as int).step(
                &now,
                config,
                (start + states.len()) % (config.words@.len() as int),
                last,
            ),
        ensures
            last ==> self.walks(config, start, states.push(now)),
            !last ==> self.walked(config, start, states.push(now)),
    {
        reveal(Password::walked);
        reveal(Password::walks);
        let n = config.words@.len() as int;
        let further = states.push(now);
        assert forall|i: int| 0 <= i < further.len() implies Self::state_before(
            *self,
            further,
            i,
        ).step(#[trigger] &further[i], config, (start + i) % n, last && i + 1 == further.len()) by {
            if i < states.len() {
                assert(further[i] == states[i]);
                assert(Self::state_before(*self, further, i) == Self::state_before(
                    *self,
                    states,
                    i,
                ));
                assert(Self::state_before(*self, states, i).step(
                    &states[i],
                    config,
                    (start + i) % n,
                    false,
                ));
            }
        }
    }

    /// A walk so far may end where the next word was open to take.
    pub proof fn lemma_walk_ends(
        &self,
        config: &PasswordSettings,
        start: int,
        states: Seq<Password>,
    )
        requires
            self.walked(config, start, states),
            states.len() >= 1,
            Self::state_before(*self, states, states.len() - 1).word_outlook(
                config,
                (start + states.len() - 1) % (config.words@.len() as int),
            ) is Open,
        ensures
            self.walks(config, start, states),
    {
        reveal(Password::walked);
        reveal(Password::walks);
        let n = config.words@.len() as int;
        assert forall|i: int| 0 <= i < states.len() implies Self::state_before(
            *self,
            states,
            i,
        ).step(#[trigger] &states[i], config, (start + i) % n, i + 1 == states.len()) by {
            assert(Self::state_before(*self, states, i).step(
                &states[i],
                config,
                (start + i) % n,
                false,
            ));
        }
    }

    /// `states` are the passwords that a walk through the words of `config`
    /// leaves step by step, from `self` on and with the word at `start` as
    /// the first: each step takes the word after the one before, around the
    /// end of the list, and only the last step ends the walk.
    #[verifier::opaque]
    pub open spec fn walks(
        &self,
        config: &PasswordSettings,
        start: int,
        states: Seq<Password>,
    ) -> bool {
        let n = config.words@.len() as int;
        &&& 0 <= start < n
        &&& states.len() >= 1
        &&& forall|i: int|
            0 <= i < states.len() ==> Self::state_before(*self, states, i).step(
                #[trigger] &states[i],
                config,
                (start + i) % n,
                i + 1 == states.len(),
            )
    }

    /// Takes the word at `cursor` and looks at the next word of the list,
    /// which for the last word is the first.
    ///
    /// If the next word no longer fits under the greatest length, the words
    /// so far stand if their length lies between the least and the greatest
    /// length. If it does not, they are dropped for a new start; but with
    /// the starts of `config` used up they are cut to the greatest length
    /// and stand. If the next word fits, it has to be taken while the least
    /// length is not reached, and may be taken after that.
    pub fn take_word(&mut self, config: &PasswordSettings, cursor: usize) -> (r: Outlook)
        requires
            old(self).well_formed(),
            cursor < config.words@.len(),
        ensures
            final(self).well_formed(),
            old(self).after_word(final(self), config, cursor as int, r),
    {
        let words = config.words.as_vec();
        let n = words.len();
        assert(n == config.words@.len());
        let next = if cursor + 1 == n {
            0
        } else {
            cursor + 1
        };
        let ghost before = self.password@;
        push_word(&mut self.password, words[cursor].as_str(), config.capitalise);
        let next_len = words[next].as_str().unicode_len();
        proof {
            let word = config.words@[cursor as int];
            assert(words@[cursor as int]@ == word);
            assert(word_ok(word, true));
            lemma_shown_ascii(word, config.capitalise);
            assert(words@[next as int]@ == config.words@[next as int]);
            assert(next == next_in_cycle(cursor as int, config.words@.len() as int));
            assert(self.password@ == before + shown(word, config.capitalise));
        }
        let len = self.password.len();
        let allowance = if len < self.max_len {
            self.max_len - len
        } else {
            0
        };
        if next_len > allowance {
            if len >= self.min_len && len <= self.max_len {
                assert(self.password@.take(len as int) == self.password@);
                Outlook::Done
            } else if self.reset_count >= config.reset_amount {
                let ghost whole = self.password@;
                self.password.truncate(self.max_len);
                assert(self.password@ == whole.take(least(len as int, self.max_len as int))) by {
                    assert(whole.take(len as int) == whole);
                }
                Outlook::Done
            } else {
                self.reset_count += 1;
                self.password.clear();
                Outlook::Restart
            }
        } else if len < self.min_len {
            Outlook::GoOn
        } else {
            Outlook::Open
        }
    }

    /// Strings words of `config` together until their length fits.
    ///
    /// It begins at a word chosen at random and goes through the list word
    /// by word, around its end. After each word it looks at the next: if
    /// that no longer fits under the greatest length, the words so far stand
    /// if their length has reached the least length; else the choice starts
    /// again from the next word, and once the starts of `config` are used up,
    /// the words are cut to the greatest length. If the next word fits, it is
    /// taken while the least length is not reached, and after that four
    /// times out of five.
    pub fn get_pass_string(&mut self, config: &PasswordSettings)
        requires
            old(self).well_formed(),
            old(self).buffer().len() == 0,
            config.words@.len() >= 2,
        ensures
            final(self).well_formed(),
            final(self).least_len() == old(self).least_len(),
            final(self).greatest_len() == old(self).greatest_len(),
            final(self).inserts() == old(self).inserts(),
            final(self).stock() == old(self).stock(),
            final(self).upper_quota() == old(self).upper_quota(),
            final(self).lower_quota() == old(self).lower_quota(),
            final(self).forced_upper() == old(self).forced_upper(),
            final(self).forced_lower() == old(self).forced_lower(),
            old(self).resets() <= final(self).resets(),
            final(self).resets() + final(self).starts_left(config.reset_amount) == old(
                self,
            ).resets() + old(self).starts_left(config.reset_amount),
            final(self).buffer().len() <= final(self).greatest_len(),
            final(self).buffer().len() >= final(self).least_len() || final(self).out_of_starts(
                config.reset_amount,
            ),
            strung(
                config.words@,
                config.capitalise,
                final(self).least_len(),
                final(self).greatest_len(),
                final(self).out_of_starts(config.reset_amount),
                final(self).buffer(),
            ),
            exists|first: int, states: Seq<Password>| #[trigger]
                old(self).walks(config, first, states) && states.last() == *final(self),
    {
        let n = config.words.as_vec().len();
        let ghost ws = config.words@;
        let mut cursor = random_in_range(0, n - 1);
        let ghost first = cursor as int;
        let ghost mut states: Seq<Password> = Seq::empty();
        let ghost mut start = cursor as int;
        let ghost mut count: nat = 0;
        proof {
            lemma_small_mod(cursor as nat, n as nat);
            assert(old(self).walked(config, first, states)) by {
                reveal(Password::walked);
            }
        }
        loop
            invariant_except_break
                cursor == (first + states.len()) % (n as int),
                *self == Self::state_before(*old(self), states, states.len() as int),
                old(self).walked(config, first, states),
                cursor == (start + count) % (n as int),
                self.password@ == cyclic_concat(ws, start, count, config.capitalise),
                count == 0 || self.password@.len() + ws[cursor as int].len() <= self.max_len,
            invariant
                n == ws.len(),
                n >= 2,
                ws == config.words@,
                words_ok(ws, true),
                0 <= start < n,
                cursor < n,
                self.well_formed(),
                self.min_len == old(self).min_len,
                self.max_len == old(self).max_len,
                self.total_inserts == old(self).total_inserts,
                self.insertables@ == old(self).insertables@,
                self.upper == old(self).upper,
                self.lower == old(self).lower,
                self.force_upper == old(self).force_upper,
                self.force_lower == old(self).force_lower,
                old(self).reset_count <= self.reset_count,
                self.reset_count + self.starts_left(config.reset_amount) == old(self).reset_count
                    + old(self).starts_left(config.reset_amount),
                0 <= first < n,
            ensures
                self.password@.len() <= self.max_len,
                self.password@.len() >= self.min_len || self.out_of_starts(config.reset_amount),
                strung(
                    ws,
                    config.capitalise,
                    self.min_len as nat,
                    self.max_len as nat,
                    self.out_of_starts(config.reset_amount),
                    self.password@,
                ),
                states.len() >= 1,
                old(self).walks(config, first, states) && states.last() == *self,
            decreases self.starts_left(config.reset_amount), self.max_len - self.password@.len(),
        {
            let ghost before = *self;
            let outcome = self.take_word(config, cursor);
            let next = if cursor + 1 == n {
                0
            } else {
                cursor + 1
            };
            proof {
                assert(before.after_word(&*self, config, cursor as int, outcome));
                let last = outcome is Done;
                assert(before.step(&*self, config, cursor as int, last));
                old(self).lemma_walk_further(config, first, states, *self, last);
                lemma_next_in_cycle(first + states.len(), n as int);
                states = states.push(*self);
                count = count + 1;
                let whole = cyclic_concat(ws, start, count, config.capitalise);
                assert(whole == before.password@ + shown(ws[cursor as int], config.capitalise));
                lemma_next_in_cycle(start + count - 1, n as int);
                assert(next == (start + count) % (n as int));
                assert(word_ok(ws[next as int], true));
                if outcome is Done {
                    assert(whole.take(whole.len() as int) == whole);
                    assert(strung_from(
                        ws,
                        config.capitalise,
                        self.min_len as nat,
                        self.max_len as nat,
                        self.out_of_starts(config.reset_amount),
                        self.password@,
                        start,
                        count,
                    ));
                }
            }
            match outcome {
                Outlook::Done => {
                    break ;
                },
                Outlook::Restart => {
                    cursor = next;
                    proof {
                        start = next as int;
                        count = 0;
                        lemma_small_mod(next as nat, n as nat);
                    }
                },
                Outlook::GoOn => {
                    cursor = next;
                },
                Outlook::Open => {
                    if random_ratio(GO_ON_ODDS.0, GO_ON_ODDS.1) {
                        cursor = next;
                    } else {
                        proof {
                            old(self).lemma_walk_ends(config, first, states);
                            assert(strung_from(
                                ws,
                                config.capitalise,
                                self.min_len as nat,
                                self.max_len as nat,
                                self.out_of_starts(config.reset_amount),
                                self.password@,
                                start,
                                count,
                            ));
                        }
                        break ;
                    }
                },
            }
        }
    }

    /// How many characters of the stock go into a password of the length
    /// `len`: all that are to be put in, but no more than the password has
    /// characters where they replace characters.
    pub open spec fn used(&self, replace: bool, len: nat) -> nat {
        if replace {
            least(self.inserts() as int, len as int) as nat
        } else {
            self.inserts()
        }
    }

    /// Puts the character that the stock gives next in at position `at`.
    pub fn insert_char(&mut self, at: usize)
        requires
            old(self).well_formed(),
            old(self).inserts() > 0,
            at <= old(self).buffer().len(),
        ensures
            final(self).well_formed(),
            final(self).buffer() == old(self).buffer().insert(at as int, old(self).stock().last()),
            final(self).stock() == old(self).stock().drop_last(),
            final(self).inserts() == old(self).inserts() - 1,
            final(self).resets() == old(self).resets(),
            final(self).least_len() == old(self).least_len(),
            final(self).greatest_len() == old(self).greatest_len(),
            final(self).upper_quota() == old(self).upper_quota(),
            final(self).lower_quota() == old(self).lower_quota(),
            final(self).forced_upper() == old(self).forced_upper(),
            final(self).forced_lower() == old(self).forced_lower(),
    {
        let c = match self.insertables.pop() {
            Some(c) => c,
            None => '0',
        };
        assert('\0' <= c <= '\u{7f}');
        self.password.insert(at, c);
        self.total_inserts -= 1;
    }

    /// Puts the digits and special characters in between the characters of
    /// the password, each at a place chosen at random in front of a
    /// character that is there. Into an empty password the first goes alone.
    pub fn insert_chars(&mut self)
        requires
            old(self).well_formed(),
        ensures
            final(self).well_formed(),
            woven(
                old(self).buffer(),
                taken(old(self).stock(), old(self).inserts()),
                final(self).buffer(),
            ),
            final(self).buffer().len() == old(self).buffer().len() + old(self).inserts(),
            final(self).inserts() == 0,
            final(self).stock() == old(self).stock().take(
                old(self).stock().len() - old(self).inserts(),
            ),
            final(self).resets() == old(self).resets(),
            final(self).least_len() == old(self).least_len(),
            final(self).greatest_len() == old(self).greatest_len(),
            final(self).upper_quota() == old(self).upper_quota(),
            final(self).lower_quota() == old(self).lower_quota(),
            final(self).forced_upper() == old(self).forced_upper(),
            final(self).forced_lower() == old(self).forced_lower(),
    {
        let ghost stock = self.insertables@;
        let ghost total = self.total_inserts as nat;
        let ghost mut done: nat = 0;
        assert(taken(stock, 0).len() == 0);
        assert(stock.take(stock.len() as int) == stock);
        while self.total_inserts > 0
            invariant
                self.well_formed(),
                stock == old(self).insertables@,
                total == old(self).total_inserts,
                total <= stock.len(),
                done + self.total_inserts == total,
                self.insertables@ == stock.take(stock.len() - done),
                woven(old(self).password@, taken(stock, done), self.password@),
                self.password@.len() == old(self).password@.len() + done,
                self.reset_count == old(self).reset_count,
                self.min_len == old(self).min_len,
                self.max_len == old(self).max_len,
                self.upper == old(self).upper,
                self.lower == old(self).lower,
                self.force_upper == old(self).force_upper,
                self.force_lower == old(self).force_lower,
            decreases self.total_inserts,
        {
            let ghost mid = self.password@;
            let at = if self.password.len() == 0 {
                0
            } else {
                random_in_range(0, self.password.len() - 1)
            };
            self.insert_char(at);
            proof {
                let now = taken(stock, done + 1);
                let c = stock[stock.len() - 1 - done];
                assert(now.last() == c);
                assert(now.drop_last() == taken(stock, done));
                assert(put_in(mid, at as int, c, self.password@));
                assert(woven(old(self).password@, now, self.password@));
                assert(self.insertables@ == stock.take(stock.len() - (done + 1)));
                done = done + 1;
            }
        }
    }

    /// Puts the characters that the stock gives in the place of the
    /// characters at the marked positions, from left to right.
    pub fn replace_marked(&mut self, marks: &Vec<bool>)
        requires
            old(self).well_formed(),
            marks@.len() == old(self).buffer().len(),
            count_marked(marks@) <= old(self).inserts(),
        ensures
            final(self).well_formed(),
            final(self).buffer() == overwritten(
                old(self).buffer(),
                marks@,
                taken(old(self).stock(), count_marked(marks@)),
            ),
            final(self).stock() == old(self).stock().take(
                old(self).stock().len() - count_marked(marks@),
            ),
            final(self).inserts() == old(self).inserts() - count_marked(marks@),
            final(self).resets() == old(self).resets(),
            final(self).least_len() == old(self).least_len(),
            final(self).greatest_len() == old(self).greatest_len(),
            final(self).upper_quota() == old(self).upper_quota(),
            final(self).lower_quota() == old(self).lower_quota(),
            final(self).forced_upper() == old(self).forced_upper(),
            final(self).forced_lower() == old(self).forced_lower(),
    {
        let len = self.password.len();
        let ghost stock = self.insertables@;
        let ghost count = count_marked(marks@);
        let ghost chars = taken(stock, count);
        let ghost initial = self.password@;
        let ghost total = self.total_inserts;
        let mut used: usize = 0;
        let mut at: usize = 0;
        assert(stock.take(stock.len() as int) == stock);
        assert(initial.take(0) == Seq::<char>::empty());
        while at < len
            invariant
                at <= len,
                len == initial.len(),
                marks@.len() == len,
                count_marked(marks@) == count,
                count <= total <= stock.len(),
                chars == taken(stock, count),
                used == count_marked(marks@.take(at as int)),
                self.total_inserts + used == total,
                self.insertables@ == stock.take(stock.len() - used),
                self.password@.len() == len,
                self.password@.take(at as int) == overwritten(
                    initial.take(at as int),
                    marks@.take(at as int),
                    chars,
                ),
                self.password@.skip(at as int) == initial.skip(at as int),
                is_ascii_chars(stock),
                is_ascii_chars(self.password@),
                self.reset_count == old(self).reset_count,
                self.min_len == old(self).min_len,
                self.max_len == old(self).max_len,
                self.upper == old(self).upper,
                self.lower == old(self).lower,
                self.force_upper == old(self).force_upper,
                self.force_lower == old(self).force_lower,
            decreases len - at,
        {
            let ghost before = self.password@;
            proof {
                lemma_count_marked_prefix(marks@, at as int);
                assert(marks@.take(at as int + 1).drop_last() == marks@.take(at as int));
                assert(initial.take(at as int + 1).drop_last() == initial.take(at as int));
                assert(before[at as int] == before.skip(at as int)[0]);
                assert(initial[at as int] == initial.skip(at as int)[0]);
            }
            if marks[at] {
                let c = match self.insertables.pop() {
                    Some(c) => c,
                    None => '0',
                };
                assert(c == chars[used as int]);
                assert('\0' <= c <= '\u{7f}');
                self.password.set(at, c);
                self.total_inserts -= 1;
                used += 1;
            }
            proof {
                let now = self.password@;
                assert(now.take(at as int) == before.take(at as int));
                assert(now.take(at as int + 1) == now.take(at as int).push(now[at as int]));
                let rest = now.skip(at as int + 1);
                assert(rest == initial.skip(at as int + 1)) by {
                    assert forall|j: int| 0 <= j < rest.len() implies #[trigger] rest[j]
                        == initial.skip(at as int + 1)[j] by {
                        assert(before.skip(at as int)[j + 1] == initial.skip(at as int)[j + 1]);
                    }
                }
            }
            at += 1;
        }
        proof {
            assert(marks@.take(len as int) == marks@);
            assert(initial.take(len as int) == initial);
            assert(self.password@.take(len as int) == self.password@);
        }
    }

    /// Puts the digits and special characters in the place of characters of
    /// the password, at positions chosen at random, no position twice. From
    /// left to right the positions get what the stock gives. A password
    /// shorter than the number to put in has every character replaced.
    pub fn replace_chars(&mut self)
        requires
            old(self).well_formed(),
        ensures
            final(self).well_formed(),
            replaced(
                old(self).buffer(),
                taken(old(self).stock(), old(self).used(true, old(self).buffer().len())),
                final(self).buffer(),
            ),
            final(self).buffer().len() == old(self).buffer().len(),
            final(self).inserts() == old(self).inserts() - old(self).used(
                true,
                old(self).buffer().len(),
            ),
            final(self).stock() == old(self).stock().take(
                old(self).stock().len() - old(self).used(true, old(self).buffer().len()),
            ),
            final(self).resets() == old(self).resets(),
            final(self).least_len() == old(self).least_len(),
            final(self).greatest_len() == old(self).greatest_len(),
            final(self).upper_quota() == old(self).upper_quota(),
            final(self).lower_quota() == old(self).lower_quota(),
            final(self).forced_upper() == old(self).forced_upper(),
            final(self).forced_lower() == old(self).forced_lower(),
    {
        let len = self.password.len();
        let count = if self.total_inserts < len {
            self.total_inserts
        } else {
            len
        };
        let marks = marks_at_random(len, count);
        proof {
            lemma_overwritten_len(
                self.password@,
                marks@,
                taken(self.insertables@, count as nat),
            );
        }
        self.replace_marked(&marks);
    }

    /// How many letters `ensure_case` raises in a password that reads `text`.
    pub open spec fn raises(&self, text: Seq<char>, never: bool) -> nat {
        case_changes(
            count_case(text, true),
            count_case(text, false),
            self.upper_quota(),
            self.forced_upper(),
            never,
        )
    }

    /// How many letters `ensure_case` lowers in a password that read `text`
    /// before letters were raised.
    pub open spec fn lowers(&self, text: Seq<char>, dont_upper: bool, dont_lower: bool) -> nat {
        let raised = self.raises(text, dont_upper);
        case_changes(
            (count_case(text, false) - raised) as nat,
            count_case(text, true) + raised,
            self.lower_quota(),
            self.forced_lower(),
            dont_lower,
        )
    }

    /// `after` is `before` with the case of letters balanced: first
    /// lower-case letters are raised, then upper-case letters of the outcome
    /// are lowered.
    pub open spec fn balanced(
        &self,
        before: Seq<char>,
        after: Seq<char>,
        dont_upper: bool,
        dont_lower: bool,
    ) -> bool {
        exists|mid: Seq<char>| #[trigger]
            recased(before, mid, self.raises(before, dont_upper), true) && recased(
                mid,
                after,
                self.lowers(before, dont_upper, dont_lower),
                false,
            )
    }

    /// `after` holds the quotas and the forcing of `self` as balancing the
    /// case of a password that reads `text` leaves them: each quota is what
    /// was still missing of its case, each forcing says whether letters were
    /// to be brought to its case.
    pub open spec fn settles(&self, after: &Password, text: Seq<char>, dont_upper: bool) -> bool {
        let upper = count_case(text, true);
        let lower = count_case(text, false);
        let raised = self.raises(text, dont_upper);
        &&& after.forced_upper() == balancing(upper, self.upper_quota(), self.forced_upper())
        &&& after.upper_quota() == missing(upper, lower, self.upper_quota())
        &&& after.forced_lower() == balancing(
            (lower - raised) as nat,
            self.lower_quota(),
            self.forced_lower(),
        )
        &&& after.lower_quota() == missing(
            (lower - raised) as nat,
            upper + raised,
            self.lower_quota(),
        )
    }

    /// Balances the case of the letters.
    ///
    /// Letters are raised if the password has no upper-case letter, or if
    /// raising is forced and it has fewer than asked for: as many as are
    /// missing, no more than it has lower-case letters, at positions chosen
    /// at random. After that letters are lowered by the same rule, with the
    /// cases exchanged. `dont_upper` and `dont_lower` of `config` switch the
    /// one and the other off.
    pub fn ensure_case(&mut self, config: &PasswordSettings)
        requires
            old(self).well_formed(),
        ensures
            final(self).well_formed(),
            old(self).balanced(
                old(self).buffer(),
                final(self).buffer(),
                config.dont_upper,
                config.dont_lower,
            ),
            final(self).buffer().len() == old(self).buffer().len(),
            old(self).settles(final(self), old(self).buffer(), config.dont_upper),
            final(self).resets() == old(self).resets(),
            final(self).least_len() == old(self).least_len(),
            final(self).greatest_len() == old(self).greatest_len(),
            final(self).inserts() == old(self).inserts(),
            final(self).stock() == old(self).stock(),
    {
        let ghost before = self.password@;
        let raised = balance_case(
            &mut self.password,
            self.upper,
            self.force_upper,
            config.dont_upper,
            true,
        );
        self.force_upper = raised.0;
        self.upper = raised.1;
        let ghost mid = self.password@;
        assert(recased(before, mid, old(self).raises(before, config.dont_upper), true));
        let lowered = balance_case(
            &mut self.password,
            self.lower,
            self.force_lower,
            config.dont_lower,
            false,
        );
        self.force_lower = lowered.0;
        self.lower = lowered.1;
        assert(recased(
            mid,
            self.password@,
            old(self).lowers(before, config.dont_upper, config.dont_lower),
            false,
        ));
    }

    /// `text` is a password that `self` makes for `config`: words taken on
    /// a walk through the list, with the digits and special characters put
    /// in or in the place of characters, and the case balanced.
    pub open spec fn makes(&self, config: &PasswordSettings, text: Seq<char>) -> bool {
        exists|first: int, states: Seq<Password>, mixed: Seq<char>| #[trigger]
            self.makes_along(config, first, states, mixed, text)
    }

    /// `text` is a password that `self` makes for `config` along the walk
    /// that begins at the word `first` and leaves `states` step by step, and
    /// by way of `mixed`, the words of the walk with the digits and special
    /// characters among them.
    pub open spec fn makes_along(
        &self,
        config: &PasswordSettings,
        first: int,
        states: Seq<Password>,
        mixed: Seq<char>,
        text: Seq<char>,
    ) -> bool {
        &&& self.walks(config, first, states)
        &&& self.makes_by(
            config,
            states.last().out_of_starts(config.reset_amount),
            states.last().buffer(),
            mixed,
            text,
        )
    }

    /// `text` is a password that `self` makes for `config` by way of `words`,
    /// the words strung together, and `mixed`, with the digits and special
    /// characters among them.
    pub open spec fn makes_by(
        &self,
        config: &PasswordSettings,
        used_up: bool,
        words: Seq<char>,
        mixed: Seq<char>,
        text: Seq<char>,
    ) -> bool {
        &&& strung(
            config.words@,
            config.capitalise,
            self.least_len(),
            self.greatest_len(),
            used_up,
            words,
        )
        &&& if config.replace {
            replaced(words, taken(self.stock(), self.used(true, words.len())), mixed)
        } else {
            woven(words, taken(self.stock(), self.used(false, words.len())), mixed)
        }
        &&& self.balanced(mixed, text, config.dont_upper, config.dont_lower)
    }

    /// Makes the password and hands it out; `self` is used up by it.
    ///
    /// The password is ASCII. It is never longer than the greatest length
    /// that `self` was made for, and shorter than the least only where the
    /// starts of `config` were used up.
    pub fn generate(&mut self, config: &PasswordSettings) -> (r: String)
        requires
            old(self).well_formed(),
            old(self).buffer().len() == 0,
            config.words@.len() >= 2,
        ensures
            exists|first: int, states: Seq<Password>, mixed: Seq<char>| #[trigger]
                old(self).makes_along(config, first, states, mixed, r@) && old(self).settles(
                    final(self),
                    mixed,
                    config.dont_upper,
                ) && states.last().resets() == final(self).resets(),
            old(self).makes(config, r@),
            is_ascii_chars(r@),
            r@.len() <= old(self).greatest_len() + old(self).reserve(config.replace),
            r@.len() >= old(self).least_len() + old(self).reserve(config.replace)
                || final(self).out_of_starts(config.reset_amount),
            final(self).buffer().len() == 0,
            old(self).resets() <= final(self).resets(),
            final(self).resets() <= old(self).resets() + old(self).starts_left(
                config.reset_amount,
            ),
            final(self).least_len() == old(self).least_len(),
            final(self).greatest_len() == old(self).greatest_len(),
            final(self).inserts() == old(self).inserts() - old(self).used(config.replace, r@.len()),
            final(self).stock() == old(self).stock().take(
                old(self).stock().len() - old(self).used(config.replace, r@.len()),
            ),
    {
        self.get_pass_string(config);
        let ghost words = self.password@;
        let ghost strung_state = *self;
        if config.replace {
            self.replace_chars();
        } else {
            self.insert_chars();
        }
        let ghost mixed = self.password@;
        let ghost here = *self;
        self.ensure_case(config);
        let r = string_of(&self.password);
        self.password = Vec::new();
        proof {
            let used_up = self.out_of_starts(config.reset_amount);
            let du = config.dont_upper;
            let dl = config.dont_lower;
            assert(here.balanced(mixed, r@, du, dl));
            let mid = choose|mid: Seq<char>| #[trigger]
                recased(mixed, mid, here.raises(mixed, du), true) && recased(
                    mid,
                    r@,
                    here.lowers(mixed, du, dl),
                    false,
                );
            assert(here.raises(mixed, du) == old(self).raises(mixed, du));
            assert(here.lowers(mixed, du, dl) == old(self).lowers(mixed, du, dl));
            assert(recased(mixed, mid, old(self).raises(mixed, du), true) && recased(
                mid,
                r@,
                old(self).lowers(mixed, du, dl),
                false,
            ));
            assert(old(self).balanced(mixed, r@, du, dl));
            assert(old(self).makes_by(config, used_up, words, mixed, r@));
            assert(here.settles(&*self, mixed, du));
            assert(old(self).settles(&*self, mixed, du));
            let (first, states) = choose|first: int, states: Seq<Password>| #[trigger]
                old(self).walks(config, first, states) && states.last() == strung_state;
            assert(old(self).makes_along(config, first, states, mixed, r@) && old(self).settles(
                &*self,
                mixed,
                du,
            ) && states.last().resets() == self.resets());
        }
        r
    }
}

/// Putting characters in makes a text longer by their number.
pub proof fn lemma_woven_len(before: Seq<char>, chars: Seq<char>, after: Seq<char>)
    requires
        woven(before, chars, after),
    ensures
        after.len() == before.len() + chars.len(),
    decreases chars.len(),
{
    if chars.len() > 0 {
        let (mid, at) = choose|mid: Seq<char>, at: int| #[trigger]
            put_in(mid, at, chars.last(), after) && woven(before, chars.drop_last(), mid);
        lemma_woven_len(before, chars.drop_last(), mid);
    }
}

/// Replacing characters leaves the length of a text.
pub proof fn lemma_overwritten_len(before: Seq<char>, marks: Seq<bool>, chars: Seq<char>)
    ensures
        overwritten(before, marks, chars).len() == before.len(),
    decreases before.len(),
{
    if before.len() > 0 {
        lemma_overwritten_len(before.drop_last(), marks.drop_last(), chars);
    }
}

/// A stock for which no special character was drawn holds as many
/// characters as digits were drawn, and digits alone.
pub proof fn law_drawn_digits_alone(chars: Seq<char>, digits: nat, special_chars: Seq<char>)
    requires
        drawn(chars, digits, 0, special_chars),
    ensures
        chars.len() == digits,
        forall|i: int| 0 <= i < chars.len() ==> is_digit(#[trigger] chars[i]),
{
    reveal(drawn);
    let plain = choose|plain: Seq<char>| #[trigger]
        is_rearrangement(plain, chars) && plain.len() == digits + 0 && (forall|i: int|
            0 <= i < digits ==> is_digit(#[trigger] plain[i])) && (forall|i: int|
            digits <= i < plain.len() ==> special_chars.contains(#[trigger] plain[i]));
    let p = choose|p: Seq<int>| rearranged(plain, chars, p);
    assert forall|i: int| 0 <= i < chars.len() implies is_digit(#[trigger] chars[i]) by {
        assert(chars[i] == plain[p[i]]);
        assert(is_digit(plain[p[i]]));
    }
}

/// Letters brought to a case make more letters of that case, and none at
/// all leave the text as it was.
proof fn lemma_recased_grows(before: Seq<char>, after: Seq<char>, upper: bool)
    requires
        after.len() == before.len(),
        forall|i: int|
            0 <= i < before.len() ==> #[trigger] after[i] == before[i] || (in_case(
                before[i],
                !upper,
            ) && after[i] == to_case(before[i], upper)),
    ensures
        count_case(before, upper) <= count_case(after, upper),
        count_case(before, upper) == count_case(after, upper) ==> after == before,
    decreases before.len(),
{
    if before.len() > 0 {
        let earlier = before.drop_last();
        let later = after.drop_last();
        assert forall|i: int| 0 <= i < earlier.len() implies #[trigger] later[i] == earlier[i] || (
        in_case(earlier[i], !upper) && later[i] == to_case(earlier[i], upper)) by {
            assert(after[i] == before[i] || (in_case(before[i], !upper) && after[i] == to_case(
                before[i],
                upper,
            )));
        }
        lemma_recased_grows(earlier, later, upper);
        let last = before.len() - 1;
        assert(after[last] == before[last] || (in_case(before[last], !upper) && after[last]
            == to_case(before[last], upper)));
        if count_case(before, upper) == count_case(after, upper) {
            assert(after.last() == before.last());
            assert(later == earlier);
            assert(after == later.push(after.last()));
            assert(before == earlier.push(before.last()));
        }
    }
}

/// Where no letter is asked for in either case, balancing the case leaves
/// a password as it is.
pub proof fn law_no_quota_no_change(
    password: Password,
    before: Seq<char>,
    after: Seq<char>,
    dont_upper: bool,
    dont_lower: bool,
)
    requires
        password.upper_quota() == 0,
        password.lower_quota() == 0,
        password.balanced(before, after, dont_upper, dont_lower),
    ensures
        after == before,
{
    let mid = choose|mid: Seq<char>| #[trigger]
        recased(before, mid, password.raises(before, dont_upper), true) && recased(
            mid,
            after,
            password.lowers(before, dont_upper, dont_lower),
            false,
        );
    lemma_recased_grows(before, mid, true);
    lemma_recased_grows(mid, after, false);
}

/// A character put into a text does not show among the characters that
/// `keep` keeps, if `keep` does not keep it.
proof fn lemma_filter_of_insert(text: Seq<char>, at: int, c: char, keep: spec_fn(char) -> bool)
    requires
        0 <= at <= text.len(),
        !keep(c),
    ensures
        text.insert(at, c).filter(keep) == text.filter(keep),
{
    let head = text.take(at);
    let tail = text.skip(at);
    let one = seq![c];
    assert(text.insert(at, c) == head + one + tail);
    assert(text == head + tail);
    Seq::filter_distributes_over_add(head + one, tail, keep);
    Seq::filter_distributes_over_add(head, one, keep);
    Seq::filter_distributes_over_add(head, tail, keep);
    assert(one.filter(keep) == Seq::<char>::empty()) by {
        reveal_with_fuel(Seq::filter, 2);
        assert(one.drop_last() == Seq::<char>::empty());
        assert(one.last() == c);
    }
    assert(head.filter(keep) + Seq::<char>::empty() == head.filter(keep));
}

/// Of a text with characters put in, the characters of a kind that none of
/// those put in belongs to are the characters of that kind of the text as
/// it was, in their order. So the letters of a password between whose words
/// digits and special characters were put are the letters of its words.
pub proof fn law_woven_keeps_the_rest(
    before: Seq<char>,
    chars: Seq<char>,
    after: Seq<char>,
    keep: spec_fn(char) -> bool,
)
    requires
        woven(before, chars, after),
        forall|i: int| 0 <= i < chars.len() ==> !keep(#[trigger] chars[i]),
    ensures
        after.filter(keep) == before.filter(keep),
    decreases chars.len(),
{
    if chars.len() > 0 {
        let (mid, at) = choose|mid: Seq<char>, at: int| #[trigger]
            put_in(mid, at, chars.last(), after) && woven(before, chars.drop_last(), mid);
        let earlier = chars.drop_last();
        assert forall|i: int| 0 <= i < earlier.len() implies !keep(#[trigger] earlier[i]) by {
            assert(earlier[i] == chars[i]);
        }
        law_woven_keeps_the_rest(before, earlier, mid, keep);
        assert(!keep(chars[chars.len() - 1]));
        lemma_filter_of_insert(mid, at, chars.last(), keep);
    }
}

/// On a walk the starts are counted no further than `reset_amount`, if
/// they were not beyond it before.
pub proof fn lemma_walk_counts_starts(
    first_state: Password,
    config: &PasswordSettings,
    first: int,
    states: Seq<Password>,
    i: int,
)
    requires
        first_state.walks(config, first, states),
        first_state.resets() <= config.reset_amount,
        0 <= i < states.len(),
    ensures
        states[i].resets() <= config.reset_amount,
        first_state.resets() <= states[i].resets(),
    decreases i,
{
    reveal(Password::walks);
    let before = Password::state_before(first_state, states, i);
    if i > 0 {
        lemma_walk_counts_starts(first_state, config, first, states, i - 1);
    }
    assert(before.step(
        &states[i],
        config,
        (first + i) % (config.words@.len() as int),
        i + 1 == states.len(),
    ));
}

/// The length of every password lies in the range of lengths of the
/// settings it is made for, but that it may be shorter where the walk
/// through the words has started again as often as `reset_amount` allows.
/// This holds of each password that a fresh `Password` makes, whether
/// characters are put in or replaced.
pub proof fn law_length_in_range(
    fresh: Password,
    config: &PasswordSettings,
    first: int,
    states: Seq<Password>,
    mixed: Seq<char>,
    text: Seq<char>,
)
    requires
        fresh.fresh_for(config),
        fresh.makes_along(config, first, states, mixed, text),
    ensures
        text.len() <= config.length.hi(),
        text.len() <= fresh.greatest_len() + fresh.reserve(config.replace),
        states.last().resets() <= config.reset_amount,
        states.last().resets() < config.reset_amount ==> config.length.lo() <= text.len()
            && fresh.least_len() + fresh.reserve(config.replace) <= text.len(),
{
    fresh.lemma_fresh_fits(config);
    assert(states.len() >= 1) by {
        reveal(Password::walks);
    }
    lemma_walk_counts_starts(fresh, config, first, states, states.len() - 1);
    lemma_made_len(
        fresh,
        config,
        states.last().out_of_starts(config.reset_amount),
        states.last().buffer(),
        mixed,
        text,
    );
}

/// Where the digits and special characters are put in between the words,
/// the password is as long as the words strung together and the characters
/// put in; where they replace characters, it is as long as the words.
pub proof fn law_inserted_length(
    password: Password,
    config: &PasswordSettings,
    used_up: bool,
    words: Seq<char>,
    mixed: Seq<char>,
    text: Seq<char>,
)
    requires
        password.makes_by(config, used_up, words, mixed, text),
    ensures
        !config.replace ==> text.len() == words.len() + password.inserts(),
        config.replace ==> text.len() == words.len(),
{
    lemma_made_len(password, config, used_up, words, mixed, text);
}

/// The lengths on the way of a password.
proof fn lemma_made_len(
    password: Password,
    config: &PasswordSettings,
    used_up: bool,
    words: Seq<char>,
    mixed: Seq<char>,
    text: Seq<char>,
)
    requires
        password.makes_by(config, used_up, words, mixed, text),
    ensures
        words.len() <= password.greatest_len(),
        !used_up ==> password.least_len() <= words.len(),
        text.len() == mixed.len(),
        mixed.len() == words.len() + password.reserve(config.replace),
{
    let (start, count) = choose|start: int, count: nat| #[trigger]
        strung_from(
            config.words@,
            config.capitalise,
            password.least_len(),
            password.greatest_len(),
            used_up,
            words,
            start,
            count,
        );
    if config.replace {
        let chars = taken(
            password.stock(),
            least(password.inserts() as int, words.len() as int) as nat,
        );
        let marks = choose|marks: Seq<bool>| #[trigger]
            count_marked(marks) == chars.len() && marks.len() == words.len() && mixed
                == overwritten(words, marks, chars);
        lemma_overwritten_len(words, marks, chars);
    } else {
        lemma_woven_len(words, taken(password.stock(), password.inserts()), mixed);
    }
    let du = config.dont_upper;
    let dl = config.dont_lower;
    let mid = choose|mid: Seq<char>| #[trigger]
        recased(mixed, mid, password.raises(mixed, du), true) && recased(
            mid,
            text,
            password.lowers(mixed, du, dl),
            false,
        );
}

} // verus!

//! Ranges of amounts and how they are read from text, and the two case
//! changes that the password builder applies to single positions.

use vstd::prelude::*;
use vstd::string::StrSliceExecFns;
use crate::text::char_is_digit;
use crate::text::char_to_lower;
use crate::text::char_to_upper;
use crate::text::chars_of;
use crate::text::is_digit;
use crate::text::to_lower;
use crate::text::to_upper;
use crate::trusted::regex_replace_all;

verus! {

/// An inclusive range of amounts, with `min <= max`.
#[derive(Clone, Copy, Debug, PartialEq, Eq)]
pub struct RangeSpec {
    min: usize,
    max: usize,
}

impl RangeSpec {
    #[verifier::type_invariant]
    spec fn ordered(self) -> bool {
        self.min <= self.max
    }

    /// The lower end.
    pub closed spec fn lo(&self) -> nat {
        self.min as nat
    }

    /// The upper end.
    pub closed spec fn hi(&self) -> nat {
        self.max as nat
    }

    /// The range from `min` to `max`; none where `max` is the smaller.
    pub fn new(min: usize, max: usize) -> (r: Option<RangeSpec>)
        ensures
            r is Some <==> min <= max,
            r matches Some(s) ==> s.lo() == min && s.hi() == max,
    {
        if min <= max {
            Some(RangeSpec { min, max })
        } else {
            None
        }
    }

    /// The range that holds `amount` alone.
    pub fn exact(amount: usize) -> (r: RangeSpec)
        ensures
            r.lo() == amount,
            r.hi() == amount,
    {
        RangeSpec { min: amount, max: amount }
    }

    /// The lower end.
    pub fn min(&self) -> (r: usize)
        ensures
            r == self.lo(),
            self.lo() <= self.hi(),
    {
        proof {
            use_type_invariant(self);
        }
        self.min
    }

    /// The upper end.
    pub fn max(&self) -> (r: usize)
        ensures
            r == self.hi(),
            self.lo() <= self.hi(),
    {
        proof {
            use_type_invariant(self);
        }
        self.max
    }
}

/// Why a text is not a range.
#[derive(Clone, Copy, Debug, PartialEq, Eq)]
pub enum ParseRangeError {
    /// More than two numbers, as in "20-30-40".
    MoreThanTwoSides,
    /// Something other than decimal digits and dashes, as in "25.5-40"; also
    /// a text without any digit, and a number too large for `usize`.
    ContainsNonintegerOrDash,
    /// The right number is the smaller, as in "35-25".
    RightSideIsSmaller,
}

impl ParseRangeError {
    /// The error in words.
    pub fn message(&self) -> (r: &'static str)
        ensures
            r@ == match *self {
                ParseRangeError::MoreThanTwoSides => "more than two sides"@,
                ParseRangeError::ContainsNonintegerOrDash =>
                    "contains something other than integers and a - (dash)"@,
                ParseRangeError::RightSideIsSmaller =>
                    "right side of range can't be smaller than left side"@,
            },
    {
        match self {
            ParseRangeError::MoreThanTwoSides => "more than two sides",
            ParseRangeError::ContainsNonintegerOrDash =>
                "contains something other than integers and a - (dash)",
            ParseRangeError::RightSideIsSmaller =>
                "right side of range can't be smaller than left side",
        }
    }
}

/// `text` without the dashes it starts with.
pub open spec fn strip_leading_dashes(text: Seq<char>) -> Seq<char>
    decreases text.len(),
{
    if text.len() > 0 && text[0] == '-' {
        strip_leading_dashes(text.drop_first())
    } else {
        text
    }
}

/// `text` without the dashes it ends with.
pub open spec fn strip_trailing_dashes(text: Seq<char>) -> Seq<char>
    decreases text.len(),
{
    if text.len() > 0 && text.last() == '-' {
        strip_trailing_dashes(text.drop_last())
    } else {
        text
    }
}

/// `text` with every run of dashes replaced by one dash.
pub open spec fn squeeze_dashes(text: Seq<char>) -> Seq<char>
    decreases text.len(),
{
    if text.len() == 0 {
        text
    } else if text[0] == '-' && text.len() > 1 && text[1] == '-' {
        squeeze_dashes(text.drop_first())
    } else {
        seq![text[0]] + squeeze_dashes(text.drop_first())
    }
}

/// `text` as the parser reads it: no dash at either end, no two dashes in a row.
pub open spec fn clean_range_text(text: Seq<char>) -> Seq<char> {
    squeeze_dashes(strip_trailing_dashes(strip_leading_dashes(text)))
}

/// The number of dashes in `text`.
pub open spec fn count_dashes(text: Seq<char>) -> nat
    decreases text.len(),
{
    if text.len() == 0 {
        0
    } else {
        count_dashes(text.drop_last()) + if text.last() == '-' {
            1nat
        } else {
            0nat
        }
    }
}

/// Every character of `text` is a decimal digit or a dash.
pub open spec fn digits_and_dashes(text: Seq<char>) -> bool {
    forall|i: int| 0 <= i < text.len() ==> is_digit(#[trigger] text[i]) || text[i] == '-'
}

/// Every character of `text` is a decimal digit.
pub open spec fn all_digits(text: Seq<char>) -> bool {
    forall|i: int| 0 <= i < text.len() ==> is_digit(#[trigger] text[i])
}

/// The number that the decimal digits of `digits` write.
pub open spec fn decimal_value(digits: Seq<char>) -> nat
    decreases digits.len(),
{
    if digits.len() == 0 {
        0
    } else {
        (10 * decimal_value(digits.drop_last()) + (digits.last() as int - '0' as int)) as nat
    }
}

/// The range that the two numerals give: both must hold a digit and fit in
/// `usize`, and the right one must not be the smaller.
pub open spec fn range_of_sides(left: Seq<char>, right: Seq<char>) -> Result<
    (nat, nat),
    ParseRangeError,
> {
    if left.len() == 0 || right.len() == 0 || decimal_value(left) > usize::MAX || decimal_value(
        right,
    ) > usize::MAX {
        Err(ParseRangeError::ContainsNonintegerOrDash)
    } else if decimal_value(right) < decimal_value(left) {
        Err(ParseRangeError::RightSideIsSmaller)
    } else {
        Ok((decimal_value(left), decimal_value(right)))
    }
}

/// The range that a cleaned text gives, or why it gives none.
pub open spec fn range_of_clean_text(clean: Seq<char>) -> Result<(nat, nat), ParseRangeError> {
    if count_dashes(clean) > 1 {
        Err(ParseRangeError::MoreThanTwoSides)
    } else if !digits_and_dashes(clean) {
        Err(ParseRangeError::ContainsNonintegerOrDash)
    } else if count_dashes(clean) == 1 {
        let dash = clean.index_of('-');
        range_of_sides(clean.take(dash), clean.skip(dash + 1))
    } else {
        range_of_sides(clean, clean)
    }
}

/// The range that `text` gives, or why it gives none.
pub open spec fn parse_range(text: Seq<char>) -> Result<(nat, nat), ParseRangeError> {
    range_of_clean_text(clean_range_text(text))
}

/// `r` is the outcome `expected`, with the ends of the range as numbers.
pub open spec fn range_result_is(
    r: Result<RangeSpec, ParseRangeError>,
    expected: Result<(nat, nat), ParseRangeError>,
) -> bool {
    match expected {
        Ok((lo, hi)) => r matches Ok(range) && range.lo() == lo && range.hi() == hi,
        Err(e) => r == Err::<RangeSpec, ParseRangeError>(e),
    }
}

/// A numeral is at least as large as each of its prefixes.
proof fn lemma_value_of_prefix(digits: Seq<char>, n: int)
    requires
        all_digits(digits),
        0 <= n <= digits.len(),
    ensures
        decimal_value(digits.take(n)) <= decimal_value(digits),
    decreases digits.len() - n,
{
    if n == digits.len() {
        assert(digits.take(n) == digits);
    } else {
        lemma_value_of_prefix(digits, n + 1);
        assert(digits.take(n + 1).drop_last() == digits.take(n));
        assert(is_digit(digits.take(n + 1).last()));
    }
}

/// The number that the digits of `text` from `from` up to `to` write, if it
/// fits in `usize`.
fn parse_digits(text: &Vec<char>, from: usize, to: usize) -> (r: Option<usize>)
    requires
        from <= to <= text.len(),
        all_digits(text@.subrange(from as int, to as int)),
    ensures
        r is Some <==> decimal_value(text@.subrange(from as int, to as int)) <= usize::MAX,
        r matches Some(n) ==> n == decimal_value(text@.subrange(from as int, to as int)),
{
    let ghost digits = text@.subrange(from as int, to as int);
    let mut value: usize = 0;
    let mut i: usize = from;
    while i < to
        invariant
            from <= i <= to <= text.len(),
            digits == text@.subrange(from as int, to as int),
            all_digits(digits),
            value == decimal_value(digits.take(i - from)),
        decreases to - i,
    {
        let c = text[i];
        proof {
            assert(digits[i - from] == c);
            assert(is_digit(digits[i - from]));
            assert(digits.take(i - from + 1).drop_last() == digits.take(i - from));
            assert(digits.take(i - from + 1).last() == c);
            lemma_value_of_prefix(digits, i - from + 1);
        }
        let d: usize = (c as u8 - 48u8) as usize;
        let next = match value.checked_mul(10) {
            Some(tens) => tens.checked_add(d),
            None => None,
        };
        match next {
            Some(n) => {
                value = n;
            },
            None => {
                return None;
            },
        }
        i += 1;
    }
    assert(digits.take(to - from) == digits);
    Some(value)
}

/// Reads a range of amounts from a text such as "20-50" or "24".
///
/// Dashes at either end are dropped and repeated dashes count as one, so
/// "---20-----30--" reads as "20-30". What is left must be one number, or
/// two numbers with a dash between them, the second not the smaller. A text
/// of more than two numbers, one that holds anything but digits and dashes,
/// and one whose right side is the smaller each have their own error; a text
/// without a digit and a number beyond `usize` are reported as
/// `ContainsNonintegerOrDash`.
pub fn range_inc_from_str(range: &str) -> (r: Result<RangeSpec, ParseRangeError>)
    ensures
        range_result_is(r, parse_range(range@)),
{
    let chars = chars_of(range);
    let mut start: usize = 0;
    assert(chars@.skip(0) == chars@);
    while start < chars.len() && chars[start] == '-'
        invariant
            start <= chars.len(),
            strip_leading_dashes(chars@) == strip_leading_dashes(chars@.skip(start as int)),
        decreases chars.len() - start,
    {
        assert(chars@.skip(start as int).drop_first() == chars@.skip(start as int + 1));
        start += 1;
    }
    let mut end: usize = chars.len();
    assert(chars@.skip(start as int) == chars@.subrange(start as int, end as int));
    while end > start && chars[end - 1] == '-'
        invariant
            start <= end <= chars.len(),
            strip_trailing_dashes(strip_leading_dashes(chars@)) == strip_trailing_dashes(
                chars@.subrange(start as int, end as int),
            ),
        decreases end - start,
    {
        assert(chars@.subrange(start as int, end as int).drop_last() == chars@.subrange(
            start as int,
            end as int - 1,
        ));
        end -= 1;
    }
    let trimmed = range.substring_char(start, end);
    let squeezed = regex_replace_all("-+", trimmed, "-");
    let clean = chars_of(squeezed.as_str());
    assert(clean@ == clean_range_text(range@));

    let mut dashes: usize = 0;
    let mut first_dash: usize = 0;
    let mut proper = true;
    let mut i: usize = 0;
    while i < clean.len()
        invariant
            i <= clean.len(),
            dashes == count_dashes(clean@.take(i as int)),
            dashes <= i,
            proper == digits_and_dashes(clean@.take(i as int)),
            dashes == 0 ==> forall|j: int| 0 <= j < i ==> clean@[j] != '-',
            dashes >= 1 ==> first_dash < i && clean@[first_dash as int] == '-',
            dashes == 1 ==> forall|j: int| 0 <= j < i && j != first_dash ==> clean@[j] != '-',
        decreases clean.len() - i,
    {
        let c = clean[i];
        proof {
            let before = clean@.take(i as int);
            let now = clean@.take(i as int + 1);
            assert(now.drop_last() == before);
            assert(now.last() == c);
            if digits_and_dashes(before) && (is_digit(c) || c == '-') {
                assert forall|j: int| 0 <= j < now.len() implies is_digit(#[trigger] now[j])
                    || now[j] == '-' by {
                    if j < i {
                        assert(before[j] == now[j]);
                    }
                }
            }
            if !digits_and_dashes(before) {
                let j = choose|j: int|
                    0 <= j < before.len() && !(is_digit(#[trigger] before[j]) || before[j] == '-');
                assert(now[j] == before[j]);
            }
            if !(is_digit(c) || c == '-') {
                assert(now[i as int] == c);
            }
        }
        if c == '-' {
            if dashes == 0 {
                first_dash = i;
            }
            dashes += 1;
        } else if !char_is_digit(c) {
            proper = false;
        }
        i += 1;
    }
    assert(clean@.take(clean.len() as int) == clean@);

    if dashes > 1 {
        return Err(ParseRangeError::MoreThanTwoSides);
    }
    if !proper {
        return Err(ParseRangeError::ContainsNonintegerOrDash);
    }
    let (left_to, right_from) = if dashes == 1 {
        (first_dash, first_dash + 1)
    } else {
        (clean.len(), 0)
    };
    let ghost left = clean@.subrange(0, left_to as int);
    let ghost right = clean@.subrange(right_from as int, clean.len() as int);
    proof {
        if dashes == 1 {
            let dash = clean@.index_of('-');
            assert(clean@[first_dash as int] == '-');
            assert(0 <= dash < clean@.len() && clean@[dash] == '-');
            assert(dash == first_dash);
            assert(left == clean@.take(dash));
            assert(right == clean@.skip(dash + 1));
        } else {
            assert(left == clean@);
            assert(right == clean@);
        }
        assert(range_of_clean_text(clean@) == range_of_sides(left, right));
        assert forall|j: int| 0 <= j < left.len() implies is_digit(#[trigger] left[j]) by {
            assert(left[j] == clean@[j]);
        }
        assert forall|j: int| 0 <= j < right.len() implies is_digit(#[trigger] right[j]) by {
            assert(right[j] == clean@[j + right_from]);
        }
    }
    if left_to == 0 || right_from == clean.len() {
        return Err(ParseRangeError::ContainsNonintegerOrDash);
    }
    let min = match parse_digits(&clean, 0, left_to) {
        Some(n) => n,
        None => {
            return Err(ParseRangeError::ContainsNonintegerOrDash);
        },
    };
    let max = match parse_digits(&clean, right_from, clean.len()) {
        Some(n) => n,
        None => {
            return Err(ParseRangeError::ContainsNonintegerOrDash);
        },
    };
    if max < min {
        return Err(ParseRangeError::RightSideIsSmaller);
    }
    Ok(RangeSpec { min, max })
}

/// A text without two dashes in a row is left as it is by `squeeze_dashes`.
proof fn lemma_squeeze_keeps(text: Seq<char>)
    requires
        forall|i: int| 0 <= i < text.len() - 1 ==> !(text[i] == '-' && #[trigger] text[i + 1] == '-'),
    ensures
        squeeze_dashes(text) == text,
    decreases text.len(),
{
    if text.len() > 0 {
        let rest = text.drop_first();
        assert forall|i: int| 0 <= i < rest.len() - 1 implies !(rest[i] == '-' && #[trigger] rest[i
            + 1] == '-') by {
            assert(rest[i] == text[i + 1]);
            assert(rest[i + 1] == text[i + 1 + 1]);
        }
        lemma_squeeze_keeps(rest);
        if text.len() > 1 {
            assert(text[0int + 1] == text[1]);
        }
        assert(seq![text[0]] + rest == text);
    }
}

/// A numeral holds no dash.
proof fn lemma_count_dashes_of_digits(digits: Seq<char>)
    requires
        all_digits(digits),
    ensures
        count_dashes(digits) == 0,
    decreases digits.len(),
{
    if digits.len() > 0 {
        assert(is_digit(digits[digits.len() - 1]));
        lemma_count_dashes_of_digits(digits.drop_last());
    }
}

/// The dashes of two texts joined are those of the one and those of the other.
proof fn lemma_count_dashes_of_join(a: Seq<char>, b: Seq<char>)
    ensures
        count_dashes(a + b) == count_dashes(a) + count_dashes(b),
    decreases b.len(),
{
    if b.len() == 0 {
        assert(a + b == a);
    } else {
        assert((a + b).drop_last() == a + b.drop_last());
        lemma_count_dashes_of_join(a, b.drop_last());
    }
}

/// How a well-formed text reads: a numeral alone is the range that holds its
/// number alone; two numerals with a dash between them are the range from
/// the first to the second where the second is not the smaller, and
/// `RightSideIsSmaller` where it is. A numeral is a non-empty text of decimal
/// digits whose number fits in `usize`.
pub proof fn law_parse_range(a: Seq<char>, b: Seq<char>)
    requires
        a.len() > 0,
        b.len() > 0,
        all_digits(a),
        all_digits(b),
        decimal_value(a) <= usize::MAX,
        decimal_value(b) <= usize::MAX,
    ensures
        parse_range(a) == Ok::<(nat, nat), ParseRangeError>((decimal_value(a), decimal_value(a))),
        decimal_value(a) <= decimal_value(b) ==> parse_range(a + seq!['-'] + b) == Ok::<
            (nat, nat),
            ParseRangeError,
        >((decimal_value(a), decimal_value(b))),
        decimal_value(a) > decimal_value(b) ==> parse_range(a + seq!['-'] + b) == Err::<
            (nat, nat),
            ParseRangeError,
        >(ParseRangeError::RightSideIsSmaller),
{
    assert(is_digit(a[0]) && is_digit(a[a.len() - 1]));
    assert(is_digit(b[0]) && is_digit(b[b.len() - 1]));
    assert forall|i: int| 0 <= i < a.len() - 1 implies !(a[i] == '-' && #[trigger] a[i + 1]
        == '-') by {
        assert(is_digit(a[i]));
    }
    lemma_squeeze_keeps(a);
    lemma_count_dashes_of_digits(a);
    assert(clean_range_text(a) == a);

    let dash = seq!['-'];
    let t = a + dash + b;
    assert(t[0] == a[0]);
    assert(t[t.len() - 1] == b[b.len() - 1]);
    assert forall|i: int| 0 <= i < t.len() implies (#[trigger] t[i] == '-' <==> i == a.len()) by {
        if i < a.len() {
            assert(t[i] == a[i]);
            assert(is_digit(a[i]));
        } else if i > a.len() {
            assert(t[i] == b[i - a.len() - 1]);
            assert(is_digit(b[i - a.len() - 1]));
        }
    }
    assert forall|i: int| 0 <= i < t.len() - 1 implies !(t[i] == '-' && #[trigger] t[i + 1]
        == '-') by {
        assert(t[i] == '-' <==> i == a.len());
        assert(t[i + 1] == '-' <==> i + 1 == a.len());
    }
    lemma_squeeze_keeps(t);
    assert(clean_range_text(t) == t);
    lemma_count_dashes_of_digits(b);
    lemma_count_dashes_of_join(a, dash);
    assert(dash.drop_last().len() == 0);
    assert(count_dashes(dash.drop_last()) == 0);
    assert(dash.last() == '-');
    assert(count_dashes(dash) == 1);
    lemma_count_dashes_of_join(a + dash, b);
    assert(count_dashes(t) == 1);
    assert(digits_and_dashes(t)) by {
        assert forall|i: int| 0 <= i < t.len() implies is_digit(#[trigger] t[i]) || t[i]
            == '-' by {
            if i < a.len() {
                assert(t[i] == a[i]);
                assert(is_digit(a[i]));
            } else if i > a.len() {
                assert(t[i] == b[i - a.len() - 1]);
                assert(is_digit(b[i - a.len() - 1]));
            }
        }
    }
    let at = t.index_of('-');
    assert(t[a.len() as int] == '-');
    assert(0 <= at < t.len() && t[at] == '-');
    assert(at == a.len());
    assert(t.take(at) == a);
    assert(t.skip(at + 1) == b);
}

/// Makes the character at position `i` upper case if it is an ASCII
/// lower-case letter. A position beyond the end changes nothing.
pub fn capitalise(s: &mut Vec<char>, i: usize)
    ensures
        final(s)@ == if i < old(s)@.len() {
            old(s)@.update(i as int, to_upper(old(s)@[i as int]))
        } else {
            old(s)@
        },
{
    if i < s.len() {
        let c = char_to_upper(s[i]);
        s.set(i, c);
    }
}

/// Makes the character at position `i` lower case if it is an ASCII
/// upper-case letter. A position beyond the end changes nothing.
pub fn decapitalise(s: &mut Vec<char>, i: usize)
    ensures
        final(s)@ == if i < old(s)@.len() {
            old(s)@.update(i as int, to_lower(old(s)@[i as int]))
        } else {
            old(s)@
        },
{
    if i < s.len() {
        let c = char_to_lower(s[i]);
        s.set(i, c);
    }
}

} // verus!

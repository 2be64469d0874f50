//! Texts taken apart: blank space, fields between separators, numbers.

use crate::monitor::data::formatter::{decimal, digit_char, magnitude, sign_of, spec_format_integer};
use crate::monitor::data::label::chars_of;
use vstd::prelude::*;
use vstd::string::StrSliceExecFns;

verus! {

/// Whether `c` is blank space: a character with the Unicode property
/// `White_Space`.
pub open spec fn is_white_space(c: char) -> bool {
    ||| ('\u{9}' as int) <= (c as int) <= ('\u{d}' as int)
    ||| c == ' '
    ||| c == '\u{85}'
    ||| c == '\u{a0}'
    ||| c == '\u{1680}'
    ||| ('\u{2000}' as int) <= (c as int) <= ('\u{200a}' as int)
    ||| c == '\u{2028}'
    ||| c == '\u{2029}'
    ||| c == '\u{202f}'
    ||| c == '\u{205f}'
    ||| c == '\u{3000}'
}

/// Whether `c` is blank space.
pub fn white_space(c: char) -> (blank: bool)
    ensures
        blank == is_white_space(c),
{
    ('\u{9}' <= c && c <= '\u{d}') || c == ' ' || c == '\u{85}' || c == '\u{a0}' || c
        == '\u{1680}' || ('\u{2000}' <= c && c <= '\u{200a}') || c == '\u{2028}' || c
        == '\u{2029}' || c == '\u{202f}' || c == '\u{205f}' || c == '\u{3000}'
}

/// Whether `text` holds nothing but blank space.
pub open spec fn is_blank(text: Seq<char>) -> bool {
    forall|i: int| 0 <= i < text.len() ==> is_white_space(#[trigger] text[i])
}

/// Where the text begins once the blank space at its start is left out: the
/// place of the first character that is not blank space, or the end.
pub open spec fn trim_start_at(text: Seq<char>) -> int
    decreases text.len(),
{
    if text.len() == 0 || !is_white_space(text.first()) {
        0
    } else {
        1 + trim_start_at(text.drop_first())
    }
}

/// Where the text ends once the blank space at its end is left out: the
/// place after the last character that is not blank space, or the start.
pub open spec fn trim_end_at(text: Seq<char>) -> int
    decreases text.len(),
{
    if text.len() == 0 || !is_white_space(text.last()) {
        text.len() as int
    } else {
        trim_end_at(text.drop_last())
    }
}

/// `text` without the blank space at its start and at its end.
pub open spec fn trimmed(text: Seq<char>) -> Seq<char> {
    if is_blank(text) {
        Seq::empty()
    } else {
        text.subrange(trim_start_at(text), trim_end_at(text))
    }
}

/// The start of the trimmed text is in the text, and nothing but blank space
/// stands before it.
pub proof fn lemma_trim_start(text: Seq<char>)
    ensures
        0 <= trim_start_at(text) <= text.len(),
        forall|i: int| 0 <= i < trim_start_at(text) ==> is_white_space(#[trigger] text[i]),
        trim_start_at(text) < text.len() ==> !is_white_space(text[trim_start_at(text)]),
    decreases text.len(),
{
    if text.len() > 0 && is_white_space(text.first()) {
        let rest = text.drop_first();
        lemma_trim_start(rest);
        assert forall|i: int| 0 <= i < trim_start_at(text) implies is_white_space(
            #[trigger] text[i],
        ) by {
            if i > 0 {
                assert(text[i] == rest[i - 1]);
            }
        }
        if trim_start_at(text) < text.len() {
            assert(text[trim_start_at(text)] == rest[trim_start_at(rest)]);
        }
    }
}

/// The end of the trimmed text is in the text, and nothing but blank space
/// stands after it.
pub proof fn lemma_trim_end(text: Seq<char>)
    ensures
        0 <= trim_end_at(text) <= text.len(),
        forall|i: int| trim_end_at(text) <= i < text.len() ==> is_white_space(#[trigger] text[i]),
        trim_end_at(text) > 0 ==> !is_white_space(text[trim_end_at(text) - 1]),
    decreases text.len(),
{
    if text.len() > 0 && is_white_space(text.last()) {
        let rest = text.drop_last();
        lemma_trim_end(rest);
        assert forall|i: int| trim_end_at(text) <= i < text.len() implies is_white_space(
            #[trigger] text[i],
        ) by {
            if i < rest.len() {
                assert(text[i] == rest[i]);
            }
        }
        if trim_end_at(text) > 0 {
            assert(text[trim_end_at(text) - 1] == rest[trim_end_at(rest) - 1]);
        }
    }
}

/// Whether `text` holds nothing but blank space.
pub fn blank(text: &Vec<char>) -> (all: bool)
    ensures
        all == is_blank(text@),
{
    let mut i: usize = 0;
    while i < text.len()
        invariant
            i <= text.len(),
            forall|k: int| 0 <= k < i ==> is_white_space(#[trigger] text@[k]),
        decreases text.len() - i,
    {
        if !white_space(text[i]) {
            return false;
        }
        i = i + 1;
    }
    true
}

/// Where the trimmed text begins and ends in `text`; both places are the
/// start where the text is blank.
pub fn trim_bounds(text: &Vec<char>) -> (bounds: (usize, usize))
    ensures
        bounds.0 <= bounds.1 <= text@.len(),
        text@.subrange(bounds.0 as int, bounds.1 as int) == trimmed(text@),
        is_blank(text@) ==> bounds.0 == 0 && bounds.1 == 0,
        !is_blank(text@) ==> bounds.0 == trim_start_at(text@) && bounds.1 == trim_end_at(text@),
{
    let mut start: usize = 0;
    proof {
        lemma_trim_start(text@);
        lemma_trim_end(text@);
    }
    while start < text.len() && white_space(text[start])
        invariant
            start <= text.len(),
            forall|k: int| 0 <= k < start ==> is_white_space(#[trigger] text@[k]),
        decreases text.len() - start,
    {
        start = start + 1;
    }
    if start == text.len() {
        assert(is_blank(text@));
        assert(text@.subrange(0, 0) =~= Seq::<char>::empty());
        return (0, 0);
    }
    let mut end: usize = text.len();
    while end > start && white_space(text[end - 1])
        invariant
            start <= end <= text.len(),
            start < text.len(),
            !is_white_space(text@[start as int]),
            forall|k: int| end <= k < text@.len() ==> is_white_space(#[trigger] text@[k]),
        decreases end,
    {
        end = end - 1;
    }
    proof {
        assert(!is_blank(text@));
        let s = trim_start_at(text@);
        let e = trim_end_at(text@);
        // The first character that is not blank space is where both stop.
        if s < start {
            assert(is_white_space(text@[s]));
        }
        if start < s {
            assert(is_white_space(text@[start as int]));
        }
        assert(end > start);
        if e < end {
            assert(is_white_space(text@[end - 1]));
        }
        if end < e {
            assert(is_white_space(text@[e - 1]));
        }
    }
    (start, end)
}

/// `text` without the blank space at its start and at its end.
pub fn trim(text: &str) -> (cut: String)
    ensures
        cut@ == trimmed(text@),
{
    let chars = chars_of(text);
    let bounds = trim_bounds(&chars);
    text.substring_char(bounds.0, bounds.1).to_owned()
}

/// Where `sep` first stands in `text`, or the end of the text where it does
/// not stand in it.
pub open spec fn first_at(text: Seq<char>, sep: char) -> int
    decreases text.len(),
{
    if text.len() == 0 || text.first() == sep {
        0
    } else {
        1 + first_at(text.drop_first(), sep)
    }
}

/// The field of `text` with the number `k`, counted from zero, where `sep`
/// parts the fields; none where the text has fewer fields.
pub open spec fn field(text: Seq<char>, sep: char, k: nat) -> Option<Seq<char>>
    decreases k,
{
    let at = first_at(text, sep);
    if k == 0 {
        Some(text.subrange(0, at))
    } else if at >= text.len() {
        None
    } else {
        field(text.subrange(at + 1, text.len() as int), sep, (k - 1) as nat)
    }
}

/// The first separator stands in the text or at its end, and none stands
/// before it.
pub proof fn lemma_first_at(text: Seq<char>, sep: char)
    ensures
        0 <= first_at(text, sep) <= text.len(),
        forall|i: int| 0 <= i < first_at(text, sep) ==> #[trigger] text[i] != sep,
        first_at(text, sep) < text.len() ==> text[first_at(text, sep)] == sep,
    decreases text.len(),
{
    if text.len() > 0 && text.first() != sep {
        let rest = text.drop_first();
        lemma_first_at(rest, sep);
        assert forall|i: int| 0 <= i < first_at(text, sep) implies #[trigger] text[i] != sep by {
            if i > 0 {
                assert(text[i] == rest[i - 1]);
            }
        }
        if first_at(text, sep) < text.len() {
            assert(text[first_at(text, sep)] == rest[first_at(rest, sep)]);
        }
    }
}

/// The place that holds the first separator and none before it is where the
/// first separator stands.
pub proof fn lemma_first_at_is(text: Seq<char>, sep: char, at: int)
    requires
        0 <= at <= text.len(),
        forall|i: int| 0 <= i < at ==> #[trigger] text[i] != sep,
        at < text.len() ==> text[at] == sep,
    ensures
        first_at(text, sep) == at,
{
    lemma_first_at(text, sep);
    let found = first_at(text, sep);
    if found < at {
        assert(text[found] == sep);
    }
    if at < found {
        assert(text[at] != sep);
    }
}

/// Where `sep` first stands in `text` from `from` on, or the end of the
/// text.
pub fn next_separator(text: &Vec<char>, sep: char, from: usize) -> (at: usize)
    requires
        from <= text@.len(),
    ensures
        from <= at <= text@.len(),
        at == from + first_at(text@.subrange(from as int, text@.len() as int), sep),
{
    let mut at: usize = from;
    while at < text.len() && text[at] != sep
        invariant
            from <= at <= text.len(),
            forall|i: int| from <= i < at ==> #[trigger] text@[i] != sep,
        decreases text.len() - at,
    {
        at = at + 1;
    }
    proof {
        let rest = text@.subrange(from as int, text@.len() as int);
        assert forall|i: int| 0 <= i < at - from implies #[trigger] rest[i] != sep by {
            assert(rest[i] == text@[from + i]);
        }
        lemma_first_at_is(rest, sep, at - from);
    }
    at
}

/// The value of a decimal digit.
pub open spec fn digit_value(c: char) -> Option<nat> {
    if c == '0' {
        Some(0)
    } else if c == '1' {
        Some(1)
    } else if c == '2' {
        Some(2)
    } else if c == '3' {
        Some(3)
    } else if c == '4' {
        Some(4)
    } else if c == '5' {
        Some(5)
    } else if c == '6' {
        Some(6)
    } else if c == '7' {
        Some(7)
    } else if c == '8' {
        Some(8)
    } else if c == '9' {
        Some(9)
    } else {
        None
    }
}

/// The number that `digits` write in decimal; none where there is no digit
/// or something else than a digit.
pub open spec fn digits_value(digits: Seq<char>) -> Option<nat>
    decreases digits.len(),
{
    if digits.len() == 0 {
        None
    } else if digits.len() == 1 {
        digit_value(digits[0])
    } else {
        match (digits_value(digits.drop_last()), digit_value(digits.last())) {
            (Some(value), Some(digit)) => Some(10 * value + digit),
            _ => None,
        }
    }
}

/// The number that `text` writes: decimal digits, with a sign before them
/// or without; none where the text is anything else, or the number does not
/// fit.
pub open spec fn spec_parse_i32(text: Seq<char>) -> Option<i32> {
    if text.len() == 0 {
        None
    } else if text[0] == '-' {
        match digits_value(text.drop_first()) {
            Some(value) => if value <= 2147483648 {
                Some((-(value as int)) as i32)
            } else {
                None
            },
            None => None,
        }
    } else {
        let digits = if text[0] == '+' {
            text.drop_first()
        } else {
            text
        };
        match digits_value(digits) {
            Some(value) => if value <= 2147483647 {
                Some(value as i32)
            } else {
                None
            },
            None => None,
        }
    }
}

/// The value of a decimal digit.
fn digit_of(c: char) -> (value: Option<u64>)
    ensures
        match value {
            Some(d) => digit_value(c) == Some(d as nat) && d <= 9,
            None => digit_value(c) is None,
        },
{
    if c == '0' {
        Some(0)
    } else if c == '1' {
        Some(1)
    } else if c == '2' {
        Some(2)
    } else if c == '3' {
        Some(3)
    } else if c == '4' {
        Some(4)
    } else if c == '5' {
        Some(5)
    } else if c == '6' {
        Some(6)
    } else if c == '7' {
        Some(7)
    } else if c == '8' {
        Some(8)
    } else if c == '9' {
        Some(9)
    } else {
        None
    }
}

/// The number that the characters of `text` from `from` to `to` write in
/// decimal, held at ten thousand million where it is larger.
fn digits_between(text: &Vec<char>, from: usize, to: usize) -> (value: Option<u64>)
    requires
        from <= to <= text@.len(),
    ensures
        match value {
            Some(v) => match digits_value(text@.subrange(from as int, to as int)) {
                Some(exact) => v == if exact <= 10_000_000_000 {
                    exact
                } else {
                    10_000_000_000
                },
                None => false,
            },
            None => digits_value(text@.subrange(from as int, to as int)) is None,
        },
{
    if from == to {
        return None;
    }
    let mut value: u64 = 0;
    let mut i: usize = from;
    while i < to
        invariant
            from <= i <= to <= text.len(),
            from < to,
            value <= 10_000_000_000,
            i > from ==> match digits_value(text@.subrange(from as int, i as int)) {
                Some(exact) => value == if exact <= 10_000_000_000 {
                    exact
                } else {
                    10_000_000_000
                },
                None => false,
            },
            i == from ==> value == 0,
        decreases to - i,
    {
        let ghost done = text@.subrange(from as int, i as int);
        let ghost next = text@.subrange(from as int, i + 1);
        proof {
            assert(next.drop_last() =~= done);
            assert(next.last() == text@[i as int]);
        }
        match digit_of(text[i]) {
            Some(d) => {
                let sum: u64 = value * 10 + d;
                value = if sum > 10_000_000_000 {
                    10_000_000_000
                } else {
                    sum
                };
                proof {
                    if i == from {
                        assert(next.len() == 1);
                        assert(next[0] == text@[i as int]);
                    }
                }
            },
            None => {
                proof {
                    lemma_digits_stay_none(text@, from as int, i + 1, to as int);
                    if i == from {
                        assert(next.len() == 1);
                        assert(next[0] == text@[i as int]);
                    }
                }
                return None;
            },
        }
        i = i + 1;
    }
    Some(value)
}

/// A text that does not write a number does not write one when more is
/// added to it.
proof fn lemma_digits_stay_none(text: Seq<char>, from: int, upto: int, to: int)
    requires
        0 <= from < upto <= to <= text.len(),
        digits_value(text.subrange(from, upto)) is None,
    ensures
        digits_value(text.subrange(from, to)) is None,
    decreases to - upto,
{
    if upto < to {
        let next = text.subrange(from, upto + 1);
        assert(next.drop_last() =~= text.subrange(from, upto));
        lemma_digits_stay_none(text, from, upto + 1, to);
    }
}

/// The number that the characters of `text` from `from` to `to` write.
pub fn parse_i32_between(text: &Vec<char>, from: usize, to: usize) -> (value: Option<i32>)
    requires
        from <= to <= text@.len(),
    ensures
        value == spec_parse_i32(text@.subrange(from as int, to as int)),
{
    let ghost part = text@.subrange(from as int, to as int);
    if from == to {
        return None;
    }
    assert(part[0] == text@[from as int]);
    if text[from] == '-' {
        assert(part.drop_first() =~= text@.subrange(from + 1, to as int));
        match digits_between(text, from + 1, to) {
            Some(v) => if v <= 2147483648 {
                Some((-(v as i64)) as i32)
            } else {
                None
            },
            None => None,
        }
    } else {
        let start: usize = if text[from] == '+' {
            from + 1
        } else {
            from
        };
        proof {
            if text@[from as int] == '+' {
                assert(part.drop_first() =~= text@.subrange(from + 1, to as int));
            }
        }
        match digits_between(text, start, to) {
            Some(v) => if v <= 2147483647 {
                Some(v as i32)
            } else {
                None
            },
            None => None,
        }
    }
}

/// The number that `text` writes.
pub fn parse_i32(text: &str) -> (value: Option<i32>)
    ensures
        value == spec_parse_i32(text@),
{
    let chars = chars_of(text);
    assert(chars@.subrange(0, chars@.len() as int) =~= chars@);
    parse_i32_between(&chars, 0, chars.len())
}

/// Whether `text` begins with `prefix`.
pub open spec fn has_prefix(text: Seq<char>, prefix: Seq<char>) -> bool {
    prefix.len() <= text.len() && text.subrange(0, prefix.len() as int) == prefix
}

/// Whether `text` begins with `prefix`.
pub fn starts_with(text: &Vec<char>, prefix: &Vec<char>) -> (begins: bool)
    ensures
        begins == has_prefix(text@, prefix@),
{
    if prefix.len() > text.len() {
        return false;
    }
    let mut i: usize = 0;
    while i < prefix.len()
        invariant
            i <= prefix.len() <= text.len(),
            forall|k: int| 0 <= k < i ==> text@[k] == prefix@[k],
        decreases prefix.len() - i,
    {
        if text[i] != prefix[i] {
            assert(text@.subrange(0, prefix@.len() as int)[i as int] != prefix@[i as int]);
            return false;
        }
        i = i + 1;
    }
    assert(text@.subrange(0, prefix@.len() as int) =~= prefix@);
    true
}

/// The fields of what follows the place `from` of `text`, told by the place
/// `at` of the next separator: the first field is what stands between the
/// two places, and every later field is a field of what follows the
/// separator, or is not there where no separator is.
pub proof fn lemma_field_from(text: Seq<char>, sep: char, from: int, at: int, k: nat)
    requires
        0 <= from <= text.len(),
        at == from + first_at(text.subrange(from, text.len() as int), sep),
    ensures
        from <= at <= text.len(),
        field(text.subrange(from, text.len() as int), sep, 0) == Some(text.subrange(from, at)),
        at < text.len() ==> field(text.subrange(from, text.len() as int), sep, k + 1) == field(
            text.subrange(at + 1, text.len() as int),
            sep,
            k,
        ),
        at >= text.len() ==> field(text.subrange(from, text.len() as int), sep, k + 1) is None,
{
    let rest = text.subrange(from, text.len() as int);
    lemma_first_at(rest, sep);
    assert(rest.subrange(0, at - from) =~= text.subrange(from, at));
    if at < text.len() {
        assert(rest.subrange(at - from + 1, rest.len() as int) =~= text.subrange(
            at + 1,
            text.len() as int,
        ));
    }
}

/// A text without the separator is one field, and a text without the
/// separator before a separator is the first field of what they make
/// together; the fields of what follows the separator are the later fields.
pub proof fn lemma_fields_of_joined(head: Seq<char>, sep: char, rest: Seq<char>, k: nat)
    requires
        !head.contains(sep),
    ensures
        field(head, sep, 0) == Some(head),
        field(head + seq![sep] + rest, sep, 0) == Some(head),
        field(head + seq![sep] + rest, sep, k + 1) == field(rest, sep, k),
{
    let joined = head + seq![sep] + rest;
    assert forall|i: int| 0 <= i < head.len() implies #[trigger] head[i] != sep by {
        assert(head.contains(head[i]));
    }
    lemma_first_at_is(head, sep, head.len() as int);
    assert(head.subrange(0, head.len() as int) =~= head);
    assert forall|i: int| 0 <= i < head.len() implies #[trigger] joined[i] != sep by {
        assert(joined[i] == head[i]);
    }
    assert(joined[head.len() as int] == sep);
    lemma_first_at_is(joined, sep, head.len() as int);
    assert(joined.subrange(0, head.len() as int) =~= head);
    assert(joined.subrange(head.len() as int + 1, joined.len() as int) =~= rest);
}

/// What is written in decimal is read back as the number that was written,
/// and holds nothing but digits.
pub proof fn lemma_decimal_read_back(n: nat)
    ensures
        digits_value(decimal(n)) == Some(n),
        decimal(n).len() >= 1,
        forall|i: int| 0 <= i < decimal(n).len() ==> digit_value(#[trigger] decimal(n)[i]) is Some,
    decreases n,
{
    if n >= 10 {
        lemma_decimal_read_back(n / 10);
        let front = decimal(n / 10);
        let all = decimal(n);
        assert(all == front.push(digit_char(n % 10)));
        assert(all.drop_last() =~= front);
        assert(all.last() == digit_char(n % 10));
        assert(digit_value(digit_char(n % 10)) == Some(n % 10));
        assert forall|i: int| 0 <= i < all.len() implies digit_value(#[trigger] all[i]) is Some by {
            if i < front.len() {
                assert(all[i] == front[i]);
            }
        }
    } else {
        assert(decimal(n) =~= seq![digit_char(n)]);
        assert(digit_value(digit_char(n)) == Some(n));
    }
}

/// A whole number that is written in full is read back as itself, and what
/// is written holds no character that is not a digit but the sign.
pub proof fn lemma_integer_read_back(n: int, sep: char)
    requires
        i32::MIN <= n <= i32::MAX,
        digit_value(sep) is None,
        sep != '-',
    ensures
        spec_parse_i32(spec_format_integer(n)) == Some(n as i32),
        !spec_format_integer(n).contains(sep),
{
    let size = magnitude(n);
    let written = spec_format_integer(n);
    lemma_decimal_read_back(size);
    if n < 0 {
        assert(written =~= seq!['-'] + decimal(size));
        assert(written.drop_first() =~= decimal(size));
        assert(written[0] == '-');
    } else {
        assert(written =~= decimal(size));
        assert(digit_value(written[0]) is Some);
    }
    if written.contains(sep) {
        let i = choose|i: int| 0 <= i < written.len() && written[i] == sep;
        if n < 0 {
            if i > 0 {
                assert(written[i] == decimal(size)[i - 1]);
            }
        } else {
            assert(written[i] == decimal(size)[i]);
        }
    }
}

} // verus!

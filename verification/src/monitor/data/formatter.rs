//! Numbers, durations and rates as short texts.
//!
//! Everything is computed in whole numbers. A value shown with one decimal
//! is the exact quotient rounded to the nearest tenth, a tie going to the
//! even tenth.

use crate::monitor::data::estimator::{Eta, Rate};
use vstd::prelude::*;
use vstd::string::StringExecFns;

verus! {

/// The character of a decimal digit.
pub open spec fn digit_char(d: nat) -> char {
    if d == 0 {
        '0'
    } else if d == 1 {
        '1'
    } else if d == 2 {
        '2'
    } else if d == 3 {
        '3'
    } else if d == 4 {
        '4'
    } else if d == 5 {
        '5'
    } else if d == 6 {
        '6'
    } else if d == 7 {
        '7'
    } else if d == 8 {
        '8'
    } else {
        '9'
    }
}

/// `n` in decimal, without leading zeros.
pub open spec fn decimal(n: nat) -> Seq<char>
    decreases n,
{
    if n < 10 {
        seq![digit_char(n)]
    } else {
        decimal(n / 10).push(digit_char(n % 10))
    }
}

/// The last two decimal digits of `n`, with a leading zero where it takes
/// one.
pub open spec fn two_digits(n: nat) -> Seq<char> {
    seq![digit_char((n / 10) % 10), digit_char(n % 10)]
}

/// `n / d` rounded to the nearest whole number, a tie going to the even one.
pub open spec fn rounded(n: nat, d: nat) -> nat
    recommends
        d > 0,
{
    let q = n / d;
    let r = n % d;
    if 2 * r < d {
        q
    } else if 2 * r > d {
        q + 1
    } else if q % 2 == 0 {
        q
    } else {
        q + 1
    }
}

/// `n / d` with one decimal.
pub open spec fn one_decimal(n: nat, d: nat) -> Seq<char>
    recommends
        d > 0,
{
    let tenths = rounded(10 * n, d);
    decimal(tenths / 10).push('.').push(digit_char(tenths % 10))
}

/// The text of a decimal digit.
pub(crate) fn digit_str(d: u8) -> (text: &'static str)
    requires
        d < 10,
    ensures
        text@ == seq![digit_char(d as nat)],
{
    proof {
        reveal_strlit("0");
        reveal_strlit("1");
        reveal_strlit("2");
        reveal_strlit("3");
        reveal_strlit("4");
        reveal_strlit("5");
        reveal_strlit("6");
        reveal_strlit("7");
        reveal_strlit("8");
        reveal_strlit("9");
    }
    let text = if d == 0 {
        "0"
    } else if d == 1 {
        "1"
    } else if d == 2 {
        "2"
    } else if d == 3 {
        "3"
    } else if d == 4 {
        "4"
    } else if d == 5 {
        "5"
    } else if d == 6 {
        "6"
    } else if d == 7 {
        "7"
    } else if d == 8 {
        "8"
    } else {
        "9"
    };
    assert(text@ =~= seq![digit_char(d as nat)]);
    text
}

/// Appends `n` in decimal.
pub(crate) fn push_decimal(out: &mut String, n: u128)
    ensures
        final(out)@ == old(out)@ + decimal(n as nat),
    decreases n,
{
    if n >= 10 {
        push_decimal(out, n / 10);
    }
    out.append(digit_str((n % 10) as u8));
    assert(out@ =~= old(out)@ + decimal(n as nat));
}

/// Appends the last two decimal digits of `n`.
pub(crate) fn push_two_digits(out: &mut String, n: u64)
    ensures
        final(out)@ == old(out)@ + two_digits(n as nat),
{
    out.append(digit_str(((n / 10) % 10) as u8));
    out.append(digit_str((n % 10) as u8));
    assert(out@ =~= old(out)@ + two_digits(n as nat));
}

/// `n / d` rounded to the nearest whole number, a tie going to the even one.
fn round_div(n: u128, d: u128) -> (q: u128)
    requires
        d > 0,
        n / d < u128::MAX,
    ensures
        q == rounded(n as nat, d as nat),
{
    let q: u128 = n / d;
    let r: u128 = n % d;
    let rest: u128 = d - r;
    // `2 * r` against `d`, without leaving the type.
    if r < rest {
        q
    } else if r > rest {
        q + 1
    } else if q % 2 == 0 {
        q
    } else {
        q + 1
    }
}

/// Appends `n / d` with one decimal.
fn push_one_decimal(out: &mut String, n: u128, d: u128)
    requires
        d > 0,
        10 * n <= u128::MAX,
        (10 * n) / (d as int) < u128::MAX,
    ensures
        final(out)@ == old(out)@ + one_decimal(n as nat, d as nat),
{
    let tenths: u128 = round_div(10 * n, d);
    push_decimal(out, tenths / 10);
    proof {
        reveal_strlit(".");
    }
    out.append(".");
    out.append(digit_str((tenths % 10) as u8));
    assert(out@ =~= old(out)@ + one_decimal(n as nat, d as nat));
}

/// A duration in its two or three largest units: `45s`, `1m30s`,
/// `1h01m01s`, `1d01h01m`.
pub open spec fn spec_format_time(seconds: nat) -> Seq<char> {
    if seconds < 60 {
        two_digits(seconds).push('s')
    } else if seconds < 3600 {
        decimal(seconds / 60).push('m') + two_digits(seconds % 60).push('s')
    } else if seconds < 86400 {
        decimal(seconds / 3600).push('h') + two_digits((seconds % 3600) / 60).push('m')
            + two_digits(seconds % 60).push('s')
    } else {
        decimal(seconds / 86400).push('d') + two_digits((seconds % 86400) / 3600).push('h')
            + two_digits((seconds % 3600) / 60).push('m')
    }
}

/// A duration in its two or three largest units.
pub fn format_time(seconds: u64) -> (text: String)
    ensures
        text@ == spec_format_time(seconds as nat),
{
    proof {
        reveal_strlit("s");
        reveal_strlit("m");
        reveal_strlit("h");
        reveal_strlit("d");
    }
    let mut text = String::new();
    if seconds < 60 {
        push_two_digits(&mut text, seconds);
        text.append("s");
    } else if seconds < 3600 {
        push_decimal(&mut text, (seconds / 60) as u128);
        text.append("m");
        push_two_digits(&mut text, seconds % 60);
        text.append("s");
    } else if seconds < 86400 {
        push_decimal(&mut text, (seconds / 3600) as u128);
        text.append("h");
        push_two_digits(&mut text, (seconds % 3600) / 60);
        text.append("m");
        push_two_digits(&mut text, seconds % 60);
        text.append("s");
    } else {
        push_decimal(&mut text, (seconds / 86400) as u128);
        text.append("d");
        push_two_digits(&mut text, (seconds % 86400) / 3600);
        text.append("h");
        push_two_digits(&mut text, (seconds % 3600) / 60);
        text.append("m");
    }
    assert(text@ =~= spec_format_time(seconds as nat));
    text
}

/// The distance of `num` from zero.
pub open spec fn magnitude(num: int) -> nat {
    if num < 0 {
        (-num) as nat
    } else {
        num as nat
    }
}

/// The sign that a number below zero is written with.
pub open spec fn sign_of(num: int) -> Seq<char> {
    if num < 0 {
        seq!['-']
    } else {
        Seq::empty()
    }
}

/// A count in short: as it is below a thousand, in thousands with one
/// decimal and a `K` below a million, in millions with one decimal and an
/// `M` from there.
pub open spec fn spec_format_number(num: int) -> Seq<char> {
    let size = magnitude(num);
    if size >= 1_000_000 {
        sign_of(num) + one_decimal(size, 1_000_000).push('M')
    } else if size >= 1_000 {
        sign_of(num) + one_decimal(size, 1_000).push('K')
    } else {
        sign_of(num) + decimal(size)
    }
}

/// A count in short.
pub fn format_number(num: i64) -> (text: String)
    ensures
        text@ == spec_format_number(num as int),
{
    proof {
        reveal_strlit("-");
        reveal_strlit("M");
        reveal_strlit("K");
    }
    let size: u128 = if num < 0 {
        (-(num as i128)) as u128
    } else {
        num as u128
    };
    let mut text = String::new();
    if num < 0 {
        text.append("-");
    }
    if size >= 1_000_000 {
        push_one_decimal(&mut text, size, 1_000_000);
        text.append("M");
    } else if size >= 1_000 {
        push_one_decimal(&mut text, size, 1_000);
        text.append("K");
    } else {
        push_decimal(&mut text, size);
    }
    assert(text@ =~= spec_format_number(num as int));
    text
}

/// A rate per second with one decimal; the zero rate is `0.0`.
pub open spec fn spec_format_per_second(rate: Rate) -> Seq<char> {
    if rate.seconds == 0 {
        one_decimal(0, 1)
    } else {
        one_decimal(rate.amount as nat, rate.seconds as nat)
    }
}

/// A rate per second with one decimal.
pub fn format_per_second(rate: Rate) -> (text: String)
    ensures
        text@ == spec_format_per_second(rate),
{
    let mut text = String::new();
    if rate.seconds == 0 {
        push_one_decimal(&mut text, 0, 1);
    } else {
        assert((10 * rate.amount) / (rate.seconds as int) <= 10 * rate.amount) by {
            vstd::arithmetic::div_mod::lemma_div_is_ordered_by_denominator(
                10 * rate.amount,
                1,
                rate.seconds as int,
            );
        }
        push_one_decimal(&mut text, rate.amount as u128, rate.seconds);
    }
    text
}

/// A rate, where there is one, with one decimal; `N/A` where there is none.
pub open spec fn spec_format_optional_rate(rate: Option<Rate>) -> Seq<char> {
    match rate {
        Some(rate) => spec_format_per_second(rate),
        None => "N/A"@,
    }
}

/// A rate, where there is one, with one decimal; `N/A` where there is none.
pub fn format_optional_rate(rate: Option<Rate>) -> (text: String)
    ensures
        text@ == spec_format_optional_rate(rate),
{
    match rate {
        Some(rate) => format_per_second(rate),
        None => "N/A".to_owned(),
    }
}

/// A remaining time, where there is one; `N/A` where there is none.
pub open spec fn spec_format_optional_time(seconds: Option<u64>) -> Seq<char> {
    match seconds {
        Some(seconds) => spec_format_time(seconds as nat),
        None => "N/A"@,
    }
}

/// A remaining time, where there is one; `N/A` where there is none.
pub fn format_optional_time(seconds: Option<u64>) -> (text: String)
    ensures
        text@ == spec_format_optional_time(seconds),
{
    match seconds {
        Some(seconds) => format_time(seconds),
        None => "N/A".to_owned(),
    }
}

/// When a value is expected to reach its goal: the remaining time, or that
/// it is being calculated, or that the goal is reached.
pub open spec fn spec_format_eta(eta: Eta) -> Seq<char> {
    match eta {
        Eta::Seconds(seconds) => spec_format_time(seconds as nat),
        Eta::Calculating => "calculating..."@,
        Eta::Complete => "complete"@,
    }
}

/// When a value is expected to reach its goal.
pub fn format_eta(eta: Eta) -> (text: String)
    ensures
        text@ == spec_format_eta(eta),
{
    match eta {
        Eta::Seconds(seconds) => format_time(seconds),
        Eta::Calculating => "calculating...".to_owned(),
        Eta::Complete => "complete".to_owned(),
    }
}

/// The share of `part` in `total` in percent with one decimal; `0.0%` where
/// there is nothing to take a share of.
pub open spec fn spec_format_percentage(part: nat, total: int) -> Seq<char> {
    if total <= 0 {
        one_decimal(0, 1).push('%')
    } else {
        one_decimal(100 * part, total as nat).push('%')
    }
}

/// The share in nothing is written `0.0%`, whatever the part.
pub proof fn lemma_percentage_of_nothing(part: nat, total: int)
    requires
        total <= 0,
    ensures
        spec_format_percentage(part, total) == seq!['0', '.', '0', '%'],
{
    assert(rounded(10 * 0, 1) == 0);
    assert(decimal(0) =~= seq!['0']);
    assert(spec_format_percentage(part, total) =~= seq!['0', '.', '0', '%']);
}

/// The share of `part` in `total` in percent with one decimal.
pub fn format_percentage(part: u64, total: i64) -> (text: String)
    ensures
        text@ == spec_format_percentage(part as nat, total as int),
{
    proof {
        reveal_strlit("%");
    }
    let mut text = String::new();
    if total <= 0 {
        push_one_decimal(&mut text, 0, 1);
    } else {
        let n: u128 = 100 * (part as u128);
        assert((10 * n) / (total as int) <= 10 * n) by {
            vstd::arithmetic::div_mod::lemma_div_is_ordered_by_denominator(
                10 * n,
                1,
                total as int,
            );
        }
        push_one_decimal(&mut text, n, total as u128);
    }
    text.append("%");
    text
}

/// A data rate in the largest unit of which it has at least one: bytes
/// without a decimal, and `KB`, `MB` and `GB` of 1024 each with one. A rate
/// over no time is the zero rate.
pub open spec fn spec_format_bytes_per_second(rate: Rate) -> Seq<char> {
    let bytes = if rate.seconds == 0 {
        0nat
    } else {
        rate.amount as nat
    };
    let seconds = if rate.seconds == 0 {
        1nat
    } else {
        rate.seconds as nat
    };
    if bytes < 1024 * seconds {
        decimal(rounded(bytes, seconds)) + seq!['B', '/', 's']
    } else if bytes < 1024 * 1024 * seconds {
        one_decimal(bytes, 1024 * seconds) + seq!['K', 'B', '/', 's']
    } else if bytes < 1024 * 1024 * 1024 * seconds {
        one_decimal(bytes, 1024 * 1024 * seconds) + seq!['M', 'B', '/', 's']
    } else {
        one_decimal(bytes, 1024 * 1024 * 1024 * seconds) + seq!['G', 'B', '/', 's']
    }
}

/// A data rate in the largest unit of which it has at least one.
pub fn format_bytes_per_second(rate: Rate) -> (text: String)
    ensures
        text@ == spec_format_bytes_per_second(rate),
{
    proof {
        reveal_strlit("B/s");
        reveal_strlit("KB/s");
        reveal_strlit("MB/s");
        reveal_strlit("GB/s");
    }
    let bytes: u128 = if rate.seconds == 0 {
        0
    } else {
        rate.amount as u128
    };
    let seconds: u128 = if rate.seconds == 0 {
        1
    } else {
        rate.seconds
    };
    let mut text = String::new();
    if bytes / 1024 < seconds {
        assert((bytes as int) / (seconds as int) <= bytes) by {
            vstd::arithmetic::div_mod::lemma_div_is_ordered_by_denominator(
                bytes as int,
                1,
                seconds as int,
            );
        }
        push_decimal(&mut text, round_div(bytes, seconds));
        text.append("B/s");
    } else if bytes / (1024 * 1024) < seconds {
        let unit: u128 = 1024 * seconds;
        assert((10 * bytes) / (unit as int) <= 10 * bytes) by {
            vstd::arithmetic::div_mod::lemma_div_is_ordered_by_denominator(
                10 * bytes,
                1,
                unit as int,
            );
        }
        push_one_decimal(&mut text, bytes, unit);
        text.append("KB/s");
    } else if bytes / (1024 * 1024 * 1024) < seconds {
        let unit: u128 = 1024 * 1024 * seconds;
        assert((10 * bytes) / (unit as int) <= 10 * bytes) by {
            vstd::arithmetic::div_mod::lemma_div_is_ordered_by_denominator(
                10 * bytes,
                1,
                unit as int,
            );
        }
        push_one_decimal(&mut text, bytes, unit);
        text.append("MB/s");
    } else {
        let unit: u128 = 1024 * 1024 * 1024 * seconds;
        assert((10 * bytes) / (unit as int) <= 10 * bytes) by {
            vstd::arithmetic::div_mod::lemma_div_is_ordered_by_denominator(
                10 * bytes,
                1,
                unit as int,
            );
        }
        push_one_decimal(&mut text, bytes, unit);
        text.append("GB/s");
    }
    assert(text@ =~= spec_format_bytes_per_second(rate));
    text
}

/// `count` spaces.
pub open spec fn spaces(count: nat) -> Seq<char> {
    Seq::new(count, |i: int| ' ')
}

/// `text` moved to the right edge of a field of `width` characters; a text
/// that is wider than the field stays as it is.
pub open spec fn spec_pad_left(text: Seq<char>, width: nat) -> Seq<char> {
    if text.len() < width {
        spaces((width - text.len()) as nat) + text
    } else {
        text
    }
}

/// `text` moved to the right edge of a field of `width` characters.
pub fn pad_left(text: &str, width: usize) -> (padded: String)
    ensures
        padded@ == spec_pad_left(text@, width as nat),
{
    proof {
        reveal_strlit(" ");
    }
    let len: usize = text.unicode_len();
    let mut padded = String::new();
    let mut i: usize = len;
    while i < width
        invariant
            len <= i,
            i <= width || i == len,
            padded@ == spaces((i - len) as nat),
        decreases width - i,
    {
        proof {
            reveal_strlit(" ");
        }
        padded.append(" ");
        i = i + 1;
        assert(padded@ =~= spaces((i - len) as nat));
    }
    padded.append(text);
    assert(padded@ =~= spec_pad_left(text@, width as nat));
    padded
}

/// A count in full.
pub fn format_count(n: u64) -> (text: String)
    ensures
        text@ == decimal(n as nat),
{
    let mut text = String::new();
    push_decimal(&mut text, n as u128);
    text
}

/// A whole number in full, with its sign where it is below zero.
pub open spec fn spec_format_integer(n: int) -> Seq<char> {
    sign_of(n) + decimal(magnitude(n))
}

/// A whole number in full.
pub fn format_integer(n: i64) -> (text: String)
    ensures
        text@ == spec_format_integer(n as int),
{
    proof {
        reveal_strlit("-");
    }
    let size: u128 = if n < 0 {
        (-(n as i128)) as u128
    } else {
        n as u128
    };
    let mut text = String::new();
    if n < 0 {
        text.append("-");
    }
    push_decimal(&mut text, size);
    assert(text@ =~= spec_format_integer(n as int));
    text
}

} // verus!

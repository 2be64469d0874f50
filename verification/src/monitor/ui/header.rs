//! The two lines of the header: the title and the time of the snapshot.

use crate::monitor::data::formatter::{
    decimal, digit_char, digit_str, format_count, push_decimal, push_two_digits, two_digits,
};
use vstd::prelude::*;
use vstd::string::StringExecFns;

verus! {

/// The date and the time of day that a time stamp names, in the stamp's own
/// offset.
#[derive(Clone, Copy, Debug, PartialEq, Eq, Structural)]
pub struct StampTime {
    /// The year of the calendar.
    pub year: i32,
    /// The month, counted from one.
    pub month: u32,
    /// The day of the month, counted from one.
    pub day: u32,
    /// The hour of the day, counted from zero.
    pub hour: u32,
    /// The minute of the hour.
    pub minute: u32,
    /// The second of the minute; in a leap second it is 59.
    pub second: u32,
    /// The nanoseconds since the second began; in a leap second they are a
    /// thousand million and more.
    pub nanosecond: u32,
}

/// What `chrono` reads of a time stamp in the form of RFC 3339: the date and
/// the time of day that the stamp names; nothing of a text that is no such
/// stamp.
pub uninterp spec fn rfc3339_time(stamp: Seq<char>) -> Option<StampTime>;

/// Reads `stamp` with `chrono::DateTime::parse_from_rfc3339` and hands on
/// the date and the time of day of what was read, as `chrono` gives them by
/// `Datelike::year`, `month`, `day` and `Timelike::hour`, `minute`,
/// `second`, `nanosecond`.
///
/// Not proved: that the result is `rfc3339_time` of the stamp, which says no
/// more than that the same stamp is always read the same.
#[verifier::external_body]
fn read_stamp(stamp: &str) -> (time: Option<StampTime>)
    ensures
        time == rfc3339_time(stamp@),
{
    match chrono::DateTime::parse_from_rfc3339(stamp) {
        Ok(read) => Some(
            StampTime {
                year: chrono::Datelike::year(&read),
                month: chrono::Datelike::month(&read),
                day: chrono::Datelike::day(&read),
                hour: chrono::Timelike::hour(&read),
                minute: chrono::Timelike::minute(&read),
                second: chrono::Timelike::second(&read),
                nanosecond: chrono::Timelike::nanosecond(&read),
            },
        ),
        Err(_) => None,
    }
}

/// A year in four digits; a year before the year 0 or after the year 9999
/// with its sign and in four digits or more.
pub open spec fn year_text(year: int) -> Seq<char> {
    let size = if year < 0 {
        (-year) as nat
    } else {
        year as nat
    };
    let digits = if size <= 9999 {
        seq![
            digit_char(size / 1000),
            digit_char((size / 100) % 10),
            digit_char((size / 10) % 10),
            digit_char(size % 10),
        ]
    } else {
        decimal(size)
    };
    if 0 <= year <= 9999 {
        digits
    } else if year < 0 {
        seq!['-'] + digits
    } else {
        seq!['+'] + digits
    }
}

/// The second that is shown: 60 in a leap second.
pub open spec fn shown_second(time: StampTime) -> nat {
    (time.second + time.nanosecond / 1_000_000_000) as nat
}

/// A date and a time of day as they are shown: year, month and day with
/// dashes between them, a space, hour, minute and second with colons
/// between them, each but the year in two digits, and the mark `UTC`.
pub open spec fn spec_stamp_text(time: StampTime) -> Seq<char> {
    year_text(time.year as int) + seq!['-'] + two_digits(time.month as nat) + seq!['-']
        + two_digits(time.day as nat) + seq![' '] + two_digits(time.hour as nat) + seq![':']
        + two_digits(time.minute as nat) + seq![':'] + two_digits(shown_second(time)) + seq![
        ' ',
        'U',
        'T',
        'C',
    ]
}

/// A date and a time of day as they are shown.
pub fn stamp_text(time: &StampTime) -> (text: String)
    ensures
        text@ == spec_stamp_text(*time),
{
    proof {
        reveal_strlit("-");
        reveal_strlit("+");
        reveal_strlit(" ");
        reveal_strlit(":");
        reveal_strlit(" UTC");
    }
    let size: u64 = if time.year < 0 {
        (-(time.year as i64)) as u64
    } else {
        time.year as u64
    };
    let mut text = String::new();
    if time.year < 0 {
        text.append("-");
    } else if time.year > 9999 {
        text.append("+");
    }
    if size <= 9999 {
        text.append(digit_str((size / 1000) as u8));
        text.append(digit_str(((size / 100) % 10) as u8));
        text.append(digit_str(((size / 10) % 10) as u8));
        text.append(digit_str((size % 10) as u8));
    } else {
        push_decimal(&mut text, size as u128);
    }
    assert(text@ =~= year_text(time.year as int));
    text.append("-");
    push_two_digits(&mut text, time.month as u64);
    text.append("-");
    push_two_digits(&mut text, time.day as u64);
    text.append(" ");
    push_two_digits(&mut text, time.hour as u64);
    text.append(":");
    push_two_digits(&mut text, time.minute as u64);
    text.append(":");
    push_two_digits(&mut text, (time.second as u64) + (time.nanosecond as u64) / 1_000_000_000);
    text.append(" UTC");
    assert(text@ =~= spec_stamp_text(*time));
    text
}

/// The line that tells the time of the snapshot: the time that the
/// snapshot's stamp names, or `now` where it names none.
pub open spec fn spec_subtitle(time: Option<StampTime>, now: Seq<char>) -> Seq<char> {
    "Last Update: "@ + match time {
        Some(time) => spec_stamp_text(time),
        None => now,
    }
}

/// The line that tells the time of the snapshot, from what was read of the
/// snapshot's stamp.
pub fn subtitle_from(time: Option<StampTime>, now: &str) -> (text: String)
    ensures
        text@ == spec_subtitle(time, now@),
{
    let mut text = "Last Update: ".to_owned();
    match time {
        Some(time) => {
            let shown = stamp_text(&time);
            text.append(shown.as_str());
        },
        None => {
            text.append(now);
        },
    }
    text
}

/// The line that tells the time of the snapshot: the snapshot's stamp as
/// date and time of day, or `now` where the stamp cannot be read.
pub fn header_subtitle(stamp: &str, now: &str) -> (text: String)
    ensures
        text@ == spec_subtitle(rfc3339_time(stamp@), now@),
{
    subtitle_from(read_stamp(stamp), now)
}

/// The title of the header, with the interval between two polls.
pub open spec fn spec_header_title(interval: u64) -> Seq<char> {
    "CEPH DOCTOR - Cluster Monitor ("@ + decimal(interval as nat) + "s interval)"@
}

/// The title of the header, with the interval between two polls.
pub fn header_title(interval: u64) -> (text: String)
    ensures
        text@ == spec_header_title(interval),
{
    let mut text = "CEPH DOCTOR - Cluster Monitor (".to_owned();
    let seconds = format_count(interval);
    text.append(seconds.as_str());
    text.append("s interval)");
    text
}

} // verus!

//! The local clock.

use chrono::{Datelike, Timelike};
use vstd::prelude::*;

use crate::text::{decimal, digit_char, is_digit};

verus! {

/// A moment: date and time of day in a time zone, and the seconds since the beginning of 1970
/// in universal time.
#[derive(Debug, Clone, Copy)]
pub struct Moment {
    pub year: i32,
    pub month: u32,
    pub day: u32,
    pub hour: u32,
    pub minute: u32,
    pub second: u32,
    pub nanosecond: u32,
    pub unix: i64,
}

/// A year with a 29th of February.
pub open spec fn is_leap_year(year: int) -> bool {
    year % 4 == 0 && (year % 100 != 0 || year % 400 == 0)
}

/// How many days a month has.
pub open spec fn days_in_month(year: int, month: int) -> int {
    if month == 2 {
        if is_leap_year(year) {
            29
        } else {
            28
        }
    } else if month == 4 || month == 6 || month == 9 || month == 11 {
        30
    } else {
        31
    }
}

/// A moment that the clock can show: a day of the calendar and a time of day, from the
/// beginning of 1970 in universal time to the end of the years that `chrono` counts.
pub open spec fn is_moment(at: Moment) -> bool {
    &&& 1969 <= at.year <= 262_142
    &&& 1 <= at.month <= 12
    &&& 1 <= at.day <= days_in_month(at.year as int, at.month as int)
    &&& at.hour < 24
    &&& at.minute < 60
    &&& at.second < 60
    &&& at.nanosecond < 1_000_000_000
    &&& at.unix >= 0
}

/// `chrono::Local::now` reads the clock. It does not return where the clock stands before 1970
/// or beyond the years that `chrono` counts; `naive_local` gives the date and time of day in
/// the local time zone, less than a day apart from universal time, and `timestamp` the
/// seconds since the beginning of 1970. Nothing can be promised of the moment itself.
#[verifier::external_body]
fn local_now() -> (r: Moment)
    ensures
        is_moment(r),
{
    let now = chrono::Local::now();
    let at = now.naive_local();
    Moment {
        year: at.year(),
        month: at.month(),
        day: at.day(),
        hour: at.hour(),
        minute: at.minute(),
        second: at.second(),
        nanosecond: at.nanosecond(),
        unix: now.timestamp(),
    }
}

/// `chrono::Utc::now` reads the clock in universal time. It does not return where the clock
/// stands before 1970 or beyond the years that `chrono` counts. Nothing can be promised of the
/// moment itself.
#[verifier::external_body]
fn utc_now() -> (r: Moment)
    ensures
        is_moment(r),
{
    let now = chrono::Utc::now();
    Moment {
        year: now.year(),
        month: now.month(),
        day: now.day(),
        hour: now.hour(),
        minute: now.minute(),
        second: now.second(),
        nanosecond: now.nanosecond(),
        unix: now.timestamp(),
    }
}

/// A number below a hundred in two digits.
pub open spec fn two_digits(n: nat) -> Seq<char> {
    seq![digit_char(n / 10), digit_char(n % 10)]
}

/// A year; one with more than four digits has a sign in front.
pub open spec fn year_text(year: nat) -> Seq<char> {
    if year <= 9999 {
        decimal(year)
    } else {
        seq!['+'] + decimal(year)
    }
}

/// The date: year, month and day.
pub open spec fn date_text(at: Moment) -> Seq<char> {
    year_text(at.year as nat) + "-"@ + two_digits(at.month as nat) + "-"@ + two_digits(
        at.day as nat,
    )
}

/// The time of day: hour, minute and second.
pub open spec fn time_text(at: Moment) -> Seq<char> {
    two_digits(at.hour as nat) + ":"@ + two_digits(at.minute as nat) + ":"@ + two_digits(
        at.second as nat,
    )
}

/// The date and the time of day.
pub open spec fn timestamp_text(at: Moment) -> Seq<char> {
    date_text(at) + " "@ + time_text(at)
}

/// `chrono::NaiveDateTime::format` puts year, month, day, hour, minute and second for the
/// specifiers `%Y`, `%m`, `%d`, `%H`, `%M` and `%S` and copies the rest. Each is written in
/// two digits; the year is written in four, or with a sign in front where it has more.
#[verifier::external_body]
fn format_time(at: &Moment, fmt: &str) -> (r: String)
    requires
        is_moment(*at),
        fmt@ == "%Y-%m-%d"@ || fmt@ == "%H:%M:%S"@ || fmt@ == "%Y-%m-%d %H:%M:%S"@,
    ensures
        fmt@ == "%Y-%m-%d"@ ==> r@ == date_text(*at),
        fmt@ == "%H:%M:%S"@ ==> r@ == time_text(*at),
        fmt@ == "%Y-%m-%d %H:%M:%S"@ ==> r@ == timestamp_text(*at),
{
    let date = chrono::NaiveDate::from_ymd_opt(at.year, at.month, at.day).unwrap();
    let time = date.and_hms_opt(at.hour, at.minute, at.second).unwrap();
    time.format(fmt).to_string()
}

/// The last `width` digits of `n`, with zeros in front.
pub open spec fn last_digits(n: nat, width: nat) -> Seq<char>
    decreases width,
{
    if width == 0 {
        Seq::empty()
    } else {
        last_digits(n / 10, (width - 1) as nat).push(digit_char(n % 10))
    }
}

/// The part of a second, in as many groups of three digits as it needs.
pub open spec fn fraction_text(nanosecond: nat) -> Seq<char> {
    if nanosecond == 0 {
        Seq::empty()
    } else if nanosecond % 1_000_000 == 0 {
        "."@ + last_digits(nanosecond / 1_000_000, 3)
    } else if nanosecond % 1_000 == 0 {
        "."@ + last_digits(nanosecond / 1_000, 6)
    } else {
        "."@ + last_digits(nanosecond, 9)
    }
}

/// A moment in universal time, as RFC 3339 writes it.
pub open spec fn rfc3339_text(at: Moment) -> Seq<char> {
    date_text(at) + "T"@ + time_text(at) + fraction_text(at.nanosecond as nat) + "+00:00"@
}

/// `chrono::DateTime::to_rfc3339` writes date and time with a `T` between them, the part of a
/// second in three, six or nine digits or not at all, and the offset from universal time, here
/// none.
#[verifier::external_body]
fn format_rfc3339(at: &Moment) -> (r: String)
    requires
        is_moment(*at),
    ensures
        r@ == rfc3339_text(*at),
{
    let date = chrono::NaiveDate::from_ymd_opt(at.year, at.month, at.day).unwrap();
    let time = date.and_hms_nano_opt(at.hour, at.minute, at.second, at.nanosecond).unwrap();
    time.and_utc().to_rfc3339()
}

/// A moment in universal time, as RFC 3339 writes it.
pub fn rfc3339_at(at: &Moment) -> (r: String)
    requires
        is_moment(*at),
    ensures
        r@ == rfc3339_text(*at),
{
    format_rfc3339(at)
}

/// The moment in universal time, as RFC 3339 writes it.
pub fn now_rfc3339() -> (r: String)
    ensures
        exists|at: Moment| is_moment(at) && r@ == #[trigger] rfc3339_text(at),
{
    let now: Moment = utc_now();
    rfc3339_at(&now)
}

/// The date and the time of day of a moment.
pub fn parts_at(at: &Moment) -> (r: (String, String))
    requires
        is_moment(*at),
    ensures
        r.0@ == date_text(*at),
        r.1@ == time_text(*at),
{
    (format_time(at, "%Y-%m-%d"), format_time(at, "%H:%M:%S"))
}

/// The date and the time of day of a moment in one text.
pub fn timestamp_at(at: &Moment) -> (r: String)
    requires
        is_moment(*at),
    ensures
        r@ == timestamp_text(*at),
{
    format_time(at, "%Y-%m-%d %H:%M:%S")
}

/// The local date and time of day.
pub fn now_parts() -> (r: (String, String))
    ensures
        exists|at: Moment|
            is_moment(at) && r.0@ == #[trigger] date_text(at) && r.1@ == time_text(at),
{
    let now: Moment = local_now();
    parts_at(&now)
}

/// The local date and time of day in one text.
pub fn now_timestamp() -> (r: String)
    ensures
        exists|at: Moment| is_moment(at) && r@ == #[trigger] timestamp_text(at),
{
    let now: Moment = local_now();
    timestamp_at(&now)
}

/// The seconds since the beginning of 1970.
pub fn unix_time() -> (r: i64)
    ensures
        r >= 0,
{
    let now: Moment = local_now();
    now.unix
}

/// The clock never writes a per cent sign.
pub proof fn clock_is_free_of_separators(at: Moment)
    requires
        is_moment(at),
    ensures
        !date_text(at).contains('%'),
        !time_text(at).contains('%'),
        !timestamp_text(at).contains('%'),
{
    reveal_strlit("-");
    reveal_strlit(":");
    reveal_strlit(" ");
    let d = decimal(at.year as nat);
    let year = year_text(at.year as nat);
    crate::number::lemma_decimal_digits(at.year as nat);
    assert forall|i: int| 0 <= i < year.len() implies year[i] != '%' by {
        if at.year <= 9999 {
            assert(is_digit(d[i]));
        } else if i > 0 {
            assert(year[i] == d[i - 1]);
            assert(is_digit(d[i - 1]));
        }
    }
    let date = date_text(at);
    assert forall|i: int| 0 <= i < date.len() implies date[i] != '%' by {
        if i < year.len() {
            assert(date[i] == year[i]);
        }
    }
    let stamp = timestamp_text(at);
    assert forall|i: int| 0 <= i < stamp.len() implies stamp[i] != '%' by {
        if i < date.len() {
            assert(stamp[i] == date[i]);
        }
    }
}

/// The texts of a moment tell its date and its time of day.
pub proof fn texts_tell_the_moment(at: Moment)
    requires
        is_moment(at),
        at.year <= 9999,
    ensures
        ({
            let d = date_text(at);
            let t = time_text(at);
            let digit = |c: char| c as int - 48;
            &&& d.len() == 10 && t.len() == 8
            &&& crate::number::num(crate::number::digit_values(d.take(4))) == at.year
            &&& d[4] == '-' && 10 * digit(d[5]) + digit(d[6]) == at.month
            &&& d[7] == '-' && 10 * digit(d[8]) + digit(d[9]) == at.day
            &&& 10 * digit(t[0]) + digit(t[1]) == at.hour
            &&& t[2] == ':' && 10 * digit(t[3]) + digit(t[4]) == at.minute
            &&& t[5] == ':' && 10 * digit(t[6]) + digit(t[7]) == at.second
            &&& timestamp_text(at) == d + seq![' '] + t
        }),
{
    reveal_strlit("-");
    reveal_strlit(":");
    reveal_strlit(" ");
    let y = decimal(at.year as nat);
    crate::number::lemma_decimal_digits(at.year as nat);
    reveal_with_fuel(decimal, 5);
    assert(y.len() == 4);
    assert(date_text(at).take(4) =~= y);
    assert(timestamp_text(at) =~= date_text(at) + seq![' '] + time_text(at));
}

} // verus!

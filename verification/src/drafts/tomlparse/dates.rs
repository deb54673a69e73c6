//! Dates and times, read with `chrono`.
use chrono::{Datelike, Timelike};
use vstd::prelude::*;
use crate::tomltypes::{Date, DateTime, Time, TimeStamp, TOMLType, TomlValue};
use crate::text::{nat_text, push_nat_text};

verus! {

/// What `chrono::DateTime::parse_from_rfc3339` makes of a string.
pub uninterp spec fn rfc3339_parse(s: Seq<char>) -> Option<TimeStamp>;

/// What `chrono::NaiveDateTime::parse_from_str` makes of a string and format.
pub uninterp spec fn naive_datetime_parse(s: Seq<char>, fmt: Seq<char>) -> Option<DateTime>;

/// What `chrono::NaiveDate::parse_from_str` makes of a string and format.
pub uninterp spec fn naive_date_parse(s: Seq<char>, fmt: Seq<char>) -> Option<Date>;

/// What `chrono::NaiveTime::parse_from_str` makes of a string and format.
pub uninterp spec fn naive_time_parse(s: Seq<char>, fmt: Seq<char>) -> Option<Time>;

/// `chrono::DateTime::parse_from_rfc3339`, its result taken apart into the
/// date, the time of day (local to the offset) and the offset in seconds.
/// Claimed: the outcome is the named `rfc3339_parse` of the text.
#[verifier::external_body]
fn chrono_rfc3339(s: &str) -> (r: Option<TimeStamp>)
    ensures
        r == rfc3339_parse(s@),
{
    let dt = chrono::DateTime::parse_from_rfc3339(s).ok()?;
    let n = dt.naive_local();
    Some(TimeStamp {
        local: DateTime {
            date: Date { year: n.year(), month: n.month(), day: n.day() },
            time: Time { hour: n.hour(), minute: n.minute(), second: n.second(), nanosecond: n.nanosecond() },
        },
        offset_seconds: dt.offset().local_minus_utc(),
    })
}

/// `chrono::NaiveDateTime::parse_from_str`, its result taken apart.
/// Claimed: the outcome is the named `naive_datetime_parse` of text and format.
#[verifier::external_body]
fn chrono_naive_datetime(s: &str, fmt: &str) -> (r: Option<DateTime>)
    ensures
        r == naive_datetime_parse(s@, fmt@),
{
    let n = chrono::NaiveDateTime::parse_from_str(s, fmt).ok()?;
    Some(DateTime {
        date: Date { year: n.year(), month: n.month(), day: n.day() },
        time: Time { hour: n.hour(), minute: n.minute(), second: n.second(), nanosecond: n.nanosecond() },
    })
}

/// `chrono::NaiveDate::parse_from_str`, its result taken apart.
/// Claimed: the outcome is the named `naive_date_parse` of text and format.
#[verifier::external_body]
fn chrono_naive_date(s: &str, fmt: &str) -> (r: Option<Date>)
    ensures
        r == naive_date_parse(s@, fmt@),
{
    let d = chrono::NaiveDate::parse_from_str(s, fmt).ok()?;
    Some(Date { year: d.year(), month: d.month(), day: d.day() })
}

/// `chrono::NaiveTime::parse_from_str`, its result taken apart.
/// Claimed: the outcome is the named `naive_time_parse` of text and format.
#[verifier::external_body]
fn chrono_naive_time(s: &str, fmt: &str) -> (r: Option<Time>)
    ensures
        r == naive_time_parse(s@, fmt@),
{
    let t = chrono::NaiveTime::parse_from_str(s, fmt).ok()?;
    Some(Time { hour: t.hour(), minute: t.minute(), second: t.second(), nanosecond: t.nanosecond() })
}

/// The formats tried for a date and time without offset, in order.
pub open spec fn naive_datetime_format(i: int) -> Seq<char> {
    if i == 0 {
        "%Y-%m-%d %H:%M:%S"@
    } else if i == 1 {
        "%Y-%m-%dT%H:%M:%S"@
    } else if i == 2 {
        "%Y-%m-%d %H:%M:%S.%f"@
    } else {
        "%Y-%m-%dT%H:%M:%S.%f"@
    }
}

/// The format of a date.
pub open spec fn naive_date_format() -> Seq<char> {
    "%Y-%m-%d"@
}

/// The formats tried for a time of day, in order.
pub open spec fn naive_time_format(i: int) -> Seq<char> {
    if i == 0 {
        "%H:%M:%S.%f"@
    } else {
        "%H:%M:%S"@
    }
}

/// The first of the formats `0..n` under which `s` reads as a date and time.
pub open spec fn first_datetime(s: Seq<char>, i: int) -> Option<DateTime>
    decreases 4 - i,
{
    if i < 0 || i >= 4 {
        None
    } else {
        match naive_datetime_parse(s, naive_datetime_format(i)) {
            Some(v) => Some(v),
            None => first_datetime(s, i + 1),
        }
    }
}

/// The first of the time formats under which `s` reads as a time of day.
pub open spec fn first_time(s: Seq<char>) -> Option<Time> {
    match naive_time_parse(s, naive_time_format(0)) {
        Some(v) => Some(v),
        None => naive_time_parse(s, naive_time_format(1)),
    }
}

/// What a date-like text becomes: an offset date-time (RFC 3339), else a
/// local date-time, else a date, else a time of day.
pub open spec fn dt_parse(s: Seq<char>) -> Option<TomlValue> {
    match rfc3339_parse(s) {
        Some(v) => Some(TomlValue::TimeStamp(v)),
        None => match first_datetime(s, 0) {
            Some(v) => Some(TomlValue::NaiveDateTime(v)),
            None => match naive_date_parse(s, naive_date_format()) {
                Some(v) => Some(TomlValue::Date(v)),
                None => match first_time(s) {
                    Some(v) => Some(TomlValue::Time(v)),
                    None => None,
                },
            },
        },
    }
}

/// A date-like text as an offset date-time, a local date-time, a date or a
/// time of day, trying them in that order.
pub fn try_naive_dtparse(s: &str) -> (r: Option<TOMLType>)
    ensures
        r matches Some(v) ==> dt_parse(s@) == Some(v@),
        r is None ==> dt_parse(s@) is None,
{
    if let Some(val) = chrono_rfc3339(s) {
        Some(TOMLType::TimeStamp(val))
    } else if let Some(val) = try_naive_datetime(s) {
        Some(TOMLType::NaiveDateTime(val))
    } else if let Some(val) = try_naive_date(s) {
        Some(TOMLType::Date(val))
    } else if let Some(val) = try_naive_time(s) {
        Some(TOMLType::Time(val))
    } else {
        None
    }
}

/// A date and time without offset, under the first format that fits.
pub fn try_naive_datetime(s: &str) -> (r: Option<DateTime>)
    ensures
        r == first_datetime(s@, 0),
{
    let formats: [&str; 4] = [
        "%Y-%m-%d %H:%M:%S",
        "%Y-%m-%dT%H:%M:%S",
        "%Y-%m-%d %H:%M:%S.%f",
        "%Y-%m-%dT%H:%M:%S.%f",
    ];
    proof {
        assert(formats@[0]@ == naive_datetime_format(0));
        assert(formats@[1]@ == naive_datetime_format(1));
        assert(formats@[2]@ == naive_datetime_format(2));
        assert(formats@[3]@ == naive_datetime_format(3));
    }
    let mut i: usize = 0;
    while i < 4
        invariant
            i <= 4,
            forall|j: int| 0 <= j < 4 ==> (#[trigger] formats@[j])@ == naive_datetime_format(j),
            first_datetime(s@, 0) == first_datetime(s@, i as int),
        decreases 4 - i,
    {
        if let Some(val) = chrono_naive_datetime(s, formats[i]) {
            return Some(val);
        }
        i = i + 1;
    }
    None
}

/// A date in the form `%Y-%m-%d`.
pub fn try_naive_date(s: &str) -> (r: Option<Date>)
    ensures
        r == naive_date_parse(s@, naive_date_format()),
{
    chrono_naive_date(s, "%Y-%m-%d")
}

/// A time of day, with or without fractional seconds.
pub fn try_naive_time(s: &str) -> (r: Option<Time>)
    ensures
        r == first_time(s@),
{
    if let Some(val) = chrono_naive_time(s, "%H:%M:%S.%f") {
        return Some(val);
    }
    chrono_naive_time(s, "%H:%M:%S")
}

} // verus!

verus! {

/// A number in decimal, with zeros in front up to `w` digits.
pub open spec fn zero_pad(n: nat, w: nat) -> Seq<char> {
    let s = nat_text(n);
    if s.len() >= w {
        s
    } else {
        Seq::new((w - s.len()) as nat, |i: int| '0') + s
    }
}

/// A leap year of the proleptic Gregorian calendar.
pub open spec fn leap_year(y: int) -> bool {
    y % 4 == 0 && (y % 100 != 0 || y % 400 == 0)
}

/// The number of days of month `m` of year `y`.
pub open spec fn month_days(y: int, m: int) -> int {
    if m == 2 {
        if leap_year(y) { 29 } else { 28 }
    } else if m == 4 || m == 6 || m == 9 || m == 11 {
        30
    } else {
        31
    }
}

/// Whether chrono's `NaiveDate::from_ymd_opt` builds a date from these
/// fields: a year in chrono's range, a month and a day of that month.
pub open spec fn chrono_date_ok(d: Date) -> bool {
    &&& -262143 <= d.year <= 262142
    &&& 1 <= d.month <= 12
    &&& 1 <= d.day <= month_days(d.year as int, d.month as int)
}

/// How chrono writes a year: four digits from 0 to 9999, otherwise a sign
/// and at least four digits.
pub open spec fn year_text(y: int) -> Seq<char> {
    if 0 <= y <= 9999 {
        zero_pad(y as nat, 4)
    } else if y < 0 {
        seq!['-'] + zero_pad((-y) as nat, 4)
    } else {
        seq!['+'] + zero_pad(y as nat, 4)
    }
}

/// How `chrono` writes a date (its `Display` of `NaiveDate`, `%Y-%m-%d`),
/// where chrono can build a date from these fields.
pub open spec fn chrono_date_display(d: Date) -> Option<Seq<char>> {
    if chrono_date_ok(d) {
        Some(year_text(d.year as int) + seq!['-'] + pad2(d.month as nat) + seq!['-'] + pad2(d.day as nat))
    } else {
        None
    }
}

/// Whether chrono's `NaiveTime::from_hms_nano_opt` builds a time from these
/// fields; a nanosecond count of a second or more marks a leap second,
/// allowed only at second 59.
pub open spec fn chrono_time_ok(t: Time) -> bool {
    &&& t.hour < 24
    &&& t.minute < 60
    &&& t.second < 60
    &&& t.nanosecond < 2_000_000_000
    &&& t.nanosecond >= 1_000_000_000 ==> t.second == 59
}

/// The fraction of a second as chrono writes it: nothing for none, else a
/// point and three, six or nine digits, the fewest that hold it exactly.
pub open spec fn frac_text(nano: nat) -> Seq<char> {
    if nano == 0 {
        Seq::empty()
    } else if nano % 1_000_000 == 0 {
        seq!['.'] + zero_pad(nano / 1_000_000, 3)
    } else if nano % 1000 == 0 {
        seq!['.'] + zero_pad(nano / 1000, 6)
    } else {
        seq!['.'] + zero_pad(nano, 9)
    }
}

/// How `chrono` writes a time of day (its `Display` of `NaiveTime`,
/// `%H:%M:%S` and the fraction; a leap second shows as second 60), where
/// chrono can build a time from these fields.
pub open spec fn chrono_time_display(t: Time) -> Option<Seq<char>> {
    if chrono_time_ok(t) {
        let leap = t.nanosecond >= 1_000_000_000;
        let sec: nat = if leap { (t.second + 1) as nat } else { t.second as nat };
        let nano: nat = if leap { (t.nanosecond - 1_000_000_000) as nat } else { t.nanosecond as nat };
        Some(pad2(t.hour as nat) + seq![':'] + pad2(t.minute as nat) + seq![':'] + pad2(sec) + frac_text(nano))
    } else {
        None
    }
}

/// How a date is written: as chrono writes it; nothing where chrono builds
/// no date from the fields (no parsed date is such).
pub open spec fn date_text(d: Date) -> Seq<char> {
    match chrono_date_display(d) {
        Some(t) => t,
        None => Seq::empty(),
    }
}

/// How a time of day is written: as chrono writes it; nothing where chrono
/// builds no time from the fields (no parsed time is such).
pub open spec fn time_text(t: Time) -> Seq<char> {
    match chrono_time_display(t) {
        Some(s) => s,
        None => Seq::empty(),
    }
}

/// `chrono::NaiveDate::from_ymd_opt` on the fields, then its `Display`.
/// Claimed: `None` exactly where the fields are no date of chrono's range,
/// else the date written as `chrono_date_display` says.
#[verifier::external_body]
fn chrono_date_text(d: Date) -> (r: Option<String>)
    ensures
        match chrono_date_display(d) {
            Some(t) => r matches Some(s) && s@ == t,
            None => r is None,
        },
{
    match chrono::NaiveDate::from_ymd_opt(d.year, d.month, d.day) {
        Some(v) => Some(v.to_string()),
        None => None,
    }
}

/// `chrono::NaiveTime::from_hms_nano_opt` on the fields, then its `Display`.
/// Claimed: `None` exactly where the fields are no time of day, else the
/// time written as `chrono_time_display` says.
#[verifier::external_body]
fn chrono_time_text(t: Time) -> (r: Option<String>)
    ensures
        match chrono_time_display(t) {
            Some(s) => r matches Some(x) && x@ == s,
            None => r is None,
        },
{
    match chrono::NaiveTime::from_hms_nano_opt(t.hour, t.minute, t.second, t.nanosecond) {
        Some(v) => Some(v.to_string()),
        None => None,
    }
}

/// A number written with at least two digits.
pub open spec fn pad2(n: nat) -> Seq<char> {
    if n < 10 {
        seq!['0'] + nat_text(n)
    } else {
        nat_text(n)
    }
}

/// How an offset from UTC is written: a sign, hours and minutes, and the
/// seconds when there are any (`+09:00`, `-04:30:15`).
pub open spec fn offset_text(secs: int) -> Seq<char> {
    let sign = if secs < 0 { '-' } else { '+' };
    let a: nat = if secs < 0 { (-secs) as nat } else { secs as nat };
    let sec = a % 60;
    let mins = a / 60;
    let base = seq![sign] + pad2(mins / 60) + seq![':'] + pad2(mins % 60);
    if sec == 0 {
        base
    } else {
        base + seq![':'] + pad2(sec)
    }
}

/// How a date and time is written: the date, a space, the time.
pub open spec fn datetime_text(d: DateTime) -> Seq<char> {
    date_text(d.date) + seq![' '] + time_text(d.time)
}

/// How a date and time with offset is written: the local date and time,
/// a space, the offset.
pub open spec fn timestamp_text(t: TimeStamp) -> Seq<char> {
    datetime_text(t.local) + seq![' '] + offset_text(t.offset_seconds as int)
}

fn push_pad2(out: &mut Vec<char>, n: u64)
    ensures
        final(out)@ == old(out)@ + pad2(n as nat),
{
    if n < 10 {
        out.push('0');
    }
    let ghost mid = out@;
    push_nat_text(out, n);
    assert(final(out)@ =~= old(out)@ + pad2(n as nat));
}

/// Writes an offset from UTC (seconds east) as `chrono` does.
pub fn offset_to_text(secs: i32) -> (r: Vec<char>)
    ensures
        r@ == offset_text(secs as int),
{
    let mut out: Vec<char> = Vec::new();
    let a: u64 = if secs < 0 { (0 - (secs as i64)) as u64 } else { secs as u64 };
    if secs < 0 {
        out.push('-');
    } else {
        out.push('+');
    }
    let sec = a % 60;
    let mins = a / 60;
    push_pad2(&mut out, mins / 60);
    out.push(':');
    push_pad2(&mut out, mins % 60);
    if sec != 0 {
        out.push(':');
        push_pad2(&mut out, sec);
    }
    assert(out@ =~= offset_text(secs as int));
    out
}

/// Writes a date as `chrono` does.
pub fn date_to_text(d: Date) -> (r: String)
    ensures
        r@ == date_text(d),
{
    match chrono_date_text(d) {
        Some(s) => s,
        None => String::new(),
    }
}

/// Writes a time of day as `chrono` does.
pub fn time_to_text(t: Time) -> (r: String)
    ensures
        r@ == time_text(t),
{
    match chrono_time_text(t) {
        Some(s) => s,
        None => String::new(),
    }
}

} // verus!

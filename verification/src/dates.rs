//! Calendar dates, and the calendar computations that `chrono` does for the library.
use vstd::prelude::*;

use chrono::Datelike;

verus! {

/// The first year that `chrono::NaiveDate` can hold.
pub const MIN_YEAR: i32 = -262143;

/// The last year that `chrono::NaiveDate` can hold.
pub const MAX_YEAR: i32 = 262142;

/// The last second, counted from the Unix epoch, of `chrono`'s range (262142-12-31T23:59:59 UTC).
pub const MAX_EPOCH_SECONDS: i64 = 8_210_266_876_799;

/// A date of the proleptic Gregorian calendar, in the range of `chrono::NaiveDate`.
#[derive(Clone, Copy, PartialEq, Eq, Structural, Hash, Debug)]
pub struct CalendarDate {
    pub year: i32,
    /// Month number (1–12).
    pub month: u32,
    /// Day of the month (from 1).
    pub day: u32,
}

pub open spec fn is_leap_year(year: int) -> bool {
    (year % 4 == 0 && year % 100 != 0) || year % 400 == 0
}

pub open spec fn days_in_month(year: int, month: int) -> int {
    if month == 2 {
        if is_leap_year(year) { 29 } else { 28 }
    } else if month == 4 || month == 6 || month == 9 || month == 11 {
        30
    } else {
        31
    }
}

impl CalendarDate {
    /// The date exists in the calendar and lies in the range of `chrono::NaiveDate`.
    pub open spec fn valid(self) -> bool {
        &&& MIN_YEAR <= self.year <= MAX_YEAR
        &&& 1 <= self.month <= 12
        &&& 1 <= self.day <= days_in_month(self.year as int, self.month as int)
    }

    /// Chronological order.
    pub open spec fn spec_before(self, other: CalendarDate) -> bool {
        ||| self.year < other.year
        ||| (self.year == other.year && self.month < other.month)
        ||| (self.year == other.year && self.month == other.month && self.day < other.day)
    }

    /// Whether the date exists and lies in the range of `chrono::NaiveDate`.
    pub fn is_valid(&self) -> (r: bool)
        ensures
            r == self.valid(),
    {
        if self.year < MIN_YEAR || self.year > MAX_YEAR || self.month < 1 || self.month > 12 || self.day < 1 {
            return false;
        }
        let leap = (self.year % 4 == 0 && self.year % 100 != 0) || self.year % 400 == 0;
        let days: u32 = if self.month == 2 {
            if leap { 29 } else { 28 }
        } else if self.month == 4 || self.month == 6 || self.month == 9 || self.month == 11 {
            30
        } else {
            31
        };
        self.day <= days
    }

    /// Whether `self` comes strictly before `other`.
    pub fn before(&self, other: &CalendarDate) -> (r: bool)
        ensures
            r == self.spec_before(*other),
    {
        self.year < other.year || (self.year == other.year && self.month < other.month) || (self.year
            == other.year && self.month == other.month && self.day < other.day)
    }
}

/// The earlier of two dates by `before`, or the first when neither is before the other.
pub open spec fn min_date(a: CalendarDate, b: CalendarDate) -> CalendarDate {
    if b.spec_before(a) { b } else { a }
}

/// The earliest of a list of dates.
pub open spec fn earliest_of(dates: Seq<CalendarDate>) -> CalendarDate
    recommends
        dates.len() > 0,
    decreases dates.len(),
{
    if dates.len() <= 1 {
        dates[0]
    } else {
        min_date(earliest_of(dates.drop_last()), dates.last())
    }
}

/// The earliest of the given dates, `None` when there is none.
pub fn earliest_date(dates: &Vec<CalendarDate>) -> (r: Option<CalendarDate>)
    ensures
        dates@.len() == 0 ==> r is None,
        dates@.len() > 0 ==> r == Some(earliest_of(dates@)),
{
    if dates.len() == 0 {
        return None;
    }
    let mut best = dates[0];
    let mut i: usize = 1;
    while i < dates.len()
        invariant
            1 <= i <= dates@.len(),
            best == earliest_of(dates@.take(i as int)),
        decreases dates@.len() - i,
    {
        assert(dates@.take(i + 1).drop_last() =~= dates@.take(i as int));
        if dates[i].before(&best) {
            best = dates[i];
        }
        i = i + 1;
    }
    assert(dates@.take(dates@.len() as int) =~= dates@);
    Some(best)
}

/// The day of the week of January 1st of a year of the proleptic Gregorian calendar, from 0
/// for Sunday to 6 for Saturday.
pub open spec fn jan1_weekday(year: int) -> int {
    let y = year - 1;
    (1 + 5 * (y % 4) + 4 * (y % 100) + 6 * (y % 400)) % 7
}

/// An ISO year has a week 53 when it starts on a Thursday, or on a Wednesday in a leap year.
pub open spec fn iso_year_has_53_weeks(year: int) -> bool {
    jan1_weekday(year) == 4 || (is_leap_year(year) && jan1_weekday(year) == 3)
}

/// The ISO week date (ISO year, week number) of a calendar date, as `chrono` computes it.
pub uninterp spec fn iso_week_of_date(year: i32, month: u32, day: u32) -> (i32, u32);

/// The UTC calendar date of an instant given in seconds since the Unix epoch, as `chrono`
/// computes it.
pub uninterp spec fn utc_date_of(seconds: i64) -> CalendarDate;

/// Asks `chrono::NaiveDate::from_isoywd_opt(year, 53, Weekday::Mon)` whether the ISO year has a
/// week 53. Trusted: chrono's table of year flags gives 53 weeks to the years that start on a
/// Thursday, or on a Wednesday in a leap year, and the Monday of week 53 (December 22 to 28)
/// exists as a date when the year is in chrono's range; outside of it the answer is `false`.
#[verifier::external_body]
pub(crate) fn has_iso_week_53(year: i32) -> (r: bool)
    ensures
        r == (MIN_YEAR <= year <= MAX_YEAR && iso_year_has_53_weeks(year as int)),
{
    chrono::NaiveDate::from_isoywd_opt(year, 53, chrono::Weekday::Mon).is_some()
}

/// The ISO week date of a valid date, by `chrono::NaiveDate::iso_week`. Trusted: the result is
/// named `iso_week_of_date`; chrono's source gives a week number between 1 and 53 and an ISO year
/// that differs from the calendar year by at most one.
#[verifier::external_body]
pub(crate) fn iso_week(date: CalendarDate) -> (r: (i32, u32))
    requires
        date.valid(),
    ensures
        r == iso_week_of_date(date.year, date.month, date.day),
        1 <= r.1 <= 53,
        date.year - 1 <= r.0 <= date.year + 1,
{
    let d = chrono::NaiveDate::from_ymd_opt(date.year, date.month, date.day).unwrap();
    let w = d.iso_week();
    (w.year(), w.week())
}

/// The UTC date of an instant, as `UNIX_EPOCH` converted to `chrono::DateTime<Utc>` plus
/// `std::time::Duration::from_secs(seconds)` gives it. Trusted: the result is named
/// `utc_date_of` and is a valid date (a `chrono` date always is). The bounds keep the conversion
/// to `u64` exact and the sum inside chrono's range, where the addition does not panic.
#[verifier::external_body]
pub fn datetime_from_epoch_seconds(seconds: i64) -> (r: CalendarDate)
    requires
        0 <= seconds <= MAX_EPOCH_SECONDS,
    ensures
        r == utc_date_of(seconds),
        r.valid(),
{
    let epoch: chrono::DateTime<chrono::Utc> = std::time::UNIX_EPOCH.into();
    let t = epoch + std::time::Duration::from_secs(seconds as u64);
    CalendarDate { year: t.year(), month: t.month(), day: t.day() }
}

/// Today's date in UTC, from `chrono::Utc::now`. Trusted: only that it is a valid date (a
/// chrono date always is); which day it is depends on the clock.
#[verifier::external_body]
pub(crate) fn today_utc() -> (r: CalendarDate)
    ensures
        r.valid(),
{
    let today = chrono::Utc::now().date_naive();
    CalendarDate { year: today.year(), month: today.month(), day: today.day() }
}

} // verus!

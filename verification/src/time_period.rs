//! Discrete time periods (ISO weeks, months, quarters) used as snapshot keys of the time series.
use vstd::prelude::*;

use crate::dates::{
    CalendarDate, MAX_YEAR, MIN_YEAR, has_iso_week_53, iso_week, iso_week_of_date, iso_year_has_53_weeks, today_utc,
};
use crate::text::{decimal, decimal2, push_decimal, push_decimal2, string_from_chars};

verus! {

/// The order of (year, number within the year) keys: the order that `derive(Ord)` gives the
/// period types.
pub open spec fn key_before(a: (int, int), b: (int, int)) -> bool {
    a.0 < b.0 || (a.0 == b.0 && a.1 < b.1)
}

/// A discrete time period used as a snapshot key in the time series.
pub trait TimePeriod: Sized + Copy {
    /// The period's fields are in range.
    spec fn well_formed(&self) -> bool;

    /// The year and the number of the period within it; periods are ordered by this key.
    spec fn key(&self) -> (int, int);

    /// A position on the time line that grows with the order of keys.
    spec fn rank(&self) -> int;

    /// The period that `inc` moves to.
    spec fn successor(&self) -> Self;

    /// `inc` can move on from this period: its successor is representable (only the last periods
    /// of the year `i32::MAX` have none).
    spec fn has_successor(&self) -> bool;

    /// The period exists in the calendar: it is well formed, and a week 53 falls in an ISO year
    /// that has one.
    spec fn in_calendar(&self) -> bool;

    /// The period that contains a date.
    spec fn period_of(date: CalendarDate) -> Self;

    /// The text of the period's label.
    spec fn label_text(&self) -> Seq<char>;

    /// The text of the axis label of this kind of period.
    spec fn axis_text() -> Seq<char>;

    /// Between well-formed periods, the order of keys is the order of ranks, and the key
    /// identifies the period.
    proof fn lemma_order(a: Self, b: Self)
        requires
            a.well_formed(),
            b.well_formed(),
        ensures
            key_before(a.key(), b.key()) <==> a.rank() < b.rank(),
            a.key() == b.key() <==> a == b,
    ;

    /// The successor of a well-formed period is a later well-formed period, in the same year or
    /// the next.
    proof fn lemma_successor(a: Self)
        requires
            a.well_formed(),
            a.has_successor(),
        ensures
            a.successor().well_formed(),
            key_before(a.key(), a.successor().key()),
            a.successor().key().0 <= a.key().0 + 1,
    ;

    /// Every period of a year before the last has a successor, and so has every period that
    /// comes at or before one that has a successor.
    proof fn lemma_has_successor(a: Self, b: Self)
        requires
            a.well_formed(),
            a.key().0 < i32::MAX || (b.has_successor() && !key_before(b.key(), a.key())),
        ensures
            a.has_successor(),
    ;

    /// A well-formed period that does not come after `b` (well formed or not) has at most its
    /// rank.
    proof fn lemma_rank_le(a: Self, b: Self)
        requires
            a.well_formed(),
            !key_before(b.key(), a.key()),
        ensures
            a.rank() <= b.rank(),
    ;

    /// The successor of a period comes at or before every later period of the calendar: `inc`
    /// skips none.
    proof fn lemma_successor_next(a: Self, b: Self)
        requires
            a.well_formed(),
            a.has_successor(),
            b.in_calendar(),
            key_before(a.key(), b.key()),
        ensures
            !key_before(b.key(), a.successor().key()),
    ;

    /// The rank stays within 53 periods per year of the year.
    proof fn lemma_rank_range(a: Self)
        requires
            a.well_formed(),
        ensures
            a.key().0 >= 0 ==> 0 <= a.rank() <= 53 * a.key().0 + 53,
            a.key().0 < 0 ==> 53 * a.key().0 - 53 <= a.rank() <= 0,
    ;

    /// Advances to the next period in place.
    fn inc(&mut self)
        requires
            old(self).well_formed(),
            old(self).has_successor(),
        ensures
            *final(self) == old(self).successor(),
    ;

    /// Whether `self` comes strictly before `other` (the derived `<`).
    fn precedes(&self, other: &Self) -> (r: bool)
        ensures
            r == key_before(self.key(), other.key()),
    ;

    /// Whether two periods are the same.
    fn same(&self, other: &Self) -> (r: bool)
        ensures
            r == (*self == *other),
    ;

    /// The period that contains a valid date.
    fn from_date(date: CalendarDate) -> (r: Self)
        requires
            date.valid(),
        ensures
            r == Self::period_of(date),
            r.well_formed(),
            date.year - 1 <= r.key().0 <= date.year + 1,
    ;

    /// Human-readable label for the x-axis ("Week", "Month" or "Quarter").
    fn axis_label() -> (r: String)
        ensures
            r@ == Self::axis_text(),
    ;

    /// The period as the report prints it (e.g. "2024-03", "2024-Q1", "2024-W09").
    fn label(&self) -> (r: String)
        ensures
            r@ == self.label_text(),
    ;
}

/// Returns an inclusive iterator from `start` to `end`.
pub fn iter_to<P: TimePeriod>(start: P, end: P) -> (r: PeriodIter<P>)
    requires
        start.well_formed(),
        end.has_successor(),
    ensures
        r.wf(),
        r.remaining() == periods_from(start, end),
{
    PeriodIter { current: start, last: end }
}

/// The period that contains today (UTC).
pub fn current_period<P: TimePeriod>() -> (r: P)
    ensures
        r.well_formed(),
        r.key().0 <= MAX_YEAR + 1,
        exists|d: CalendarDate| d.valid() && r == P::period_of(d),
{
    P::from_date(today_utc())
}

/// `a` comes at or before `b`.
pub open spec fn period_le<P: TimePeriod>(a: P, b: P) -> bool {
    !key_before(b.key(), a.key())
}

/// A measure of how many steps separate `a` from `b`.
pub open spec fn gap<P: TimePeriod>(a: P, b: P) -> nat {
    if b.rank() >= a.rank() {
        (b.rank() - a.rank() + 1) as nat
    } else {
        0
    }
}

/// The periods that an inclusive iteration from `start` to `end` visits: `start`, its successor
/// and so on, as long as they do not come after `end` (which need not be well formed).
pub open spec fn periods_from<P: TimePeriod>(start: P, end: P) -> Seq<P>
    decreases gap(start, end),
{
    if !(start.well_formed() && end.has_successor()) {
        Seq::empty()
    } else if key_before(end.key(), start.key()) {
        Seq::empty()
    } else {
        proof {
            P::lemma_has_successor(start, end);
            P::lemma_rank_le(start, end);
            P::lemma_successor(start);
            P::lemma_order(start, start.successor());
        }
        seq![start] + periods_from(start.successor(), end)
    }
}

/// The periods from `start` to `end` are well formed, in strictly increasing order, each the
/// successor of the one before, starting at `start` and never past `end`.
pub proof fn lemma_periods_from<P: TimePeriod>(start: P, end: P)
    ensures
        ({
            let s = periods_from(start, end);
            &&& forall|i: int| 0 <= i < s.len() ==> (#[trigger] s[i]).well_formed() && period_le(s[i], end)
                && s[i].has_successor() && !key_before(s[i].key(), start.key())
            &&& forall|i: int, j: int| 0 <= i < j < s.len() ==> key_before((#[trigger] s[i]).key(), (#[trigger] s[j]).key())
            &&& s.len() > 0 ==> s[0] == start
            &&& forall|i: int| 0 <= i < s.len() - 1 ==> #[trigger] s[i + 1] == s[i].successor()
        }),
    decreases gap(start, end),
{
    let s = periods_from(start, end);
    if start.well_formed() && end.has_successor() && !key_before(end.key(), start.key()) {
        P::lemma_has_successor(start, end);
        P::lemma_rank_le(start, end);
        P::lemma_successor(start);
        P::lemma_order(start, start.successor());
        let next = start.successor();
        lemma_periods_from(next, end);
        let t = periods_from(next, end);
        assert(s == seq![start] + t);
        assert forall|i: int| 0 <= i < s.len() implies (#[trigger] s[i]).well_formed() && period_le(s[i], end)
            && s[i].has_successor() && !key_before(s[i].key(), start.key()) by {
            if i > 0 {
                assert(s[i] == t[i - 1]);
            }
        }
        assert forall|i: int, j: int| 0 <= i < j < s.len() implies key_before((#[trigger] s[i]).key(), (#[trigger] s[j]).key()) by {
            assert(s[j] == t[j - 1]);
            if i > 0 {
                assert(s[i] == t[i - 1]);
            }
        }
        assert forall|i: int| 0 <= i < s.len() - 1 implies #[trigger] s[i + 1] == s[i].successor() by {
            assert(s[i + 1] == t[i]);
            if i > 0 {
                assert(s[i] == t[i - 1]);
                assert(t[(i - 1) + 1] == t[i - 1].successor());
            } else {
                assert(s[0] == start);
                assert(t[0] == next);
            }
        }
    }
}

/// An inclusive iteration from a period to a later (or the same) period of the calendar ends
/// exactly at that period.
pub proof fn lemma_periods_end<P: TimePeriod>(start: P, end: P)
    requires
        start.well_formed(),
        end.well_formed(),
        end.in_calendar(),
        end.has_successor(),
        period_le(start, end),
    ensures
        periods_from(start, end).len() > 0,
        periods_from(start, end).last() == end,
    decreases gap(start, end),
{
    P::lemma_has_successor(start, end);
    P::lemma_order(start, end);
    P::lemma_successor(start);
    P::lemma_order(start, start.successor());
    let next = start.successor();
    let s = periods_from(start, end);
    assert(s == seq![start] + periods_from(next, end));
    if start == end {
        assert(key_before(end.key(), next.key()));
        assert(periods_from(next, end).len() == 0);
    } else {
        P::lemma_successor_next(start, end);
        lemma_periods_end(next, end);
    }
}

/// An inclusive iteration visits at most as many periods as its ranks span.
pub proof fn lemma_periods_len<P: TimePeriod>(start: P, end: P)
    ensures
        periods_from(start, end).len() <= gap(start, end),
    decreases gap(start, end),
{
    if start.well_formed() && end.has_successor() && !key_before(end.key(), start.key()) {
        P::lemma_has_successor(start, end);
        P::lemma_rank_le(start, end);
        P::lemma_successor(start);
        P::lemma_order(start, start.successor());
        lemma_periods_len(start.successor(), end);
    }
}

/// Inclusive iterator over consecutive time periods.
pub struct PeriodIter<P> {
    current: P,
    last: P,
}

impl<P: TimePeriod> PeriodIter<P> {
    /// The iterator's state is consistent.
    pub closed spec fn wf(&self) -> bool {
        self.current.well_formed() && self.last.has_successor()
    }

    /// The periods that the iterator has still to yield.
    pub closed spec fn remaining(&self) -> Seq<P> {
        periods_from(self.current, self.last)
    }

    /// Yields the next period, or `None` once the iteration has passed its end (and from then on).
    pub fn next(&mut self) -> (r: Option<P>)
        requires
            old(self).wf(),
        ensures
            final(self).wf(),
            old(self).remaining().len() == 0 ==> r is None && final(self).remaining() == old(self).remaining(),
            old(self).remaining().len() > 0 ==> r == Some(old(self).remaining()[0])
                && final(self).remaining() == old(self).remaining().drop_first(),
    {
        proof {
            reveal_with_fuel(periods_from, 2);
        }
        if self.last.precedes(&self.current) {
            return None;
        }
        let result = self.current;
        proof {
            P::lemma_has_successor(self.current, self.last);
            P::lemma_successor(self.current);
            assert(self.remaining() =~= seq![result] + periods_from(result.successor(), self.last));
        }
        self.current.inc();
        proof {
            assert(old(self).remaining().drop_first() =~= periods_from(result.successor(), self.last));
        }
        Some(result)
    }

    /// All the periods that the iterator has still to yield, in order.
    pub fn collect_all(self) -> (r: Vec<P>)
        requires
            self.wf(),
        ensures
            r@ == self.remaining(),
    {
        let mut it = self;
        let mut r: Vec<P> = Vec::new();
        loop
            invariant
                it.wf(),
                r@ + it.remaining() == self.remaining(),
            decreases it.remaining().len(),
        {
            let ghost before = it.remaining();
            match it.next() {
                Some(p) => {
                    r.push(p);
                    assert(r@ + it.remaining() =~= self.remaining());
                },
                None => {
                    assert(r@ =~= self.remaining());
                    return r;
                },
            }
        }
    }
}

/// The number of ISO weeks of an ISO year: 53 for a year in `chrono`'s range that has a week 53,
/// else 52.
pub open spec fn iso_weeks_in_year(year: i32) -> u32 {
    if MIN_YEAR <= year <= MAX_YEAR && iso_year_has_53_weeks(year as int) {
        53
    } else {
        52
    }
}

fn weeks_in_year(year: i32) -> (r: u32)
    ensures
        r == iso_weeks_in_year(year),
{
    if has_iso_week_53(year) {
        53
    } else {
        52
    }
}

// ---------------------------------------------------------------------------
// YearMonth
// ---------------------------------------------------------------------------
/// A calendar month.
#[derive(Debug, Clone, Copy, PartialEq, Eq, Structural, PartialOrd, Ord, Hash)]
pub struct YearMonth {
    pub year: i32,
    /// ISO month number (1–12).
    pub month: u32,
}

impl TimePeriod for YearMonth {
    open spec fn well_formed(&self) -> bool {
        1 <= self.month <= 12
    }

    open spec fn key(&self) -> (int, int) {
        (self.year as int, self.month as int)
    }

    open spec fn rank(&self) -> int {
        self.year * 12 + self.month
    }

    open spec fn successor(&self) -> Self {
        if self.month == 12 {
            YearMonth { year: (self.year + 1) as i32, month: 1 }
        } else {
            YearMonth { year: self.year, month: (self.month + 1) as u32 }
        }
    }

    open spec fn has_successor(&self) -> bool {
        self.month < 12 || self.year < i32::MAX
    }

    open spec fn in_calendar(&self) -> bool {
        self.well_formed()
    }

    open spec fn period_of(date: CalendarDate) -> Self {
        YearMonth { year: date.year, month: date.month }
    }

    open spec fn label_text(&self) -> Seq<char> {
        decimal(self.year as int) + seq!['-'] + decimal2(self.month as nat)
    }

    open spec fn axis_text() -> Seq<char> {
        "Month"@
    }

    proof fn lemma_order(a: Self, b: Self) {
    }

    proof fn lemma_successor(a: Self) {
    }

    proof fn lemma_has_successor(a: Self, b: Self) {
    }

    proof fn lemma_rank_le(a: Self, b: Self) {
    }

    proof fn lemma_successor_next(a: Self, b: Self) {
    }

    proof fn lemma_rank_range(a: Self) {
    }

    fn inc(&mut self) {
        if self.month == 12 {
            self.year = self.year + 1;
            self.month = 1;
        } else {
            self.month = self.month + 1;
        }
    }

    fn precedes(&self, other: &Self) -> (r: bool) {
        self.year < other.year || (self.year == other.year && self.month < other.month)
    }

    fn same(&self, other: &Self) -> (r: bool) {
        self.year == other.year && self.month == other.month
    }

    fn from_date(date: CalendarDate) -> (r: Self) {
        YearMonth { year: date.year, month: date.month }
    }

    fn axis_label() -> (r: String) {
        String::from_str("Month")
    }

    fn label(&self) -> (r: String) {
        let mut v: Vec<char> = Vec::new();
        push_decimal(self.year as i64, &mut v);
        v.push('-');
        push_decimal2(self.month as u64, &mut v);
        assert(v@ =~= self.label_text());
        string_from_chars(&v)
    }
}

// ---------------------------------------------------------------------------
// YearQuarter
// ---------------------------------------------------------------------------
/// A quarter of a calendar year.
#[derive(Debug, Clone, Copy, PartialEq, Eq, Structural, PartialOrd, Ord, Hash)]
pub struct YearQuarter {
    pub year: i32,
    /// Quarter number (1–4).
    pub quarter: u32,
}

impl TimePeriod for YearQuarter {
    open spec fn well_formed(&self) -> bool {
        1 <= self.quarter <= 4
    }

    open spec fn key(&self) -> (int, int) {
        (self.year as int, self.quarter as int)
    }

    open spec fn rank(&self) -> int {
        self.year * 4 + self.quarter
    }

    open spec fn successor(&self) -> Self {
        if self.quarter == 4 {
            YearQuarter { year: (self.year + 1) as i32, quarter: 1 }
        } else {
            YearQuarter { year: self.year, quarter: (self.quarter + 1) as u32 }
        }
    }

    open spec fn has_successor(&self) -> bool {
        self.quarter < 4 || self.year < i32::MAX
    }

    open spec fn in_calendar(&self) -> bool {
        self.well_formed()
    }

    open spec fn period_of(date: CalendarDate) -> Self {
        YearQuarter { year: date.year, quarter: ((date.month - 1) / 3 + 1) as u32 }
    }

    open spec fn label_text(&self) -> Seq<char> {
        decimal(self.year as int) + seq!['-', 'Q'] + decimal(self.quarter as int)
    }

    open spec fn axis_text() -> Seq<char> {
        "Quarter"@
    }

    proof fn lemma_order(a: Self, b: Self) {
    }

    proof fn lemma_successor(a: Self) {
    }

    proof fn lemma_has_successor(a: Self, b: Self) {
    }

    proof fn lemma_rank_le(a: Self, b: Self) {
    }

    proof fn lemma_successor_next(a: Self, b: Self) {
    }

    proof fn lemma_rank_range(a: Self) {
    }

    fn inc(&mut self) {
        if self.quarter == 4 {
            self.year = self.year + 1;
            self.quarter = 1;
        } else {
            self.quarter = self.quarter + 1;
        }
    }

    fn precedes(&self, other: &Self) -> (r: bool) {
        self.year < other.year || (self.year == other.year && self.quarter < other.quarter)
    }

    fn same(&self, other: &Self) -> (r: bool) {
        self.year == other.year && self.quarter == other.quarter
    }

    fn from_date(date: CalendarDate) -> (r: Self) {
        YearQuarter { year: date.year, quarter: (date.month - 1) / 3 + 1 }
    }

    fn axis_label() -> (r: String) {
        String::from_str("Quarter")
    }

    fn label(&self) -> (r: String) {
        let mut v: Vec<char> = Vec::new();
        push_decimal(self.year as i64, &mut v);
        v.push('-');
        v.push('Q');
        push_decimal(self.quarter as i64, &mut v);
        assert(v@ =~= self.label_text());
        string_from_chars(&v)
    }
}

// ---------------------------------------------------------------------------
// YearWeek (ISO 8601)
// ---------------------------------------------------------------------------
/// An ISO 8601 week.
#[derive(Debug, Clone, Copy, PartialEq, Eq, Structural, PartialOrd, Ord, Hash)]
pub struct YearWeek {
    pub year: i32,
    /// ISO week number (1–53).
    pub week: u32,
}

impl TimePeriod for YearWeek {
    open spec fn well_formed(&self) -> bool {
        1 <= self.week <= 53
    }

    open spec fn key(&self) -> (int, int) {
        (self.year as int, self.week as int)
    }

    open spec fn rank(&self) -> int {
        self.year * 53 + self.week
    }

    open spec fn successor(&self) -> Self {
        if self.week < iso_weeks_in_year(self.year) {
            YearWeek { year: self.year, week: (self.week + 1) as u32 }
        } else {
            YearWeek { year: (self.year + 1) as i32, week: 1 }
        }
    }

    open spec fn has_successor(&self) -> bool {
        self.week < 52 || self.year < i32::MAX
    }

    open spec fn in_calendar(&self) -> bool {
        1 <= self.week <= iso_weeks_in_year(self.year)
    }

    open spec fn period_of(date: CalendarDate) -> Self {
        YearWeek {
            year: iso_week_of_date(date.year, date.month, date.day).0,
            week: iso_week_of_date(date.year, date.month, date.day).1,
        }
    }

    open spec fn label_text(&self) -> Seq<char> {
        decimal(self.year as int) + seq!['-', 'W'] + decimal2(self.week as nat)
    }

    open spec fn axis_text() -> Seq<char> {
        "Week"@
    }

    proof fn lemma_order(a: Self, b: Self) {
    }

    proof fn lemma_successor(a: Self) {
    }

    proof fn lemma_has_successor(a: Self, b: Self) {
    }

    proof fn lemma_rank_le(a: Self, b: Self) {
    }

    proof fn lemma_successor_next(a: Self, b: Self) {
    }

    proof fn lemma_rank_range(a: Self) {
    }

    fn inc(&mut self) {
        // every ISO year has at least 52 weeks, so chrono is asked only from week 52 on
        if self.week < 52 || self.week < weeks_in_year(self.year) {
            self.week = self.week + 1;
        } else {
            self.year = self.year + 1;
            self.week = 1;
        }
    }

    fn precedes(&self, other: &Self) -> (r: bool) {
        self.year < other.year || (self.year == other.year && self.week < other.week)
    }

    fn same(&self, other: &Self) -> (r: bool) {
        self.year == other.year && self.week == other.week
    }

    fn from_date(date: CalendarDate) -> (r: Self) {
        let (year, week) = iso_week(date);
        YearWeek { year, week }
    }

    fn axis_label() -> (r: String) {
        String::from_str("Week")
    }

    fn label(&self) -> (r: String) {
        let mut v: Vec<char> = Vec::new();
        push_decimal(self.year as i64, &mut v);
        v.push('-');
        v.push('W');
        push_decimal2(self.week as u64, &mut v);
        assert(v@ =~= self.label_text());
        string_from_chars(&v)
    }
}

} // verus!

verus! {

/// The number of months from `start` to `end`, both included, is the difference of their ranks
/// plus one (none when `end` comes first).
pub proof fn lemma_month_count(start: YearMonth, end: YearMonth)
    requires
        start.well_formed(),
        end.well_formed(),
        end.has_successor(),
    ensures
        periods_from(start, end).len() == if end.rank() >= start.rank() { end.rank() - start.rank() + 1 } else { 0 },
    decreases gap(start, end),
{
    if !key_before(end.key(), start.key()) {
        lemma_month_count(start.successor(), end);
    }
}

/// The number of quarters from `start` to `end`, both included, is the difference of their
/// ranks plus one (none when `end` comes first).
pub proof fn lemma_quarter_count(start: YearQuarter, end: YearQuarter)
    requires
        start.well_formed(),
        end.well_formed(),
        end.has_successor(),
    ensures
        periods_from(start, end).len() == if end.rank() >= start.rank() { end.rank() - start.rank() + 1 } else { 0 },
    decreases gap(start, end),
{
    if !key_before(end.key(), start.key()) {
        lemma_quarter_count(start.successor(), end);
    }
}

} // verus!

verus! {

/// The month and the quarter of a valid date: the month is the date's own, and the quarter is
/// the one whose three months hold the date's month (January to March the first, and so on).
pub proof fn lemma_period_of_date(d: CalendarDate)
    requires
        d.valid(),
    ensures
        YearMonth::period_of(d).year == d.year,
        YearMonth::period_of(d).month == d.month,
        YearQuarter::period_of(d).year == d.year,
        1 <= YearQuarter::period_of(d).quarter <= 4,
        3 * YearQuarter::period_of(d).quarter - 2 <= d.month <= 3 * YearQuarter::period_of(d).quarter,
{
}

} // verus!

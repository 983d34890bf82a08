//! Choosing the sampling period of the report.
use vstd::prelude::*;

use crate::dates::CalendarDate;
use crate::time_period::{TimePeriod, YearMonth, YearWeek, gap, iter_to, lemma_periods_len, periods_from};

verus! {

/// The largest number of periods that the automatic choice of granularity keeps the chart under.
pub const MAX_PERIODS: usize = 200;

/// Controls the frequency of history sampling.
#[derive(Debug, Clone, Copy, PartialEq, Eq, Structural)]
pub enum PeriodArg {
    /// Pick the finest granularity that keeps the chart under 200 periods.
    Auto,
    Week,
    Month,
    Quarter,
}

impl PeriodArg {
    /// The adjective that describes the sampling ("weekly", "monthly", "quarterly" or "auto").
    pub fn label(&self) -> (r: String)
        ensures
            r@ == match *self {
                PeriodArg::Week => "weekly"@,
                PeriodArg::Month => "monthly"@,
                PeriodArg::Quarter => "quarterly"@,
                PeriodArg::Auto => "auto"@,
            },
    {
        match self {
            PeriodArg::Week => String::from_str("weekly"),
            PeriodArg::Month => String::from_str("monthly"),
            PeriodArg::Quarter => String::from_str("quarterly"),
            PeriodArg::Auto => String::from_str("auto"),
        }
    }
}

/// The number of periods of type `P` from the one of `start` to the one of `today`, both
/// included.
pub open spec fn count_of_periods<P: TimePeriod>(start: CalendarDate, today: CalendarDate) -> nat {
    periods_from(P::period_of(start), P::period_of(today)).len()
}

/// Counts how many periods of type `P` fall between `start` and `today` (inclusive).
pub fn period_count<P: TimePeriod>(start: CalendarDate, today: CalendarDate) -> (r: usize)
    requires
        start.valid(),
        today.valid(),
    ensures
        r == count_of_periods::<P>(start, today),
{
    let from = P::from_date(start);
    let to = P::from_date(today);
    proof {
        P::lemma_rank_range(from);
        P::lemma_rank_range(to);
        P::lemma_has_successor(to, to);
        lemma_periods_len(from, to);
        assert(gap(from, to) <= 100_000_000);
    }
    let mut it = iter_to(from, to);
    let mut count: usize = 0;
    loop
        invariant
            it.wf(),
            from == P::period_of(start),
            to == P::period_of(today),
            count + it.remaining().len() == periods_from(from, to).len(),
            periods_from(from, to).len() <= 100_000_000,
        decreases it.remaining().len(),
    {
        match it.next() {
            Some(_) => {
                count = count + 1;
            },
            None => {
                return count;
            },
        }
    }
}

/// The granularity chosen automatically from the date of the oldest commit: the finest one
/// (week, then month) that keeps the chart under `MAX_PERIODS` periods up to today, else quarter.
pub open spec fn automatic_period(earliest: CalendarDate, today: CalendarDate) -> PeriodArg {
    if count_of_periods::<YearWeek>(earliest, today) < MAX_PERIODS {
        PeriodArg::Week
    } else if count_of_periods::<YearMonth>(earliest, today) < MAX_PERIODS {
        PeriodArg::Month
    } else {
        PeriodArg::Quarter
    }
}

/// Picks the finest granularity that keeps the chart under `MAX_PERIODS` periods, from the
/// date of the oldest commit to today.
pub fn choose_period_automatically(earliest: CalendarDate, today: CalendarDate) -> (r: PeriodArg)
    requires
        earliest.valid(),
        today.valid(),
    ensures
        r == automatic_period(earliest, today),
{
    if period_count::<YearWeek>(earliest, today) < MAX_PERIODS {
        PeriodArg::Week
    } else if period_count::<YearMonth>(earliest, today) < MAX_PERIODS {
        PeriodArg::Month
    } else {
        PeriodArg::Quarter
    }
}

} // verus!

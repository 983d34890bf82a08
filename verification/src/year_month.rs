//! Calendar months with an inclusive month iterator, on their own.
use vstd::prelude::*;

use crate::dates::CalendarDate;
use crate::text::{decimal, decimal2, push_decimal, push_decimal2, string_from_chars};

verus! {

/// A calendar month.
#[derive(Debug, Clone, Copy, PartialEq, Eq, Structural, PartialOrd, Ord, Hash)]
pub struct YearMonth {
    pub year: i32,
    /// Month number (1–12).
    pub month: u32,
}

impl YearMonth {
    /// The month number is in range.
    pub open spec fn well_formed(self) -> bool {
        1 <= self.month <= 12
    }

    /// The number of months from January of year 0 to this month.
    pub open spec fn rank(self) -> int {
        self.year * 12 + self.month - 1
    }

    /// The month that follows.
    pub open spec fn successor(self) -> YearMonth {
        if self.month == 12 {
            YearMonth { year: (self.year + 1) as i32, month: 1 }
        } else {
            YearMonth { year: self.year, month: (self.month + 1) as u32 }
        }
    }

    /// `inc` can move on from this month: only December of the year `i32::MAX` has no
    /// representable successor.
    pub open spec fn has_successor(self) -> bool {
        self.month < 12 || self.year < i32::MAX
    }

    /// The derived order: by year, then by month.
    pub open spec fn spec_before(self, other: YearMonth) -> bool {
        self.year < other.year || (self.year == other.year && self.month < other.month)
    }

    /// The month of a date.
    pub fn from_date(date: CalendarDate) -> (r: YearMonth)
        ensures
            r == (YearMonth { year: date.year, month: date.month }),
    {
        YearMonth { year: date.year, month: date.month }
    }

    /// Creates an _inclusive_ iterator.
    pub fn iter_to(self, end: YearMonth) -> (r: YearMonthInclusiveIter)
        requires
            self.well_formed(),
            end.has_successor(),
        ensures
            r.wf(),
            r.remaining() == months_from(self, end),
    {
        YearMonthInclusiveIter { current: self, last: end }
    }

    /// Advances to the next month.
    pub fn inc(&mut self)
        requires
            old(self).well_formed(),
            old(self).has_successor(),
        ensures
            *final(self) == old(self).successor(),
            final(self).well_formed(),
            final(self).rank() == old(self).rank() + 1,
    {
        if self.month == 12 {
            self.year = self.year + 1;
            self.month = 1;
        } else {
            self.month = self.month + 1;
        }
    }

    /// The month as the report prints it ("2024-03").
    pub fn label(&self) -> (r: String)
        ensures
            r@ == decimal(self.year as int) + seq!['-'] + decimal2(self.month as nat),
    {
        let mut v: Vec<char> = Vec::new();
        push_decimal(self.year as i64, &mut v);
        v.push('-');
        push_decimal2(self.month as u64, &mut v);
        string_from_chars(&v)
    }
}

/// The months from `start` on that do not come after `end` (by year, then month number), one
/// after the other; none when `end` comes before `start`. `end` need not be a valid month.
pub open spec fn months_from(start: YearMonth, end: YearMonth) -> Seq<YearMonth>
    decreases end.rank() - start.rank() + 1,
{
    if !(start.well_formed() && end.has_successor()) || end.spec_before(start) {
        Seq::empty()
    } else {
        seq![start] + months_from(start.successor(), end)
    }
}

/// The months from `start` to `end` are consecutive valid months (the `i`-th is `i` months after
/// `start`), none after `end`, and the month after the last one comes after `end`. For a valid
/// `end` there are `end.rank() - start.rank() + 1` of them, so the last one is `end`.
pub proof fn lemma_months_from(start: YearMonth, end: YearMonth)
    requires
        start.well_formed(),
        end.has_successor(),
    ensures
        end.well_formed() ==> months_from(start, end).len() == if end.rank() >= start.rank() {
            end.rank() - start.rank() + 1
        } else {
            0
        },
        forall|i: int| 0 <= i < months_from(start, end).len() ==> {
            &&& (#[trigger] months_from(start, end)[i]).rank() == start.rank() + i
            &&& months_from(start, end)[i].well_formed()
            &&& !end.spec_before(months_from(start, end)[i])
        },
        months_from(start, end).len() > 0 ==> end.spec_before(months_from(start, end).last().successor()),
    decreases end.rank() - start.rank() + 1,
{
    if !end.spec_before(start) {
        let next = start.successor();
        lemma_months_from(next, end);
        let s = months_from(start, end);
        let t = months_from(next, end);
        assert(s == seq![start] + t);
        assert forall|i: int| 0 <= i < s.len() implies {
            &&& (#[trigger] s[i]).rank() == start.rank() + i
            &&& s[i].well_formed()
            &&& !end.spec_before(s[i])
        } by {
            if i > 0 {
                assert(s[i] == t[i - 1]);
            }
        }
        if t.len() > 0 {
            assert(s.last() == t.last());
        }
    }
}

/// Inclusive iterator over consecutive months.
pub struct YearMonthInclusiveIter {
    current: YearMonth,
    last: YearMonth,
}

impl YearMonthInclusiveIter {
    /// The iterator's state is consistent.
    pub closed spec fn wf(self) -> bool {
        self.current.well_formed() && self.last.has_successor()
    }

    /// The months that the iterator has still to yield.
    pub closed spec fn remaining(self) -> Seq<YearMonth> {
        months_from(self.current, self.last)
    }

    /// Yields the next month, or `None` once the iteration has passed its end (and from then on).
    pub fn next(&mut self) -> (r: Option<YearMonth>)
        requires
            old(self).wf(),
        ensures
            final(self).wf(),
            old(self).remaining().len() == 0 ==> r is None && final(self).remaining() == old(self).remaining(),
            old(self).remaining().len() > 0 ==> r == Some(old(self).remaining()[0])
                && final(self).remaining() == old(self).remaining().drop_first(),
    {
        // the iterator is inclusive
        if self.last.year < self.current.year || (self.last.year == self.current.year && self.last.month
            < self.current.month) {
            return None;
        }
        let result = self.current;
        self.current.inc();
        proof {
            assert(old(self).remaining() =~= seq![result] + months_from(result.successor(), self.last));
            assert(old(self).remaining().drop_first() =~= months_from(result.successor(), self.last));
        }
        Some(result)
    }
}

} // verus!

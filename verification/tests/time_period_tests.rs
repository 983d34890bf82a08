use hloc::dates::CalendarDate;
use hloc::time_period::{TimePeriod, YearMonth, YearQuarter, YearWeek, iter_to};
use hloc::year_month;

fn date(year: i32, month: u32, day: u32) -> CalendarDate {
    CalendarDate { year, month, day }
}

#[test]
fn year_month_inc_rolls_over() {
    let mut m = YearMonth { year: 2023, month: 11 };
    m.inc();
    assert_eq!(m, YearMonth { year: 2023, month: 12 });
    m.inc();
    assert_eq!(m, YearMonth { year: 2024, month: 1 });
}

#[test]
fn year_quarter_inc_rolls_over() {
    let mut q = YearQuarter { year: 2023, quarter: 4 };
    q.inc();
    assert_eq!(q, YearQuarter { year: 2024, quarter: 1 });
    q.inc();
    assert_eq!(q, YearQuarter { year: 2024, quarter: 2 });
}

#[test]
fn year_week_inc_follows_iso_years() {
    // 2015 has 53 ISO weeks, 2014 has 52
    let mut w = YearWeek { year: 2015, week: 52 };
    w.inc();
    assert_eq!(w, YearWeek { year: 2015, week: 53 });
    w.inc();
    assert_eq!(w, YearWeek { year: 2016, week: 1 });
    let mut w = YearWeek { year: 2014, week: 52 };
    w.inc();
    assert_eq!(w, YearWeek { year: 2015, week: 1 });
}

#[test]
fn periods_of_dates() {
    assert_eq!(YearMonth::from_date(date(2024, 3, 31)), YearMonth { year: 2024, month: 3 });
    assert_eq!(YearQuarter::from_date(date(2024, 3, 31)), YearQuarter { year: 2024, quarter: 1 });
    assert_eq!(YearQuarter::from_date(date(2024, 4, 1)), YearQuarter { year: 2024, quarter: 2 });
    assert_eq!(YearQuarter::from_date(date(2024, 12, 1)), YearQuarter { year: 2024, quarter: 4 });
    // 2014-12-29 is the Monday of the first ISO week of 2015
    assert_eq!(YearWeek::from_date(date(2014, 12, 29)), YearWeek { year: 2015, week: 1 });
    assert_eq!(YearWeek::from_date(date(2016, 1, 3)), YearWeek { year: 2015, week: 53 });
    assert_eq!(YearWeek::from_date(date(2024, 2, 29)), YearWeek { year: 2024, week: 9 });
}

#[test]
fn period_labels() {
    assert_eq!(YearMonth { year: 2024, month: 3 }.label(), "2024-03");
    assert_eq!(YearMonth { year: 2024, month: 11 }.label(), "2024-11");
    assert_eq!(YearMonth { year: -5, month: 1 }.label(), "-5-01");
    assert_eq!(YearQuarter { year: 2024, quarter: 1 }.label(), "2024-Q1");
    assert_eq!(YearWeek { year: 2024, week: 9 }.label(), "2024-W09");
    assert_eq!(YearWeek { year: 2015, week: 53 }.label(), "2015-W53");
    assert_eq!(YearMonth::axis_label(), "Month");
    assert_eq!(YearQuarter::axis_label(), "Quarter");
    assert_eq!(YearWeek::axis_label(), "Week");
}

#[test]
fn inclusive_iteration_is_consecutive_and_fused() {
    let mut it = iter_to(YearMonth { year: 2023, month: 11 }, YearMonth { year: 2024, month: 2 });
    assert_eq!(it.next(), Some(YearMonth { year: 2023, month: 11 }));
    assert_eq!(it.next(), Some(YearMonth { year: 2023, month: 12 }));
    assert_eq!(it.next(), Some(YearMonth { year: 2024, month: 1 }));
    assert_eq!(it.next(), Some(YearMonth { year: 2024, month: 2 }));
    assert_eq!(it.next(), None);
    assert_eq!(it.next(), None);
}

#[test]
fn iteration_over_an_empty_range() {
    let it = iter_to(YearQuarter { year: 2024, quarter: 2 }, YearQuarter { year: 2024, quarter: 1 });
    assert_eq!(it.collect_all(), vec![]);
    let it = iter_to(YearWeek { year: 2015, week: 52 }, YearWeek { year: 2016, week: 2 });
    assert_eq!(
        it.collect_all(),
        vec![
            YearWeek { year: 2015, week: 52 },
            YearWeek { year: 2015, week: 53 },
            YearWeek { year: 2016, week: 1 },
            YearWeek { year: 2016, week: 2 },
        ]
    );
}

#[test]
fn standalone_year_month_iterates_inclusively() {
    let start = year_month::YearMonth { year: 2022, month: 12 };
    let mut it = start.iter_to(year_month::YearMonth { year: 2023, month: 2 });
    assert_eq!(it.next(), Some(year_month::YearMonth { year: 2022, month: 12 }));
    assert_eq!(it.next(), Some(year_month::YearMonth { year: 2023, month: 1 }));
    assert_eq!(it.next(), Some(year_month::YearMonth { year: 2023, month: 2 }));
    assert_eq!(it.next(), None);
    assert_eq!(it.next(), None);
    let mut m = year_month::YearMonth { year: 1999, month: 12 };
    m.inc();
    assert_eq!(m, year_month::YearMonth { year: 2000, month: 1 });
    assert_eq!(m.label(), "2000-01");
    assert_eq!(year_month::YearMonth::from_date(date(2001, 7, 4)), year_month::YearMonth { year: 2001, month: 7 });
}

#[test]
fn precedes_is_the_derived_order() {
    let a = YearWeek { year: 2015, week: 53 };
    let b = YearWeek { year: 2016, week: 1 };
    assert!(a.precedes(&b));
    assert!(!b.precedes(&a));
    assert!(!a.precedes(&a));
    assert_eq!(a.precedes(&b), a < b);
    assert!(a.same(&a));
    assert!(!a.same(&b));
}

#[test]
fn the_last_year_still_advances_within_itself() {
    let mut m = YearMonth { year: i32::MAX, month: 11 };
    m.inc();
    assert_eq!(m, YearMonth { year: i32::MAX, month: 12 });
    let mut q = YearQuarter { year: i32::MAX, quarter: 3 };
    q.inc();
    assert_eq!(q, YearQuarter { year: i32::MAX, quarter: 4 });
    let mut w = YearWeek { year: i32::MAX, week: 10 };
    w.inc();
    assert_eq!(w, YearWeek { year: i32::MAX, week: 11 });
    let mut s = year_month::YearMonth { year: i32::MAX, month: 1 };
    s.inc();
    assert_eq!(s, year_month::YearMonth { year: i32::MAX, month: 2 });
    let it = iter_to(YearMonth { year: i32::MAX, month: 10 }, YearMonth { year: i32::MAX, month: 11 });
    assert_eq!(it.collect_all(), vec![YearMonth { year: i32::MAX, month: 10 }, YearMonth { year: i32::MAX, month: 11 }]);
}

#[test]
fn iteration_runs_to_any_end_value() {
    let it = year_month::YearMonth { year: 2023, month: 11 }.iter_to(year_month::YearMonth { year: 2023, month: 13 });
    let mut it = it;
    assert_eq!(it.next(), Some(year_month::YearMonth { year: 2023, month: 11 }));
    assert_eq!(it.next(), Some(year_month::YearMonth { year: 2023, month: 12 }));
    assert_eq!(it.next(), None);
    let mut it = year_month::YearMonth { year: 2022, month: 12 }.iter_to(year_month::YearMonth { year: 2023, month: 0 });
    assert_eq!(it.next(), Some(year_month::YearMonth { year: 2022, month: 12 }));
    assert_eq!(it.next(), None);
    let weeks = iter_to(YearWeek { year: 2016, week: 51 }, YearWeek { year: 2016, week: 60 }).collect_all();
    assert_eq!(weeks, vec![YearWeek { year: 2016, week: 51 }, YearWeek { year: 2016, week: 52 }]);
}

fn starts_on(year: i64) -> i64 {
    let y = year - 1;
    (1 + 5 * y.rem_euclid(4) + 4 * y.rem_euclid(100) + 6 * y.rem_euclid(400)).rem_euclid(7)
}

fn leap(year: i64) -> bool {
    (year.rem_euclid(4) == 0 && year.rem_euclid(100) != 0) || year.rem_euclid(400) == 0
}

#[test]
fn week_53_follows_the_first_weekday_of_the_year() {
    for year in -1200i32..=3200 {
        let y = year as i64;
        let expected = starts_on(y) == 4 || (leap(y) && starts_on(y) == 3);
        let weeks = iter_to(YearWeek { year, week: 52 }, YearWeek { year: year + 1, week: 1 }).collect_all();
        assert_eq!(weeks.len() == 3, expected, "year {}", year);
    }
    assert_eq!(starts_on(2015), 4);
    assert_eq!(starts_on(2020), 3);
}

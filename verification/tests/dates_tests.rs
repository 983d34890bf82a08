use hloc::dates::{CalendarDate, MAX_EPOCH_SECONDS, datetime_from_epoch_seconds, earliest_date};
use hloc::setup::{MAX_PERIODS, PeriodArg, choose_period_automatically, period_count};
use hloc::time_period::{YearMonth, YearQuarter, YearWeek, current_period};

fn date(year: i32, month: u32, day: u32) -> CalendarDate {
    CalendarDate { year, month, day }
}

#[test]
fn date_validity_follows_the_calendar() {
    assert!(date(2024, 2, 29).is_valid());
    assert!(!date(2023, 2, 29).is_valid());
    assert!(date(2000, 2, 29).is_valid());
    assert!(!date(1900, 2, 29).is_valid());
    assert!(!date(2024, 4, 31).is_valid());
    assert!(!date(2024, 13, 1).is_valid());
    assert!(!date(2024, 1, 0).is_valid());
    assert!(!date(300000, 1, 1).is_valid());
}

#[test]
fn dates_are_ordered_chronologically() {
    assert!(date(2023, 12, 31).before(&date(2024, 1, 1)));
    assert!(!date(2024, 1, 1).before(&date(2024, 1, 1)));
    assert_eq!(earliest_date(&vec![date(2024, 5, 1), date(2020, 1, 2), date(2022, 3, 3)]), Some(date(2020, 1, 2)));
    assert_eq!(earliest_date(&vec![]), None);
}

#[test]
fn epoch_seconds_give_utc_dates() {
    assert_eq!(datetime_from_epoch_seconds(0), date(1970, 1, 1));
    assert_eq!(datetime_from_epoch_seconds(86_399), date(1970, 1, 1));
    assert_eq!(datetime_from_epoch_seconds(86_400 * 365), date(1971, 1, 1));
    assert_eq!(datetime_from_epoch_seconds(1_709_164_800), date(2024, 2, 29));
}

#[test]
fn period_counts_are_inclusive() {
    assert_eq!(period_count::<YearMonth>(date(2024, 1, 15), date(2024, 3, 1)), 3);
    assert_eq!(period_count::<YearQuarter>(date(2023, 12, 31), date(2024, 1, 1)), 2);
    assert_eq!(period_count::<YearWeek>(date(2024, 1, 1), date(2024, 1, 7)), 1);
    assert_eq!(period_count::<YearMonth>(date(2024, 3, 1), date(2024, 1, 15)), 0);
}

#[test]
fn automatic_period_is_the_finest_under_the_limit() {
    assert_eq!(MAX_PERIODS, 200);
    assert_eq!(choose_period_automatically(date(2024, 1, 1), date(2024, 6, 1)), PeriodArg::Week);
    assert_eq!(choose_period_automatically(date(2015, 1, 1), date(2024, 1, 1)), PeriodArg::Month);
    assert_eq!(choose_period_automatically(date(1990, 1, 1), date(2024, 1, 1)), PeriodArg::Quarter);
    assert_eq!(PeriodArg::Week.label(), "weekly");
    assert_eq!(PeriodArg::Auto.label(), "auto");
}

#[test]
fn exactly_the_limit_of_weeks_is_too_many() {
    assert_eq!(period_count::<YearWeek>(date(2020, 3, 9), date(2024, 1, 7)), 200);
    assert_eq!(choose_period_automatically(date(2020, 3, 9), date(2024, 1, 7)), PeriodArg::Month);
    assert_eq!(period_count::<YearWeek>(date(2020, 3, 16), date(2024, 1, 7)), 199);
    assert_eq!(choose_period_automatically(date(2020, 3, 16), date(2024, 1, 7)), PeriodArg::Week);
}

#[test]
fn last_second_of_the_calendar_range() {
    assert_eq!(datetime_from_epoch_seconds(MAX_EPOCH_SECONDS), date(262142, 12, 31));
}

#[test]
fn current_period_is_recent() {
    let p: YearMonth = current_period();
    assert!(p.year >= 2024 && (1..=12).contains(&p.month));
    let w: YearWeek = current_period();
    assert!((1..=53).contains(&w.week));
}

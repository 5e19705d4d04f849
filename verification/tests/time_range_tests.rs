use blockary::day_plan::{month_length, Day};
use blockary::time_range::{
    get_month_bounds, get_week_bounds, get_year_bounds, in_range, range_bounds,
    week_bounds_from, TimeRange,
};
use chrono::{Datelike, NaiveDate, TimeDelta};

fn day(year: u32, month: u32, day: u32) -> Day {
    Day { year, month, day }
}

fn of(date: NaiveDate) -> Day {
    day(date.year() as u32, date.month(), date.day())
}

#[test]
fn week_starts_on_monday() {
    assert_eq!(get_week_bounds(day(2025, 11, 12)), Some((day(2025, 11, 10), day(2025, 11, 16))));
    assert_eq!(get_week_bounds(day(2025, 11, 10)), Some((day(2025, 11, 10), day(2025, 11, 16))));
    assert_eq!(get_week_bounds(day(2025, 11, 16)), Some((day(2025, 11, 10), day(2025, 11, 16))));
    assert_eq!(get_week_bounds(day(2026, 1, 1)), Some((day(2025, 12, 29), day(2026, 1, 4))));
    assert_eq!(get_week_bounds(day(2024, 3, 1)), Some((day(2024, 2, 26), day(2024, 3, 3))));
    assert_eq!(get_week_bounds(day(2025, 2, 30)), None);
    assert_eq!(get_week_bounds(day(2025, 13, 1)), None);
    assert_eq!(get_week_bounds(day(0, 1, 1)), None);
    assert_eq!(week_bounds_from(day(2025, 11, 12), 3), Some((day(2025, 11, 10), day(2025, 11, 16))));
    assert_eq!(week_bounds_from(day(2025, 11, 12), 1), Some((day(2025, 11, 12), day(2025, 11, 18))));
}

#[test]
fn month_and_year_have_their_first_and_last_day() {
    assert_eq!(get_month_bounds(day(2025, 11, 12)), (day(2025, 11, 1), day(2025, 11, 30)));
    assert_eq!(get_month_bounds(day(2025, 12, 31)), (day(2025, 12, 1), day(2025, 12, 31)));
    assert_eq!(get_month_bounds(day(2024, 2, 10)), (day(2024, 2, 1), day(2024, 2, 29)));
    assert_eq!(get_month_bounds(day(2100, 2, 10)), (day(2100, 2, 1), day(2100, 2, 28)));
    assert_eq!(get_year_bounds(day(2025, 11, 12)), (day(2025, 1, 1), day(2025, 12, 31)));
}

#[test]
fn bounds_agree_with_the_calendar() {
    let mut date = NaiveDate::from_ymd_opt(1999, 12, 20).unwrap();
    let last = NaiveDate::from_ymd_opt(2032, 1, 10).unwrap();
    while date <= last {
        let monday = date - TimeDelta::try_days(date.weekday().number_from_monday() as i64 - 1).unwrap();
        let sunday = monday + TimeDelta::try_days(6).unwrap();
        assert_eq!(get_week_bounds(of(date)), Some((of(monday), of(sunday))), "{}", date);
        let (first, end) = get_month_bounds(of(date));
        assert_eq!(NaiveDate::from_ymd_opt(date.year(), date.month(), 1).map(of), Some(first));
        let next = end.day + 1;
        assert!(NaiveDate::from_ymd_opt(date.year(), date.month(), end.day).is_some(), "{}", date);
        assert!(NaiveDate::from_ymd_opt(date.year(), date.month(), next).is_none(), "{}", date);
        assert_eq!(month_length(date.year() as u32, date.month()), end.day);
        date = date.succ_opt().unwrap();
    }
}

#[test]
fn range_is_seen_from_today() {
    let today = day(2025, 11, 12);
    assert_eq!(range_bounds(TimeRange::Today, today), Some((today, today)));
    assert_eq!(range_bounds(TimeRange::ThisWeek, today), Some((day(2025, 11, 10), day(2025, 11, 16))));
    assert_eq!(range_bounds(TimeRange::ThisMonth, today), Some((day(2025, 11, 1), day(2025, 11, 30))));
    assert_eq!(range_bounds(TimeRange::ThisYear, today), Some((day(2025, 1, 1), day(2025, 12, 31))));
}

#[test]
fn range_includes_its_ends() {
    let (from, to) = (day(2025, 11, 10), day(2026, 1, 4));
    assert!(in_range(from, from, to));
    assert!(in_range(to, from, to));
    assert!(in_range(day(2025, 12, 31), from, to));
    assert!(in_range(day(2026, 1, 1), from, to));
    assert!(!in_range(day(2025, 11, 9), from, to));
    assert!(!in_range(day(2026, 1, 5), from, to));
    assert!(!in_range(day(2025, 1, 20), from, to));
    assert!(!in_range(day(2026, 11, 20), from, to));
    assert!(!in_range(from, to, from));
}

//! The ranges of days that a report can cover: a day, its week, its month
//! or its year.
use crate::day_plan::{days_in_month, is_calendar_day, month_length, Day};
use vstd::prelude::*;

verus! {

/// The range of days that a report covers, seen from today.
#[derive(Clone, Copy, Debug, PartialEq, Eq, Structural)]
pub enum TimeRange {
    /// The current day.
    Today,
    /// The current week; it starts on a Monday.
    ThisWeek,
    /// The current calendar month.
    ThisMonth,
    /// The current calendar year.
    ThisYear,
}

/// The number of the weekday of a date, Monday being 1 and Sunday 7, as
/// `chrono` counts them; none where the date is not in its calendar.
pub uninterp spec fn weekday_number(day: Day) -> Option<u32>;

/// The date that lies `days` days behind a date, or before it where `days`
/// is negative, as `chrono` computes it; none where one of the two dates is
/// not in its calendar.
pub uninterp spec fn day_shifted(day: Day, days: int) -> Option<Day>;

/// Makes the date with `NaiveDate::from_ymd_opt` and asks
/// `Datelike::weekday` and `Weekday::number_from_monday` for the number of
/// its weekday. The number depends on the date alone and is named
/// `weekday_number`; of the number it is only claimed that it lies between
/// 1 and 7.
#[verifier::external_body]
fn weekday_of(day: Day) -> (r: Option<u32>)
    ensures
        r == weekday_number(day),
        r matches Some(n) ==> 1 <= n <= 7,
{
    let date = chrono::NaiveDate::from_ymd_opt(i32::try_from(day.year).ok()?, day.month, day.day)?;
    Some(chrono::Datelike::weekday(&date).number_from_monday())
}

/// Makes the date with `NaiveDate::from_ymd_opt` and moves it with
/// `NaiveDate::checked_add_signed` by `TimeDelta::try_days(days)`. The
/// result depends on the date and the number of days alone; it is named
/// `day_shifted`, and nothing more is claimed of it.
#[verifier::external_body]
fn shift_day(day: Day, days: i64) -> (r: Option<Day>)
    ensures
        r == day_shifted(day, days as int),
{
    let date = chrono::NaiveDate::from_ymd_opt(i32::try_from(day.year).ok()?, day.month, day.day)?;
    let moved = date.checked_add_signed(chrono::TimeDelta::try_days(days)?)?;
    Some(
        Day {
            year: u32::try_from(chrono::Datelike::year(&moved)).ok()?,
            month: chrono::Datelike::month(&moved),
            day: chrono::Datelike::day(&moved),
        },
    )
}

/// The Monday and the Sunday of the week of a date whose weekday has the
/// number `weekday`: the date moved back to the Monday, and the day six
/// days behind that.
pub open spec fn week_from(date: Day, weekday: u32) -> Option<(Day, Day)> {
    match day_shifted(date, 1 - weekday as int) {
        Some(monday) => match day_shifted(monday, 6) {
            Some(sunday) => Some((monday, sunday)),
            None => None,
        },
        None => None,
    }
}

/// The first and the last day of the week of a date.
pub open spec fn week_of(date: Day) -> Option<(Day, Day)> {
    match weekday_number(date) {
        Some(weekday) => week_from(date, weekday),
        None => None,
    }
}

/// The first and the last day of the month of a date.
pub open spec fn month_of(date: Day) -> (Day, Day) {
    (
        Day { year: date.year, month: date.month, day: 1 },
        Day {
            year: date.year,
            month: date.month,
            day: days_in_month(date.year as int, date.month as int) as u32,
        },
    )
}

/// The first and the last day of the year of a date.
pub open spec fn year_of(date: Day) -> (Day, Day) {
    (Day { year: date.year, month: 1, day: 1 }, Day { year: date.year, month: 12, day: 31 })
}

/// The first and the last day of a range, seen from today.
pub open spec fn bounds_of(range: TimeRange, today: Day) -> Option<(Day, Day)> {
    match range {
        TimeRange::Today => Some((today, today)),
        TimeRange::ThisWeek => week_of(today),
        TimeRange::ThisMonth => Some(month_of(today)),
        TimeRange::ThisYear => Some(year_of(today)),
    }
}

/// The Monday and the Sunday of the week of a date, given the number of
/// its weekday, between 1 for Monday and 7 for Sunday.
pub fn week_bounds_from(date: Day, weekday: u32) -> (r: Option<(Day, Day)>)
    requires
        1 <= weekday <= 7,
    ensures
        r == week_from(date, weekday),
{
    let back: i64 = 1 - weekday as i64;
    match shift_day(date, back) {
        Some(monday) => match shift_day(monday, 6) {
            Some(sunday) => Some((monday, sunday)),
            None => None,
        },
        None => None,
    }
}

/// The Monday and the Sunday of the week of a date; none where the
/// calendar has no such days.
pub fn get_week_bounds(date: Day) -> (r: Option<(Day, Day)>)
    ensures
        r == week_of(date),
{
    match weekday_of(date) {
        Some(weekday) => week_bounds_from(date, weekday),
        None => None,
    }
}

/// The first and the last day of the month of a date.
pub fn get_month_bounds(date: Day) -> (r: (Day, Day))
    ensures
        r == month_of(date),
        is_calendar_day(date) ==> is_calendar_day(r.0) && is_calendar_day(r.1),
{
    (
        Day { year: date.year, month: date.month, day: 1 },
        Day { year: date.year, month: date.month, day: month_length(date.year, date.month) },
    )
}

/// The first and the last day of the year of a date.
pub fn get_year_bounds(date: Day) -> (r: (Day, Day))
    ensures
        r == year_of(date),
        is_calendar_day(r.0) && is_calendar_day(r.1),
{
    (Day { year: date.year, month: 1, day: 1 }, Day { year: date.year, month: 12, day: 31 })
}

/// The first and the last day of a range, seen from today; none where the
/// calendar has no such days.
pub fn range_bounds(range: TimeRange, today: Day) -> (r: Option<(Day, Day)>)
    ensures
        r == bounds_of(range, today),
{
    match range {
        TimeRange::Today => Some((today, today)),
        TimeRange::ThisWeek => get_week_bounds(today),
        TimeRange::ThisMonth => Some(get_month_bounds(today)),
        TimeRange::ThisYear => Some(get_year_bounds(today)),
    }
}

/// Whether a day lies within a range of days, its ends included.
pub open spec fn is_within(day: Day, from: Day, to: Day) -> bool {
    !comes_before(day, from) && !comes_before(to, day)
}

/// Whether `a` is an earlier day than `b`.
pub open spec fn comes_before(a: Day, b: Day) -> bool {
    a.year < b.year || (a.year == b.year && (a.month < b.month || (a.month == b.month && a.day
        < b.day)))
}

/// Whether a day lies within a range of days, its ends included.
pub fn in_range(day: Day, from: Day, to: Day) -> (r: bool)
    ensures
        r == is_within(day, from, to),
{
    !earlier(day, from) && !earlier(to, day)
}

fn earlier(a: Day, b: Day) -> (r: bool)
    ensures
        r == comes_before(a, b),
{
    a.year < b.year || (a.year == b.year && (a.month < b.month || (a.month == b.month && a.day
        < b.day)))
}

} // verus!

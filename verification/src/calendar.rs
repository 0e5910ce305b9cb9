//! Calendar dates, and the number of days from one date to another. The
//! calendar arithmetic itself is chrono's.

use vstd::prelude::*;
use chrono::{Datelike, NaiveDate};

verus! {

/// A date given by year, month and day. Any three numbers can be written
/// down; `is_calendar_date` says which of them name a day.
#[derive(Clone, Copy, Debug, PartialEq, Eq, Structural)]
pub struct Date {
    pub year: i32,
    pub month: u32,
    pub day: u32,
}

/// The first year that a date can lie in.
pub const MIN_YEAR: i32 = -262143;

/// The last year that a date can lie in.
pub const MAX_YEAR: i32 = 262142;

/// Leap years of the proleptic Gregorian calendar.
pub open spec fn is_leap_year(year: int) -> bool {
    year % 4 == 0 && (year % 100 != 0 || year % 400 == 0)
}

/// The number of days of a month.
pub open spec fn days_in_month(year: int, month: int) -> int {
    if month == 2 {
        if is_leap_year(year) {
            29
        } else {
            28
        }
    } else if month == 4 || month == 6 || month == 9 || month == 11 {
        30
    } else {
        31
    }
}

impl Date {
    /// The date names a day of the proleptic Gregorian calendar, in a year
    /// between `MIN_YEAR` and `MAX_YEAR`.
    pub open spec fn is_calendar_date(self) -> bool {
        &&& MIN_YEAR <= self.year <= MAX_YEAR
        &&& 1 <= self.month <= 12
        &&& 1 <= self.day <= days_in_month(self.year as int, self.month as int)
    }
}

impl Date {
    /// The date lies strictly before `other` in the calendar.
    pub open spec fn precedes(self, other: Date) -> bool {
        ||| self.year < other.year
        ||| self.year == other.year && self.month < other.month
        ||| self.year == other.year && self.month == other.month && self.day < other.day
    }
}

/// The number of days that lie between the first of January of the year 1
/// and the first of January of `year`; negative for the years before.
pub open spec fn days_before_year(year: int) -> int {
    let y = year - 1;
    365 * y + y / 4 - y / 100 + y / 400
}

/// The number of days of `year` that lie before the first of `month`.
pub open spec fn days_before_month(year: int, month: int) -> int
    decreases month,
{
    if month <= 1 {
        0
    } else {
        days_before_month(year, month - 1) + days_in_month(year, month - 1)
    }
}

/// The number of the day `year`-`month`-`day`, counted in the proleptic
/// Gregorian calendar from the first of January of the year 1, which is day 1.
pub open spec fn day_number(year: int, month: int, day: int) -> int {
    days_before_year(year) + days_before_month(year, month) + day
}

/// The number of days from `from` to `to`; negative where `to` is the earlier
/// day.
pub open spec fn days_between(from: Date, to: Date) -> int {
    day_number(to.year as int, to.month as int, to.day as int) - day_number(
        from.year as int,
        from.month as int,
        from.day as int,
    )
}

/// A year has 365 days, a leap year 366.
pub proof fn lemma_year_length(year: int)
    ensures
        days_before_year(year + 1) - days_before_year(year) == if is_leap_year(year) {
            366int
        } else {
            365int
        },
        days_before_month(year, 13) == days_before_year(year + 1) - days_before_year(year),
{
    reveal_with_fuel(days_before_month, 14);
}

/// The first of January of a later year lies later.
pub proof fn lemma_years_increase(earlier: int, later: int)
    requires
        earlier <= later,
    ensures
        days_before_year(earlier) <= days_before_year(later),
    decreases later - earlier,
{
    if earlier < later {
        lemma_years_increase(earlier, later - 1);
        lemma_year_length(later - 1);
    }
}

/// The first of a later month of the same year lies later.
pub proof fn lemma_months_increase(year: int, earlier: int, later: int)
    requires
        earlier <= later,
    ensures
        days_before_month(year, earlier) <= days_before_month(year, later),
    decreases later - earlier,
{
    if earlier < later {
        lemma_months_increase(year, earlier, later - 1);
    }
}

/// Of two calendar dates the one that comes first in the calendar has the
/// smaller day number.
pub proof fn lemma_earlier_date_has_smaller_number(earlier: Date, later: Date)
    requires
        earlier.is_calendar_date(),
        later.is_calendar_date(),
        earlier.precedes(later),
    ensures
        days_between(earlier, later) > 0,
{
    let y1 = earlier.year as int;
    let m1 = earlier.month as int;
    let y2 = later.year as int;
    let m2 = later.month as int;
    assert(days_before_month(y1, m1 + 1) == days_before_month(y1, m1) + days_in_month(y1, m1));
    if y1 < y2 {
        lemma_months_increase(y1, m1 + 1, 13);
        lemma_year_length(y1);
        lemma_years_increase(y1 + 1, y2);
        lemma_months_increase(y2, 1, m2);
    } else if m1 < m2 {
        lemma_months_increase(y1, m1 + 1, m2);
    }
}

/// The number of days from one calendar date to another is negative exactly
/// when the second comes first in the calendar, and zero exactly when the two
/// are the same day.
pub proof fn lemma_days_between_follows_calendar(from: Date, to: Date)
    requires
        from.is_calendar_date(),
        to.is_calendar_date(),
    ensures
        days_between(from, to) < 0 <==> to.precedes(from),
        days_between(from, to) == 0 <==> from == to,
        days_between(from, to) > 0 <==> from.precedes(to),
{
    if from.precedes(to) {
        lemma_earlier_date_has_smaller_number(from, to);
    } else if to.precedes(from) {
        lemma_earlier_date_has_smaller_number(to, from);
    }
}

/// Calls chrono's `NaiveDate::from_ymd_opt` and, on the date it makes,
/// `Datelike::num_days_from_ce`.
///
/// Not proved, taken from chrono: `from_ymd_opt` makes a date exactly for the
/// days that exist in the proleptic Gregorian calendar, in the years that
/// `NaiveDate` covers, and `num_days_from_ce` counts the days of that
/// calendar with the first of January of the year 1 as day 1.
#[verifier::external_body]
fn day_number_of(date: Date) -> (number: Option<i32>)
    ensures
        number is Some <==> date.is_calendar_date(),
        number matches Some(n) ==> n == day_number(
            date.year as int,
            date.month as int,
            date.day as int,
        ),
{
    match NaiveDate::from_ymd_opt(date.year, date.month, date.day) {
        Some(day) => Some(day.num_days_from_ce()),
        None => None,
    }
}

/// The number of whole days from `from` to `to`, where both are calendar
/// dates.
pub fn days_from(from: Date, to: Date) -> (days: Option<i64>)
    ensures
        days is Some <==> from.is_calendar_date() && to.is_calendar_date(),
        days matches Some(d) ==> d == days_between(from, to),
        days matches Some(d) ==> (d < 0 <==> to.precedes(from)) && (d == 0 <==> from == to),
{
    proof {
        if from.is_calendar_date() && to.is_calendar_date() {
            lemma_days_between_follows_calendar(from, to);
        }
    }
    match (day_number_of(from), day_number_of(to)) {
        (Some(start), Some(end)) => Some(end as i64 - start as i64),
        _ => None,
    }
}

} // verus!

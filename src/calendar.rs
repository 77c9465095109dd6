//! Game numbers: the count of days from the first puzzle's date to a given
//! calendar date.
use vstd::prelude::*;

use crate::game::GameNumber;

verus! {

/// A date of the proleptic Gregorian calendar, as year, month and day.
#[derive(Clone, Copy, Debug, PartialEq, Eq, Structural)]
pub struct CalendarDate {
    pub year: i32,
    pub month: u32,
    pub day: u32,
}

/// The date of the first puzzle, game number zero: 2022-09-18.
pub const EPOCH_YEAR: i32 = 2022;
pub const EPOCH_MONTH: u32 = 9;
pub const EPOCH_DAY: u32 = 18;

pub open spec fn epoch() -> CalendarDate {
    CalendarDate { year: EPOCH_YEAR, month: EPOCH_MONTH, day: EPOCH_DAY }
}

/// The earliest and latest years that chrono's `NaiveDate` holds.
pub const MIN_YEAR: i32 = -262143;
pub const MAX_YEAR: i32 = 262142;

pub open spec fn is_leap_year(y: int) -> bool {
    (y % 4 == 0 && y % 100 != 0) || y % 400 == 0
}

pub open spec fn days_in_month(y: int, m: int) -> int {
    if m == 2 {
        if is_leap_year(y) { 29 } else { 28 }
    } else if m == 4 || m == 6 || m == 9 || m == 11 {
        30
    } else {
        31
    }
}

/// The days of year `y` before the first of month `m`.
pub open spec fn days_before_month(y: int, m: int) -> int
    decreases m,
{
    if m <= 1 {
        0
    } else {
        days_before_month(y, m - 1) + days_in_month(y, m - 1)
    }
}

/// The date exists in the proleptic Gregorian calendar, within chrono's years.
pub open spec fn date_exists(d: CalendarDate) -> bool {
    &&& MIN_YEAR <= d.year <= MAX_YEAR
    &&& 1 <= d.month <= 12
    &&& 1 <= d.day <= days_in_month(d.year as int, d.month as int)
}

/// The day count of a date, with 0001-01-01 as day one.
pub open spec fn day_count(d: CalendarDate) -> int {
    let p = d.year - 1;
    365 * p + p / 4 - p / 100 + p / 400 + days_before_month(d.year as int, d.month as int) + d.day
}

proof fn lemma_days_before_month_bounds(y: int, m: int)
    requires
        1 <= m <= 13,
    ensures
        0 <= days_before_month(y, m) <= 31 * (m - 1),
    decreases m,
{
    if m > 1 {
        lemma_days_before_month_bounds(y, m - 1);
    }
}

proof fn lemma_day_count_bounds(d: CalendarDate)
    requires
        date_exists(d),
    ensures
        -100_000_000 < day_count(d) < 100_000_000,
{
    lemma_days_before_month_bounds(d.year as int, d.month as int);
    let p = d.year - 1;
    assert(-262144 <= p <= 262141);
    assert(-95_742_560 <= 365 * p <= 95_681_465) by (nonlinear_arith)
        requires
            -262144 <= p <= 262141,
    ;
}

/// Relies on chrono's `NaiveDate::from_ymd_opt`, which gives `None` for a
/// date that does not exist or lies outside its years, and on
/// `Datelike::num_days_from_ce`, which counts days of the proleptic Gregorian
/// calendar with 0001-01-01 as day one.
#[verifier::external_body]
fn day_number(date: CalendarDate) -> (r: Option<i32>)
    ensures
        r == (if date_exists(date) {
            Some(day_count(date) as i32)
        } else {
            None
        }),
{
    match chrono::NaiveDate::from_ymd_opt(date.year, date.month, date.day) {
        Some(d) => Some(chrono::Datelike::num_days_from_ce(&d)),
        None => None,
    }
}

/// The game number for a day count, given the epoch's day count: the
/// number of days between them, when that is neither negative nor too large.
pub open spec fn game_number_for_days(today: int, epoch: int) -> Option<GameNumber> {
    if 0 <= today - epoch <= u32::MAX {
        Some((today - epoch) as GameNumber)
    } else {
        None
    }
}

/// The game number for day counts `today_days` and `epoch_days`.
pub fn game_number_between(today_days: i32, epoch_days: i32) -> (r: Option<GameNumber>)
    ensures
        r == game_number_for_days(today_days as int, epoch_days as int),
{
    let diff: i64 = today_days as i64 - epoch_days as i64;
    if 0 <= diff && diff <= u32::MAX as i64 {
        Some(diff as u32)
    } else {
        None
    }
}

/// The game number played on `today`; `None` when `today` does not exist
/// or lies before the epoch.
pub fn game_number_on(today: CalendarDate) -> (r: Option<GameNumber>)
    ensures
        r == (if date_exists(today) {
            game_number_for_days(day_count(today), day_count(epoch()))
        } else {
            None
        }),
{
    proof {
        lemma_day_count_bounds(epoch());
        if date_exists(today) {
            lemma_day_count_bounds(today);
        }
    }
    match (day_number(today), day_number(CalendarDate { year: EPOCH_YEAR, month: EPOCH_MONTH, day: EPOCH_DAY })) {
        (Some(t), Some(e)) => game_number_between(t, e),
        _ => None,
    }
}

} // verus!

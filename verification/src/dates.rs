//! Calendar dates as plain values.
//!
//! A candidate date found inside a password is kept as year, month and day
//! numbers; validity (month range, day range, leap years) is the library's
//! own rule, stated by [`valid_date`].

use vstd::prelude::*;
use chrono::Datelike;

verus! {

/// Relies on chrono's `Local::now` and `Datelike::year`: the calendar year
/// of the local clock. Nothing is promised of the value; every function
/// whose result depends on it takes the year as an argument.
#[verifier::external_body]
pub fn current_year() -> (r: i32) {
    chrono::Local::now().year()
}

/// A calendar date, kept as plain numbers.
#[derive(Clone, Copy, PartialEq, Eq, Structural, Debug)]
pub struct Date {
    pub year: i32,
    pub month: u32,
    pub day: u32,
}

/// Whether `year` is a leap year of the Gregorian calendar.
pub open spec fn spec_is_leap_year(y: int) -> bool {
    y % 4 == 0 && (y % 100 != 0 || y % 400 == 0)
}

/// The number of days in `month` of `year`.
pub open spec fn spec_days_in_month(y: int, m: int) -> int {
    if m == 2 {
        if spec_is_leap_year(y) {
            29
        } else {
            28
        }
    } else if m == 4 || m == 6 || m == 9 || m == 11 {
        30
    } else {
        31
    }
}

/// A triple names a real calendar day.
pub open spec fn valid_date(d: Date) -> bool {
    &&& 1 <= d.month <= 12
    &&& 1 <= d.day <= spec_days_in_month(d.year as int, d.month as int)
}

pub fn is_leap_year(y: i32) -> (r: bool)
    requires
        0 <= y,
    ensures
        r == spec_is_leap_year(y as int),
{
    y % 4 == 0 && (y % 100 != 0 || y % 400 == 0)
}

pub fn days_in_month(y: i32, m: u32) -> (r: u32)
    requires
        0 <= y,
        1 <= m <= 12,
    ensures
        r == spec_days_in_month(y as int, m as int),
{
    if m == 2 {
        if is_leap_year(y) {
            29
        } else {
            28
        }
    } else if m == 4 || m == 6 || m == 9 || m == 11 {
        30
    } else {
        31
    }
}

/// Builds a date when the triple names a real calendar day, as
/// `NaiveDate::from_ymd_opt` would.
pub fn date_from_ymd(year: i32, month: u32, day: u32) -> (r: Option<Date>)
    requires
        0 <= year,
    ensures
        r matches Some(d) ==> d == (Date { year, month, day }) && valid_date(d),
        r is None ==> !valid_date(Date { year, month, day }),
{
    if 1 <= month && month <= 12 && 1 <= day && day <= days_in_month(year, month) {
        Some(Date { year, month, day })
    } else {
        None
    }
}

/// A two-digit year, expanded to the century it most likely means.
pub open spec fn spec_two_to_four(y: int) -> int {
    if y > 99 {
        y
    } else if y > 50 {
        y + 1900
    } else {
        y + 2000
    }
}

pub fn two_to_four_digit_year(year: i32) -> (r: i32)
    requires
        0 <= year,
    ensures
        r == spec_two_to_four(year as int),
{
    if year > 99 {
        year
    } else if year > 50 {
        year + 1900
    } else {
        year + 2000
    }
}

/// Reads `(x, y)` as day and month, or month and day, in that order.
pub open spec fn spec_map_dm(x: int, y: int, year: int) -> Option<Date> {
    if 1 <= x <= 31 && 1 <= y <= 12 {
        let d = Date { year: year as i32, month: y as u32, day: x as u32 };
        if valid_date(d) {
            Option::Some(d)
        } else {
            Option::None
        }
    } else if 1 <= y <= 31 && 1 <= x <= 12 {
        let d = Date { year: year as i32, month: x as u32, day: y as u32 };
        if valid_date(d) {
            Option::Some(d)
        } else {
            Option::None
        }
    } else {
        Option::None
    }
}

/// Reads a triple as day, month and year: first with a four-digit year at
/// the back, then at the front, then the same with two-digit years.
pub open spec fn spec_map_dmy(a: int, b: int, c: int) -> Option<Date> {
    let t1: Option<Date> = if 1000 <= c <= 2050 {
        spec_map_dm(a, b, c)
    } else {
        Option::None
    };
    let t2: Option<Date> = if 1000 <= a <= 2050 {
        spec_map_dm(b, c, a)
    } else {
        Option::None
    };
    let t3: Option<Date> = if 0 <= c <= 99 {
        spec_map_dm(a, b, spec_two_to_four(c))
    } else {
        Option::None
    };
    let t4: Option<Date> = if 0 <= a <= 99 {
        spec_map_dm(b, c, spec_two_to_four(a))
    } else {
        Option::None
    };
    if t1 is Some {
        t1
    } else if t2 is Some {
        t2
    } else if t3 is Some {
        t3
    } else {
        t4
    }
}

fn map_ints_to_dm(x: u32, y: u32, year: i32) -> (r: Option<Date>)
    requires
        0 <= year,
    ensures
        r == spec_map_dm(x as int, y as int, year as int),
{
    if 1 <= x && x <= 31 && 1 <= y && y <= 12 {
        date_from_ymd(year, y, x)
    } else if 1 <= y && y <= 31 && 1 <= x && x <= 12 {
        date_from_ymd(year, x, y)
    } else {
        None
    }
}

/// Reads a triple of numbers as a calendar date, trying each plausible
/// placement of the year.
pub fn map_ints_to_dmy(a: u32, b: u32, c: u32) -> (r: Option<Date>)
    requires
        a < 10000,
        b < 10000,
        c < 10000,
    ensures
        r == spec_map_dmy(a as int, b as int, c as int),
{
    if 1000 <= c && c <= 2050 {
        let t1 = map_ints_to_dm(a, b, c as i32);
        if t1.is_some() {
            return t1;
        }
    }
    if 1000 <= a && a <= 2050 {
        let t2 = map_ints_to_dm(b, c, a as i32);
        if t2.is_some() {
            return t2;
        }
    }
    if c <= 99 {
        let t3 = map_ints_to_dm(a, b, two_to_four_digit_year(c as i32));
        if t3.is_some() {
            return t3;
        }
    }
    if a <= 99 {
        let t4 = map_ints_to_dm(b, c, two_to_four_digit_year(a as i32));
        if t4.is_some() {
            return t4;
        }
    }
    None
}

} // verus!

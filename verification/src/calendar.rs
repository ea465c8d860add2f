//! Calendar days as day numbers of the proleptic Gregorian calendar.
//!
//! A `Date` holds the number of its day, counted so that 1 January of year 1
//! is day 1. Order and distance of dates are then order and difference of
//! integers. The two conversions that need the calendar itself, from year,
//! month and day to a day number and from a day to the first day of its
//! month, are made by `chrono`; their results are named here, not defined.

use chrono::Datelike;
use vstd::prelude::*;

verus! {

/// Day number of 1 January of year 0, the first day a `Date` can hold.
pub const DATE_MIN_DAYS: i32 = -365;

/// Day number of 31 December of year 9999, the last day a `Date` can hold.
pub const DATE_MAX_DAYS: i32 = 3_652_059;

/// The day number that `chrono` gives the calendar date `year`-`month`-`day`,
/// or `None` where `chrono` has no such date.
pub uninterp spec fn civil_day_number(year: int, month: int, day: int) -> Option<int>;

/// The day number of the first day of the month in which day `day` lies.
pub uninterp spec fn month_start(day: int) -> int;

/// Calls `chrono::NaiveDate::from_ymd_opt` and, on a date, `num_days_from_ce`.
///
/// Assumed: the outcome is a function of the three arguments, named
/// `civil_day_number`; and the first day of each month of the years 0 to 9999
/// exists and its number lies between `DATE_MIN_DAYS` and `DATE_MAX_DAYS`.
#[verifier::external_body]
fn civil_to_days(year: i32, month: u32, day: u32) -> (r: Option<i32>)
    ensures
        (match r {
            Some(n) => civil_day_number(year as int, month as int, day as int) == Some(n as int),
            None => civil_day_number(year as int, month as int, day as int).is_none(),
        }),
        0 <= year <= 9999 && 1 <= month <= 12 && day == 1 ==> r.is_some() && DATE_MIN_DAYS
            <= r.unwrap() <= DATE_MAX_DAYS,
{
    chrono::NaiveDate::from_ymd_opt(year, month, day).map(|date| date.num_days_from_ce())
}

/// Calls `chrono::NaiveDate::from_num_days_from_ce_opt`, `with_day(1)` and
/// `num_days_from_ce` on a day number that a `Date` can hold.
///
/// Assumed: the outcome is a function of the argument, named `month_start`;
/// it is at most 30 days before the argument, never after it, and not before
/// `DATE_MIN_DAYS`, which is itself the first day of a month.
#[verifier::external_body]
fn month_start_days(days: i32) -> (r: i32)
    requires
        DATE_MIN_DAYS <= days <= DATE_MAX_DAYS,
    ensures
        r == month_start(days as int),
        DATE_MIN_DAYS <= r,
        r <= days,
        days - r <= 30,
{
    chrono::NaiveDate::from_num_days_from_ce_opt(days).unwrap().with_day(1).unwrap().num_days_from_ce()
}

/// A calendar day between 1 January 0000 and 31 December 9999.
#[derive(Clone, Copy, Debug, PartialEq, Eq, PartialOrd, Ord, Hash)]
pub struct Date {
    days: i32,
}

impl View for Date {
    type V = int;

    /// The day number.
    closed spec fn view(&self) -> int {
        self.days as int
    }
}

/// Whether `day` is the number of a day that a `Date` can hold.
pub open spec fn is_date_number(day: int) -> bool {
    DATE_MIN_DAYS <= day <= DATE_MAX_DAYS
}

/// The date with day number `day`, for a number that a `Date` can hold.
pub closed spec fn date_at(day: int) -> Date {
    Date { days: day as i32 }
}

/// `date_at` and the view of a date undo each other.
pub proof fn lemma_date_at(day: int)
    requires
        is_date_number(day),
    ensures
        date_at(day)@ == day,
{
}

impl Date {
    #[verifier::type_invariant]
    spec fn in_range(self) -> bool {
        is_date_number(self.days as int)
    }

    /// The date with day number `days`, if there is one.
    pub fn from_days(days: i32) -> (r: Option<Date>)
        ensures
            r.is_some() == is_date_number(days as int),
            r matches Some(date) ==> date@ == days && date == date_at(days as int),
    {
        if DATE_MIN_DAYS <= days && days <= DATE_MAX_DAYS {
            Some(Date { days })
        } else {
            None
        }
    }

    /// The date with day number `days`, where there is one.
    pub fn at(days: i32) -> (r: Date)
        requires
            is_date_number(days as int),
        ensures
            r == date_at(days as int),
            r@ == days,
    {
        Date { days }
    }

    /// The day number of this date.
    pub fn days(&self) -> (r: i32)
        ensures
            r == self@,
            is_date_number(r as int),
            *self == date_at(r as int),
    {
        proof {
            use_type_invariant(self);
        }
        self.days
    }

    /// The date `year`-`month`-`day`, if the calendar has it and it lies in
    /// the range of the type.
    pub fn from_ymd(year: i32, month: u32, day: u32) -> (r: Option<Date>)
        ensures
            (match r {
                Some(date) => civil_day_number(year as int, month as int, day as int) == Some(
                    date@,
                ),
                None => match civil_day_number(year as int, month as int, day as int) {
                    Some(n) => !is_date_number(n),
                    None => true,
                },
            }),
            0 <= year <= 9999 && 1 <= month <= 12 && day == 1 ==> r.is_some(),
    {
        match civil_to_days(year, month, day) {
            Some(days) => Date::from_days(days),
            None => None,
        }
    }

    /// The first day of this date's month.
    pub fn first_of_month(&self) -> (r: Date)
        ensures
            r@ == month_start(self@),
            r@ <= self@ <= r@ + 30,
    {
        proof {
            use_type_invariant(self);
        }
        let days: i32 = month_start_days(self.days);
        Date { days }
    }
}

} // verus!

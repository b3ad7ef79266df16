//! Calendar dates, counted in days.

use vstd::prelude::*;

verus! {

/// The number of the day `year`-`month`-`day` in the proleptic Gregorian
/// calendar, where 1 January of the year 1 is day 1; `None` where there
/// is no such day.
pub uninterp spec fn day_number(year: int, month: int, day: int) -> Option<int>;

/// Asks `chrono` for the number of a day: `NaiveDate::from_ymd_opt` makes
/// the date, or finds that there is none, and `Datelike::num_days_from_ce`
/// counts its days. The contract gives the result the name
/// [`day_number`]; it claims nothing else of it.
#[verifier::external_body]
pub(crate) fn day_number_of(year: i32, month: u32, day: u32) -> (r: Option<i32>)
    ensures
        match r {
            Some(n) => day_number(year as int, month as int, day as int) == Some(n as int),
            None => day_number(year as int, month as int, day as int) is None,
        },
{
    match chrono::NaiveDate::from_ymd_opt(year, month, day) {
        Some(date) => Some(chrono::Datelike::num_days_from_ce(&date)),
        None => None,
    }
}

/// The number of the day that `date` names by year, month and day, if it
/// names one: the list must hold three numbers, small enough to be asked
/// for.
pub open spec fn day_number_in(date: Seq<usize>) -> Option<int> {
    if date.len() >= 3 && date[0] <= i32::MAX && date[1] <= u32::MAX && date[2] <= u32::MAX {
        day_number(date[0] as int, date[1] as int, date[2] as int)
    } else {
        None
    }
}

/// The number of the day that `date` names by year, month and day.
pub fn day_number_from(date: &Vec<usize>) -> (r: Option<i32>)
    ensures
        match r {
            Some(n) => day_number_in(date@) == Some(n as int),
            None => day_number_in(date@) is None,
        },
{
    if date.len() < 3 {
        return None;
    }
    let year = date[0];
    let month = date[1];
    let day = date[2];
    if year > i32::MAX as usize || month > u32::MAX as usize || day > u32::MAX as usize {
        return None;
    }
    day_number_of(year as i32, month as u32, day as u32)
}

/// How many days lie between two dates, if both are dates and the second
/// is not before the first.
pub open spec fn days_between(start: Seq<usize>, end: Seq<usize>) -> Option<int> {
    match (day_number_in(start), day_number_in(end)) {
        (Some(a), Some(b)) => if a <= b {
            Some(b - a)
        } else {
            None
        },
        _ => None,
    }
}

} // verus!

//! A verified calendar core for a date-picker widget.
//!
//! The library models proleptic Gregorian dates as plain
//! (year, month, day) triples and proves the two pieces of logic a
//! date picker needs: building the Monday-aligned grid of weeks that
//! spans a month, and navigating a candidate date by whole years,
//! months or days while keeping the day-of-month valid.

use vstd::prelude::*;

pub mod cursor;
pub mod date;
pub mod grid;
pub mod picker;

verus! {

/// English name of a month, `1` for January through `12` for December.
///
/// Months outside `1..=12` are a caller error and are excluded by
/// precondition rather than handled at run time.
pub fn month_name(i: u32) -> (name: &'static str)
    requires
        1 <= i <= 12,
    ensures
        i == 1 ==> name@ == "January"@,
        i == 2 ==> name@ == "February"@,
        i == 3 ==> name@ == "March"@,
        i == 4 ==> name@ == "April"@,
        i == 5 ==> name@ == "May"@,
        i == 6 ==> name@ == "June"@,
        i == 7 ==> name@ == "July"@,
        i == 8 ==> name@ == "August"@,
        i == 9 ==> name@ == "September"@,
        i == 10 ==> name@ == "October"@,
        i == 11 ==> name@ == "November"@,
        i == 12 ==> name@ == "December"@,
{
    if i == 1 {
        "January"
    } else if i == 2 {
        "February"
    } else if i == 3 {
        "March"
    } else if i == 4 {
        "April"
    } else if i == 5 {
        "May"
    } else if i == 6 {
        "June"
    } else if i == 7 {
        "July"
    } else if i == 8 {
        "August"
    } else if i == 9 {
        "September"
    } else if i == 10 {
        "October"
    } else if i == 11 {
        "November"
    } else {
        "December"
    }
}

} // verus!

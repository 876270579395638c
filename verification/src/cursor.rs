//! The candidate date a user composes in the picker.
//!
//! A cursor always holds a real calendar date.  Navigation moves it by
//! whole years, months or single days; when the surrounding month
//! changes, the day is clamped to the new month's last valid day, and
//! single-day steps roll over month and year ends.

use crate::date::{
    days_in_month, last_day_of_month, mk_date, next_date, prev_date, CalendarDate, MAX_YEAR,
    MIN_YEAR,
};
use vstd::arithmetic::div_mod::{
    lemma_fundamental_div_mod, lemma_fundamental_div_mod_converse,
    lemma_mod_division_less_than_divisor,
};
use vstd::prelude::*;

verus! {

/// `d`, reduced to the last day of (`y`, `m`) when it is too large.
pub open spec fn clamp_day(y: int, m: int, d: int) -> int {
    if d > days_in_month(y, m) {
        days_in_month(y, m)
    } else {
        d
    }
}

/// The date reached by moving `c` exactly `n` years, clamping the day.
pub open spec fn add_years_spec(c: CalendarDate, n: int) -> CalendarDate {
    mk_date(c.year + n, c.month as int, clamp_day(c.year + n, c.month as int, c.day as int))
}

/// The date reached by moving `c` exactly `n` months: the month index
/// is shifted with base-12 carry into the year, then the day clamped.
pub open spec fn add_months_spec(c: CalendarDate, n: int) -> CalendarDate {
    let t = c.month - 1 + n;
    let y = c.year + t / 12;
    let m = t % 12 + 1;
    mk_date(y, m, clamp_day(y, m, c.day as int))
}

/// A mutable (year, month, day) triple under composition, always a
/// real calendar date.
#[derive(Clone, Copy, Debug, PartialEq, Eq, Structural)]
pub struct DateCursor {
    pub current: CalendarDate,
}

impl DateCursor {
    pub open spec fn wf(self) -> bool {
        self.current.wf()
    }

    /// A cursor starting at the given date.
    pub fn new(start: CalendarDate) -> (c: DateCursor)
        requires
            start.wf(),
        ensures
            c.wf(),
            c.current == start,
    {
        DateCursor { current: start }
    }

    /// The date the cursor currently denotes.
    pub fn date(&self) -> (d: CalendarDate)
        ensures
            d == self.current,
    {
        self.current
    }

    /// Move the cursor `n` years (negative `n` moves back), clamping
    /// the day to the target month's length.
    pub fn add_years(&mut self, n: i32)
        requires
            old(self).wf(),
            MIN_YEAR <= old(self).current.year + n <= MAX_YEAR,
        ensures
            final(self).wf(),
            final(self).current == add_years_spec(old(self).current, n as int),
    {
        let y = self.current.year + n;
        let m = self.current.month;
        let ldm = last_day_of_month(y, m);
        let d = if self.current.day > ldm {
            ldm
        } else {
            self.current.day
        };
        self.current = CalendarDate { year: y, month: m, day: d };
    }

    /// Move the cursor `n` months (negative `n` moves back), carrying
    /// across year ends and clamping the day.
    pub fn add_months(&mut self, n: i32)
        requires
            old(self).wf(),
            MIN_YEAR <= old(self).current.year + (old(self).current.month - 1 + n) / 12
                <= MAX_YEAR,
        ensures
            final(self).wf(),
            final(self).current == add_months_spec(old(self).current, n as int),
    {
        let t: i64 = self.current.month as i64 - 1 + n as i64;
        proof {
            lemma_fundamental_div_mod(t as int, 12);
            lemma_mod_division_less_than_divisor(t as int, 12);
        }
        let q: i64 = t.checked_div_euclid(12).unwrap();
        let r: i64 = t.checked_rem_euclid(12).unwrap();
        let y: i32 = (self.current.year as i64 + q) as i32;
        let m: u8 = (r + 1) as u8;
        let ldm = last_day_of_month(y, m);
        let d = if self.current.day > ldm {
            ldm
        } else {
            self.current.day
        };
        self.current = CalendarDate { year: y, month: m, day: d };
    }

    /// Move the cursor one day forward (`n == 1`) or back (`n == -1`),
    /// rolling over month and year boundaries.
    pub fn add_days(&mut self, n: i32)
        requires
            old(self).wf(),
            n == 1 || n == -1,
            n == 1 ==> !(old(self).current.year == MAX_YEAR && old(self).current.month == 12
                && old(self).current.day == 31),
            n == -1 ==> !(old(self).current.year == MIN_YEAR && old(self).current.month == 1
                && old(self).current.day == 1),
        ensures
            final(self).wf(),
            n == 1 ==> final(self).current == next_date(old(self).current),
            n == -1 ==> final(self).current == prev_date(old(self).current),
    {
        let c = self.current;
        if n == 1 {
            self.current = c.succ();
        } else {
            self.current = c.pred();
        }
    }

    /// Select a year directly; the day is clamped to the month's
    /// length in that year.
    pub fn set_year(&mut self, year: i32)
        requires
            old(self).wf(),
            MIN_YEAR <= year <= MAX_YEAR,
        ensures
            final(self).wf(),
            final(self).current == mk_date(
                year as int,
                old(self).current.month as int,
                clamp_day(year as int, old(self).current.month as int, old(self).current.day as int),
            ),
    {
        let m = self.current.month;
        let ldm = last_day_of_month(year, m);
        let d = if self.current.day > ldm {
            ldm
        } else {
            self.current.day
        };
        self.current = CalendarDate { year, month: m, day: d };
    }

    /// Select a month directly; the day is clamped to its length.
    pub fn set_month(&mut self, month: u8)
        requires
            old(self).wf(),
            1 <= month <= 12,
        ensures
            final(self).wf(),
            final(self).current == mk_date(
                old(self).current.year as int,
                month as int,
                clamp_day(old(self).current.year as int, month as int, old(self).current.day as int),
            ),
    {
        let y = self.current.year;
        let ldm = last_day_of_month(y, month);
        let d = if self.current.day > ldm {
            ldm
        } else {
            self.current.day
        };
        self.current = CalendarDate { year: y, month, day: d };
    }

    /// Select a day directly; values past the month's end are clamped
    /// to its last day.
    pub fn set_day(&mut self, day: u8)
        requires
            old(self).wf(),
            1 <= day <= 31,
        ensures
            final(self).wf(),
            final(self).current == mk_date(
                old(self).current.year as int,
                old(self).current.month as int,
                clamp_day(old(self).current.year as int, old(self).current.month as int, day as int),
            ),
    {
        let y = self.current.year;
        let m = self.current.month;
        let ldm = last_day_of_month(y, m);
        let d = if day > ldm {
            ldm
        } else {
            day
        };
        self.current = CalendarDate { year: y, month: m, day: d };
    }
}

/// `k` successive single-month steps from `c`.
pub open spec fn months_stepped(c: CalendarDate, k: nat) -> CalendarDate
    decreases k,
{
    if k == 0 {
        c
    } else {
        add_months_spec(months_stepped(c, (k - 1) as nat), 1)
    }
}

/// One single-month step: the month advances, carrying into the year
/// from December; a day of at most 28 is never clamped.
proof fn lemma_one_month_step(c: CalendarDate)
    requires
        c.wf(),
        c.day <= 28,
        c.month == 12 ==> c.year < MAX_YEAR,
    ensures
        add_months_spec(c, 1) == if c.month < 12 {
            mk_date(c.year as int, c.month + 1, c.day as int)
        } else {
            mk_date(c.year + 1, 1, c.day as int)
        },
        add_months_spec(c, 1).wf(),
        add_months_spec(c, 1).day == c.day,
        add_months_spec(c, 1).year == if c.month < 12 {
            c.year as int
        } else {
            c.year + 1
        },
        add_months_spec(c, 1).month == if c.month < 12 {
            c.month + 1
        } else {
            1int
        },
{
    let t = c.month - 1 + 1;
    if c.month < 12 {
        lemma_fundamental_div_mod_converse(t, 12, 0, t);
    } else {
        lemma_fundamental_div_mod_converse(t, 12, 1, 0);
    }
}

/// Stepping the cursor one month at a time, twelve times, lands on
/// the same date as one whole-year step, whenever the day (at most
/// 28) can never be clamped along the way.
pub proof fn lemma_twelve_months_is_one_year(c: CalendarDate)
    requires
        c.wf(),
        c.day <= 28,
        c.year < MAX_YEAR,
    ensures
        months_stepped(c, 12) == add_years_spec(c, 1),
{
    let s1 = months_stepped(c, 1);
    let s2 = months_stepped(c, 2);
    let s3 = months_stepped(c, 3);
    let s4 = months_stepped(c, 4);
    let s5 = months_stepped(c, 5);
    let s6 = months_stepped(c, 6);
    let s7 = months_stepped(c, 7);
    let s8 = months_stepped(c, 8);
    let s9 = months_stepped(c, 9);
    let s10 = months_stepped(c, 10);
    let s11 = months_stepped(c, 11);
    assert(months_stepped(c, 0) == c);
    lemma_one_month_step(c);
    assert(s1 == add_months_spec(c, 1));
    lemma_one_month_step(s1);
    assert(s2 == add_months_spec(s1, 1));
    lemma_one_month_step(s2);
    assert(s3 == add_months_spec(s2, 1));
    lemma_one_month_step(s3);
    assert(s4 == add_months_spec(s3, 1));
    lemma_one_month_step(s4);
    assert(s5 == add_months_spec(s4, 1));
    lemma_one_month_step(s5);
    assert(s6 == add_months_spec(s5, 1));
    lemma_one_month_step(s6);
    assert(s7 == add_months_spec(s6, 1));
    lemma_one_month_step(s7);
    assert(s8 == add_months_spec(s7, 1));
    lemma_one_month_step(s8);
    assert(s9 == add_months_spec(s8, 1));
    lemma_one_month_step(s9);
    assert(s10 == add_months_spec(s9, 1));
    lemma_one_month_step(s10);
    assert(s11 == add_months_spec(s10, 1));
    lemma_one_month_step(s11);
    assert(months_stepped(c, 12) == add_months_spec(s11, 1));
}

} // verus!

//! Proleptic Gregorian dates as plain (year, month, day) triples.
//!
//! The model assigns every date a day number: the count of days since
//! the first of January of year 1 (day number 0, a Monday).  Weekday
//! and ISO week arithmetic are defined from that single notion, and
//! the stepping functions `next_date` / `prev_date` are proved to move
//! the day number by exactly one.

use vstd::arithmetic::div_mod::{
    lemma_fundamental_div_mod, lemma_fundamental_div_mod_converse,
    lemma_mod_division_less_than_divisor, lemma_mod_multiples_basic,
};
use vstd::prelude::*;

verus! {

/// Years are kept a million either side of year 1, far inside `i32`,
/// so that every day-number computation fits comfortably in `i64`.
pub const MIN_YEAR: i32 = -1000000;

pub const MAX_YEAR: i32 = 1000000;

/// A proleptic Gregorian calendar date.  A value is meaningful only
/// when it satisfies [`CalendarDate::wf`]: the day must exist in its
/// month and year, so a 30th of February cannot arise.
#[derive(Clone, Copy, Debug, PartialEq, Eq, Structural)]
pub struct CalendarDate {
    pub year: i32,
    pub month: u8,
    pub day: u8,
}

pub open spec fn is_leap_year(y: int) -> bool {
    (y % 4 == 0 && y % 100 != 0) || y % 400 == 0
}

/// One when `y` is a leap year, zero otherwise.
pub open spec fn leap_day(y: int) -> int {
    if is_leap_year(y) {
        1
    } else {
        0
    }
}

pub open spec fn days_in_month(y: int, m: int) -> int {
    if m == 2 {
        28 + leap_day(y)
    } else if m == 4 || m == 6 || m == 9 || m == 11 {
        30
    } else {
        31
    }
}

pub open spec fn valid_ymd(y: int, m: int, d: int) -> bool {
    &&& MIN_YEAR <= y <= MAX_YEAR
    &&& 1 <= m <= 12
    &&& 1 <= d <= days_in_month(y, m)
}

/// The date with the given components; faithful whenever they are in
/// range of the field types.
pub open spec fn mk_date(y: int, m: int, d: int) -> CalendarDate {
    CalendarDate { year: y as i32, month: m as u8, day: d as u8 }
}

/// Days in years 1 .. y, i.e. the day number of the first of January
/// of year `y`.  Division is Euclidean, so the count is right for
/// years before year 1 as well.
pub open spec fn days_before_year(y: int) -> int {
    365 * (y - 1) + (y - 1) / 4 - (y - 1) / 100 + (y - 1) / 400
}

/// Days in the months of year `y` that precede month `m`.
pub open spec fn days_before_month(y: int, m: int) -> int
    decreases m,
{
    if m <= 1 {
        0
    } else {
        days_before_month(y, m - 1) + days_in_month(y, m - 1)
    }
}

/// Days since the first of January of year 1 (which is day 0).
pub open spec fn day_number(y: int, m: int, d: int) -> int {
    days_before_year(y) + days_before_month(y, m) + (d - 1)
}

impl CalendarDate {
    /// The invariant every date handled by the library satisfies.
    pub open spec fn wf(self) -> bool {
        valid_ymd(self.year as int, self.month as int, self.day as int)
    }

    pub open spec fn day_num(self) -> int {
        day_number(self.year as int, self.month as int, self.day as int)
    }

    /// Weekday as an index: 0 is Monday, 6 is Sunday.  Day number 0,
    /// the first of January of year 1, is a Monday.
    pub open spec fn weekday(self) -> int {
        self.day_num() % 7
    }
}

/// The day after `c`: one day up, rolling over month and year ends.
pub open spec fn next_date(c: CalendarDate) -> CalendarDate {
    if c.day < days_in_month(c.year as int, c.month as int) {
        mk_date(c.year as int, c.month as int, c.day + 1)
    } else if c.month < 12 {
        mk_date(c.year as int, c.month + 1, 1)
    } else {
        mk_date(c.year + 1, 1, 1)
    }
}

/// The day before `c`: one day down, rolling under month and year starts.
pub open spec fn prev_date(c: CalendarDate) -> CalendarDate {
    if c.day > 1 {
        mk_date(c.year as int, c.month as int, c.day - 1)
    } else if c.month > 1 {
        mk_date(c.year as int, c.month - 1, days_in_month(c.year as int, c.month - 1))
    } else {
        mk_date(c.year - 1, 12, 31)
    }
}

/// `n` applications of [`next_date`].
pub open spec fn nth_next_date(c: CalendarDate, n: nat) -> CalendarDate
    decreases n,
{
    if n == 0 {
        c
    } else {
        next_date(nth_next_date(c, (n - 1) as nat))
    }
}

/// `n` applications of [`prev_date`].
pub open spec fn nth_prev_date(c: CalendarDate, n: nat) -> CalendarDate
    decreases n,
{
    if n == 0 {
        c
    } else {
        prev_date(nth_prev_date(c, (n - 1) as nat))
    }
}

/// How a positive divisor's quotient and remainder change when the
/// dividend drops by one.
proof fn lemma_div_step(a: int, k: int)
    requires
        k > 0,
    ensures
        a % k == 0 ==> a / k == (a - 1) / k + 1,
        a % k != 0 ==> a / k == (a - 1) / k,
{
    lemma_fundamental_div_mod(a, k);
    lemma_mod_division_less_than_divisor(a, k);
    if a % k == 0 {
        assert(k * (a / k - 1) == k * (a / k) - k) by (nonlinear_arith);
        lemma_fundamental_div_mod_converse(a - 1, k, a / k - 1, k - 1);
    } else {
        assert(a - 1 == (a / k) * k + (a % k - 1)) by (nonlinear_arith)
            requires
                a == k * (a / k) + a % k,
        ;
        lemma_fundamental_div_mod_converse(a - 1, k, a / k, a % k - 1);
    }
}

/// A year contributes 365 days, or 366 when it is a leap year.
pub proof fn lemma_days_before_year_step(y: int)
    ensures
        days_before_year(y + 1) == days_before_year(y) + 365 + leap_day(y),
{
    lemma_div_step(y, 4);
    lemma_div_step(y, 100);
    lemma_div_step(y, 400);
    if y % 400 == 0 {
        lemma_fundamental_div_mod(y, 400);
        assert(y == (4 * (y / 400)) * 100) by (nonlinear_arith)
            requires
                y == 400 * (y / 400),
        ;
        lemma_mod_multiples_basic(4 * (y / 400), 100);
        assert(y == (25 * (4 * (y / 400))) * 4) by (nonlinear_arith)
            requires
                y == (4 * (y / 400)) * 100,
        ;
        lemma_mod_multiples_basic(25 * (4 * (y / 400)), 4);
    } else if y % 100 == 0 {
        lemma_fundamental_div_mod(y, 100);
        assert(y == (25 * (y / 100)) * 4) by (nonlinear_arith)
            requires
                y == 100 * (y / 100),
        ;
        lemma_mod_multiples_basic(25 * (y / 100), 4);
    }
}

/// The running day counts at the start of each month of year `y`.
pub proof fn lemma_days_before_month_table(y: int)
    ensures
        days_before_month(y, 1) == 0,
        days_before_month(y, 2) == 31,
        days_before_month(y, 3) == 59 + leap_day(y),
        days_before_month(y, 4) == 90 + leap_day(y),
        days_before_month(y, 5) == 120 + leap_day(y),
        days_before_month(y, 6) == 151 + leap_day(y),
        days_before_month(y, 7) == 181 + leap_day(y),
        days_before_month(y, 8) == 212 + leap_day(y),
        days_before_month(y, 9) == 243 + leap_day(y),
        days_before_month(y, 10) == 273 + leap_day(y),
        days_before_month(y, 11) == 304 + leap_day(y),
        days_before_month(y, 12) == 334 + leap_day(y),
{
    assert(days_before_month(y, 1) == 0);
    assert(days_before_month(y, 2) == 31);
    assert(days_before_month(y, 3) == 59 + leap_day(y));
    assert(days_before_month(y, 4) == 90 + leap_day(y));
    assert(days_before_month(y, 5) == 120 + leap_day(y));
    assert(days_before_month(y, 6) == 151 + leap_day(y));
    assert(days_before_month(y, 7) == 181 + leap_day(y));
    assert(days_before_month(y, 8) == 212 + leap_day(y));
    assert(days_before_month(y, 9) == 243 + leap_day(y));
    assert(days_before_month(y, 10) == 273 + leap_day(y));
    assert(days_before_month(y, 11) == 304 + leap_day(y));
    assert(days_before_month(y, 12) == 334 + leap_day(y));
}

/// A date's day number stays within the span of its year.
pub proof fn lemma_day_num_in_year(c: CalendarDate)
    requires
        c.wf(),
    ensures
        days_before_year(c.year as int) <= c.day_num(),
        c.day_num() <= days_before_year(c.year as int) + 364 + leap_day(c.year as int),
{
    lemma_days_before_month_table(c.year as int);
}

/// Later years hold strictly larger day numbers, and each added year
/// contributes at least 365 days.
pub proof fn lemma_days_before_year_monotonic(y1: int, y2: int)
    requires
        y1 <= y2,
    ensures
        days_before_year(y1) + 365 * (y2 - y1) <= days_before_year(y2),
    decreases y2 - y1,
{
    if y1 < y2 {
        lemma_days_before_year_monotonic(y1, y2 - 1);
        lemma_days_before_year_step(y2 - 1);
    }
}

/// A date in an earlier year has a day number strictly before the
/// later year's first of January.
pub proof fn lemma_day_num_year_order(a: CalendarDate, b: CalendarDate)
    requires
        a.wf(),
        b.wf(),
        a.year < b.year,
    ensures
        a.day_num() < days_before_year(b.year as int),
        days_before_year(b.year as int) <= b.day_num(),
{
    lemma_day_num_in_year(a);
    lemma_day_num_in_year(b);
    lemma_days_before_year_step(a.year as int);
    lemma_days_before_year_monotonic(a.year + 1, b.year as int);
}

/// Stepping forward one day raises the day number by exactly one and
/// preserves well-formedness; the year moves only across New Year.
pub proof fn lemma_day_number_next(c: CalendarDate)
    requires
        c.wf(),
        !(c.year == MAX_YEAR && c.month == 12 && c.day == 31),
    ensures
        next_date(c).wf(),
        next_date(c).day_num() == c.day_num() + 1,
        next_date(c).year == if c.month == 12 && c.day == 31 {
            c.year + 1
        } else {
            c.year as int
        },
        next_date(c).year as int >= c.year as int,
{
    lemma_days_before_month_table(c.year as int);
    if c.day >= days_in_month(c.year as int, c.month as int) && c.month == 12 {
        lemma_days_before_year_step(c.year as int);
    }
}

/// Walking forward up to a year keeps dates well formed, raises the
/// day number one per step, and crosses at most one year boundary.
pub proof fn lemma_nth_next_props(c: CalendarDate, n: nat)
    requires
        c.wf(),
        c.year < MAX_YEAR,
        n <= 365,
    ensures
        nth_next_date(c, n).wf(),
        nth_next_date(c, n).day_num() == c.day_num() + n,
        c.year <= nth_next_date(c, n).year <= c.year + 1,
    decreases n,
{
    if n > 0 {
        lemma_nth_next_props(c, (n - 1) as nat);
        let p = nth_next_date(c, (n - 1) as nat);
        if p.year != c.year && p.month == 12 && p.day == 31 {
            // The December ending a later year is more than 365 steps away.
            lemma_day_num_year_order(c, p);
            lemma_days_before_month_table(p.year as int);
            assert(false);
        }
        lemma_day_number_next(p);
    }
}

/// Walking backward up to a year keeps dates well formed, lowers the
/// day number one per step, and crosses at most one year boundary.
pub proof fn lemma_nth_prev_props(c: CalendarDate, n: nat)
    requires
        c.wf(),
        c.year > MIN_YEAR,
        n <= 365,
    ensures
        nth_prev_date(c, n).wf(),
        nth_prev_date(c, n).day_num() == c.day_num() - n,
        c.year - 1 <= nth_prev_date(c, n).year <= c.year as int,
    decreases n,
{
    if n > 0 {
        lemma_nth_prev_props(c, (n - 1) as nat);
        let p = nth_prev_date(c, (n - 1) as nat);
        if p.year != c.year && p.month == 1 && p.day == 1 {
            // The January opening an earlier year is more than 365 steps away.
            lemma_day_num_in_year(c);
            lemma_days_before_year_step(c.year - 1);
            assert(false);
        }
        lemma_day_number_prev(p);
    }
}

/// `next_date` commutes with taking `n` further steps.
pub proof fn lemma_nth_next_shift(c: CalendarDate, n: nat)
    ensures
        nth_next_date(next_date(c), n) == next_date(nth_next_date(c, n)),
    decreases n,
{
    if n > 0 {
        lemma_nth_next_shift(c, (n - 1) as nat);
    }
}

/// Splitting a forward walk at any point gives the same endpoint.
pub proof fn lemma_nth_next_add(c: CalendarDate, a: nat, b: nat)
    ensures
        nth_next_date(c, a + b) == nth_next_date(nth_next_date(c, a), b),
    decreases b,
{
    if b > 0 {
        lemma_nth_next_add(c, a, (b - 1) as nat);
    }
}

/// Walking `n` days back and then `n` days forward returns to the
/// starting date.
pub proof fn lemma_nth_next_of_prev(c: CalendarDate, n: nat)
    requires
        c.wf(),
        c.year > MIN_YEAR,
        n <= 365,
    ensures
        nth_next_date(nth_prev_date(c, n), n) == c,
    decreases n,
{
    if n > 0 {
        lemma_nth_next_of_prev(c, (n - 1) as nat);
        lemma_nth_prev_props(c, (n - 1) as nat);
        let p = nth_prev_date(c, (n - 1) as nat);
        if p.year != c.year && p.month == 1 && p.day == 1 {
            lemma_day_num_in_year(c);
            lemma_days_before_year_step(c.year - 1);
            assert(false);
        }
        lemma_day_number_prev(p);
        lemma_nth_next_shift(prev_date(p), (n - 1) as nat);
    }
}

/// Within one month, `d - 1` forward steps from the first reach day `d`.
pub proof fn lemma_nth_next_within_month(y: int, m: int, d: int)
    requires
        valid_ymd(y, m, d),
    ensures
        nth_next_date(mk_date(y, m, 1), (d - 1) as nat) == mk_date(y, m, d),
    decreases d,
{
    if d > 1 {
        lemma_nth_next_within_month(y, m, d - 1);
    }
}

/// Stepping backward one day lowers the day number by exactly one,
/// preserves well-formedness, and undoes `next_date`.
pub proof fn lemma_day_number_prev(c: CalendarDate)
    requires
        c.wf(),
        !(c.year == MIN_YEAR && c.month == 1 && c.day == 1),
    ensures
        prev_date(c).wf(),
        prev_date(c).day_num() == c.day_num() - 1,
        prev_date(c).year == if c.month == 1 && c.day == 1 {
            c.year - 1
        } else {
            c.year as int
        },
        next_date(prev_date(c)) == c,
{
    lemma_days_before_month_table(c.year as int);
    if c.month == 1 && c.day == 1 {
        lemma_days_before_year_step(c.year - 1);
        lemma_days_before_month_table(c.year - 1);
    }
}

/// Weekday index of the first of January of year `y`.
pub open spec fn jan1_weekday(y: int) -> int {
    day_number(y, 1, 1) % 7
}

/// How many ISO weeks year `y` has: 53 when the year starts on a
/// Thursday, or on a Wednesday in a leap year; 52 otherwise.
pub open spec fn iso_weeks_in_year(y: int) -> int {
    if jan1_weekday(y) == 3 || (is_leap_year(y) && jan1_weekday(y) == 2) {
        53
    } else {
        52
    }
}

/// The ISO-8601 week number of `c`, in 1..=53.  Week 1 is the week
/// containing the year's first Thursday; early January days may fall
/// in the last week of the previous year, and late December days in
/// week 1 of the next.
pub open spec fn iso_week_of(c: CalendarDate) -> int {
    let w = (days_before_month(c.year as int, c.month as int) + c.day + 9 - c.weekday()) / 7;
    if w < 1 {
        iso_weeks_in_year(c.year - 1)
    } else if w > iso_weeks_in_year(c.year as int) {
        1
    } else {
        w
    }
}

/// How many ISO weeks the given year has, 52 or 53.
pub fn iso_weeks_in_year_count(year: i32) -> (w: u8)
    requires
        MIN_YEAR <= year <= MAX_YEAR,
    ensures
        w as int == iso_weeks_in_year(year as int),
        52 <= w <= 53,
{
    let jan1 = CalendarDate { year, month: 1, day: 1 };
    let wd = weekday_number(&jan1);
    if wd == 3 || (is_leap(year) && wd == 2) {
        53
    } else {
        52
    }
}

/// The ISO-8601 week number of `c`.
///
/// The year before `c`'s is consulted only for the first days of
/// January, so a December date of the very first modeled year is fine.
pub fn iso_week_number(c: &CalendarDate) -> (w: u8)
    requires
        c.wf(),
        c.year as int > MIN_YEAR || c.month >= 2,
    ensures
        w as int == iso_week_of(*c),
        1 <= w <= 53,
{
    let dbm = days_before_month_of(c.year, c.month);
    let wd = weekday_number(c);
    let num: i64 = dbm as i64 + c.day as i64 + 9 - wd as i64;
    proof {
        lemma_fundamental_div_mod(num as int, 7);
        lemma_mod_division_less_than_divisor(num as int, 7);
        lemma_days_before_month_table(c.year as int);
    }
    let w0: i64 = num.checked_div_euclid(7).unwrap();
    if w0 < 1 {
        proof {
            // Only the first days of January land before week 1.
            assert(c.month == 1);
        }
        iso_weeks_in_year_count(c.year - 1)
    } else {
        let full = iso_weeks_in_year_count(c.year);
        if w0 > full as i64 {
            1
        } else {
            w0 as u8
        }
    }
}

/// Whether `year` is a leap year.
pub fn is_leap(year: i32) -> (b: bool)
    ensures
        b == is_leap_year(year as int),
{
    proof {
        lemma_mod_division_less_than_divisor(year as int, 4);
        lemma_mod_division_less_than_divisor(year as int, 100);
        lemma_mod_division_less_than_divisor(year as int, 400);
    }
    let r4 = year.checked_rem_euclid(4).unwrap();
    let r100 = year.checked_rem_euclid(100).unwrap();
    let r400 = year.checked_rem_euclid(400).unwrap();
    (r4 == 0 && r100 != 0) || r400 == 0
}

/// The number of the last day of the given month: 28, 29, 30 or 31.
pub fn last_day_of_month(year: i32, month: u8) -> (d: u8)
    requires
        1 <= month <= 12,
    ensures
        d as int == days_in_month(year as int, month as int),
        month == 2 && !is_leap_year(year as int) ==> d == 28,
        month == 2 && is_leap_year(year as int) ==> d == 29,
        month == 4 || month == 6 || month == 9 || month == 11 ==> d == 30,
        month == 1 || month == 3 || month == 5 || month == 7 || month == 8 || month == 10
            || month == 12 ==> d == 31,
{
    if month == 2 {
        if is_leap(year) {
            29
        } else {
            28
        }
    } else if month == 4 || month == 6 || month == 9 || month == 11 {
        30
    } else {
        31
    }
}

/// Days of `year` that precede the first of `month`.
fn days_before_month_of(year: i32, month: u8) -> (r: u16)
    requires
        1 <= month <= 12,
    ensures
        r as int == days_before_month(year as int, month as int),
        r <= 335,
{
    proof {
        lemma_days_before_month_table(year as int);
    }
    let leap: u16 = if is_leap(year) {
        1
    } else {
        0
    };
    match month {
        1 => 0,
        2 => 31,
        3 => 59 + leap,
        4 => 90 + leap,
        5 => 120 + leap,
        6 => 151 + leap,
        7 => 181 + leap,
        8 => 212 + leap,
        9 => 243 + leap,
        10 => 273 + leap,
        11 => 304 + leap,
        _ => 334 + leap,
    }
}

/// The day number of `c`: days since the first of January of year 1.
fn day_number_of(c: &CalendarDate) -> (n: i64)
    requires
        c.wf(),
    ensures
        n as int == c.day_num(),
{
    let yy: i64 = c.year as i64 - 1;
    proof {
        lemma_fundamental_div_mod(yy as int, 4);
        lemma_mod_division_less_than_divisor(yy as int, 4);
        lemma_fundamental_div_mod(yy as int, 100);
        lemma_mod_division_less_than_divisor(yy as int, 100);
        lemma_fundamental_div_mod(yy as int, 400);
        lemma_mod_division_less_than_divisor(yy as int, 400);
    }
    let q4: i64 = yy.checked_div_euclid(4).unwrap();
    let q100: i64 = yy.checked_div_euclid(100).unwrap();
    let q400: i64 = yy.checked_div_euclid(400).unwrap();
    let dbm: u16 = days_before_month_of(c.year, c.month);
    365 * yy + q4 - q100 + q400 + dbm as i64 + c.day as i64 - 1
}

/// The weekday of `c` as an index: 0 is Monday, 6 is Sunday.
pub fn weekday_number(c: &CalendarDate) -> (w: u8)
    requires
        c.wf(),
    ensures
        w as int == c.weekday(),
        w <= 6,
{
    let n = day_number_of(c);
    proof {
        lemma_mod_division_less_than_divisor(n as int, 7);
    }
    let r = n.checked_rem_euclid(7).unwrap();
    r as u8
}

impl CalendarDate {
    /// A date from its components, which must form a real calendar day.
    pub fn new(year: i32, month: u8, day: u8) -> (c: CalendarDate)
        requires
            valid_ymd(year as int, month as int, day as int),
        ensures
            c.wf(),
            c == (CalendarDate { year, month, day }),
    {
        CalendarDate { year, month, day }
    }

    /// The next calendar day.
    pub fn succ(&self) -> (r: CalendarDate)
        requires
            self.wf(),
            !(self.year == MAX_YEAR && self.month == 12 && self.day == 31),
        ensures
            r == next_date(*self),
            r.wf(),
            r.day_num() == self.day_num() + 1,
    {
        proof {
            lemma_day_number_next(*self);
        }
        let ldm = last_day_of_month(self.year, self.month);
        if self.day < ldm {
            CalendarDate { year: self.year, month: self.month, day: self.day + 1 }
        } else if self.month < 12 {
            CalendarDate { year: self.year, month: self.month + 1, day: 1 }
        } else {
            CalendarDate { year: self.year + 1, month: 1, day: 1 }
        }
    }

    /// The previous calendar day.
    pub fn pred(&self) -> (r: CalendarDate)
        requires
            self.wf(),
            !(self.year == MIN_YEAR && self.month == 1 && self.day == 1),
        ensures
            r == prev_date(*self),
            r.wf(),
            r.day_num() == self.day_num() - 1,
    {
        proof {
            lemma_day_number_prev(*self);
        }
        if self.day > 1 {
            CalendarDate { year: self.year, month: self.month, day: self.day - 1 }
        } else if self.month > 1 {
            let ldm = last_day_of_month(self.year, self.month - 1);
            CalendarDate { year: self.year, month: self.month - 1, day: ldm }
        } else {
            CalendarDate { year: self.year - 1, month: 12, day: 31 }
        }
    }
}

} // verus!

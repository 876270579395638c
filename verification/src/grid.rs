//! The month grid: the Monday-aligned rows of weeks spanning a month.
//!
//! The grid for a month starts on the Monday on or before the first
//! of the month and ends on the Sunday on or after its last day, so
//! rows may borrow leading and trailing days from the neighbouring
//! months.  Each row carries the ISO week number of its days.

use crate::date::{
    days_in_month, iso_week_number, iso_week_of, lemma_day_num_in_year,
    lemma_day_num_year_order, lemma_day_number_prev, lemma_days_before_month_table,
    lemma_days_before_year_step, lemma_nth_next_add, lemma_nth_next_of_prev,
    lemma_nth_next_props, lemma_nth_next_within_month, lemma_nth_prev_props, mk_date,
    next_date, nth_next_date, nth_prev_date, weekday_number, CalendarDate, MAX_YEAR, MIN_YEAR,
};
use vstd::arithmetic::div_mod::{
    lemma_fundamental_div_mod, lemma_fundamental_div_mod_converse,
    lemma_mod_division_less_than_divisor, lemma_mod_multiples_basic,
};
use vstd::prelude::*;

verus! {

/// One Monday-to-Sunday row of a month grid: seven consecutive dates
/// tagged with their ISO week number.
pub struct WeekRow {
    pub number: u8,
    pub days: Vec<CalendarDate>,
}

/// The mathematical content of a week row.
#[verifier::ext_equal]
pub ghost struct WeekRowModel {
    pub number: int,
    pub days: Seq<CalendarDate>,
}

impl View for WeekRow {
    type V = WeekRowModel;

    open spec fn view(&self) -> WeekRowModel {
        WeekRowModel { number: self.number as int, days: self.days@ }
    }
}

/// A grid as the sequence of its week models.
pub open spec fn grid_view(g: Seq<WeekRow>) -> Seq<WeekRowModel> {
    g.map_values(|w: WeekRow| w@)
}

pub open spec fn first_of_month(y: int, m: int) -> CalendarDate {
    mk_date(y, m, 1)
}

/// The Monday on or before the first of the month: the grid's first cell.
pub open spec fn grid_start(y: int, m: int) -> CalendarDate {
    nth_prev_date(first_of_month(y, m), first_of_month(y, m).weekday() as nat)
}

/// Cell `k` of the grid, counting day by day from the start across rows.
pub open spec fn grid_cell(y: int, m: int, k: int) -> CalendarDate {
    nth_next_date(grid_start(y, m), k as nat)
}

/// How many week rows the grid of (`y`, `m`) has.
pub open spec fn week_count(y: int, m: int) -> int {
    (first_of_month(y, m).weekday() + days_in_month(y, m) + 6) / 7
}

/// The one possible grid for (`y`, `m`): `week_count` rows of seven
/// consecutive days each, cell `k` being the `k`-th day after the
/// grid's starting Monday, each row numbered by the ISO week of its
/// Sunday.
pub open spec fn is_month_grid(y: int, m: int, g: Seq<WeekRowModel>) -> bool {
    &&& g.len() == week_count(y, m)
    &&& forall|i: int| 0 <= i < g.len() ==> (#[trigger] g[i]).days.len() == 7
    &&& forall|i: int, j: int|
        0 <= i < g.len() && 0 <= j < 7 ==> #[trigger] g[i].days[j] == grid_cell(y, m, 7 * i + j)
    &&& forall|i: int|
        0 <= i < g.len() ==> (#[trigger] g[i]).number == iso_week_of(grid_cell(y, m, 7 * i + 6))
}

/// Build the grid of weeks spanning the given month: walk back from
/// the first of the month to its Monday, then forward a day at a
/// time, closing a row at each Sunday, until the month is exhausted
/// and the final row closed.
pub fn build_month_grid(year: i32, month: u8) -> (weeks: Vec<WeekRow>)
    requires
        1 <= month <= 12,
        MIN_YEAR < year < MAX_YEAR,
    ensures
        is_month_grid(year as int, month as int, grid_view(weeks@)),
        weeks@.len() >= 1,
{
    let ghost yy: int = year as int;
    let ghost mm: int = month as int;

    let first = CalendarDate::new(year, month, 1);
    let wd1: u8 = weekday_number(&first);

    // Walk back to the Monday on or before the first of the month.
    let mut start = first;
    let mut k: u8 = 0;
    while k < wd1
        invariant
            1 <= mm <= 12,
            MIN_YEAR < yy < MAX_YEAR,
            first == first_of_month(yy, mm),
            first.wf(),
            wd1 as int == first.weekday(),
            wd1 <= 6,
            0 <= k <= wd1,
            start == nth_prev_date(first, k as nat),
            start.wf(),
            start.day_num() == first.day_num() - k,
            yy - 1 <= start.year as int <= yy,
        decreases wd1 - k,
    {
        proof {
            if start.month == 1 && start.day == 1 && start.year as int == yy - 1 {
                // The first of the previous year is over 358 days
                // before `first`; the walk is at most 6 days long.
                lemma_day_num_in_year(first);
                lemma_days_before_year_step(yy - 1);
                assert(false);
            }
            lemma_day_number_prev(start);
        }
        start = start.pred();
        k = k + 1;
    }

    let ghost g0 = start;
    let ghost start_num = g0.day_num();
    let ghost last = mk_date(yy, mm, days_in_month(yy, mm));
    let ghost last_num = last.day_num();
    let ghost end_num = last_num + 7 - last_num % 7;
    let ghost total = end_num - start_num;

    proof {
        assert(g0 == grid_start(yy, mm));
        assert(last.wf());
        assert(last_num == first.day_num() + days_in_month(yy, mm) - 1);
        lemma_fundamental_div_mod(first.day_num(), 7);
        lemma_mod_division_less_than_divisor(first.day_num(), 7);
        assert(start_num == 7 * (first.day_num() / 7));
        lemma_mod_multiples_basic(first.day_num() / 7, 7);
        assert((first.day_num() / 7) * 7 == 7 * (first.day_num() / 7));
        assert(start_num % 7 == 0);
        lemma_fundamental_div_mod(last_num, 7);
        lemma_mod_division_less_than_divisor(last_num, 7);
        assert(end_num == 7 * (last_num / 7 + 1));
        lemma_mod_multiples_basic(last_num / 7 + 1, 7);
        assert((last_num / 7 + 1) * 7 == 7 * (last_num / 7 + 1));
        assert(end_num % 7 == 0);
        // The grid holds exactly `week_count` full weeks.
        let s = wd1 + days_in_month(yy, mm) - 1;
        assert(last_num == start_num + s);
        assert(total == s + 7 - last_num % 7);
        assert(last_num % 7 == s % 7) by {
            lemma_fundamental_div_mod(s, 7);
            lemma_mod_division_less_than_divisor(s, 7);
            lemma_fundamental_div_mod_converse(
                last_num,
                7,
                first.day_num() / 7 + s / 7,
                s % 7,
            );
        }
        lemma_fundamental_div_mod(s, 7);
        assert(total == 7 * (s / 7 + 1));
        lemma_fundamental_div_mod_converse(s + 7, 7, s / 7 + 1, s % 7);
        assert(week_count(yy, mm) == s / 7 + 1);
        assert(total == 7 * week_count(yy, mm));
    }

    let mut weeks: Vec<WeekRow> = Vec::new();
    let mut week: Vec<CalendarDate> = Vec::new();
    let mut wd: u8 = 0;
    let mut t: u16 = 0;

    while t < wd1 as u16 || (start.month == month && start.year == year) || wd != 0
        invariant
            yy == year as int,
            mm == month as int,
            1 <= mm <= 12,
            MIN_YEAR < yy < MAX_YEAR,
            first == first_of_month(yy, mm),
            first.wf(),
            wd1 as int == first.weekday(),
            wd1 <= 6,
            g0 == grid_start(yy, mm),
            g0.wf(),
            start_num == g0.day_num(),
            start_num % 7 == 0,
            first.day_num() == start_num + wd1,
            last == mk_date(yy, mm, days_in_month(yy, mm)),
            last.wf(),
            last_num == last.day_num(),
            last_num == first.day_num() + days_in_month(yy, mm) - 1,
            end_num == last_num + 7 - last_num % 7,
            end_num % 7 == 0,
            last_num < end_num <= last_num + 7,
            total == end_num - start_num,
            total == 7 * week_count(yy, mm),
            total <= 49,
            0 <= t <= total,
            start == nth_next_date(g0, t as nat),
            start.wf(),
            start.day_num() == start_num + t,
            yy - 1 <= start.year as int <= yy + 1,
            wd as int == t as int % 7,
            wd <= 6,
            week@.len() == wd as int,
            weeks@.len() * 7 + week@.len() == t as int,
            forall|j: int|
                0 <= j < week@.len() ==> #[trigger] week@[j] == grid_cell(
                    yy,
                    mm,
                    7 * (weeks@.len() as int) + j,
                ),
            forall|i: int| 0 <= i < weeks@.len() ==> (#[trigger] weeks@[i])@.days.len() == 7,
            forall|i: int, j: int|
                0 <= i < weeks@.len() && 0 <= j < 7 ==> #[trigger] weeks@[i]@.days[j]
                    == grid_cell(yy, mm, 7 * i + j),
            forall|i: int|
                0 <= i < weeks@.len() ==> (#[trigger] weeks@[i])@.number == iso_week_of(
                    grid_cell(yy, mm, 7 * i + 6),
                ),
        decreases total - t,
    {
        proof {
            if t as int == total {
                // At the step count `total` every part of the loop
                // condition has become false, so this point is not
                // reached: the walk is past the month on a Monday.
                assert(t >= wd1);
                if start.month == month && start.year == year {
                    assert(start.day_num() <= last_num);
                }
                assert(false);
            }
            assert(grid_cell(yy, mm, t as int) == start);
        }
        let ghost old_t = t as int;
        let ghost old_rows = weeks@.len() as int;
        week.push(start);
        if wd == 6 {
            proof {
                if start.year == MIN_YEAR && start.month == 1 {
                    // A January day of the year before `MIN_YEAR + 1`
                    // cannot lie within six days of that year's first.
                    lemma_day_num_in_year(first);
                    lemma_days_before_year_step(yy - 1);
                    lemma_days_before_month_table(yy - 1);
                    assert(false);
                }
            }
            let number = iso_week_number(&start);
            weeks.push(WeekRow { number, days: week });
            week = Vec::new();
            wd = 0;
        } else {
            wd = wd + 1;
        }
        proof {
            if start.month == 12 && start.day == 31 && start.year as int == yy + 1 {
                // December of the following year is over 300 days past
                // the month's last day; the walk stops within a week.
                lemma_day_num_year_order(first, start);
                lemma_days_before_month_table(yy + 1);
                assert(false);
            }
        }
        start = start.succ();
        t = t + 1;
        proof {
            lemma_fundamental_div_mod(old_t, 7);
            lemma_mod_division_less_than_divisor(old_t, 7);
            if old_t % 7 == 6 {
                lemma_fundamental_div_mod_converse(old_t + 1, 7, old_t / 7 + 1, 0);
            } else {
                lemma_fundamental_div_mod_converse(old_t + 1, 7, old_t / 7, old_t % 7 + 1);
            }
        }
    }

    proof {
        // The loop can only stop at step `total`: any earlier Monday
        // outside the month would be a multiple of seven day numbers
        // strictly between the month's last day and `end_num`.
        if t as int != total {
            assert(start.day_num() >= first.day_num());
            lemma_day_num_in_year(first);
            lemma_day_num_in_year(last);
            lemma_days_before_month_table(yy);
            if start.day_num() <= last_num {
                if (start.year as int) < yy {
                    lemma_day_num_year_order(start, first);
                    assert(false);
                }
                if (start.year as int) > yy {
                    lemma_day_num_year_order(last, start);
                    assert(false);
                }
                lemma_days_before_month_table(start.year as int);
                assert(start.month == month && start.year == year);
                assert(false);
            }
            // So the stopping day is past the month's end, yet a Monday.
            lemma_fundamental_div_mod(start_num, 7);
            lemma_fundamental_div_mod(t as int, 7);
            assert(start.day_num() == 7 * (start_num / 7) + 7 * (t as int / 7));
            lemma_fundamental_div_mod(last_num, 7);
            lemma_mod_division_less_than_divisor(last_num, 7);
            assert(false);
        }
        assert(weeks@.len() == week_count(yy, mm));
        assert(week_count(yy, mm) >= 1);
        let gv = grid_view(weeks@);
        assert(gv.len() == weeks@.len());
        assert forall|i: int| 0 <= i < gv.len() implies gv[i] == weeks@[i]@ by {}
        assert(is_month_grid(yy, mm, gv));
    }
    weeks
}

/// What the shape of a month grid guarantees: it is non-empty, its
/// rows hold seven consecutive days each, Monday in the first column
/// through Sunday in the last, rows join seamlessly, and every day of
/// the month appears in the grid exactly once.
pub proof fn lemma_month_grid_laws(y: int, m: int, g: Seq<WeekRowModel>)
    requires
        1 <= m <= 12,
        MIN_YEAR < y < MAX_YEAR,
        is_month_grid(y, m, g),
    ensures
        g.len() >= 1,
        forall|i: int| 0 <= i < g.len() ==> (#[trigger] g[i]).days.len() == 7,
        forall|i: int, j: int| 0 <= i < g.len() && 0 <= j < 7 ==> (#[trigger] g[i].days[j]).wf(),
        forall|i: int, j: int|
            0 <= i < g.len() && 0 <= j < 7 ==> (#[trigger] g[i].days[j]).weekday() == j,
        forall|i: int, j: int|
            0 <= i < g.len() && 0 <= j < 6 ==> #[trigger] g[i].days[j + 1] == next_date(
                g[i].days[j],
            ),
        forall|i: int|
            0 <= i < g.len() - 1 ==> #[trigger] g[i + 1].days[0] == next_date(g[i].days[6]),
        forall|d: int|
            #![trigger mk_date(y, m, d)]
            1 <= d <= days_in_month(y, m) ==> exists|i: int, j: int|
                0 <= i < g.len() && 0 <= j < 7 && #[trigger] g[i].days[j] == mk_date(y, m, d),
        forall|i1: int, j1: int, i2: int, j2: int|
            0 <= i1 < g.len() && 0 <= j1 < 7 && 0 <= i2 < g.len() && 0 <= j2 < 7 && g[i1].days[j1]
                == g[i2].days[j2] ==> i1 == i2 && j1 == j2,
{
    let first = first_of_month(y, m);
    let wd1 = first.weekday();
    let g0 = grid_start(y, m);
    let n = g.len() as int;
    let dim = days_in_month(y, m);

    lemma_mod_division_less_than_divisor(first.day_num(), 7);
    lemma_nth_prev_props(first, wd1 as nat);
    lemma_fundamental_div_mod(first.day_num(), 7);
    lemma_mod_multiples_basic(first.day_num() / 7, 7);
    assert((first.day_num() / 7) * 7 == 7 * (first.day_num() / 7));
    assert(g0.day_num() % 7 == 0);
    lemma_fundamental_div_mod(wd1 + dim + 6, 7);
    lemma_mod_division_less_than_divisor(wd1 + dim + 6, 7);
    assert(1 <= n <= 6);
    assert(7 * n >= wd1 + dim);

    assert forall|k: int| 0 <= k < 7 * n implies (#[trigger] grid_cell(y, m, k)).wf()
        && grid_cell(y, m, k).day_num() == g0.day_num() + k by {
        lemma_nth_next_props(g0, k as nat);
    }
    assert forall|k: int| 0 <= k < 7 * n implies (#[trigger] grid_cell(y, m, k)).weekday() == k % 7
        by {
        lemma_nth_next_props(g0, k as nat);
        lemma_fundamental_div_mod(k, 7);
        lemma_mod_division_less_than_divisor(k, 7);
        lemma_fundamental_div_mod_converse(
            g0.day_num() + k,
            7,
            g0.day_num() / 7 + k / 7,
            k % 7,
        );
    }

    assert forall|i: int, j: int| 0 <= i < g.len() && 0 <= j < 7 implies (#[trigger] g[i].days[j]).wf()
        && g[i].days[j].weekday() == j && g[i].days[j].day_num() == g0.day_num() + 7 * i + j by {
        assert(g[i].days[j] == grid_cell(y, m, 7 * i + j));
        lemma_fundamental_div_mod_converse(7 * i + j, 7, i, j);
    }

    assert forall|i: int, j: int| 0 <= i < g.len() && 0 <= j < 6 implies #[trigger] g[i].days[j + 1]
        == next_date(g[i].days[j]) by {
        assert(g[i].days[j] == grid_cell(y, m, 7 * i + j));
        assert(g[i].days[j + 1] == grid_cell(y, m, 7 * i + j + 1));
        assert(((7 * i + j + 1) as nat - 1) as nat == (7 * i + j) as nat);
    }

    assert forall|i: int| 0 <= i < g.len() - 1 implies #[trigger] g[i + 1].days[0] == next_date(
        g[i].days[6],
    ) by {
        assert(g[i].days[6] == grid_cell(y, m, 7 * i + 6));
        assert(g[i + 1].days[0] == grid_cell(y, m, 7 * (i + 1) + 0));
        assert(((7 * i + 7) as nat - 1) as nat == (7 * i + 6) as nat);
    }

    assert forall|d: int| #![trigger mk_date(y, m, d)] 1 <= d <= days_in_month(y, m) implies exists|i: int, j: int|
        0 <= i < g.len() && 0 <= j < 7 && #[trigger] g[i].days[j] == mk_date(y, m, d) by {
        let kk = wd1 + d - 1;
        lemma_nth_next_add(g0, wd1 as nat, (d - 1) as nat);
        lemma_nth_next_of_prev(first, wd1 as nat);
        lemma_nth_next_within_month(y, m, d);
        assert(grid_cell(y, m, kk) == mk_date(y, m, d));
        let ii = kk / 7;
        let jj = kk % 7;
        lemma_fundamental_div_mod(kk, 7);
        lemma_mod_division_less_than_divisor(kk, 7);
        assert(0 <= ii < g.len());
        assert(g[ii].days[jj] == grid_cell(y, m, 7 * ii + jj));
        assert(g[ii].days[jj] == mk_date(y, m, d));
    }

    assert forall|i1: int, j1: int, i2: int, j2: int|
        0 <= i1 < g.len() && 0 <= j1 < 7 && 0 <= i2 < g.len() && 0 <= j2 < 7 && g[i1].days[j1]
            == g[i2].days[j2] implies i1 == i2 && j1 == j2 by {
        assert(g[i1].days[j1].day_num() == g0.day_num() + 7 * i1 + j1);
        assert(g[i2].days[j2].day_num() == g0.day_num() + 7 * i2 + j2);
    }
}

/// A month grid is determined by its month alone: any two grids with
/// the shape required for the same (year, month) are equal, so
/// building the grid twice yields identical output.
pub proof fn lemma_month_grid_unique(
    y: int,
    m: int,
    g1: Seq<WeekRowModel>,
    g2: Seq<WeekRowModel>,
)
    requires
        is_month_grid(y, m, g1),
        is_month_grid(y, m, g2),
    ensures
        g1 == g2,
{
    assert forall|i: int| 0 <= i < g1.len() implies g1[i] =~~= g2[i] by {
        assert(g1[i].days.len() == 7);
        assert(g2[i].days.len() == 7);
        assert forall|j: int| 0 <= j < 7 implies g1[i].days[j] == g2[i].days[j] by {
            assert(g1[i].days[j] == grid_cell(y, m, 7 * i + j));
            assert(g2[i].days[j] == grid_cell(y, m, 7 * i + j));
        }
        assert(g1[i].days =~= g2[i].days);
        assert(g1[i].number == iso_week_of(grid_cell(y, m, 7 * i + 6)));
        assert(g2[i].number == iso_week_of(grid_cell(y, m, 7 * i + 6)));
    }
    assert(g1 =~~= g2);
}

} // verus!

use datepicker::date::{weekday_number, CalendarDate};
use datepicker::grid::{build_month_grid, WeekRow};
use datepicker::picker::DatePickerButton;

fn flatten(grid: &[WeekRow]) -> Vec<CalendarDate> {
    let mut all = Vec::new();
    for week in grid {
        for day in &week.days {
            all.push(*day);
        }
    }
    all
}

#[test]
fn leap_february_grid_bounds_and_week_numbers() {
    // February 2024 spans Monday 2024-01-29 through Sunday 2024-03-03,
    // in ISO weeks 5 through 9.
    let grid = build_month_grid(2024, 2);
    assert_eq!(grid.len(), 5);
    assert_eq!(grid[0].days[0], CalendarDate::new(2024, 1, 29));
    assert_eq!(grid[4].days[6], CalendarDate::new(2024, 3, 3));
    for (i, week) in grid.iter().enumerate() {
        assert_eq!(week.number as usize, 5 + i);
    }
}

#[test]
fn grid_rows_are_seven_consecutive_days_monday_to_sunday() {
    for (year, month) in [(2024, 2), (2023, 2), (2024, 12), (2021, 1), (1999, 6)] {
        let grid = build_month_grid(year, month);
        assert!(!grid.is_empty());
        for week in &grid {
            assert_eq!(week.days.len(), 7);
            assert_eq!(weekday_number(&week.days[0]), 0);
            assert_eq!(weekday_number(&week.days[6]), 6);
        }
        let all = flatten(&grid);
        for pair in all.windows(2) {
            assert_eq!(pair[0].succ(), pair[1]);
        }
    }
}

#[test]
fn grid_covers_month_exactly_once() {
    for (year, month) in [(2024i32, 2u8), (2023, 2), (2024, 1), (2019, 12)] {
        let grid = build_month_grid(year, month);
        let all = flatten(&grid);
        let last = datepicker::date::last_day_of_month(year, month);
        for day in 1..=last {
            let wanted = CalendarDate::new(year, month, day);
            assert_eq!(all.iter().filter(|d| **d == wanted).count(), 1);
        }
        // No other day of the target month sneaks in twice either.
        for (i, a) in all.iter().enumerate() {
            for b in &all[i + 1..] {
                assert_ne!(a, b);
            }
        }
    }
}

#[test]
fn grid_of_month_starting_monday_has_no_leading_days() {
    // January 2024 begins on a Monday.
    let grid = build_month_grid(2024, 1);
    assert_eq!(grid[0].days[0], CalendarDate::new(2024, 1, 1));
    assert_eq!(grid.len(), 5);
    assert_eq!(grid[4].days[6], CalendarDate::new(2024, 2, 4));
}

#[test]
fn grid_of_month_ending_sunday_has_no_trailing_days() {
    // March 2024 ends on a Sunday.
    let grid = build_month_grid(2024, 3);
    assert_eq!(grid[grid.len() - 1].days[6], CalendarDate::new(2024, 3, 31));
    assert_eq!(grid[0].days[0], CalendarDate::new(2024, 2, 26));
}

#[test]
fn january_grid_may_begin_in_last_week_of_previous_year() {
    // The week of 2021-01-01 is ISO week 53 of 2020.
    let grid = build_month_grid(2021, 1);
    assert_eq!(grid[0].days[0], CalendarDate::new(2020, 12, 28));
    assert_eq!(grid[0].number, 53);
}

#[test]
fn december_grid_may_end_in_week_one_of_next_year() {
    // The week of 2019-12-30 is ISO week 1 of 2020.
    let grid = build_month_grid(2019, 12);
    let last_row = &grid[grid.len() - 1];
    assert_eq!(last_row.number, 1);
    assert_eq!(last_row.days[0], CalendarDate::new(2019, 12, 30));
    assert_eq!(last_row.days[6], CalendarDate::new(2020, 1, 5));
}

#[test]
fn grid_of_the_first_month_of_year_one() {
    // The first of January of year 1 is a Monday, so the grid starts
    // on the month's own first day.
    let grid = build_month_grid(1, 1);
    assert_eq!(grid[0].days[0], CalendarDate::new(1, 1, 1));
    assert_eq!(grid[0].number, 1);
}

#[test]
fn building_twice_yields_identical_grids() {
    let one = build_month_grid(2024, 2);
    let two = build_month_grid(2024, 2);
    assert_eq!(one.len(), two.len());
    for (a, b) in one.iter().zip(two.iter()) {
        assert_eq!(a.number, b.number);
        assert_eq!(a.days, b.days);
    }
}

#[test]
fn picker_defaults() {
    let config = DatePickerButton::new();
    assert!(config.id_salt.is_none());
    assert!(config.combo_boxes);
    assert!(config.arrows);
    assert!(config.calendar);
    assert!(config.calendar_week);
    assert!(config.show_icon);
    assert_eq!(config.format, "%Y-%m-%d");
    assert!(config.highlight_weekends);
}

#[test]
fn picker_builder_sets_fields() {
    let config = DatePickerButton::new()
        .id_salt("second_picker")
        .combo_boxes(false)
        .arrows(false)
        .calendar(true)
        .calendar_week(false)
        .show_icon(false)
        .format("%d.%m.%Y".to_owned())
        .highlight_weekends(false);
    assert_eq!(config.id_salt.as_deref(), Some("second_picker"));
    assert!(!config.combo_boxes);
    assert!(!config.arrows);
    assert!(config.calendar);
    assert!(!config.calendar_week);
    assert!(!config.show_icon);
    assert_eq!(config.format, "%d.%m.%Y");
    assert!(!config.highlight_weekends);
}

#[test]
fn picker_id_source_matches_id_salt() {
    let config = DatePickerButton::new().id_source("alias");
    assert_eq!(config.id_salt.as_deref(), Some("alias"));
}

use datepicker::cursor::DateCursor;
use datepicker::date::{
    is_leap, iso_weeks_in_year_count, last_day_of_month, weekday_number, CalendarDate,
};
use datepicker::month_name;

#[test]
fn leap_years() {
    assert!(is_leap(2024));
    assert!(!is_leap(2023));
    assert!(!is_leap(1900));
    assert!(is_leap(2000));
    assert!(is_leap(400));
    assert!(!is_leap(100));
}

#[test]
fn leap_years_before_year_one() {
    // The proleptic rules extend backward unchanged.
    assert!(is_leap(0));
    assert!(is_leap(-4));
    assert!(!is_leap(-100));
    assert!(is_leap(-400));
}

#[test]
fn last_day_of_february() {
    assert_eq!(last_day_of_month(2024, 2), 29);
    assert_eq!(last_day_of_month(2023, 2), 28);
    assert_eq!(last_day_of_month(1900, 2), 28);
    assert_eq!(last_day_of_month(2000, 2), 29);
}

#[test]
fn last_day_of_every_month() {
    let expected = [31, 28, 31, 30, 31, 30, 31, 31, 30, 31, 30, 31];
    for month in 1..=12u8 {
        assert_eq!(last_day_of_month(2023, month), expected[month as usize - 1]);
    }
    let expected_leap = [31, 29, 31, 30, 31, 30, 31, 31, 30, 31, 30, 31];
    for month in 1..=12u8 {
        assert_eq!(
            last_day_of_month(2024, month),
            expected_leap[month as usize - 1]
        );
    }
}

#[test]
fn weekdays_of_known_dates() {
    // Monday is 0 ... Sunday is 6.
    assert_eq!(weekday_number(&CalendarDate::new(2000, 1, 1)), 5); // Saturday
    assert_eq!(weekday_number(&CalendarDate::new(2024, 2, 29)), 3); // Thursday
    assert_eq!(weekday_number(&CalendarDate::new(2024, 1, 1)), 0); // Monday
    assert_eq!(weekday_number(&CalendarDate::new(2024, 3, 31)), 6); // Sunday
    assert_eq!(weekday_number(&CalendarDate::new(1, 1, 1)), 0); // Monday
}

#[test]
fn iso_week_counts() {
    assert_eq!(iso_weeks_in_year_count(2020), 53); // leap year starting Wednesday
    assert_eq!(iso_weeks_in_year_count(2015), 53); // year starting Thursday
    assert_eq!(iso_weeks_in_year_count(2019), 52);
    assert_eq!(iso_weeks_in_year_count(2021), 52);
}

#[test]
fn successor_rolls_over_month_and_year() {
    let d = CalendarDate::new(2024, 2, 28);
    assert_eq!(d.succ(), CalendarDate::new(2024, 2, 29));
    assert_eq!(d.succ().succ(), CalendarDate::new(2024, 3, 1));
    let e = CalendarDate::new(2023, 2, 28);
    assert_eq!(e.succ(), CalendarDate::new(2023, 3, 1));
    let y = CalendarDate::new(2023, 12, 31);
    assert_eq!(y.succ(), CalendarDate::new(2024, 1, 1));
}

#[test]
fn predecessor_rolls_under_month_and_year() {
    let d = CalendarDate::new(2024, 3, 1);
    assert_eq!(d.pred(), CalendarDate::new(2024, 2, 29));
    let y = CalendarDate::new(2024, 1, 1);
    assert_eq!(y.pred(), CalendarDate::new(2023, 12, 31));
}

#[test]
fn cursor_add_month_clamps_to_leap_february() {
    // January 31st moved one month forward lands on February 29th.
    let mut cursor = DateCursor::new(CalendarDate::new(2024, 1, 31));
    cursor.add_months(1);
    assert_eq!(cursor.date(), CalendarDate::new(2024, 2, 29));
}

#[test]
fn cursor_add_day_rolls_over_year() {
    let mut cursor = DateCursor::new(CalendarDate::new(2023, 12, 31));
    cursor.add_days(1);
    assert_eq!(cursor.date(), CalendarDate::new(2024, 1, 1));
}

#[test]
fn cursor_sub_day_rolls_under_year() {
    let mut cursor = DateCursor::new(CalendarDate::new(2024, 1, 1));
    cursor.add_days(-1);
    assert_eq!(cursor.date(), CalendarDate::new(2023, 12, 31));
}

#[test]
fn cursor_sub_month_rolls_under_year() {
    let mut cursor = DateCursor::new(CalendarDate::new(2024, 1, 31));
    cursor.add_months(-1);
    assert_eq!(cursor.date(), CalendarDate::new(2023, 12, 31));
}

#[test]
fn cursor_twelve_months_equal_one_year() {
    let start = CalendarDate::new(2024, 5, 15);
    let mut by_months = DateCursor::new(start);
    for _ in 0..12 {
        by_months.add_months(1);
    }
    let mut by_year = DateCursor::new(start);
    by_year.add_years(1);
    assert_eq!(by_months.date(), by_year.date());
    assert_eq!(by_year.date(), CalendarDate::new(2025, 5, 15));
}

#[test]
fn cursor_add_year_clamps_leap_day() {
    let mut cursor = DateCursor::new(CalendarDate::new(2024, 2, 29));
    cursor.add_years(1);
    assert_eq!(cursor.date(), CalendarDate::new(2025, 2, 28));
}

#[test]
fn cursor_setters_clamp_day() {
    let mut cursor = DateCursor::new(CalendarDate::new(2024, 1, 31));
    cursor.set_month(2);
    assert_eq!(cursor.date(), CalendarDate::new(2024, 2, 29));
    cursor.set_day(31);
    assert_eq!(cursor.date(), CalendarDate::new(2024, 2, 29));
    let mut other = DateCursor::new(CalendarDate::new(2024, 2, 29));
    other.set_year(2023);
    assert_eq!(other.date(), CalendarDate::new(2023, 2, 28));
    other.set_day(4);
    assert_eq!(other.date(), CalendarDate::new(2023, 2, 4));
}

#[test]
fn month_names() {
    let names = [
        "January",
        "February",
        "March",
        "April",
        "May",
        "June",
        "July",
        "August",
        "September",
        "October",
        "November",
        "December",
    ];
    for m in 1..=12u32 {
        assert_eq!(month_name(m), names[m as usize - 1]);
    }
}

//! Plain configuration for the date-picker button.
//!
//! The widget's toggles are ordinary named fields set through a
//! builder; rendering is the host toolkit's business and takes this
//! structure together with a caller-owned
//! [`crate::cursor::DateCursor`] holding the candidate date.

use vstd::prelude::*;

verus! {

/// Which controls the date-picker popup shows, and how the selected
/// date is displayed on the button.
pub struct DatePickerButton {
    /// Distinguishes several pickers living in one surface.
    pub id_salt: Option<String>,
    /// Show year, month and day combo boxes in the popup.
    pub combo_boxes: bool,
    /// Show the six navigation arrows in the popup.
    pub arrows: bool,
    /// Show the calendar grid in the popup.
    pub calendar: bool,
    /// Show the ISO week number column beside the grid.
    pub calendar_week: bool,
    /// Show the calendar icon on the button.
    pub show_icon: bool,
    /// Display format for the selected date on the button.
    pub format: String,
    /// Paint Saturdays and Sundays in a highlight colour.
    pub highlight_weekends: bool,
}

impl DatePickerButton {
    /// The default configuration: every control enabled and the
    /// year-month-day display format.
    pub fn new() -> (c: DatePickerButton)
        ensures
            c.id_salt is None,
            c.combo_boxes,
            c.arrows,
            c.calendar,
            c.calendar_week,
            c.show_icon,
            c.format@ == "%Y-%m-%d"@,
            c.highlight_weekends,
    {
        DatePickerButton {
            id_salt: None,
            combo_boxes: true,
            arrows: true,
            calendar: true,
            calendar_week: true,
            show_icon: true,
            format: "%Y-%m-%d".to_owned(),
            highlight_weekends: true,
        }
    }

    /// Set the salt that keeps several pickers in one surface apart.
    pub fn id_salt(self, id_salt: &str) -> (c: Self)
        ensures
            c == (Self { id_salt: c.id_salt, ..self }),
            c.id_salt matches Some(s) && s@ == id_salt@,
    {
        Self { id_salt: Some(id_salt.to_owned()), ..self }
    }

    /// Former name of [`Self::id_salt`], kept for callers of the old
    /// builder.
    pub fn id_source(self, id_salt: &str) -> (c: Self)
        ensures
            c == (Self { id_salt: c.id_salt, ..self }),
            c.id_salt matches Some(s) && s@ == id_salt@,
    {
        self.id_salt(id_salt)
    }

    /// Show combo boxes in the popup.
    pub fn combo_boxes(self, combo_boxes: bool) -> (c: Self)
        ensures
            c == (Self { combo_boxes, ..self }),
    {
        Self { combo_boxes, ..self }
    }

    /// Show navigation arrows in the popup.
    pub fn arrows(self, arrows: bool) -> (c: Self)
        ensures
            c == (Self { arrows, ..self }),
    {
        Self { arrows, ..self }
    }

    /// Show the calendar grid in the popup.
    pub fn calendar(self, calendar: bool) -> (c: Self)
        ensures
            c == (Self { calendar, ..self }),
    {
        Self { calendar, ..self }
    }

    /// Show the ISO week column beside the grid.
    pub fn calendar_week(self, week: bool) -> (c: Self)
        ensures
            c == (Self { calendar_week: week, ..self }),
    {
        Self { calendar_week: week, ..self }
    }

    /// Show the calendar icon on the button.
    pub fn show_icon(self, show_icon: bool) -> (c: Self)
        ensures
            c == (Self { show_icon, ..self }),
    {
        Self { show_icon, ..self }
    }

    /// Set the display format for the selected date.
    pub fn format(self, format: String) -> (c: Self)
        ensures
            c == (Self { format: c.format, ..self }),
            c.format == format,
    {
        Self { format, ..self }
    }

    /// Paint weekend days in a highlight colour.
    pub fn highlight_weekends(self, highlight_weekends: bool) -> (c: Self)
        ensures
            c == (Self { highlight_weekends, ..self }),
    {
        Self { highlight_weekends, ..self }
    }
}

} // verus!

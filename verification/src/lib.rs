/// Calendar dates as plain year/month/day values, with verified
/// Gregorian arithmetic: leap years, month lengths, day numbering,
/// and weekdays.
pub mod date;
/// Week-aligned month grids: days grouped into weeks, and a date
/// range grouped into one grid per calendar month it touches.
pub mod grid;
/// The free-form date token parser: bare quarters, fiscal-year forms,
/// digit runs, and delimited year-quarter and year-month forms.
pub mod parse;
/// Text layout: day cells, week rows, month titles, and the final
/// multi-column calendar, all specified byte by byte.
pub mod render;
/// Turning a date specification and month offsets into a concrete
/// inclusive date range.
pub mod resolve;

pub use date::{Date, YEAR_MAX, YEAR_MIN};
pub use grid::{build_month, build_month_range, date_range, FirstDayOfWeek, Month, MonthRange, Week};
pub use parse::{
    determine_current_year, normalize_date_input_for_two_digit_year, normalize_short_year,
    parse_bare_quarter, parse_date_input, DateInput, ParseError, Quarter, Year, YearStyle,
};
pub use render::{
    determine_default_first_day_of_week, format_date, print, show_color, ColorWhen,
};
pub use resolve::determine_date_range;

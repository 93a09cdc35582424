use cal::{Date, DateInput, FirstDayOfWeek, Quarter, Year, YearStyle};

fn d(year: i32, month: u32, day: u32) -> Date {
    Date { year, month, day }
}

#[test]
fn test_resolve_calendar_quarter() {
    let today = d(2024, 5, 20);
    let spec = DateInput::YearQuarter(Year { style: YearStyle::Calendar, year: 2024 }, Quarter::Q1);
    let (start, end) = cal::determine_date_range(today, Some(spec), None, None, None, None);
    assert_eq!(start, d(2024, 1, 1));
    assert_eq!(end, d(2024, 3, 31));
    let range = cal::build_month_range(start, end, FirstDayOfWeek::Monday);
    assert_eq!(range.months.len(), 3);
    assert_eq!(range.months[0].start_date, d(2024, 1, 1));
    assert_eq!(range.months[1].start_date, d(2024, 2, 1));
    assert_eq!(range.months[2].start_date, d(2024, 3, 1));
}

#[test]
fn test_resolve_fiscal_quarter() {
    let today = d(2024, 5, 20);
    let spec = DateInput::YearQuarter(Year { style: YearStyle::Fiscal, year: 2090 }, Quarter::Q3);
    let (start, end) = cal::determine_date_range(today, Some(spec), None, None, None, None);
    assert_eq!(start, d(2090, 1, 1));
    assert_eq!(end, d(2090, 3, 31));
    let range = cal::build_month_range(start, end, FirstDayOfWeek::Monday);
    assert_eq!(range.months.len(), 3);
    assert_eq!(range.months[0].start_date, d(2090, 1, 1));
    assert_eq!(range.months[2].start_date, d(2090, 3, 1));
}

#[test]
fn test_resolve_month_offsets() {
    let today = d(2024, 3, 20);
    let (start, end) = cal::determine_date_range(today, None, None, None, Some(1), Some(1));
    assert_eq!(start, d(2024, 2, 1));
    assert_eq!(end, d(2024, 4, 30));
    let range = cal::build_month_range(start, end, FirstDayOfWeek::Monday);
    assert_eq!(range.months.len(), 3);
}

#[test]
fn test_resolve_offsets_roll_over_year_ends() {
    let today = d(2024, 1, 15);
    let (start, end) = cal::determine_date_range(today, None, None, None, Some(1), None);
    assert_eq!(start, d(2023, 12, 1));
    assert_eq!(end, d(2024, 1, 31));

    let today = d(2024, 12, 15);
    let (start, end) = cal::determine_date_range(today, None, None, None, None, Some(1));
    assert_eq!(start, d(2024, 12, 1));
    assert_eq!(end, d(2025, 1, 31));
}

#[test]
fn test_resolve_whole_year() {
    let today = d(2024, 5, 20);
    let (start, end) = cal::determine_date_range(today, None, Some(2024), None, None, None);
    assert_eq!(start, d(2024, 1, 1));
    assert_eq!(end, d(2024, 12, 31));
    let range = cal::build_month_range(start, end, FirstDayOfWeek::Monday);
    assert_eq!(range.months.len(), 12);
}

#[test]
fn test_resolve_explicit_year_month() {
    let today = d(2024, 5, 20);
    let (start, end) = cal::determine_date_range(today, None, Some(2023), Some(2), None, None);
    assert_eq!(start, d(2023, 2, 1));
    assert_eq!(end, d(2023, 2, 28));
}

#[test]
fn test_build_month_leap_february_weeks() {
    let days = cal::date_range(d(2024, 2, 1), d(2024, 2, 29));
    assert_eq!(days.len(), 29);
    let month = cal::build_month(&days, FirstDayOfWeek::Monday);
    assert_eq!(month.weeks.len(), 5);
    let last = &month.weeks[4];
    assert_eq!(last.monday, Some(d(2024, 2, 26)));
    assert_eq!(last.tuesday, Some(d(2024, 2, 27)));
    assert_eq!(last.wednesday, Some(d(2024, 2, 28)));
    assert_eq!(last.thursday, Some(d(2024, 2, 29)));
    assert_eq!(last.friday, None);
    assert_eq!(last.saturday, None);
    assert_eq!(last.sunday, None);
}

#[test]
fn test_build_month_no_trailing_empty_week() {
    let days = cal::date_range(d(2024, 3, 1), d(2024, 3, 31));
    let month = cal::build_month(&days, FirstDayOfWeek::Monday);
    assert_eq!(month.weeks.len(), 5);
    for week in &month.weeks {
        assert!(!week.is_empty());
    }
}

#[test]
fn test_build_month_concatenation_reproduces_days() {
    let days = cal::date_range(d(2024, 3, 1), d(2024, 3, 31));
    let month = cal::build_month(&days, FirstDayOfWeek::Sunday);
    let mut seen: Vec<Date> = Vec::new();
    for week in &month.weeks {
        for slot in [
            week.sunday,
            week.monday,
            week.tuesday,
            week.wednesday,
            week.thursday,
            week.friday,
            week.saturday,
        ] {
            if let Some(day) = slot {
                seen.push(day);
            }
        }
    }
    assert_eq!(seen, days);
}

#[test]
fn test_build_month_range_partial_months() {
    let range = cal::build_month_range(d(2024, 1, 20), d(2024, 2, 10), FirstDayOfWeek::Monday);
    assert_eq!(range.months.len(), 2);
    assert_eq!(range.months[0].start_date, d(2024, 1, 20));
    assert_eq!(range.months[1].start_date, d(2024, 2, 1));
}

#[test]
fn test_build_month_range_empty_when_reversed() {
    let range = cal::build_month_range(d(2024, 3, 2), d(2024, 3, 1), FirstDayOfWeek::Monday);
    assert_eq!(range.months.len(), 0);
}

#[test]
fn test_date_range_crosses_month_and_year() {
    let days = cal::date_range(d(2023, 12, 30), d(2024, 1, 2));
    assert_eq!(
        days,
        vec![d(2023, 12, 30), d(2023, 12, 31), d(2024, 1, 1), d(2024, 1, 2)]
    );
}

#[test]
fn test_weekday_of_known_dates() {
    assert_eq!(d(2024, 3, 20).weekday(), 2);
    assert_eq!(d(2024, 2, 29).weekday(), 3);
    assert_eq!(d(2024, 1, 1).weekday(), 0);
    assert_eq!(d(2023, 12, 31).weekday(), 6);
    assert_eq!(d(2000, 2, 29).weekday(), 1);
    assert_eq!(d(1900, 2, 28).weekday(), 2);
}

#[test]
fn test_last_day_of_month_for() {
    assert_eq!(cal::date::last_day_of_month_for(d(2024, 2, 10)), d(2024, 2, 29));
    assert_eq!(cal::date::last_day_of_month_for(d(2023, 2, 10)), d(2023, 2, 28));
    assert_eq!(cal::date::last_day_of_month_for(d(2024, 12, 1)), d(2024, 12, 31));
    assert_eq!(cal::date::last_day_of_month_for(d(2024, 4, 30)), d(2024, 4, 30));
}

#[test]
fn test_resolve_fiscal_quarters_anchor_to_fiscal_year() {
    // Fiscal year 2024 spans July 2023 through June 2024, so its first
    // two quarters fall in calendar 2023 and its last two in 2024.
    let today = d(2024, 5, 20);
    let year = Year { style: YearStyle::Fiscal, year: 2024 };
    let cases = [
        (Quarter::Q1, d(2023, 7, 1), d(2023, 9, 30)),
        (Quarter::Q2, d(2023, 10, 1), d(2023, 12, 31)),
        (Quarter::Q3, d(2024, 1, 1), d(2024, 3, 31)),
        (Quarter::Q4, d(2024, 4, 1), d(2024, 6, 30)),
    ];
    for (q, expected_start, expected_end) in cases {
        let spec = DateInput::YearQuarter(year, q);
        let (start, end) = cal::determine_date_range(today, Some(spec), None, None, None, None);
        assert_eq!(start, expected_start);
        assert_eq!(end, expected_end);
    }
}

#[test]
fn test_resolve_current_fiscal_quarter_contains_today() {
    // In July the current fiscal year is the next one, and its first
    // quarter is the quarter that is under way.
    let today = d(2024, 7, 15);
    let spec = cal::parse_date_input("FYQ1", today).unwrap();
    assert_eq!(
        spec,
        DateInput::YearQuarter(Year { style: YearStyle::Fiscal, year: 2025 }, Quarter::Q1)
    );
    let (start, end) = cal::determine_date_range(today, Some(spec), None, None, None, None);
    assert_eq!(start, d(2024, 7, 1));
    assert_eq!(end, d(2024, 9, 30));
}

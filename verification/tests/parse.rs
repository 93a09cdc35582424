use cal::{Date, DateInput, ParseError, Quarter, Year, YearStyle};

fn sample_today() -> Date {
    Date { year: 2024, month: 5, day: 20 }
}

#[test]
fn test_parse_date_input_year() {
    let style = YearStyle::Calendar;

    assert_eq!(
        cal::parse_date_input("2024", sample_today()),
        Ok(DateInput::Year(Year { style, year: 2024 }))
    );
    assert_eq!(
        cal::parse_date_input("2000", sample_today()),
        Ok(DateInput::Year(Year { style, year: 2000 }))
    );
}

#[test]
fn test_parse_date_input_quarter() {
    let style = YearStyle::Calendar;
    let today = sample_today();
    let year = today.year;

    assert_eq!(
        cal::parse_date_input("Q1", today),
        Ok(DateInput::YearQuarter(Year { style, year }, Quarter::Q1))
    );
    assert_eq!(
        cal::parse_date_input("Q2", today),
        Ok(DateInput::YearQuarter(Year { style, year }, Quarter::Q2))
    );
    assert_eq!(
        cal::parse_date_input("Q3", today),
        Ok(DateInput::YearQuarter(Year { style, year }, Quarter::Q3))
    );
    assert_eq!(
        cal::parse_date_input("Q4", today),
        Ok(DateInput::YearQuarter(Year { style, year }, Quarter::Q4))
    );
}

#[test]
fn test_parse_date_input_fiscal_year() {
    let style = YearStyle::Fiscal;

    assert_eq!(
        cal::parse_date_input("FY2024", sample_today()),
        Ok(DateInput::Year(Year { style, year: 2024 }))
    );
    assert_eq!(
        cal::parse_date_input("FY1900", sample_today()),
        Ok(DateInput::Year(Year { style, year: 1900 }))
    );
}

#[test]
fn test_parse_date_input_year_quarter() {
    let style = YearStyle::Calendar;

    assert_eq!(
        cal::parse_date_input("2024Q1", sample_today()),
        Ok(DateInput::YearQuarter(Year { style, year: 2024 }, Quarter::Q1))
    );
    assert_eq!(
        cal::parse_date_input("2000Q3", sample_today()),
        Ok(DateInput::YearQuarter(Year { style, year: 2000 }, Quarter::Q3))
    );
    assert_eq!(
        cal::parse_date_input("1900Q2", sample_today()),
        Ok(DateInput::YearQuarter(Year { style, year: 1900 }, Quarter::Q2))
    );
}

#[test]
fn test_parse_date_input_fiscal_quarter() {
    let style = YearStyle::Fiscal;

    assert_eq!(
        cal::parse_date_input("FY2024Q1", sample_today()),
        Ok(DateInput::YearQuarter(Year { style, year: 2024 }, Quarter::Q1))
    );
    assert_eq!(
        cal::parse_date_input("FY2000Q2", sample_today()),
        Ok(DateInput::YearQuarter(Year { style, year: 2000 }, Quarter::Q2))
    );
    assert_eq!(
        cal::parse_date_input("FY1900Q3", sample_today()),
        Ok(DateInput::YearQuarter(Year { style, year: 1900 }, Quarter::Q3))
    );
    assert_eq!(
        cal::parse_date_input("FY2024Q4", sample_today()),
        Ok(DateInput::YearQuarter(Year { style, year: 2024 }, Quarter::Q4))
    );
    assert_eq!(
        cal::parse_date_input("FY2024-Q1", sample_today()),
        Ok(DateInput::YearQuarter(Year { style, year: 2024 }, Quarter::Q1))
    );
}

#[test]
fn test_parse_date_input_year_month() {
    let style = YearStyle::Calendar;

    assert_eq!(
        cal::parse_date_input("2024-01", sample_today()),
        Ok(DateInput::YearMonth(Year { style, year: 2024 }, 1))
    );
    assert_eq!(
        cal::parse_date_input("202401", sample_today()),
        Ok(DateInput::YearMonth(Year { style, year: 2024 }, 1))
    );
    assert_eq!(
        cal::parse_date_input("2000-06", sample_today()),
        Ok(DateInput::YearMonth(Year { style, year: 2000 }, 6))
    );
    assert_eq!(
        cal::parse_date_input("200006", sample_today()),
        Ok(DateInput::YearMonth(Year { style, year: 2000 }, 6))
    );
    assert_eq!(
        cal::parse_date_input("1900-12", sample_today()),
        Ok(DateInput::YearMonth(Year { style, year: 1900 }, 12))
    );
    assert_eq!(
        cal::parse_date_input("190012", sample_today()),
        Ok(DateInput::YearMonth(Year { style, year: 1900 }, 12))
    );
}

#[test]
fn test_parse_date_input_invalid() {
    assert!(cal::parse_date_input("", sample_today()).is_err());
    assert!(cal::parse_date_input("invalid", sample_today()).is_err());
    assert!(cal::parse_date_input("2024-13", sample_today()).is_err());
    assert!(cal::parse_date_input("FY", sample_today()).is_err());
    assert!(cal::parse_date_input("Q5", sample_today()).is_err());
}

#[test]
fn test_parse_quarter_forms_agree() {
    assert_eq!(
        cal::parse_date_input("2024Q1", sample_today()),
        cal::parse_date_input("2024-Q1", sample_today())
    );
    assert_eq!(
        cal::parse_date_input("202401", sample_today()),
        cal::parse_date_input("2024-01", sample_today())
    );
}

#[test]
fn test_parse_six_digit_invalid_month_error() {
    match cal::parse_date_input("202413", sample_today()) {
        Err(ParseError::InvalidMonth { month }) => assert_eq!(month, 13),
        other => panic!("expected an invalid-month error, got {:?}", other),
    }
}

#[test]
fn test_parse_invalid_format_keeps_token() {
    match cal::parse_date_input("invalid", sample_today()) {
        Err(ParseError::InvalidFormat { token }) => assert_eq!(token, "invalid"),
        other => panic!("expected an invalid-format error, got {:?}", other),
    }
}

#[test]
fn test_parse_bare_quarter_fiscal_rollover() {
    let july = Date { year: 2024, month: 7, day: 1 };
    assert_eq!(
        cal::parse_date_input("FYQ1", july),
        Ok(DateInput::YearQuarter(
            Year { style: YearStyle::Fiscal, year: 2025 },
            Quarter::Q1
        ))
    );
    assert_eq!(cal::determine_current_year(YearStyle::Fiscal, july), 2025);
    assert_eq!(
        cal::determine_current_year(YearStyle::Fiscal, sample_today()),
        2024
    );
    assert_eq!(
        cal::determine_current_year(YearStyle::Calendar, july),
        2024
    );
}

#[test]
fn test_parse_two_digit_token_is_literal_year() {
    assert_eq!(
        cal::parse_date_input("24", sample_today()),
        Ok(DateInput::Year(Year { style: YearStyle::Calendar, year: 24 }))
    );
}

#[test]
fn test_normalize_short_year() {
    let today = sample_today();
    assert_eq!(cal::normalize_short_year(today, 24), 2024);
    assert_eq!(cal::normalize_short_year(today, 0), 2000);
    assert_eq!(cal::normalize_short_year(today, 99), 2099);
    assert_eq!(cal::normalize_short_year(today, 100), 100);
    assert_eq!(cal::normalize_short_year(today, 1999), 1999);
    assert_eq!(cal::normalize_short_year(today, -5), -5);
}

#[test]
fn test_normalize_date_input_variants() {
    let today = sample_today();
    let style = YearStyle::Fiscal;
    assert_eq!(
        cal::normalize_date_input_for_two_digit_year(
            today,
            Some(DateInput::Year(Year { style, year: 24 }))
        ),
        Some(DateInput::Year(Year { style, year: 2024 }))
    );
    assert_eq!(
        cal::normalize_date_input_for_two_digit_year(
            today,
            Some(DateInput::YearMonth(Year { style, year: 25 }, 3))
        ),
        Some(DateInput::YearMonth(Year { style, year: 2025 }, 3))
    );
    assert_eq!(
        cal::normalize_date_input_for_two_digit_year(
            today,
            Some(DateInput::YearQuarter(Year { style, year: 26 }, Quarter::Q2))
        ),
        Some(DateInput::YearQuarter(Year { style, year: 2026 }, Quarter::Q2))
    );
    assert_eq!(cal::normalize_date_input_for_two_digit_year(today, None), None);
}

#[test]
fn test_parse_bare_quarter_function() {
    let today = sample_today();
    assert_eq!(
        cal::parse_bare_quarter("q2", YearStyle::Calendar, today),
        Some(DateInput::YearQuarter(
            Year { style: YearStyle::Calendar, year: 2024 },
            Quarter::Q2
        ))
    );
    assert_eq!(cal::parse_bare_quarter("Q9", YearStyle::Calendar, today), None);
    assert_eq!(cal::parse_bare_quarter("2024", YearStyle::Calendar, today), None);
}

#[test]
fn test_parse_signed_and_padded_tokens() {
    let today = Date { year: 2024, month: 5, day: 20 };
    // A sign counts toward the token length, so these are length-four
    // integer tokens and read as literal years.
    assert_eq!(
        cal::parse_date_input("+024", today),
        Ok(DateInput::Year(Year { style: YearStyle::Calendar, year: 24 }))
    );
    assert_eq!(
        cal::parse_date_input("-123", today),
        Ok(DateInput::Year(Year { style: YearStyle::Calendar, year: -123 }))
    );
    // Integer tokens of other lengths are rejected outright.
    assert!(cal::parse_date_input("024", today).is_err());
    assert!(cal::parse_date_input("20245", today).is_err());
    // A six-character integer token splits after its fourth character,
    // sign included, and checks the remainder as a month.
    match cal::parse_date_input("-12345", today) {
        Err(ParseError::InvalidMonth { month }) => assert_eq!(month, 45),
        other => panic!("expected an invalid-month error, got {:?}", other),
    }
    // The quarter letter is only case-insensitive in bare and
    // fiscal-prefixed forms.
    assert!(cal::parse_date_input("2024q1", today).is_err());
    assert_eq!(
        cal::parse_date_input("fy2024q1", today),
        Ok(DateInput::YearQuarter(
            Year { style: YearStyle::Fiscal, year: 2024 },
            Quarter::Q1
        ))
    );
}

use cal::{Date, FirstDayOfWeek};

#[test]
fn test_month_print_simple() {
    let current_date = Date { year: 2024, month: 3, day: 20 };
    let date_input = None;
    let out = cal::print(date_input, None, None, None, None, FirstDayOfWeek::Monday, false, current_date);
    assert_eq!(String::from_utf8(out).unwrap(), "     March 2024     \nMo Tu We Th Fr Sa Su\n             1  2  3\n 4  5  6  7  8  9 10\n11 12 13 14 15 16 17\n18 19 20 21 22 23 24\n25 26 27 28 29 30 31\n");
}

#[test]
fn test_print_quarter() {
    let current_date = Date { year: 2024, month: 5, day: 20 };
    let date_input = Some(cal::parse_date_input("Q1", current_date).unwrap());
    let out = cal::print(date_input, None, None, None, None, FirstDayOfWeek::Monday, false, current_date);
    assert_eq!(String::from_utf8(out).unwrap(), "    January 2024         February 2024           March 2024     \nMo Tu We Th Fr Sa Su  Mo Tu We Th Fr Sa Su  Mo Tu We Th Fr Sa Su\n 1  2  3  4  5  6  7            1  2  3  4               1  2  3\n 8  9 10 11 12 13 14   5  6  7  8  9 10 11   4  5  6  7  8  9 10\n15 16 17 18 19 20 21  12 13 14 15 16 17 18  11 12 13 14 15 16 17\n22 23 24 25 26 27 28  19 20 21 22 23 24 25  18 19 20 21 22 23 24\n29 30 31              26 27 28 29           25 26 27 28 29 30 31\n");
}

#[test]
fn test_print_quarter_lowercase() {
    let current_date = Date { year: 2024, month: 5, day: 20 };
    let date_input = Some(cal::parse_date_input("q1", current_date).unwrap());
    let out = cal::print(date_input, None, None, None, None, FirstDayOfWeek::Monday, false, current_date);
    assert_eq!(String::from_utf8(out).unwrap(), "    January 2024         February 2024           March 2024     \nMo Tu We Th Fr Sa Su  Mo Tu We Th Fr Sa Su  Mo Tu We Th Fr Sa Su\n 1  2  3  4  5  6  7            1  2  3  4               1  2  3\n 8  9 10 11 12 13 14   5  6  7  8  9 10 11   4  5  6  7  8  9 10\n15 16 17 18 19 20 21  12 13 14 15 16 17 18  11 12 13 14 15 16 17\n22 23 24 25 26 27 28  19 20 21 22 23 24 25  18 19 20 21 22 23 24\n29 30 31              26 27 28 29           25 26 27 28 29 30 31\n");
}

#[test]
fn test_print_fiscal_quarter() {
    let current_date = Date { year: 2024, month: 5, day: 20 };
    let date_input = Some(cal::parse_date_input("FYQ3", current_date).unwrap());
    let out = cal::print(date_input, None, None, None, None, FirstDayOfWeek::Monday, false, current_date);
    assert_eq!(String::from_utf8(out).unwrap(), "    January 2024         February 2024           March 2024     \nMo Tu We Th Fr Sa Su  Mo Tu We Th Fr Sa Su  Mo Tu We Th Fr Sa Su\n 1  2  3  4  5  6  7            1  2  3  4               1  2  3\n 8  9 10 11 12 13 14   5  6  7  8  9 10 11   4  5  6  7  8  9 10\n15 16 17 18 19 20 21  12 13 14 15 16 17 18  11 12 13 14 15 16 17\n22 23 24 25 26 27 28  19 20 21 22 23 24 25  18 19 20 21 22 23 24\n29 30 31              26 27 28 29           25 26 27 28 29 30 31\n");
}

#[test]
fn test_print_fiscal_quarter_lowercase() {
    let current_date = Date { year: 2024, month: 5, day: 20 };
    let date_input = Some(cal::parse_date_input("fyq3", current_date).unwrap());
    let out = cal::print(date_input, None, None, None, None, FirstDayOfWeek::Monday, false, current_date);
    assert_eq!(String::from_utf8(out).unwrap(), "    January 2024         February 2024           March 2024     \nMo Tu We Th Fr Sa Su  Mo Tu We Th Fr Sa Su  Mo Tu We Th Fr Sa Su\n 1  2  3  4  5  6  7            1  2  3  4               1  2  3\n 8  9 10 11 12 13 14   5  6  7  8  9 10 11   4  5  6  7  8  9 10\n15 16 17 18 19 20 21  12 13 14 15 16 17 18  11 12 13 14 15 16 17\n22 23 24 25 26 27 28  19 20 21 22 23 24 25  18 19 20 21 22 23 24\n29 30 31              26 27 28 29           25 26 27 28 29 30 31\n");
}

#[test]
fn test_print_year() {
    let current_date = Date { year: 2024, month: 5, day: 20 };
    let date_input = Some(cal::parse_date_input("2024", current_date).unwrap());
    let out = cal::print(date_input, None, None, None, None, FirstDayOfWeek::Monday, false, current_date);
    assert_eq!(String::from_utf8(out).unwrap(), "    January 2024         February 2024           March 2024     \nMo Tu We Th Fr Sa Su  Mo Tu We Th Fr Sa Su  Mo Tu We Th Fr Sa Su\n 1  2  3  4  5  6  7            1  2  3  4               1  2  3\n 8  9 10 11 12 13 14   5  6  7  8  9 10 11   4  5  6  7  8  9 10\n15 16 17 18 19 20 21  12 13 14 15 16 17 18  11 12 13 14 15 16 17\n22 23 24 25 26 27 28  19 20 21 22 23 24 25  18 19 20 21 22 23 24\n29 30 31              26 27 28 29           25 26 27 28 29 30 31\n                                                                \n\n     April 2024             May 2024             June 2024      \nMo Tu We Th Fr Sa Su  Mo Tu We Th Fr Sa Su  Mo Tu We Th Fr Sa Su\n 1  2  3  4  5  6  7         1  2  3  4  5                  1  2\n 8  9 10 11 12 13 14   6  7  8  9 10 11 12   3  4  5  6  7  8  9\n15 16 17 18 19 20 21  13 14 15 16 17 18 19  10 11 12 13 14 15 16\n22 23 24 25 26 27 28  20 21 22 23 24 25 26  17 18 19 20 21 22 23\n29 30                 27 28 29 30 31        24 25 26 27 28 29 30\n                                                                \n\n     July 2024            August 2024          September 2024   \nMo Tu We Th Fr Sa Su  Mo Tu We Th Fr Sa Su  Mo Tu We Th Fr Sa Su\n 1  2  3  4  5  6  7            1  2  3  4                     1\n 8  9 10 11 12 13 14   5  6  7  8  9 10 11   2  3  4  5  6  7  8\n15 16 17 18 19 20 21  12 13 14 15 16 17 18   9 10 11 12 13 14 15\n22 23 24 25 26 27 28  19 20 21 22 23 24 25  16 17 18 19 20 21 22\n29 30 31              26 27 28 29 30 31     23 24 25 26 27 28 29\n                                            30                  \n\n    October 2024         November 2024         December 2024    \nMo Tu We Th Fr Sa Su  Mo Tu We Th Fr Sa Su  Mo Tu We Th Fr Sa Su\n    1  2  3  4  5  6               1  2  3                     1\n 7  8  9 10 11 12 13   4  5  6  7  8  9 10   2  3  4  5  6  7  8\n14 15 16 17 18 19 20  11 12 13 14 15 16 17   9 10 11 12 13 14 15\n21 22 23 24 25 26 27  18 19 20 21 22 23 24  16 17 18 19 20 21 22\n28 29 30 31           25 26 27 28 29 30     23 24 25 26 27 28 29\n                                            30 31               \n");
}

#[test]
fn test_print_future_fiscal_quarter() {
    let current_date = Date { year: 2024, month: 5, day: 20 };
    let date_input = Some(cal::parse_date_input("FY2090Q3", current_date).unwrap());
    let out = cal::print(date_input, None, None, None, None, FirstDayOfWeek::Monday, false, current_date);
    assert_eq!(String::from_utf8(out).unwrap(), "    January 2090         February 2090           March 2090     \nMo Tu We Th Fr Sa Su  Mo Tu We Th Fr Sa Su  Mo Tu We Th Fr Sa Su\n                   1         1  2  3  4  5         1  2  3  4  5\n 2  3  4  5  6  7  8   6  7  8  9 10 11 12   6  7  8  9 10 11 12\n 9 10 11 12 13 14 15  13 14 15 16 17 18 19  13 14 15 16 17 18 19\n16 17 18 19 20 21 22  20 21 22 23 24 25 26  20 21 22 23 24 25 26\n23 24 25 26 27 28 29  27 28                 27 28 29 30 31      \n30 31                                                           \n");
}

#[test]
fn test_month_print_sun_first() {
    let current_date = Date { year: 2024, month: 3, day: 20 };
    let date_input = None;
    let out = cal::print(date_input, None, None, None, None, FirstDayOfWeek::Sunday, false, current_date);
    assert_eq!(String::from_utf8(out).unwrap(), "     March 2024     \nSu Mo Tu We Th Fr Sa\n                1  2\n 3  4  5  6  7  8  9\n10 11 12 13 14 15 16\n17 18 19 20 21 22 23\n24 25 26 27 28 29 30\n31                  \n");
}

#[test]
fn test_build_month_leap_february() {
    let current_date = Date { year: 2024, month: 2, day: 20 };
    let date_input = None;
    let out = cal::print(date_input, None, None, None, None, FirstDayOfWeek::Monday, false, current_date);
    assert_eq!(String::from_utf8(out).unwrap(), "   February 2024    \nMo Tu We Th Fr Sa Su\n          1  2  3  4\n 5  6  7  8  9 10 11\n12 13 14 15 16 17 18\n19 20 21 22 23 24 25\n26 27 28 29         \n");
}

#[test]
fn test_month_range_print_simple() {
    let current_date = Date { year: 2024, month: 3, day: 20 };
    let date_input = None;
    let out = cal::print(date_input, None, None, Some(1), Some(1), FirstDayOfWeek::Monday, false, current_date);
    assert_eq!(String::from_utf8(out).unwrap(), "   February 2024           March 2024            April 2024     \nMo Tu We Th Fr Sa Su  Mo Tu We Th Fr Sa Su  Mo Tu We Th Fr Sa Su\n          1  2  3  4               1  2  3   1  2  3  4  5  6  7\n 5  6  7  8  9 10 11   4  5  6  7  8  9 10   8  9 10 11 12 13 14\n12 13 14 15 16 17 18  11 12 13 14 15 16 17  15 16 17 18 19 20 21\n19 20 21 22 23 24 25  18 19 20 21 22 23 24  22 23 24 25 26 27 28\n26 27 28 29           25 26 27 28 29 30 31  29 30               \n");
}

#[test]
fn test_month_range_print_long_args() {
    let current_date = Date { year: 2023, month: 3, day: 20 };
    let date_input = None;
    let out = cal::print(date_input, None, None, Some(1), Some(1), FirstDayOfWeek::Monday, false, current_date);
    assert_eq!(String::from_utf8(out).unwrap(), "   February 2023           March 2023            April 2023     \nMo Tu We Th Fr Sa Su  Mo Tu We Th Fr Sa Su  Mo Tu We Th Fr Sa Su\n       1  2  3  4  5         1  2  3  4  5                  1  2\n 6  7  8  9 10 11 12   6  7  8  9 10 11 12   3  4  5  6  7  8  9\n13 14 15 16 17 18 19  13 14 15 16 17 18 19  10 11 12 13 14 15 16\n20 21 22 23 24 25 26  20 21 22 23 24 25 26  17 18 19 20 21 22 23\n27 28                 27 28 29 30 31        24 25 26 27 28 29 30\n");
}

#[test]
fn test_month_range_print_sun_first() {
    let current_date = Date { year: 2024, month: 3, day: 20 };
    let date_input = None;
    let out = cal::print(date_input, None, None, Some(1), Some(1), FirstDayOfWeek::Sunday, false, current_date);
    assert_eq!(String::from_utf8(out).unwrap(), "   February 2024           March 2024            April 2024     \nSu Mo Tu We Th Fr Sa  Su Mo Tu We Th Fr Sa  Su Mo Tu We Th Fr Sa\n             1  2  3                  1  2      1  2  3  4  5  6\n 4  5  6  7  8  9 10   3  4  5  6  7  8  9   7  8  9 10 11 12 13\n11 12 13 14 15 16 17  10 11 12 13 14 15 16  14 15 16 17 18 19 20\n18 19 20 21 22 23 24  17 18 19 20 21 22 23  21 22 23 24 25 26 27\n25 26 27 28 29        24 25 26 27 28 29 30  28 29 30            \n                      31                                        \n");
}

#[test]
fn test_print_highlights_today() {
    let current_date = Date { year: 2024, month: 3, day: 20 };
    let out = cal::print(None, None, None, None, None, FirstDayOfWeek::Monday, true, current_date);
    assert_eq!(String::from_utf8(out).unwrap(), "     March 2024     \nMo Tu We Th Fr Sa Su\n             1  2  3\n 4  5  6  7  8  9 10\n11 12 13 14 15 16 17\n18 19 \u{1b}[7m20\u{1b}[27m 21 22 23 24\n25 26 27 28 29 30 31\n");
}

#[test]
fn test_print_color_on_without_today_in_range() {
    let current_date = Date { year: 2024, month: 5, day: 20 };
    let date_input = Some(cal::parse_date_input("Q1", current_date).unwrap());
    let plain = cal::print(date_input, None, None, None, None, FirstDayOfWeek::Monday, false, current_date);
    let colored = cal::print(date_input, None, None, None, None, FirstDayOfWeek::Monday, true, current_date);
    assert_eq!(plain, colored);
}

#[test]
fn test_print_same_inputs_byte_identical() {
    let current_date = Date { year: 2024, month: 3, day: 20 };
    let first = cal::print(None, None, None, None, None, FirstDayOfWeek::Monday, true, current_date);
    let second = cal::print(None, None, None, None, None, FirstDayOfWeek::Monday, true, current_date);
    assert_eq!(first, second);
}

#[test]
fn test_print_explicit_year_and_month() {
    let current_date = Date { year: 2024, month: 5, day: 20 };
    let out = cal::print(None, Some(2024), Some(3), None, None, FirstDayOfWeek::Monday, false, current_date);
    assert_eq!(String::from_utf8(out).unwrap(), "     March 2024     \nMo Tu We Th Fr Sa Su\n             1  2  3\n 4  5  6  7  8  9 10\n11 12 13 14 15 16 17\n18 19 20 21 22 23 24\n25 26 27 28 29 30 31\n");
}

#[test]
fn test_single_month_print_method() {
    let days = cal::date_range(
        Date { year: 2024, month: 3, day: 1 },
        Date { year: 2024, month: 3, day: 31 },
    );
    let month = cal::build_month(&days, FirstDayOfWeek::Monday);
    let out = month.print(false, Date { year: 2024, month: 5, day: 20 });
    assert_eq!(String::from_utf8(out).unwrap(), "     March 2024     \nMo Tu We Th Fr Sa Su\n             1  2  3\n 4  5  6  7  8  9 10\n11 12 13 14 15 16 17\n18 19 20 21 22 23 24\n25 26 27 28 29 30 31\n");
}

#[test]
fn test_format_date_cells() {
    let today = Date { year: 2024, month: 3, day: 20 };
    let mut out: Vec<u8> = Vec::new();
    cal::format_date(false, today, Some(Date { year: 2024, month: 3, day: 5 }), &mut out);
    assert_eq!(out, b" 5".to_vec());
    let mut out: Vec<u8> = Vec::new();
    cal::format_date(false, today, None, &mut out);
    assert_eq!(out, b"  ".to_vec());
    let mut out: Vec<u8> = Vec::new();
    cal::format_date(true, today, Some(today), &mut out);
    assert_eq!(out, b"\x1b[7m20\x1b[27m".to_vec());
    let mut out: Vec<u8> = Vec::new();
    cal::format_date(false, today, Some(today), &mut out);
    assert_eq!(out, b"20".to_vec());
}

#[test]
fn test_print_fiscal_first_quarter_matches_prior_calendar_quarter() {
    // Fiscal Q1 of 2024 is July through September 2023, the same
    // months as calendar Q3 of 2023.
    let current_date = Date { year: 2024, month: 5, day: 20 };
    let fiscal = Some(cal::parse_date_input("FY2024Q1", current_date).unwrap());
    let calendar = Some(cal::parse_date_input("2023Q3", current_date).unwrap());
    let a = cal::print(fiscal, None, None, None, None, FirstDayOfWeek::Monday, false, current_date);
    let b = cal::print(calendar, None, None, None, None, FirstDayOfWeek::Monday, false, current_date);
    assert_eq!(a, b);
    let text = String::from_utf8(a).unwrap();
    assert!(text.contains("July 2023"));
    assert!(text.contains("August 2023"));
    assert!(text.contains("September 2023"));
}

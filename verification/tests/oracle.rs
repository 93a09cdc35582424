use cal::Date;
use chrono::Datelike;
use chrono::NaiveDate;

#[test]
fn test_weekday_matches_chrono_across_leap_years() {
    let mut d = NaiveDate::from_ymd_opt(1896, 1, 1).unwrap();
    for _ in 0..8000 {
        let mine = Date { year: d.year(), month: d.month(), day: d.day() };
        assert_eq!(mine.weekday(), d.weekday().num_days_from_monday());
        d = d.succ_opt().unwrap();
    }
}

#[test]
fn test_weekday_matches_chrono_around_century_rules() {
    for start in [
        NaiveDate::from_ymd_opt(-5, 12, 1).unwrap(),
        NaiveDate::from_ymd_opt(1599, 12, 1).unwrap(),
        NaiveDate::from_ymd_opt(1999, 12, 1).unwrap(),
        NaiveDate::from_ymd_opt(2099, 12, 1).unwrap(),
        NaiveDate::from_ymd_opt(2399, 12, 1).unwrap(),
    ] {
        let mut d = start;
        for _ in 0..500 {
            let mine = Date { year: d.year(), month: d.month(), day: d.day() };
            assert_eq!(mine.weekday(), d.weekday().num_days_from_monday());
            d = d.succ_opt().unwrap();
        }
    }
}

#[test]
fn test_last_day_of_month_matches_chrono() {
    for year in [-400, -100, 1, 1900, 2000, 2023, 2024, 2100, 2400] {
        for month in 1..=12u32 {
            let start = Date { year, month, day: 1 };
            let last = cal::date::last_day_of_month_for(start);
            let next_first = if month == 12 {
                NaiveDate::from_ymd_opt(year + 1, 1, 1).unwrap()
            } else {
                NaiveDate::from_ymd_opt(year, month + 1, 1).unwrap()
            };
            let expected = next_first.pred_opt().unwrap();
            assert_eq!(last.day, expected.day());
        }
    }
}

#[test]
fn test_date_range_matches_chrono_iteration() {
    let start = Date { year: 2023, month: 11, day: 20 };
    let end = Date { year: 2024, month: 3, day: 10 };
    let days = cal::date_range(start, end);
    let mut c = NaiveDate::from_ymd_opt(2023, 11, 20).unwrap();
    for day in &days {
        assert_eq!((day.year, day.month, day.day), (c.year(), c.month(), c.day()));
        c = c.succ_opt().unwrap();
    }
    assert_eq!(c, NaiveDate::from_ymd_opt(2024, 3, 11).unwrap());
}

use vstd::prelude::*;

use crate::date::{
    date_le, days_in_month, days_in_month_exec, last_day_of_month_for, Date, YEAR_MAX, YEAR_MIN,
};
use crate::parse::{DateInput, Quarter, Year, YearStyle};

verus! {

/// First and last calendar month of a quarter under a style. Fiscal
/// quarters name the calendar months of the fiscal year's two halves:
/// Q1 = July..September up to Q4 = April..June.
pub open spec fn quarter_months(style: YearStyle, q: Quarter) -> (int, int) {
    match (style, q) {
        (YearStyle::Calendar, Quarter::Q1) => (1, 3),
        (YearStyle::Calendar, Quarter::Q2) => (4, 6),
        (YearStyle::Calendar, Quarter::Q3) => (7, 9),
        (YearStyle::Calendar, Quarter::Q4) => (10, 12),
        (YearStyle::Fiscal, Quarter::Q1) => (7, 9),
        (YearStyle::Fiscal, Quarter::Q2) => (10, 12),
        (YearStyle::Fiscal, Quarter::Q3) => (1, 3),
        (YearStyle::Fiscal, Quarter::Q4) => (4, 6),
    }
}

/// The calendar year a quarter's months fall in. Fiscal year N spans
/// July of N-1 through June of N, so its first two quarters lie in
/// calendar year N-1.
pub open spec fn quarter_anchor_year(y: Year, q: Quarter) -> int {
    match (y.style, q) {
        (YearStyle::Fiscal, Quarter::Q1) => y.year - 1,
        (YearStyle::Fiscal, Quarter::Q2) => y.year - 1,
        _ => y.year as int,
    }
}

/// The year a specification names.
pub open spec fn input_year(di: DateInput) -> int {
    match di {
        DateInput::Year(y) => y.year as int,
        DateInput::YearMonth(y, _) => y.year as int,
        DateInput::YearQuarter(y, _) => y.year as int,
    }
}

/// The calendar year a specification's base range lies in: for a
/// fiscal first-half quarter the year before the one named, else the
/// named year itself.
pub open spec fn anchor_year(di: DateInput) -> int {
    match di {
        DateInput::YearQuarter(y, q) => quarter_anchor_year(y, q),
        _ => input_year(di),
    }
}

/// Any month carried by a specification is a real month number.
pub open spec fn input_months_ok(di: DateInput) -> bool {
    match di {
        DateInput::YearMonth(_, m) => 1 <= m <= 12,
        _ => true,
    }
}

/// The inclusive base range of a specification, before offsets.
pub open spec fn base_range_spec(di: DateInput) -> (Date, Date) {
    match di {
        DateInput::Year(y) => (
            Date { year: y.year, month: 1u32, day: 1u32 },
            Date { year: y.year, month: 12u32, day: 31u32 },
        ),
        DateInput::YearMonth(y, m) => (
            Date { year: y.year, month: m, day: 1u32 },
            Date { year: y.year, month: m, day: days_in_month(y.year as int, m as int) as u32 },
        ),
        DateInput::YearQuarter(y, q) => {
            let (sm, em) = quarter_months(y.style, q);
            let qy = quarter_anchor_year(y, q);
            (
                Date { year: qy as i32, month: sm as u32, day: 1u32 },
                Date { year: qy as i32, month: em as u32, day: days_in_month(qy, em) as u32 },
            )
        },
    }
}

/// The specification the resolver works from: explicit year and month
/// win, then an explicit year, then the free-form specification, and
/// with none of them the month of `today`.
pub open spec fn effective_input_spec(
    today: Date,
    date_input: Option<DateInput>,
    year: Option<i32>,
    month: Option<u32>,
) -> DateInput {
    match (year, month) {
        (Some(y), Some(m)) => DateInput::YearMonth(
            Year { style: YearStyle::Calendar, year: y },
            m,
        ),
        (Some(y), None) => DateInput::Year(Year { style: YearStyle::Calendar, year: y }),
        _ => match date_input {
            Some(di) => di,
            None => DateInput::YearMonth(
                Year { style: YearStyle::Calendar, year: today.year },
                today.month,
            ),
        },
    }
}

/// Move the start of a range back a number of months, to the first of
/// the month it lands in, rolling into the previous year if needed.
pub open spec fn shift_start_spec(start: Date, before: int) -> Date {
    if start.month <= before {
        Date { year: (start.year - 1) as i32, month: (12 - before + start.month) as u32, day: 1u32 }
    } else {
        Date { year: start.year, month: (start.month - before) as u32, day: 1u32 }
    }
}

/// Move the end of a range forward a number of months, to the last day
/// of the month it lands in, rolling into the next year if needed.
pub open spec fn shift_end_spec(end: Date, after: int) -> Date {
    let y: i32 = if end.month + after > 12 {
        (end.year + 1) as i32
    } else {
        end.year
    };
    let m: u32 = if end.month + after > 12 {
        (end.month + after - 12) as u32
    } else {
        (end.month + after) as u32
    };
    Date { year: y, month: m, day: days_in_month(y as int, m as int) as u32 }
}

/// The resolved inclusive date range: the base range of the effective
/// specification, with each offset applied if present.
pub open spec fn resolve_spec(
    today: Date,
    date_input: Option<DateInput>,
    year: Option<i32>,
    month: Option<u32>,
    months_before: Option<u32>,
    months_after: Option<u32>,
) -> (Date, Date) {
    let di = effective_input_spec(today, date_input, year, month);
    let base = base_range_spec(di);
    let s = match months_before {
        Some(b) => shift_start_spec(base.0, b as int),
        None => base.0,
    };
    let e = match months_after {
        Some(a) => shift_end_spec(base.1, a as int),
        None => base.1,
    };
    (s, e)
}

/// What the resolver asks of its inputs: real month numbers, offsets
/// within a year, and years that stay inside the supported range even
/// after the offsets roll them over.
pub open spec fn resolve_inputs_ok(
    today: Date,
    date_input: Option<DateInput>,
    year: Option<i32>,
    month: Option<u32>,
    months_before: Option<u32>,
    months_after: Option<u32>,
) -> bool {
    let di = effective_input_spec(today, date_input, year, month);
    let base = base_range_spec(di);
    &&& (match month {
        Some(m) => 1 <= m <= 12,
        None => true,
    })
    &&& (match months_before {
        Some(b) => 1 <= b <= 12,
        None => true,
    })
    &&& (match months_after {
        Some(a) => 1 <= a <= 12,
        None => true,
    })
    &&& input_months_ok(di)
    &&& YEAR_MIN <= anchor_year(di) <= YEAR_MAX
    &&& (match months_before {
        Some(b) => base.0.month <= b ==> anchor_year(di) - 1 >= YEAR_MIN,
        None => true,
    })
    &&& (match months_after {
        Some(a) => base.1.month + a > 12 ==> anchor_year(di) + 1 <= YEAR_MAX,
        None => true,
    })
}

/// Resolve a specification and optional month offsets to the concrete
/// inclusive date range to display.
pub fn determine_date_range(
    current_date: Date,
    date_input: Option<DateInput>,
    year: Option<i32>,
    month: Option<u32>,
    months_before: Option<u32>,
    months_after: Option<u32>,
) -> (r: (Date, Date))
    requires
        current_date.wf(),
        resolve_inputs_ok(current_date, date_input, year, month, months_before, months_after),
    ensures
        r == resolve_spec(current_date, date_input, year, month, months_before, months_after),
        r.0.wf(),
        r.1.wf(),
        date_le(r.0, r.1),
{
    let di: DateInput = match (year, month) {
        (Some(y), Some(m)) => DateInput::YearMonth(Year { style: YearStyle::Calendar, year: y }, m),
        (Some(y), None) => DateInput::Year(Year { style: YearStyle::Calendar, year: y }),
        _ => match date_input {
            Some(di) => di,
            None => DateInput::YearMonth(
                Year { style: YearStyle::Calendar, year: current_date.year },
                current_date.month,
            ),
        },
    };
    let (start_date, end_date): (Date, Date) = match di {
        DateInput::Year(y) => (
            Date { year: y.year, month: 1, day: 1 },
            Date { year: y.year, month: 12, day: 31 },
        ),
        DateInput::YearMonth(y, m) => {
            let start = Date { year: y.year, month: m, day: 1 };
            (start, last_day_of_month_for(start))
        },
        DateInput::YearQuarter(y, q) => {
            let (start_month, end_month): (u32, u32) = match (y.style, q) {
                (YearStyle::Calendar, Quarter::Q1) => (1, 3),
                (YearStyle::Calendar, Quarter::Q2) => (4, 6),
                (YearStyle::Calendar, Quarter::Q3) => (7, 9),
                (YearStyle::Calendar, Quarter::Q4) => (10, 12),
                (YearStyle::Fiscal, Quarter::Q1) => (7, 9),
                (YearStyle::Fiscal, Quarter::Q2) => (10, 12),
                (YearStyle::Fiscal, Quarter::Q3) => (1, 3),
                (YearStyle::Fiscal, Quarter::Q4) => (4, 6),
            };
            let quarter_year: i32 = match (y.style, q) {
                (YearStyle::Fiscal, Quarter::Q1) => y.year - 1,
                (YearStyle::Fiscal, Quarter::Q2) => y.year - 1,
                _ => y.year,
            };
            let start = Date { year: quarter_year, month: start_month, day: 1 };
            let first_of_end = Date { year: quarter_year, month: end_month, day: 1 };
            (start, last_day_of_month_for(first_of_end))
        },
    };
    let start_date = if let Some(before) = months_before {
        if start_date.month <= before {
            Date { year: start_date.year - 1, month: 12 - before + start_date.month, day: 1 }
        } else {
            Date { year: start_date.year, month: start_date.month - before, day: 1 }
        }
    } else {
        start_date
    };
    let end_date = if let Some(after) = months_after {
        let first = if end_date.month + after > 12 {
            Date { year: end_date.year + 1, month: end_date.month + after - 12, day: 1 }
        } else {
            Date { year: end_date.year, month: end_date.month + after, day: 1 }
        };
        last_day_of_month_for(first)
    } else {
        end_date
    };
    (start_date, end_date)
}

} // verus!

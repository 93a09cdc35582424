use vstd::prelude::*;

use crate::date::Date;
use crate::grid::{
    build_month_range, build_view, group_hi, group_lo, lemma_build_weeks_small,
    lemma_group_range_wf, lemma_range_days_props, months_view, range_days, week_col,
    FirstDayOfWeek, Month, MonthRange, MonthV, Week,
};
use crate::parse::DateInput;
use crate::resolve::{determine_date_range, resolve_inputs_ok, resolve_spec};

verus! {

/// A run of `n` spaces.
pub open spec fn spaces(n: int) -> Seq<u8> {
    if n <= 0 {
        Seq::empty()
    } else {
        Seq::new(n as nat, |i: int| 32u8)
    }
}

/// Decimal digits of a nonnegative number, most significant first.
pub open spec fn dec_digits(n: int) -> Seq<u8>
    decreases n,
{
    if n < 10 {
        seq![(48 + if n >= 0 {
            n
        } else {
            0
        }) as u8]
    } else {
        dec_digits(n / 10).push((48 + n % 10) as u8)
    }
}

/// Decimal text of an integer, with a leading minus sign if negative.
pub open spec fn int_str(v: int) -> Seq<u8> {
    if v < 0 {
        seq![45u8] + dec_digits(-v)
    } else {
        dec_digits(v)
    }
}

/// A day number right-justified in a two-character cell.
pub open spec fn two_digit(d: int) -> Seq<u8> {
    seq![
        if d < 10 {
            32u8
        } else {
            (48 + d / 10) as u8
        },
        (48 + d % 10) as u8,
    ]
}

/// The escape sequence that switches reverse video on.
pub open spec fn hl_on() -> Seq<u8> {
    seq![27u8, 91u8, 55u8, 109u8]
}

/// The escape sequence that switches reverse video off.
pub open spec fn hl_off() -> Seq<u8> {
    seq![27u8, 91u8, 50u8, 55u8, 109u8]
}

/// The two-space column separator.
pub open spec fn sep2() -> Seq<u8> {
    seq![32u8, 32u8]
}

/// A line break.
pub open spec fn nl() -> Seq<u8> {
    seq![10u8]
}

/// English name of month `m`.
pub open spec fn month_name(m: int) -> Seq<u8> {
    if m == 1 {
        seq!['J' as u8, 'a' as u8, 'n' as u8, 'u' as u8, 'a' as u8, 'r' as u8, 'y' as u8]
    } else if m == 2 {
        seq!['F' as u8, 'e' as u8, 'b' as u8, 'r' as u8, 'u' as u8, 'a' as u8, 'r' as u8, 'y' as u8]
    } else if m == 3 {
        seq!['M' as u8, 'a' as u8, 'r' as u8, 'c' as u8, 'h' as u8]
    } else if m == 4 {
        seq!['A' as u8, 'p' as u8, 'r' as u8, 'i' as u8, 'l' as u8]
    } else if m == 5 {
        seq!['M' as u8, 'a' as u8, 'y' as u8]
    } else if m == 6 {
        seq!['J' as u8, 'u' as u8, 'n' as u8, 'e' as u8]
    } else if m == 7 {
        seq!['J' as u8, 'u' as u8, 'l' as u8, 'y' as u8]
    } else if m == 8 {
        seq!['A' as u8, 'u' as u8, 'g' as u8, 'u' as u8, 's' as u8, 't' as u8]
    } else if m == 9 {
        seq!['S' as u8, 'e' as u8, 'p' as u8, 't' as u8, 'e' as u8, 'm' as u8, 'b' as u8, 'e' as u8, 'r' as u8]
    } else if m == 10 {
        seq!['O' as u8, 'c' as u8, 't' as u8, 'o' as u8, 'b' as u8, 'e' as u8, 'r' as u8]
    } else if m == 11 {
        seq!['N' as u8, 'o' as u8, 'v' as u8, 'e' as u8, 'm' as u8, 'b' as u8, 'e' as u8, 'r' as u8]
    } else {
        seq!['D' as u8, 'e' as u8, 'c' as u8, 'e' as u8, 'm' as u8, 'b' as u8, 'e' as u8, 'r' as u8]
    }
}

/// One day cell: two spaces for padding, the day number otherwise, in
/// reverse video when it is `today` and color is on.
pub open spec fn day_cell(slot: Option<Date>, color: bool, today: Date) -> Seq<u8> {
    match slot {
        None => seq![32u8, 32u8],
        Some(d) => if color && d == today {
            hl_on() + two_digit(d.day as int) + hl_off()
        } else {
            two_digit(d.day as int)
        },
    }
}

/// The first `c` cells of a week row, joined by single spaces.
pub open spec fn week_row_upto(
    w: Week,
    f: FirstDayOfWeek,
    color: bool,
    today: Date,
    c: int,
) -> Seq<u8>
    decreases c,
{
    if c <= 0 {
        Seq::empty()
    } else if c == 1 {
        day_cell(week_col(w, f, 0), color, today)
    } else {
        week_row_upto(w, f, color, today, c - 1) + seq![32u8] + day_cell(
            week_col(w, f, c - 1),
            color,
            today,
        )
    }
}

/// A full week row: seven cells joined by single spaces.
pub open spec fn week_row(w: Week, f: FirstDayOfWeek, color: bool, today: Date) -> Seq<u8> {
    week_row_upto(w, f, color, today, 7)
}

/// Append the bytes of `src` to `out`.
fn push_all(out: &mut Vec<u8>, src: &Vec<u8>)
    ensures
        final(out)@ == old(out)@ + src@,
{
    let n = src.len();
    let mut i: usize = 0;
    while i < n
        invariant
            i <= n,
            n == src@.len(),
            out@ == old(out)@ + src@.subrange(0, i as int),
        decreases n - i,
    {
        let b = src[i];
        out.push(b);
        proof {
            assert(src@.subrange(0, i + 1) =~= src@.subrange(0, i as int).push(src@[i as int]));
            assert(old(out)@ + src@.subrange(0, i as int).push(src@[i as int]) =~= (old(out)@
                + src@.subrange(0, i as int)).push(src@[i as int]));
        }
        i = i + 1;
    }
    proof {
        assert(src@.subrange(0, n as int) =~= src@);
    }
}

/// Append `n` spaces to `out`.
fn push_spaces(out: &mut Vec<u8>, n: usize)
    ensures
        final(out)@ == old(out)@ + spaces(n as int),
{
    let mut i: usize = 0;
    while i < n
        invariant
            i <= n,
            out@ == old(out)@ + spaces(i as int),
        decreases n - i,
    {
        out.push(32u8);
        proof {
            assert(spaces(i + 1) =~= spaces(i as int).push(32u8));
            assert(old(out)@ + spaces(i as int).push(32u8) =~= (old(out)@ + spaces(
                i as int,
            )).push(32u8));
        }
        i = i + 1;
    }
}

/// Append the decimal digits of `n` to `out`.
fn push_u32_dec(out: &mut Vec<u8>, n: u32)
    ensures
        final(out)@ == old(out)@ + dec_digits(n as int),
    decreases n,
{
    if n < 10 {
        out.push(48 + n as u8);
        proof {
            assert(old(out)@ + dec_digits(n as int) =~= old(out)@.push((48 + n) as u8));
        }
    } else {
        push_u32_dec(out, n / 10);
        out.push(48 + (n % 10) as u8);
        proof {
            assert(old(out)@ + dec_digits(n as int) =~= (old(out)@ + dec_digits(
                n as int / 10,
            )).push((48 + n as int % 10) as u8));
        }
    }
}

/// Append the decimal text of `v`, sign included, to `out`.
fn push_i32_dec(out: &mut Vec<u8>, v: i32)
    ensures
        final(out)@ == old(out)@ + int_str(v as int),
{
    if v < 0 {
        out.push(45u8);
        let m: u32 = if v == i32::MIN {
            0x8000_0000u32
        } else {
            (-v) as u32
        };
        push_u32_dec(out, m);
        proof {
            assert(old(out)@ + int_str(v as int) =~= (old(out)@.push(45u8)) + dec_digits(
                -(v as int),
            ));
        }
    } else {
        push_u32_dec(out, v as u32);
    }
}

/// Append a day number right-justified in two characters.
fn push_two_digit(out: &mut Vec<u8>, d: u32)
    requires
        d < 100,
    ensures
        final(out)@ == old(out)@ + two_digit(d as int),
{
    if d < 10 {
        out.push(32u8);
    } else {
        out.push(48 + (d / 10) as u8);
    }
    out.push(48 + (d % 10) as u8);
    proof {
        assert(out@ =~= old(out)@ + two_digit(d as int));
    }
}

/// Append one day cell, highlighting `current_date` in reverse video
/// when color is on.
pub fn format_date(color_enabled: bool, current_date: Date, date: Option<Date>, output: &mut Vec<
    u8,
>)
    requires
        match date {
            Some(d) => d.day < 100,
            None => true,
        },
    ensures
        final(output)@ == old(output)@ + day_cell(date, color_enabled, current_date),
{
    match date {
        Some(d) => {
            let highlighted = color_enabled && d.year == current_date.year && d.month
                == current_date.month && d.day == current_date.day;
            proof {
                assert(highlighted == (color_enabled && d == current_date));
            }
            if highlighted {
                output.push(27u8);
                output.push(91u8);
                output.push(55u8);
                output.push(109u8);
                push_two_digit(output, d.day);
                output.push(27u8);
                output.push(91u8);
                output.push(50u8);
                output.push(55u8);
                output.push(109u8);
                proof {
                    assert(output@ =~= old(output)@ + (hl_on() + two_digit(d.day as int)
                        + hl_off()));
                }
            } else {
                push_two_digit(output, d.day);
            }
        },
        None => {
            output.push(32u8);
            output.push(32u8);
            proof {
                assert(output@ =~= old(output)@ + seq![32u8, 32u8]);
            }
        },
    }
}

impl Week {
    /// The slot shown in display column `c`.
    pub fn col(&self, f: FirstDayOfWeek, c: usize) -> (r: Option<Date>)
        requires
            c < 7,
        ensures
            r == week_col(*self, f, c as int),
    {
        let i: usize = match f {
            FirstDayOfWeek::Monday => c,
            FirstDayOfWeek::Sunday => (c + 6) % 7,
        };
        match i {
            0 => self.monday,
            1 => self.tuesday,
            2 => self.wednesday,
            3 => self.thursday,
            4 => self.friday,
            5 => self.saturday,
            _ => self.sunday,
        }
    }

    /// Append this week's row: seven cells joined by single spaces.
    pub fn print(
        &self,
        color_enabled: bool,
        current_date: Date,
        first_day_of_week: FirstDayOfWeek,
        output: &mut Vec<u8>,
    )
        requires
            self.wf_days(),
        ensures
            final(output)@ == old(output)@ + week_row(*self, first_day_of_week, color_enabled, current_date),
    {
        let mut c: usize = 0;
        while c < 7
            invariant
                c <= 7,
                self.wf_days(),
                output@ == old(output)@ + week_row_upto(
                    *self,
                    first_day_of_week,
                    color_enabled,
                    current_date,
                    c as int,
                ),
            decreases 7 - c,
        {
            if c > 0 {
                output.push(32u8);
            }
            let slot = self.col(first_day_of_week, c);
            format_date(color_enabled, current_date, slot, output);
            proof {
                if c == 0 {
                    assert(output@ =~= old(output)@ + week_row_upto(
                        *self,
                        first_day_of_week,
                        color_enabled,
                        current_date,
                        1,
                    ));
                } else {
                    assert(output@ =~= old(output)@ + week_row_upto(
                        *self,
                        first_day_of_week,
                        color_enabled,
                        current_date,
                        c + 1,
                    ));
                }
            }
            c = c + 1;
        }
    }
}


/// The title of a month grid: name, space, year.
pub open spec fn month_title(y: int, m: int) -> Seq<u8> {
    month_name(m) + seq![32u8] + int_str(y)
}

/// Center text in a twenty-character field, extra padding on the
/// right; wider text is kept as it is.
pub open spec fn center20(s: Seq<u8>) -> Seq<u8> {
    if s.len() >= 20 {
        s
    } else {
        spaces((20 - s.len()) / 2) + s + spaces(20 - s.len() - (20 - s.len()) / 2)
    }
}

/// The centered title line piece of one month.
pub open spec fn month_header(m: MonthV) -> Seq<u8> {
    center20(month_title(m.start_date.year as int, m.start_date.month as int))
}

/// The weekday header of one column block.
pub open spec fn weekday_header(f: FirstDayOfWeek) -> Seq<u8> {
    match f {
        FirstDayOfWeek::Monday => seq!['M' as u8, 'o' as u8, 32u8, 'T' as u8, 'u' as u8, 32u8, 'W' as u8, 'e' as u8, 32u8, 'T' as u8, 'h' as u8, 32u8, 'F' as u8, 'r' as u8, 32u8, 'S' as u8, 'a' as u8, 32u8, 'S' as u8, 'u' as u8],
        FirstDayOfWeek::Sunday => seq!['S' as u8, 'u' as u8, 32u8, 'M' as u8, 'o' as u8, 32u8, 'T' as u8, 'u' as u8, 32u8, 'W' as u8, 'e' as u8, 32u8, 'T' as u8, 'h' as u8, 32u8, 'F' as u8, 'r' as u8, 32u8, 'S' as u8, 'a' as u8],
    }
}

/// Append the English name of month `m`.
fn push_month_name(out: &mut Vec<u8>, m: u32)
    ensures
        final(out)@ == old(out)@ + month_name(m as int),
{
    match m {
        1 => {
            out.push('J' as u8);
            out.push('a' as u8);
            out.push('n' as u8);
            out.push('u' as u8);
            out.push('a' as u8);
            out.push('r' as u8);
            out.push('y' as u8);
        },
        2 => {
            out.push('F' as u8);
            out.push('e' as u8);
            out.push('b' as u8);
            out.push('r' as u8);
            out.push('u' as u8);
            out.push('a' as u8);
            out.push('r' as u8);
            out.push('y' as u8);
        },
        3 => {
            out.push('M' as u8);
            out.push('a' as u8);
            out.push('r' as u8);
            out.push('c' as u8);
            out.push('h' as u8);
        },
        4 => {
            out.push('A' as u8);
            out.push('p' as u8);
            out.push('r' as u8);
            out.push('i' as u8);
            out.push('l' as u8);
        },
        5 => {
            out.push('M' as u8);
            out.push('a' as u8);
            out.push('y' as u8);
        },
        6 => {
            out.push('J' as u8);
            out.push('u' as u8);
            out.push('n' as u8);
            out.push('e' as u8);
        },
        7 => {
            out.push('J' as u8);
            out.push('u' as u8);
            out.push('l' as u8);
            out.push('y' as u8);
        },
        8 => {
            out.push('A' as u8);
            out.push('u' as u8);
            out.push('g' as u8);
            out.push('u' as u8);
            out.push('s' as u8);
            out.push('t' as u8);
        },
        9 => {
            out.push('S' as u8);
            out.push('e' as u8);
            out.push('p' as u8);
            out.push('t' as u8);
            out.push('e' as u8);
            out.push('m' as u8);
            out.push('b' as u8);
            out.push('e' as u8);
            out.push('r' as u8);
        },
        10 => {
            out.push('O' as u8);
            out.push('c' as u8);
            out.push('t' as u8);
            out.push('o' as u8);
            out.push('b' as u8);
            out.push('e' as u8);
            out.push('r' as u8);
        },
        11 => {
            out.push('N' as u8);
            out.push('o' as u8);
            out.push('v' as u8);
            out.push('e' as u8);
            out.push('m' as u8);
            out.push('b' as u8);
            out.push('e' as u8);
            out.push('r' as u8);
        },
        _ => {
            out.push('D' as u8);
            out.push('e' as u8);
            out.push('c' as u8);
            out.push('e' as u8);
            out.push('m' as u8);
            out.push('b' as u8);
            out.push('e' as u8);
            out.push('r' as u8);
        },
    }
    proof {
        assert(out@ =~= old(out)@ + month_name(m as int));
    }
}

impl Month {
    /// Append this month's centered "name year" title.
    pub fn print_header(&self, output: &mut Vec<u8>)
        ensures
            final(output)@ == old(output)@ + month_header(self@),
    {
        let mut t: Vec<u8> = Vec::new();
        push_month_name(&mut t, self.start_date.month);
        t.push(32u8);
        push_i32_dec(&mut t, self.start_date.year);
        let len = t.len();
        if len >= 20 {
            push_all(output, &t);
        } else {
            let left = (20 - len) / 2;
            push_spaces(output, left);
            push_all(output, &t);
            push_spaces(output, 20 - len - left);
        }
        proof {
            assert(t@ == month_title(self.start_date.year as int, self.start_date.month as int));
            if t@.len() >= 20 {
            } else {
                assert(output@ =~= old(output)@ + center20(t@));
            }
        }
    }

    /// Append the weekday header row for this month's week start.
    pub fn print_weekday_header(&self, output: &mut Vec<u8>)
        ensures
            final(output)@ == old(output)@ + weekday_header(self.first_day_of_week),
    {
        match self.first_day_of_week {
            FirstDayOfWeek::Monday => {
                output.push('M' as u8);
                output.push('o' as u8);
                output.push(32u8);
                output.push('T' as u8);
                output.push('u' as u8);
                output.push(32u8);
                output.push('W' as u8);
                output.push('e' as u8);
                output.push(32u8);
                output.push('T' as u8);
                output.push('h' as u8);
                output.push(32u8);
                output.push('F' as u8);
                output.push('r' as u8);
                output.push(32u8);
                output.push('S' as u8);
                output.push('a' as u8);
                output.push(32u8);
                output.push('S' as u8);
                output.push('u' as u8);
            },
            FirstDayOfWeek::Sunday => {
                output.push('S' as u8);
                output.push('u' as u8);
                output.push(32u8);
                output.push('M' as u8);
                output.push('o' as u8);
                output.push(32u8);
                output.push('T' as u8);
                output.push('u' as u8);
                output.push(32u8);
                output.push('W' as u8);
                output.push('e' as u8);
                output.push(32u8);
                output.push('T' as u8);
                output.push('h' as u8);
                output.push(32u8);
                output.push('F' as u8);
                output.push('r' as u8);
                output.push(32u8);
                output.push('S' as u8);
                output.push('a' as u8);
            },
        }
        proof {
            assert(output@ =~= old(output)@ + weekday_header(self.first_day_of_week));
        }
    }
}

/// The first `wi` week rows of one month, each closed by a line break.
pub open spec fn month_rows(m: MonthV, wi: int, color: bool, today: Date) -> Seq<u8>
    decreases wi,
{
    if wi <= 0 {
        Seq::empty()
    } else {
        month_rows(m, wi - 1, color, today) + week_row(m.weeks[wi - 1], m.first_day_of_week, color, today) + nl()
    }
}

/// One month rendered on its own: title, weekday header, week rows.
pub open spec fn month_block(m: MonthV, color: bool, today: Date) -> Seq<u8> {
    month_header(m) + nl() + weekday_header(m.first_day_of_week) + nl() + month_rows(
        m,
        m.weeks.len() as int,
        color,
        today,
    )
}

impl Month {
    /// Render this month alone: title, weekday header, week rows.
    pub fn print(&self, color_enabled: bool, current_date: Date) -> (out: Vec<u8>)
        requires
            forall|k: int| 0 <= k < self.weeks@.len() ==> (#[trigger] self.weeks@[k]).wf_days(),
        ensures
            out@ == month_block(self@, color_enabled, current_date),
    {
        let mut out: Vec<u8> = Vec::new();
        self.print_header(&mut out);
        out.push(10u8);
        self.print_weekday_header(&mut out);
        out.push(10u8);
        let ghost base = out@;
        let n = self.weeks.len();
        let mut wi: usize = 0;
        while wi < n
            invariant
                wi <= n,
                n == self.weeks@.len(),
                forall|k: int| 0 <= k < self.weeks@.len() ==> (#[trigger] self.weeks@[k]).wf_days(),
                out@ == base + month_rows(self@, wi as int, color_enabled, current_date),
            decreases n - wi,
        {
            let week = &self.weeks[wi];
            week.print(color_enabled, current_date, self.first_day_of_week, &mut out);
            out.push(10u8);
            proof {
                assert(out@ =~= base + month_rows(self@, wi + 1, color_enabled, current_date));
            }
            wi = wi + 1;
        }
        proof {
            assert(out@ =~= month_block(self@, color_enabled, current_date));
        }
        out
    }
}


/// The title line of columns `lo..i`, joined by double spaces.
pub open spec fn headers_cat(ms: Seq<MonthV>, lo: int, i: int) -> Seq<u8>
    decreases i - lo,
{
    if i <= lo {
        Seq::empty()
    } else {
        headers_cat(ms, lo, i - 1) + (if i - 1 == lo {
            Seq::<u8>::empty()
        } else {
            sep2()
        }) + month_header(ms[i - 1])
    }
}

/// The weekday-header line of columns `lo..i`, joined by double spaces.
pub open spec fn wd_headers_cat(ms: Seq<MonthV>, lo: int, i: int) -> Seq<u8>
    decreases i - lo,
{
    if i <= lo {
        Seq::empty()
    } else {
        wd_headers_cat(ms, lo, i - 1) + (if i - 1 == lo {
            Seq::<u8>::empty()
        } else {
            sep2()
        }) + weekday_header(ms[i - 1].first_day_of_week)
    }
}

/// Week `wi` of one month, or a blank field once its weeks run out.
pub open spec fn row_piece(m: MonthV, wi: int, color: bool, today: Date) -> Seq<u8> {
    if wi < m.weeks.len() {
        week_row(m.weeks[wi], m.first_day_of_week, color, today)
    } else {
        spaces(20)
    }
}

/// Week row `wi` across columns `lo..i`, joined by double spaces.
pub open spec fn row_cat(ms: Seq<MonthV>, lo: int, i: int, wi: int, color: bool, today: Date) -> Seq<
    u8,
>
    decreases i - lo,
{
    if i <= lo {
        Seq::empty()
    } else {
        row_cat(ms, lo, i - 1, wi, color, today) + (if i - 1 == lo {
            Seq::<u8>::empty()
        } else {
            sep2()
        }) + row_piece(ms[i - 1], wi, color, today)
    }
}

/// The first `wi` week rows of one column block, each closed by a
/// line break.
pub open spec fn rows_upto(
    ms: Seq<MonthV>,
    lo: int,
    hi: int,
    wi: int,
    color: bool,
    today: Date,
) -> Seq<u8>
    decreases wi,
{
    if wi <= 0 {
        Seq::empty()
    } else {
        rows_upto(ms, lo, hi, wi - 1, color, today) + row_cat(ms, lo, hi, wi - 1, color, today)
            + nl()
    }
}

/// One block of up to three side-by-side months: title line, weekday
/// line, then `maxw` week rows.
pub open spec fn chunk_block(
    ms: Seq<MonthV>,
    lo: int,
    hi: int,
    maxw: int,
    color: bool,
    today: Date,
) -> Seq<u8> {
    headers_cat(ms, lo, hi) + nl() + wd_headers_cat(ms, lo, hi) + nl() + rows_upto(
        ms,
        lo,
        hi,
        maxw,
        color,
        today,
    )
}

/// The first `k` chunks, with a blank line before each but the first.
pub open spec fn chunks_upto(ms: Seq<MonthV>, k: int, maxw: int, color: bool, today: Date) -> Seq<
    u8,
>
    decreases k,
{
    if k <= 0 {
        Seq::empty()
    } else {
        chunks_upto(ms, k - 1, maxw, color, today) + (if k - 1 == 0 {
            Seq::<u8>::empty()
        } else {
            nl()
        }) + chunk_block(
            ms,
            3 * (k - 1),
            if 3 * (k - 1) + 3 <= ms.len() {
                3 * (k - 1) + 3
            } else {
                ms.len() as int
            },
            maxw,
            color,
            today,
        )
    }
}

/// The largest week count any month in the range has.
pub open spec fn max_weeks_of(ms: Seq<MonthV>) -> int
    decreases ms.len(),
{
    if ms.len() == 0 {
        0
    } else if ms.last().weeks.len() > max_weeks_of(ms.drop_last()) {
        ms.last().weeks.len() as int
    } else {
        max_weeks_of(ms.drop_last())
    }
}

/// The rendered text of a month range: months in chunks of three side
/// by side, every chunk padded to the same global week-row count, a
/// blank line between chunks.
pub open spec fn render_spec(ms: Seq<MonthV>, color: bool, today: Date) -> Seq<u8> {
    chunks_upto(ms, (ms.len() as int + 2) / 3, max_weeks_of(ms), color, today)
}

/// Every week of every month has day numbers a cell can show.
pub open spec fn months_wf_days(ms: Seq<MonthV>) -> bool {
    forall|k: int, w: int|
        0 <= k < ms.len() && 0 <= w < ms[k].weeks.len() ==> (#[trigger] ms[k].weeks[w]).wf_days()
}

/// Append the title line of columns `lo..hi`.
fn print_header_line(months: &Vec<Month>, lo: usize, hi: usize, out: &mut Vec<u8>)
    requires
        lo <= hi <= months@.len(),
    ensures
        final(out)@ == old(out)@ + headers_cat(months_view(months@), lo as int, hi as int),
{
    let ghost ms = months_view(months@);
    let mut j: usize = lo;
    while j < hi
        invariant
            lo <= j <= hi <= months@.len(),
            ms == months_view(months@),
            out@ == old(out)@ + headers_cat(ms, lo as int, j as int),
        decreases hi - j,
    {
        if j > lo {
            out.push(32u8);
            out.push(32u8);
        }
        let m = &months[j];
        m.print_header(out);
        proof {
            assert(ms[j as int] == months@[j as int]@);
            assert(out@ =~= old(out)@ + headers_cat(ms, lo as int, j + 1));
        }
        j = j + 1;
    }
}

/// Append the weekday-header line of columns `lo..hi`.
fn print_weekday_line(months: &Vec<Month>, lo: usize, hi: usize, out: &mut Vec<u8>)
    requires
        lo <= hi <= months@.len(),
    ensures
        final(out)@ == old(out)@ + wd_headers_cat(months_view(months@), lo as int, hi as int),
{
    let ghost ms = months_view(months@);
    let mut j: usize = lo;
    while j < hi
        invariant
            lo <= j <= hi <= months@.len(),
            ms == months_view(months@),
            out@ == old(out)@ + wd_headers_cat(ms, lo as int, j as int),
        decreases hi - j,
    {
        if j > lo {
            out.push(32u8);
            out.push(32u8);
        }
        let m = &months[j];
        m.print_weekday_header(out);
        proof {
            assert(ms[j as int] == months@[j as int]@);
            assert(out@ =~= old(out)@ + wd_headers_cat(ms, lo as int, j + 1));
        }
        j = j + 1;
    }
}

/// Append week row `wi` across columns `lo..hi`, blank where a month
/// has no such week.
fn print_week_line(
    months: &Vec<Month>,
    lo: usize,
    hi: usize,
    wi: usize,
    color_enabled: bool,
    current_date: Date,
    out: &mut Vec<u8>,
)
    requires
        lo <= hi <= months@.len(),
        months_wf_days(months_view(months@)),
    ensures
        final(out)@ == old(out)@ + row_cat(
            months_view(months@),
            lo as int,
            hi as int,
            wi as int,
            color_enabled,
            current_date,
        ),
{
    let ghost ms = months_view(months@);
    let mut j: usize = lo;
    while j < hi
        invariant
            lo <= j <= hi <= months@.len(),
            ms == months_view(months@),
            months_wf_days(ms),
            out@ == old(out)@ + row_cat(
                ms,
                lo as int,
                j as int,
                wi as int,
                color_enabled,
                current_date,
            ),
        decreases hi - j,
    {
        if j > lo {
            out.push(32u8);
            out.push(32u8);
        }
        let m = &months[j];
        proof {
            assert(ms[j as int] == months@[j as int]@);
        }
        if wi < m.weeks.len() {
            let week = &m.weeks[wi];
            proof {
                assert(ms[j as int].weeks[wi as int].wf_days());
            }
            week.print(color_enabled, current_date, m.first_day_of_week, out);
        } else {
            push_spaces(out, 20);
        }
        proof {
            assert(out@ =~= old(out)@ + row_cat(
                ms,
                lo as int,
                j + 1,
                wi as int,
                color_enabled,
                current_date,
            ));
        }
        j = j + 1;
    }
}

impl MonthRange {
    /// Render the whole range: chunks of up to three months side by
    /// side, every chunk showing the same number of week rows, padded
    /// with blank fields where a month has fewer weeks.
    #[verifier::rlimit(100)]
    pub fn print(&self, color_enabled: bool, current_date: Date) -> (out: Vec<u8>)
        requires
            months_wf_days(months_view(self.months@)),
        ensures
            out@ == render_spec(months_view(self.months@), color_enabled, current_date),
    {
        let ghost ms = months_view(self.months@);
        let n = self.months.len();
        let mut maxw: usize = 0;
        let mut i: usize = 0;
        while i < n
            invariant
                i <= n,
                n == self.months@.len(),
                ms == months_view(self.months@),
                maxw as int == max_weeks_of(ms.subrange(0, i as int)),
            decreases n - i,
        {
            let m = &self.months[i];
            let wl = m.weeks.len();
            proof {
                assert(ms.subrange(0, i + 1).drop_last() =~= ms.subrange(0, i as int));
                assert(ms.subrange(0, i + 1).last() == ms[i as int]);
                assert(ms[i as int] == self.months@[i as int]@);
            }
            if wl > maxw {
                maxw = wl;
            }
            i = i + 1;
        }
        proof {
            assert(ms.subrange(0, n as int) =~= ms);
        }
        let mut out: Vec<u8> = Vec::new();
        let mut lo: usize = 0;
        let ghost mut ck: int = 0;
        while lo < n
            invariant
                n == self.months@.len(),
                ms == months_view(self.months@),
                months_wf_days(ms),
                maxw as int == max_weeks_of(ms),
                lo <= n,
                0 <= ck,
                lo as int == 3 * ck || (lo == n && ck == (n + 2) / 3),
                out@ == chunks_upto(ms, ck, maxw as int, color_enabled, current_date),
            decreases n - lo,
        {
            let hi = if n - lo < 3 {
                n
            } else {
                lo + 3
            };
            if lo > 0 {
                out.push(10u8);
            }
            print_header_line(&self.months, lo, hi, &mut out);
            out.push(10u8);
            print_weekday_line(&self.months, lo, hi, &mut out);
            out.push(10u8);
            let ghost rows_base = out@;
            let mut wi: usize = 0;
            while wi < maxw
                invariant
                    n == self.months@.len(),
                    ms == months_view(self.months@),
                    months_wf_days(ms),
                    lo < hi <= n,
                    wi <= maxw,
                    out@ == rows_base + rows_upto(
                        ms,
                        lo as int,
                        hi as int,
                        wi as int,
                        color_enabled,
                        current_date,
                    ),
                decreases maxw - wi,
            {
                print_week_line(
                    &self.months,
                    lo,
                    hi,
                    wi,
                    color_enabled,
                    current_date,
                    &mut out,
                );
                out.push(10u8);
                proof {
                    assert(out@ =~= rows_base + rows_upto(
                        ms,
                        lo as int,
                        hi as int,
                        wi + 1,
                        color_enabled,
                        current_date,
                    ));
                }
                wi = wi + 1;
            }
            proof {
                assert(hi as int == if 3 * ck + 3 <= ms.len() {
                    3 * ck + 3
                } else {
                    ms.len() as int
                });
                assert(out@ =~= chunks_upto(ms, ck + 1, maxw as int, color_enabled, current_date));
                ck = ck + 1;
            }
            lo = hi;
        }
        proof {
            assert(ck == (n + 2) / 3);
        }
        out
    }
}

/// Rendering the same month grids with the same color switch and the
/// same current date always yields byte-identical output.
pub proof fn lemma_render_deterministic(
    ms: Seq<MonthV>,
    color: bool,
    today: Date,
    r1: Seq<u8>,
    r2: Seq<u8>,
)
    requires
        r1 == render_spec(ms, color, today),
        r2 == render_spec(ms, color, today),
    ensures
        r1 == r2,
{
}


/// When colored output is wanted.
#[derive(Clone, Copy, Debug, PartialEq, Eq, Structural)]
pub enum ColorWhen {
    Always,
    Auto,
    Never,
}

/// What a color-forcing environment value decides: on, off, or nothing.
pub open spec fn color_override_spec(val: Seq<char>) -> Option<bool> {
    if val == "1"@ || val == "true"@ {
        Some(true)
    } else if val == "0"@ || val == "false"@ {
        Some(false)
    } else {
        None
    }
}

/// Whether color is shown: a recognized forcing value wins, otherwise
/// the mode decides, with automatic mode following interactivity.
pub open spec fn show_color_spec(force: Option<Seq<char>>, color: ColorWhen, interactive: bool) -> bool {
    let base = match color {
        ColorWhen::Always => true,
        ColorWhen::Auto => interactive,
        ColorWhen::Never => false,
    };
    match force {
        Some(v) => match color_override_spec(v) {
            Some(b) => b,
            None => base,
        },
        None => base,
    }
}

/// Decide whether to color output, from the forcing value (if any
/// was set), the chosen mode, and whether output goes to a terminal.
pub fn show_color(force_color: Option<&str>, color: ColorWhen, interactive: bool) -> (r: bool)
    ensures
        r == show_color_spec(
            match force_color {
                Some(s) => Some(s@),
                None => None,
            },
            color,
            interactive,
        ),
{
    if let Some(s) = force_color {
        let v = crate::parse::chars_of(s);
        proof {
            reveal_strlit("1");
            reveal_strlit("true");
            reveal_strlit("0");
            reveal_strlit("false");
        }
        let is_one = v.len() == 1 && v[0] == '1';
        let is_true = v.len() == 4 && v[0] == 't' && v[1] == 'r' && v[2] == 'u' && v[3] == 'e';
        let is_zero = v.len() == 1 && v[0] == '0';
        let is_false = v.len() == 5 && v[0] == 'f' && v[1] == 'a' && v[2] == 'l' && v[3] == 's'
            && v[4] == 'e';
        proof {
            assert(is_one <==> s@ == "1"@) by {
                if is_one {
                    assert(s@ =~= "1"@);
                }
            }
            assert(is_true <==> s@ == "true"@) by {
                if is_true {
                    assert(s@ =~= "true"@);
                }
            }
            assert(is_zero <==> s@ == "0"@) by {
                if is_zero {
                    assert(s@ =~= "0"@);
                }
            }
            assert(is_false <==> s@ == "false"@) by {
                if is_false {
                    assert(s@ =~= "false"@);
                }
            }
        }
        if is_one || is_true {
            return true;
        }
        if is_zero || is_false {
            return false;
        }
    }
    match color {
        ColorWhen::Always => true,
        ColorWhen::Auto => interactive,
        ColorWhen::Never => false,
    }
}

/// The first day of week to use: an explicit choice wins, then the
/// system preference, and Monday with neither.
pub fn determine_default_first_day_of_week(
    first_day_of_week: Option<FirstDayOfWeek>,
    system_default: Option<FirstDayOfWeek>,
) -> (r: FirstDayOfWeek)
    ensures
        r == match first_day_of_week {
            Some(f) => f,
            None => match system_default {
                Some(s) => s,
                None => FirstDayOfWeek::Monday,
            },
        },
{
    if let Some(f) = first_day_of_week {
        f
    } else {
        if let Some(s) = system_default {
            return s;
        }
        FirstDayOfWeek::Monday
    }
}

/// Resolve, grid, and render a calendar in one step: the text for the
/// range that the specification and offsets name, as seen from `today`.
pub fn print(
    date_input: Option<DateInput>,
    year: Option<i32>,
    month: Option<u32>,
    months_before: Option<u32>,
    months_after: Option<u32>,
    first_day_of_week: FirstDayOfWeek,
    color_enabled: bool,
    today: Date,
) -> (out: Vec<u8>)
    requires
        today.wf(),
        resolve_inputs_ok(today, date_input, year, month, months_before, months_after),
    ensures
        ({
            let range = resolve_spec(today, date_input, year, month, months_before, months_after);
            out@ == render_spec(
                build_view(range.0, range.1, first_day_of_week),
                color_enabled,
                today,
            )
        }),
{
    let (start_date, end_date) = determine_date_range(
        today,
        date_input,
        year,
        month,
        months_before,
        months_after,
    );
    let months = build_month_range(start_date, end_date, first_day_of_week);
    proof {
        let ms = months_view(months.months@);
        let bv = build_view(start_date, end_date, first_day_of_week);
        assert forall|k: int| 0 <= k < ms.len() implies ms[k] == bv[k] by {
            assert(ms[k] == months.months@[k]@);
        }
        assert(ms =~= bv);
        assert forall|k: int, w: int|
            0 <= k < ms.len() && 0 <= w < ms[k].weeks.len() implies (#[trigger] ms[k].weeks[w]).wf_days() by {
            let lo = group_lo(start_date, k);
            let hi = group_hi(start_date, end_date, k);
            lemma_group_range_wf(start_date, end_date, k);
            lemma_range_days_props(lo, hi);
            lemma_build_weeks_small(range_days(lo, hi), first_day_of_week);
        }
    }
    months.print(color_enabled, today)
}

} // verus!

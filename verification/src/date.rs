use vstd::prelude::*;
use vstd::arithmetic::div_mod::{
    lemma_fundamental_div_mod, lemma_fundamental_div_mod_converse, lemma_mod_bound,
    lemma_mod_mod, lemma_mod_multiples_vanish,
};

verus! {

/// Smallest year a `Date` may hold.
pub const YEAR_MIN: i32 = -262144;

/// Largest year a `Date` may hold.
pub const YEAR_MAX: i32 = 262143;

/// A calendar date in the proleptic Gregorian calendar, kept as plain
/// year / month / day values.
#[derive(Clone, Copy, Debug, PartialEq, Eq, Structural)]
pub struct Date {
    pub year: i32,
    pub month: u32,
    pub day: u32,
}

/// Gregorian leap-year rule.
pub open spec fn is_leap_year(y: int) -> bool {
    (y % 4 == 0 && y % 100 != 0) || y % 400 == 0
}

/// Number of days in month `m` of year `y`, for `m` in 1..=12.
pub open spec fn days_in_month(y: int, m: int) -> int {
    if m == 2 {
        if is_leap_year(y) {
            29
        } else {
            28
        }
    } else if m == 4 || m == 6 || m == 9 || m == 11 {
        30
    } else {
        31
    }
}

/// A year/month/day triple that names a real calendar day within the
/// supported year range.
pub open spec fn valid_ymd(y: int, m: int, d: int) -> bool {
    &&& YEAR_MIN <= y <= YEAR_MAX
    &&& 1 <= m <= 12
    &&& 1 <= d <= days_in_month(y, m)
}

impl Date {
    /// The invariant every `Date` handled by this library obeys.
    pub open spec fn wf(self) -> bool {
        valid_ymd(self.year as int, self.month as int, self.day as int)
    }
}

/// Days contributed by the months of year `y` strictly before month `m`.
pub open spec fn days_before_month(y: int, m: int) -> int
    decreases m,
{
    if m <= 1 {
        0
    } else {
        days_before_month(y, m - 1) + days_in_month(y, m - 1)
    }
}

/// Days in all years strictly before year `y`, counted from year 1
/// (so `days_before_year(1) == 0`).
pub open spec fn days_before_year(y: int) -> int {
    365 * (y - 1) + (y - 1) / 4 - (y - 1) / 100 + (y - 1) / 400
}

/// Day number of a date: the number of days since January 1 of year 1,
/// which itself has index 0.
pub open spec fn day_index(y: int, m: int, d: int) -> int {
    days_before_year(y) + days_before_month(y, m) + d - 1
}

/// Weekday of a date, with 0 = Monday .. 6 = Sunday.
/// January 1 of year 1 is a Monday in the proleptic Gregorian calendar.
pub open spec fn weekday_of(y: int, m: int, d: int) -> int {
    day_index(y, m, d) % 7
}

impl Date {
    /// Day number of this date.
    pub open spec fn index(self) -> int {
        day_index(self.year as int, self.month as int, self.day as int)
    }

    /// Weekday of this date, 0 = Monday .. 6 = Sunday.
    pub open spec fn weekday_spec(self) -> int {
        weekday_of(self.year as int, self.month as int, self.day as int)
    }
}

/// The day after `d`, rolling over month and year ends.
pub open spec fn next_date(d: Date) -> Date {
    if (d.day as int) < days_in_month(d.year as int, d.month as int) {
        Date { year: d.year, month: d.month, day: (d.day + 1) as u32 }
    } else if d.month < 12 {
        Date { year: d.year, month: (d.month + 1) as u32, day: 1u32 }
    } else {
        Date { year: (d.year + 1) as i32, month: 1u32, day: 1u32 }
    }
}

/// `a` is on or before `b` in calendar order.
pub open spec fn date_le(a: Date, b: Date) -> bool {
    ||| a.year < b.year
    ||| (a.year == b.year && a.month < b.month)
    ||| (a.year == b.year && a.month == b.month && a.day <= b.day)
}

/// How quotients by a positive divisor change when the dividend steps by one.
proof fn lemma_div_step(x: int, d: int)
    requires
        d > 0,
    ensures
        x / d == (x - 1) / d + if x % d == 0 {
            1int
        } else {
            0int
        },
{
    let q = (x - 1) / d;
    let r = (x - 1) % d;
    lemma_fundamental_div_mod(x - 1, d);
    lemma_mod_bound(x - 1, d);
    assert(x == q * d + (r + 1)) by {
        assert(x - 1 == d * q + r);
        assert(d * q == q * d) by (nonlinear_arith);
    }
    if r + 1 == d {
        assert(x == (q + 1) * d + 0) by {
            assert((q + 1) * d == q * d + d) by (nonlinear_arith);
        }
        lemma_fundamental_div_mod_converse(x, d, q + 1, 0);
    } else {
        lemma_fundamental_div_mod_converse(x, d, q, r + 1);
    }
}

/// Divisibility by 400 implies divisibility by 100 and 4; by 100 implies by 4.
proof fn lemma_leap_divisors(y: int)
    ensures
        y % 400 == 0 ==> y % 100 == 0 && y % 4 == 0,
        y % 100 == 0 ==> y % 4 == 0,
{
    if y % 400 == 0 {
        assert((y % (100int * 4)) % 100 == y % 100) by {
            lemma_mod_mod(y, 100, 4);
        }
        assert((y % (4int * 100)) % 4 == y % 4) by {
            lemma_mod_mod(y, 4, 100);
        }
    }
    if y % 100 == 0 {
        assert((y % (4int * 25)) % 4 == y % 4) by {
            lemma_mod_mod(y, 4, 25);
        }
    }
}

/// Consecutive years differ by 365 days, or 366 across a leap year.
proof fn lemma_year_length(y: int)
    ensures
        days_before_year(y + 1) - days_before_year(y) == 365 + if is_leap_year(y) {
            1int
        } else {
            0int
        },
{
    lemma_div_step(y, 4);
    lemma_div_step(y, 100);
    lemma_div_step(y, 400);
    lemma_leap_divisors(y);
}

/// The running month totals of one year, symbolically in the leap bit.
proof fn lemma_dbm_table(y: int)
    ensures
        days_before_month(y, 1) == 0,
        days_before_month(y, 2) == 31,
        days_before_month(y, 3) == 59 + leap_bit(y),
        days_before_month(y, 4) == 90 + leap_bit(y),
        days_before_month(y, 5) == 120 + leap_bit(y),
        days_before_month(y, 6) == 151 + leap_bit(y),
        days_before_month(y, 7) == 181 + leap_bit(y),
        days_before_month(y, 8) == 212 + leap_bit(y),
        days_before_month(y, 9) == 243 + leap_bit(y),
        days_before_month(y, 10) == 273 + leap_bit(y),
        days_before_month(y, 11) == 304 + leap_bit(y),
        days_before_month(y, 12) == 334 + leap_bit(y),
{
    assert(days_before_month(y, 1) == 0);
    assert(days_before_month(y, 2) == 31);
    assert(days_before_month(y, 3) == 59 + leap_bit(y));
    assert(days_before_month(y, 4) == 90 + leap_bit(y));
    assert(days_before_month(y, 5) == 120 + leap_bit(y));
    assert(days_before_month(y, 6) == 151 + leap_bit(y));
    assert(days_before_month(y, 7) == 181 + leap_bit(y));
    assert(days_before_month(y, 8) == 212 + leap_bit(y));
    assert(days_before_month(y, 9) == 243 + leap_bit(y));
    assert(days_before_month(y, 10) == 273 + leap_bit(y));
    assert(days_before_month(y, 11) == 304 + leap_bit(y));
    assert(days_before_month(y, 12) == 334 + leap_bit(y));
}

/// 1 in a leap year, else 0.
pub open spec fn leap_bit(y: int) -> int {
    if is_leap_year(y) {
        1
    } else {
        0
    }
}

/// Stepping to the next day raises the day number by exactly one, and
/// stays well formed as long as the year range is not left.
pub proof fn lemma_next_day_index(d: Date)
    requires
        d.wf(),
    ensures
        next_date(d).index() == d.index() + 1,
        d.year < YEAR_MAX || d.month < 12 || (d.day as int) < 31 ==> next_date(d).wf(),
{
    let y = d.year as int;
    let m = d.month as int;
    if (d.day as int) < days_in_month(y, m) {
    } else if d.month < 12 {
        assert(days_before_month(y, m + 1) == days_before_month(y, m) + days_in_month(y, m));
    } else {
        lemma_dbm_table(y);
        lemma_year_length(y);
        assert(days_before_month(y + 1, 1) == 0);
    }
}

/// Months with the same leap status have the same running totals.
proof fn lemma_dbm_same_leap(y1: int, y2: int, m: int)
    requires
        is_leap_year(y1) == is_leap_year(y2),
    ensures
        days_before_month(y1, m) == days_before_month(y2, m),
    decreases m,
{
    if m > 1 {
        lemma_dbm_same_leap(y1, y2, m - 1);
    }
}

/// Running month totals grow with the month.
proof fn lemma_dbm_monotonic(y: int, m1: int, m2: int)
    requires
        m1 <= m2,
    ensures
        days_before_month(y, m1) <= days_before_month(y, m2),
    decreases m2 - m1,
{
    if m1 < m2 {
        lemma_dbm_monotonic(y, m1, m2 - 1);
    }
}

/// Later years have strictly larger day counts, by at least 365 per year.
proof fn lemma_dby_monotonic(y1: int, y2: int)
    requires
        y1 <= y2,
    ensures
        days_before_year(y1) + 365 * (y2 - y1) <= days_before_year(y2),
    decreases y2 - y1,
{
    if y1 < y2 {
        lemma_dby_monotonic(y1, y2 - 1);
        lemma_year_length(y2 - 1);
    }
}

/// Day numbers inside year `y` lie in `[days_before_year(y), days_before_year(y + 1))`.
proof fn lemma_day_index_in_year(y: int, m: int, d: int)
    requires
        1 <= m <= 12,
        1 <= d <= days_in_month(y, m),
    ensures
        days_before_year(y) <= day_index(y, m, d) < days_before_year(y + 1),
{
    lemma_dbm_table(y);
    lemma_dbm_monotonic(y, 1, m);
    lemma_dbm_monotonic(y, m, 12);
    lemma_year_length(y);
    if m < 12 {
        lemma_dbm_monotonic(y, m + 1, 12);
        assert(days_before_month(y, m + 1) == days_before_month(y, m) + days_in_month(y, m));
    }
}

/// Calendar order of dates agrees with the order of their day numbers.
pub proof fn lemma_date_le_index(a: Date, b: Date)
    requires
        a.wf(),
        b.wf(),
    ensures
        date_le(a, b) <==> a.index() <= b.index(),
        a.index() == b.index() ==> a == b,
{
    let ya = a.year as int;
    let yb = b.year as int;
    lemma_day_index_in_year(ya, a.month as int, a.day as int);
    lemma_day_index_in_year(yb, b.month as int, b.day as int);
    if ya < yb {
        lemma_dby_monotonic(ya + 1, yb);
    } else if yb < ya {
        lemma_dby_monotonic(yb + 1, ya);
    } else {
        let ma = a.month as int;
        let mb = b.month as int;
        if ma < mb {
            lemma_dbm_monotonic(ya, ma + 1, mb);
            assert(days_before_month(ya, ma + 1) == days_before_month(ya, ma) + days_in_month(
                ya,
                ma,
            ));
        } else if mb < ma {
            lemma_dbm_monotonic(ya, mb + 1, ma);
            assert(days_before_month(ya, mb + 1) == days_before_month(ya, mb) + days_in_month(
                ya,
                mb,
            ));
        }
    }
}

/// Shifting a year by a multiple of 400 preserves the leap-year rule.
proof fn lemma_leap_shift_400(y: int, k: int)
    ensures
        is_leap_year(y + 400 * k) == is_leap_year(y),
{
    assert((y + 400 * k) % 4 == y % 4) by {
        assert(4 * (100 * k) + y == y + 400 * k) by (nonlinear_arith);
        lemma_mod_multiples_vanish(100 * k, y, 4);
    }
    assert((y + 400 * k) % 100 == y % 100) by {
        assert(100 * (4 * k) + y == y + 400 * k) by (nonlinear_arith);
        lemma_mod_multiples_vanish(4 * k, y, 100);
    }
    assert((y + 400 * k) % 400 == y % 400) by {
        lemma_mod_multiples_vanish(k, y, 400);
    }
}

/// Whether year `y` is a leap year.
///
/// The year is shifted into a nonnegative range by a multiple of 400 so
/// that machine remainders agree with the mathematical ones.
pub fn is_leap_year_exec(y: i32) -> (r: bool)
    requires
        YEAR_MIN <= y <= YEAR_MAX,
    ensures
        r == is_leap_year(y as int),
{
    let n: u32 = (y + 262400) as u32;
    proof {
        lemma_leap_shift_400(y as int, 656);
    }
    (n % 4 == 0 && n % 100 != 0) || n % 400 == 0
}

/// Number of days in month `m` of year `y`.
pub fn days_in_month_exec(y: i32, m: u32) -> (r: u32)
    requires
        YEAR_MIN <= y <= YEAR_MAX,
        1 <= m <= 12,
    ensures
        r == days_in_month(y as int, m as int),
{
    if m == 2 {
        if is_leap_year_exec(y) {
            29
        } else {
            28
        }
    } else if m == 4 || m == 6 || m == 9 || m == 11 {
        30
    } else {
        31
    }
}

/// Running month total, as a machine value.
fn days_before_month_exec(y: i32, m: u32) -> (r: u32)
    requires
        YEAR_MIN <= y <= YEAR_MAX,
        1 <= m <= 12,
    ensures
        r == days_before_month(y as int, m as int),
{
    proof {
        lemma_dbm_table(y as int);
    }
    let base: u32 = match m {
        1 => 0,
        2 => 31,
        3 => 59,
        4 => 90,
        5 => 120,
        6 => 151,
        7 => 181,
        8 => 212,
        9 => 243,
        10 => 273,
        11 => 304,
        _ => 334,
    };
    if m > 2 && is_leap_year_exec(y) {
        base + 1
    } else {
        base
    }
}

/// A 400-year shift moves the day number by a fixed multiple of seven,
/// so weekdays are unchanged.
proof fn lemma_day_index_shift(y: int, m: int, d: int)
    requires
        1 <= m <= 12,
    ensures
        day_index(y + 262400, m, d) == day_index(y, m, d) + 95839632,
        day_index(y + 262400, m, d) % 7 == day_index(y, m, d) % 7,
{
    lemma_leap_shift_400(y, 656);
    lemma_dbm_same_leap(y + 262400, y, m);
    assert(days_before_year(y + 262400) == days_before_year(y) + 95839632) by {
        let t = y - 1;
        assert((t + 262400) / 4 == t / 4 + 65600) by {
            lemma_fundamental_div_mod(t, 4);
            lemma_mod_bound(t, 4);
            lemma_fundamental_div_mod_converse(t + 262400, 4, t / 4 + 65600, t % 4);
        }
        assert((t + 262400) / 100 == t / 100 + 2624) by {
            lemma_fundamental_div_mod(t, 100);
            lemma_mod_bound(t, 100);
            lemma_fundamental_div_mod_converse(t + 262400, 100, t / 100 + 2624, t % 100);
        }
        assert((t + 262400) / 400 == t / 400 + 656) by {
            lemma_fundamental_div_mod(t, 400);
            lemma_mod_bound(t, 400);
            lemma_fundamental_div_mod_converse(t + 262400, 400, t / 400 + 656, t % 400);
        }
    }
    assert((7 * 13691376 + day_index(y, m, d)) % 7 == day_index(y, m, d) % 7) by {
        lemma_mod_multiples_vanish(13691376, day_index(y, m, d), 7);
    }
}

impl Date {
    /// Weekday of this date, 0 = Monday .. 6 = Sunday.
    #[verifier::rlimit(50)]
    pub fn weekday(&self) -> (w: u32)
        requires
            self.wf(),
        ensures
            w == self.weekday_spec(),
            w < 7,
    {
        proof {
            lemma_day_index_shift(self.year as int, self.month as int, self.day as int);
        }
        let yy: u64 = (self.year + 262400) as u64;
        let t: u64 = yy - 1;
        assert(t / 100 <= 365 * t + t / 4) by {
            assert(t / 100 <= t as int) by {
                vstd::arithmetic::div_mod::lemma_div_nonincreasing(t as int, 100);
            }
        }
        let before_year: u64 = 365 * t + t / 4 - t / 100 + t / 400;
        assert(before_year == days_before_year(self.year + 262400));
        let idx: u64 = before_year + days_before_month_exec(self.year, self.month) as u64
            + self.day as u64 - 1;
        assert(idx == day_index(self.year + 262400, self.month as int, self.day as int));
        (idx % 7) as u32
    }

    /// The day after this one.
    pub fn next_day(&self) -> (r: Date)
        requires
            self.wf(),
            !(self.year == YEAR_MAX && self.month == 12 && self.day == 31),
        ensures
            r == next_date(*self),
            r.wf(),
            r.index() == self.index() + 1,
    {
        proof {
            lemma_next_day_index(*self);
        }
        let dim = days_in_month_exec(self.year, self.month);
        if self.day < dim {
            Date { year: self.year, month: self.month, day: self.day + 1 }
        } else if self.month < 12 {
            Date { year: self.year, month: self.month + 1, day: 1 }
        } else {
            Date { year: self.year + 1, month: 1, day: 1 }
        }
    }
}

/// The last day of the month that `date` lies in.
pub fn last_day_of_month_for(date: Date) -> (r: Date)
    requires
        date.wf(),
    ensures
        r.year == date.year,
        r.month == date.month,
        r.day as int == days_in_month(date.year as int, date.month as int),
        r.wf(),
{
    Date { year: date.year, month: date.month, day: days_in_month_exec(date.year, date.month) }
}

/// Whether `a` is on or before `b`.
pub fn date_le_exec(a: &Date, b: &Date) -> (r: bool)
    ensures
        r == date_le(*a, *b),
{
    a.year < b.year || (a.year == b.year && (a.month < b.month || (a.month == b.month && a.day
        <= b.day)))
}


/// Stepping one day forward advances the weekday cyclically.
pub proof fn lemma_weekday_next(d: Date)
    requires
        d.wf(),
    ensures
        next_date(d).weekday_spec() == (d.weekday_spec() + 1) % 7,
{
    lemma_next_day_index(d);
    let n = next_date(d);
    assert((d.index() % 7 + 1int % 7) % 7 == (d.index() + 1) % 7) by {
        vstd::arithmetic::div_mod::lemma_add_mod_noop(d.index(), 1, 7);
    }
    assert((d.index() % 7 + 1) % 7 == (d.index() % 7 + 1int % 7) % 7);
}

/// No well-formed date lies beyond the last day of the largest year.
pub proof fn lemma_index_max(d: Date)
    requires
        d.wf(),
    ensures
        d.index() <= day_index(YEAR_MAX as int, 12, 31),
{
    let y = d.year as int;
    lemma_day_index_in_year(y, d.month as int, d.day as int);
    lemma_dby_monotonic(y + 1, YEAR_MAX + 1);
    lemma_year_length(YEAR_MAX as int);
    lemma_dbm_table(YEAR_MAX as int);
}

} // verus!

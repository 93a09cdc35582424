use vstd::prelude::*;

use crate::date::{
    date_le, date_le_exec, days_in_month, lemma_date_le_index, lemma_index_max,
    lemma_next_day_index, lemma_weekday_next, next_date, Date, YEAR_MAX,
};

verus! {

/// The weekday shown in the leftmost column of every week row.
#[derive(Clone, Copy, Debug, PartialEq, Eq, Structural)]
pub enum FirstDayOfWeek {
    Sunday,
    Monday,
}

/// One week row: seven day slots, each either a date of the month being
/// gridded or empty padding.
#[derive(Clone, Copy, Debug)]
pub struct Week {
    pub monday: Option<Date>,
    pub tuesday: Option<Date>,
    pub wednesday: Option<Date>,
    pub thursday: Option<Date>,
    pub friday: Option<Date>,
    pub saturday: Option<Date>,
    pub sunday: Option<Date>,
}

/// One month's grid: its first in-range day, the chosen week start, and
/// the week rows in order.
#[derive(Clone, Debug)]
pub struct Month {
    pub start_date: Date,
    pub first_day_of_week: FirstDayOfWeek,
    pub weeks: Vec<Week>,
}

/// The months touched by a resolved date range, in chronological order.
#[derive(Clone, Debug)]
pub struct MonthRange {
    pub months: Vec<Month>,
}

impl Week {
    /// Slot `i` in weekday order, 0 = Monday .. 6 = Sunday.
    pub open spec fn slot(self, i: int) -> Option<Date> {
        if i == 0 {
            self.monday
        } else if i == 1 {
            self.tuesday
        } else if i == 2 {
            self.wednesday
        } else if i == 3 {
            self.thursday
        } else if i == 4 {
            self.friday
        } else if i == 5 {
            self.saturday
        } else {
            self.sunday
        }
    }

    /// No slot holds a date.
    pub open spec fn is_empty_spec(self) -> bool {
        forall|i: int| 0 <= i < 7 ==> self.slot(i) is None
    }
}

/// A week with every slot empty.
pub open spec fn empty_week() -> Week {
    Week {
        monday: None,
        tuesday: None,
        wednesday: None,
        thursday: None,
        friday: None,
        saturday: None,
        sunday: None,
    }
}

/// Weekday-order slot index of the display column `c` under a first
/// day of week: the leftmost column shows Monday or Sunday.
pub open spec fn disp_offset(f: FirstDayOfWeek) -> int {
    match f {
        FirstDayOfWeek::Monday => 0,
        FirstDayOfWeek::Sunday => 6,
    }
}

/// The slot shown in display column `c` of a week row.
pub open spec fn week_col(w: Week, f: FirstDayOfWeek, c: int) -> Option<Date> {
    w.slot((c + disp_offset(f)) % 7)
}

/// Display column a weekday lands in.
pub open spec fn col_of(wd: int, f: FirstDayOfWeek) -> int {
    match f {
        FirstDayOfWeek::Monday => wd % 7,
        FirstDayOfWeek::Sunday => (wd + 1) % 7,
    }
}

/// The dates in the first `c` display columns of a week, left to right.
pub open spec fn week_days_upto(w: Week, f: FirstDayOfWeek, c: int) -> Seq<Date>
    decreases c,
{
    if c <= 0 {
        Seq::empty()
    } else {
        week_days_upto(w, f, c - 1) + match week_col(w, f, c - 1) {
            Some(d) => seq![d],
            None => Seq::<Date>::empty(),
        }
    }
}

/// The dates of a week in display order.
pub open spec fn week_days(w: Week, f: FirstDayOfWeek) -> Seq<Date> {
    week_days_upto(w, f, 7)
}

/// The dates of a sequence of weeks, concatenated in order.
pub open spec fn weeks_days(ws: Seq<Week>, f: FirstDayOfWeek) -> Seq<Date>
    decreases ws.len(),
{
    if ws.len() == 0 {
        Seq::empty()
    } else {
        weeks_days(ws.drop_last(), f) + week_days(ws.last(), f)
    }
}

/// The dates of a month grid, concatenated week by week.
pub open spec fn month_days(m: Month) -> Seq<Date> {
    weeks_days(m.weeks@, m.first_day_of_week)
}

/// `w` with the slot of weekday `i` holding `d`.
pub open spec fn set_slot(w: Week, i: int, d: Date) -> Week {
    if i == 0 {
        Week { monday: Some(d), ..w }
    } else if i == 1 {
        Week { tuesday: Some(d), ..w }
    } else if i == 2 {
        Week { wednesday: Some(d), ..w }
    } else if i == 3 {
        Week { thursday: Some(d), ..w }
    } else if i == 4 {
        Week { friday: Some(d), ..w }
    } else if i == 5 {
        Week { saturday: Some(d), ..w }
    } else {
        Week { sunday: Some(d), ..w }
    }
}

/// Whether `d` closes its week row: a Sunday under Monday-first weeks,
/// a Saturday under Sunday-first weeks.
pub open spec fn is_week_end(d: Date, f: FirstDayOfWeek) -> bool {
    match f {
        FirstDayOfWeek::Monday => d.weekday_spec() == 6,
        FirstDayOfWeek::Sunday => d.weekday_spec() == 5,
    }
}

/// One step of the grid fold: place the day in the week under
/// construction, and close the week if the day ends it.
pub open spec fn fold_step(acc: (Seq<Week>, Week), d: Date, f: FirstDayOfWeek) -> (Seq<Week>, Week) {
    let w = set_slot(acc.1, d.weekday_spec(), d);
    if is_week_end(d, f) {
        (acc.0.push(w), empty_week())
    } else {
        (acc.0, w)
    }
}

/// Fold a day sequence into completed weeks plus the week in progress.
pub open spec fn fold_days(days: Seq<Date>, f: FirstDayOfWeek) -> (Seq<Week>, Week)
    decreases days.len(),
{
    if days.len() == 0 {
        (Seq::empty(), empty_week())
    } else {
        fold_step(fold_days(days.drop_last(), f), days.last(), f)
    }
}

/// The week rows a day sequence folds into: the completed weeks, plus
/// the trailing partial week if it holds any day.
pub open spec fn spec_build_weeks(days: Seq<Date>, f: FirstDayOfWeek) -> Seq<Week> {
    let acc = fold_days(days, f);
    if acc.1.is_empty_spec() {
        acc.0
    } else {
        acc.0.push(acc.1)
    }
}

impl Week {
    /// A week with every slot empty.
    pub fn new() -> (w: Week)
        ensures
            w == empty_week(),
    {
        Week {
            monday: None,
            tuesday: None,
            wednesday: None,
            thursday: None,
            friday: None,
            saturday: None,
            sunday: None,
        }
    }

    /// Whether no slot holds a date.
    pub fn is_empty(&self) -> (r: bool)
        ensures
            r == self.is_empty_spec(),
    {
        let r = self.monday.is_none() && self.tuesday.is_none() && self.wednesday.is_none()
            && self.thursday.is_none() && self.friday.is_none() && self.saturday.is_none()
            && self.sunday.is_none();
        proof {
            if r {
                assert forall|i: int| 0 <= i < 7 implies self.slot(i) is None by {
                }
            } else {
                assert(!self.is_empty_spec()) by {
                    if self.monday is Some {
                        assert(self.slot(0) is Some);
                    } else if self.tuesday is Some {
                        assert(self.slot(1) is Some);
                    } else if self.wednesday is Some {
                        assert(self.slot(2) is Some);
                    } else if self.thursday is Some {
                        assert(self.slot(3) is Some);
                    } else if self.friday is Some {
                        assert(self.slot(4) is Some);
                    } else if self.saturday is Some {
                        assert(self.slot(5) is Some);
                    } else {
                        assert(self.slot(6) is Some);
                    }
                }
            }
        }
        r
    }
}

/// Build one month's grid from its days, in order: each day lands in
/// its weekday slot, and the week closes after the configured last day.
pub fn build_month(days: &Vec<Date>, first_day_of_week: FirstDayOfWeek) -> (m: Month)
    requires
        days@.len() >= 1,
        forall|i: int| 0 <= i < days@.len() ==> (#[trigger] days@[i]).wf(),
    ensures
        m.start_date == days@[0],
        m.first_day_of_week == first_day_of_week,
        m.weeks@ == spec_build_weeks(days@, first_day_of_week),
{
    let start_date = days[0];
    let mut weeks: Vec<Week> = Vec::new();
    let mut current_week = Week::new();
    let mut i: usize = 0;
    while i < days.len()
        invariant
            0 <= i <= days@.len(),
            forall|k: int| 0 <= k < days@.len() ==> (#[trigger] days@[k]).wf(),
            weeks@ == fold_days(days@.subrange(0, i as int), first_day_of_week).0,
            current_week == fold_days(days@.subrange(0, i as int), first_day_of_week).1,
        decreases days@.len() - i,
    {
        let day = days[i];
        let wd = day.weekday();
        match wd {
            0 => current_week.monday = Some(day),
            1 => current_week.tuesday = Some(day),
            2 => current_week.wednesday = Some(day),
            3 => current_week.thursday = Some(day),
            4 => current_week.friday = Some(day),
            5 => current_week.saturday = Some(day),
            _ => current_week.sunday = Some(day),
        }
        let last_day_of_week = match first_day_of_week {
            FirstDayOfWeek::Monday => wd == 6,
            FirstDayOfWeek::Sunday => wd == 5,
        };
        if last_day_of_week {
            weeks.push(current_week);
            current_week = Week::new();
        }
        proof {
            let pre = days@.subrange(0, i as int);
            let post = days@.subrange(0, i + 1);
            assert(post.drop_last() =~= pre);
            assert(post.last() == days@[i as int]);
        }
        i = i + 1;
    }
    proof {
        assert(days@.subrange(0, days@.len() as int) =~= days@);
    }
    if !current_week.is_empty() {
        weeks.push(current_week);
    }
    Month { start_date, first_day_of_week, weeks }
}


/// The dates from `start` through `end`, inclusive and in order; empty
/// unless the bounds are well formed and ordered.
pub open spec fn range_days(start: Date, end: Date) -> Seq<Date>
    decreases end.index() - start.index()
        via range_days_decreases
{
    if !start.wf() || !end.wf() || !date_le(start, end) {
        Seq::empty()
    } else if start == end {
        seq![start]
    } else {
        seq![start] + range_days(next_date(start), end)
    }
}

#[via_fn]
proof fn range_days_decreases(start: Date, end: Date) {
    if start.wf() && end.wf() && date_le(start, end) && start != end {
        lemma_date_le_index(start, end);
        lemma_next_day_index(start);
    }
}

/// Shape of an inclusive day range: its length is the day-number span,
/// its entries are well formed, consecutive, and bounded by the ends.
pub proof fn lemma_range_days_props(start: Date, end: Date)
    requires
        start.wf(),
        end.wf(),
        date_le(start, end),
    ensures
        range_days(start, end).len() == end.index() - start.index() + 1,
        range_days(start, end)[0] == start,
        forall|i: int|
            0 <= i < range_days(start, end).len() ==> (#[trigger] range_days(start, end)[i]).wf(),
        forall|i: int|
            0 <= i < range_days(start, end).len() ==> (#[trigger] range_days(start, end)[i]).index()
                == start.index() + i,
        forall|i: int|
            0 <= i < range_days(start, end).len() - 1 ==> range_days(start, end)[i + 1] == next_date(
                #[trigger] range_days(start, end)[i],
            ),
    decreases end.index() - start.index(),
{
    lemma_date_le_index(start, end);
    if start == end {
    } else {
        lemma_next_day_index(start);
        let n = next_date(start);
        assert(n.wf());
        lemma_date_le_index(n, end);
        lemma_range_days_props(n, end);
        let r = range_days(start, end);
        let rn = range_days(n, end);
        assert(r == seq![start] + rn);
        assert(r[0] == start);
        assert forall|i: int| 1 <= i < r.len() implies r[i] == rn[i - 1] by {}
    }
}

/// Enumerate the dates from `start` through `end`, inclusive.
pub fn date_range(start: Date, end: Date) -> (v: Vec<Date>)
    requires
        start.wf(),
        end.wf(),
    ensures
        v@ == range_days(start, end),
{
    let mut v: Vec<Date> = Vec::new();
    if !date_le_exec(&start, &end) {
        return v;
    }
    let mut cur = start;
    let mut fin = false;
    while !fin
        invariant
            end.wf(),
            fin ==> v@ == range_days(start, end),
            !fin ==> cur.wf() && date_le(cur, end) && v@ + range_days(cur, end) == range_days(
                start,
                end,
            ),
        decreases (if fin {
            0int
        } else {
            end.index() - cur.index() + 1
        }),
    {
        proof {
            lemma_date_le_index(cur, end);
        }
        v.push(cur);
        if cur.year == end.year && cur.month == end.month && cur.day == end.day {
            assert(cur == end);
            fin = true;
        } else {
            proof {
                lemma_date_le_index(cur, end);
                lemma_index_max(end);
                if cur.year == YEAR_MAX && cur.month == 12 && cur.day == 31 {
                    assert(end.index() <= cur.index());
                }
            }
            cur = cur.next_day();
        }
    }
    v
}

/// Rank of a month on the endless month line: twelve per year.
pub open spec fn month_ordinal(d: Date) -> int {
    12 * d.year + d.month - 1
}

/// Number of distinct calendar months a range touches.
pub open spec fn month_count(start: Date, end: Date) -> int {
    month_ordinal(end) - month_ordinal(start) + 1
}

/// Year and month of the `k`-th month counted from `start`'s month.
pub open spec fn month_at(start: Date, k: int) -> (int, int) {
    let mi = month_ordinal(start) + k;
    (mi / 12, mi % 12 + 1)
}

/// First in-range day of the `k`-th month group of a range.
pub open spec fn group_lo(start: Date, k: int) -> Date {
    if k == 0 {
        start
    } else {
        Date { year: month_at(start, k).0 as i32, month: month_at(start, k).1 as u32, day: 1u32 }
    }
}

/// Last in-range day of the `k`-th month group of a range.
pub open spec fn group_hi(start: Date, end: Date, k: int) -> Date {
    if k == month_count(start, end) - 1 {
        end
    } else {
        Date {
            year: month_at(start, k).0 as i32,
            month: month_at(start, k).1 as u32,
            day: days_in_month(month_at(start, k).0, month_at(start, k).1) as u32,
        }
    }
}

/// A month ordinal decomposes uniquely into year and month.
proof fn lemma_month_ordinal_inverse(y: int, m: int)
    requires
        1 <= m <= 12,
    ensures
        (12 * y + m - 1) / 12 == y,
        (12 * y + m - 1) % 12 == m - 1,
{
    vstd::arithmetic::div_mod::lemma_fundamental_div_mod_converse(12 * y + m - 1, 12, y, m - 1);
}

/// Group a date range into per-month grids: one `Month` per calendar
/// month the range touches, each gridding only the days in range.
#[verifier::rlimit(100)]
#[verifier::loop_isolation(false)]
pub fn build_month_range(start_date: Date, end_date: Date, first_day_of_week: FirstDayOfWeek) -> (r:
    MonthRange)
    requires
        start_date.wf(),
        end_date.wf(),
    ensures
        !date_le(start_date, end_date) ==> r.months@.len() == 0,
        date_le(start_date, end_date) ==> r.months@.len() == month_count(start_date, end_date),
        forall|k: int|
            0 <= k < r.months@.len() ==> (#[trigger] r.months@[k]).start_date == group_lo(
                start_date,
                k,
            ),
        forall|k: int|
            0 <= k < r.months@.len() ==> (#[trigger] r.months@[k]).first_day_of_week
                == first_day_of_week,
        forall|k: int|
            0 <= k < r.months@.len() ==> (#[trigger] r.months@[k]).weeks@ == spec_build_weeks(
                range_days(group_lo(start_date, k), group_hi(start_date, end_date, k)),
                first_day_of_week,
            ),
{
    let mut months: Vec<Month> = Vec::new();
    if !date_le_exec(&start_date, &end_date) {
        return MonthRange { months };
    }
    let mut cur = start_date;
    let mut fin = false;
    while !fin
        invariant
            start_date.wf(),
            end_date.wf(),
            date_le(start_date, end_date),
            fin ==> months@.len() == month_count(start_date, end_date),
            !fin ==> {
                &&& cur.wf()
                &&& date_le(cur, end_date)
                &&& months@.len() < month_count(start_date, end_date)
                &&& cur == group_lo(start_date, months@.len() as int)
                &&& month_ordinal(cur) == month_ordinal(start_date) + months@.len()
            },
            forall|k: int|
                0 <= k < months@.len() ==> (#[trigger] months@[k]).start_date == group_lo(
                    start_date,
                    k,
                ),
            forall|k: int|
                0 <= k < months@.len() ==> (#[trigger] months@[k]).first_day_of_week
                    == first_day_of_week,
            forall|k: int|
                0 <= k < months@.len() ==> (#[trigger] months@[k]).weeks@ == spec_build_weeks(
                    range_days(group_lo(start_date, k), group_hi(start_date, end_date, k)),
                    first_day_of_week,
                ),
        decreases (if fin {
            0int
        } else {
            month_count(start_date, end_date) - months@.len()
        }),
    {
        let ghost k = months@.len() as int;
        let is_last = cur.year == end_date.year && cur.month == end_date.month;
        proof {
            lemma_month_ordinal_inverse(cur.year as int, cur.month as int);
            lemma_month_ordinal_inverse(end_date.year as int, end_date.month as int);
            assert(is_last <==> k == month_count(start_date, end_date) - 1);
        }
        let group_end = if is_last {
            end_date
        } else {
            crate::date::last_day_of_month_for(cur)
        };
        proof {
            assert(group_end == group_hi(start_date, end_date, k));
            if !is_last {
                assert(date_le(cur, group_end));
            }
        }
        let days = date_range(cur, group_end);
        proof {
            lemma_range_days_props(cur, group_end);
        }
        let m = build_month(&days, first_day_of_week);
        months.push(m);
        if is_last {
            fin = true;
        } else {
            proof {
                lemma_month_ordinal_inverse(cur.year as int, cur.month as int);
                if cur.year == YEAR_MAX && cur.month == 12 {
                    assert(month_ordinal(end_date) <= month_ordinal(cur));
                }
            }
            let nxt = group_end.next_day();
            proof {
                let mi = month_ordinal(start_date) + k + 1;
                lemma_month_ordinal_inverse(nxt.year as int, nxt.month as int);
                assert(month_ordinal(nxt) == mi);
                assert(nxt == group_lo(start_date, k + 1));
                assert(date_le(nxt, end_date));
            }
            cur = nxt;
        }
    }
    MonthRange { months }
}


/// Weeks that agree on the first `k` columns list the same days there.
proof fn lemma_upto_eq(w1: Week, w2: Week, f: FirstDayOfWeek, k: int)
    requires
        0 <= k <= 7,
        forall|c: int| 0 <= c < k ==> week_col(w1, f, c) == week_col(w2, f, c),
    ensures
        week_days_upto(w1, f, k) == week_days_upto(w2, f, k),
    decreases k,
{
    if k > 0 {
        lemma_upto_eq(w1, w2, f, k - 1);
    }
}

/// Columns holding no date add nothing to a week's day list.
proof fn lemma_upto_to_end(w: Week, f: FirstDayOfWeek, k: int)
    requires
        0 <= k <= 7,
        forall|c: int| k <= c < 7 ==> week_col(w, f, c) is None,
    ensures
        week_days(w, f) == week_days_upto(w, f, k),
    decreases 7 - k,
{
    if k < 7 {
        lemma_upto_to_end(w, f, k + 1);
        assert(week_days_upto(w, f, k) + Seq::<Date>::empty() =~= week_days_upto(w, f, k));
    }
}

/// Placing a day in the first free column appends it to the week's
/// day list and leaves the other columns unchanged.
proof fn lemma_week_set(w: Week, f: FirstDayOfWeek, wd: int, d: Date)
    requires
        0 <= wd < 7,
        forall|cc: int| col_of(wd, f) <= cc < 7 ==> week_col(w, f, cc) is None,
    ensures
        week_days(set_slot(w, wd, d), f) == week_days(w, f).push(d),
        week_col(set_slot(w, wd, d), f, col_of(wd, f)) == Some(d),
        forall|cc: int|
            0 <= cc < 7 && cc != col_of(wd, f) ==> week_col(set_slot(w, wd, d), f, cc) == week_col(
                w,
                f,
                cc,
            ),
{
    let c = col_of(wd, f);
    let nw = set_slot(w, wd, d);
    assert((c + disp_offset(f)) % 7 == wd);
    assert(week_col(nw, f, c) == Some(d));
    assert forall|cc: int| 0 <= cc < 7 && cc != c implies week_col(nw, f, cc) == week_col(
        w,
        f,
        cc,
    ) by {
        assert((cc + disp_offset(f)) % 7 != wd);
    }
    lemma_upto_eq(w, nw, f, c);
    lemma_upto_to_end(w, f, c);
    assert forall|cc: int| c + 1 <= cc < 7 implies week_col(nw, f, cc) is None by {}
    lemma_upto_to_end(nw, f, c + 1);
    assert(week_days_upto(nw, f, c + 1) == week_days_upto(nw, f, c) + seq![d]);
    assert(week_days_upto(w, f, c) + seq![d] =~= week_days_upto(w, f, c).push(d));
}

/// Appending a completed week appends its day list.
proof fn lemma_weeks_days_push(ws: Seq<Week>, w: Week, f: FirstDayOfWeek)
    ensures
        weeks_days(ws.push(w), f) == weeks_days(ws, f) + week_days(w, f),
{
    assert(ws.push(w).drop_last() =~= ws);
    assert(ws.push(w).last() == w);
}

/// The empty week lists no days.
proof fn lemma_empty_week_days(f: FirstDayOfWeek)
    ensures
        week_days(empty_week(), f) =~= Seq::<Date>::empty(),
{
    lemma_upto_to_end(empty_week(), f, 0);
}

/// Shape of the week under construction after folding `days`: empty
/// right after a closed week, else holding its run's last day in that
/// day's column with every later column still free.
spec fn cur_shape(days: Seq<Date>, f: FirstDayOfWeek, cur: Week) -> bool {
    if days.len() == 0 || is_week_end(days.last(), f) {
        cur == empty_week()
    } else {
        let c = col_of(days.last().weekday_spec(), f);
        &&& week_col(cur, f, c) == Some(days.last())
        &&& forall|cc: int| c < cc < 7 ==> week_col(cur, f, cc) is None
    }
}

/// The grid fold loses no day and makes no empty week: the completed
/// weeks plus the week in progress always list exactly the days folded
/// so far, in order.
#[verifier::rlimit(100)]
proof fn lemma_fold_ok(days: Seq<Date>, f: FirstDayOfWeek)
    requires
        forall|i: int| 0 <= i < days.len() ==> (#[trigger] days[i]).wf(),
        forall|i: int| 0 <= i < days.len() - 1 ==> days[i + 1] == next_date(#[trigger] days[i]),
    ensures
        weeks_days(fold_days(days, f).0, f) + week_days(fold_days(days, f).1, f) == days,
        forall|w: int|
            0 <= w < fold_days(days, f).0.len() ==> week_days(
                #[trigger] fold_days(days, f).0[w],
                f,
            ).len() >= 1,
        cur_shape(days, f, fold_days(days, f).1),
        !fold_days(days, f).1.is_empty_spec() ==> week_days(fold_days(days, f).1, f).len() >= 1,
    decreases days.len(),
{
    if days.len() == 0 {
        lemma_empty_week_days(f);
        assert(Seq::<Date>::empty() + Seq::<Date>::empty() =~= Seq::<Date>::empty());
        assert(empty_week().is_empty_spec());
    } else {
        let prefix = days.drop_last();
        let d = days.last();
        assert(forall|i: int| 0 <= i < prefix.len() ==> prefix[i] == days[i]);
        lemma_fold_ok(prefix, f);
        let acc0 = fold_days(prefix, f);
        assert(fold_days(days, f) == fold_step(acc0, d, f));
        let ws0 = acc0.0;
        let cur0 = acc0.1;
        let wd = d.weekday_spec();
        assert(0 <= wd < 7) by {
            vstd::arithmetic::div_mod::lemma_mod_bound(d.index(), 7);
        }
        let c = col_of(wd, f);
        assert(0 <= c < 7) by {
            vstd::arithmetic::div_mod::lemma_mod_bound((wd + 1) as int, 7);
        }
        assert forall|cc: int| c <= cc < 7 implies week_col(cur0, f, cc) is None by {
            if prefix.len() == 0 || is_week_end(prefix.last(), f) {
                assert(cur0 == empty_week());
            } else {
                let last0 = prefix.last();
                let wd0 = last0.weekday_spec();
                assert(0 <= wd0 < 7) by {
                    vstd::arithmetic::div_mod::lemma_mod_bound(last0.index(), 7);
                }
                let c0 = col_of(wd0, f);
                assert(d == next_date(last0)) by {
                    assert(days[days.len() - 2 + 1] == next_date(days[days.len() - 2]));
                }
                assert(last0.wf()) by {
                    assert(days[days.len() - 2].wf());
                }
                lemma_weekday_next(last0);
                assert(wd == (wd0 + 1) % 7);
                assert(c0 != 6);
                assert(c == c0 + 1);
            }
        }
        lemma_week_set(cur0, f, wd, d);
        let cur1 = set_slot(cur0, wd, d);
        assert(weeks_days(ws0, f) + week_days(cur1, f) =~= days) by {
            assert(weeks_days(ws0, f) + week_days(cur0, f) == prefix);
            assert(week_days(cur1, f) == week_days(cur0, f).push(d));
            assert(prefix.push(d) =~= days);
        }
        if is_week_end(d, f) {
            assert(fold_days(days, f).0 == ws0.push(cur1) && fold_days(days, f).1
                == empty_week());
            assert(cur_shape(days, f, empty_week()));
            lemma_weeks_days_push(ws0, cur1, f);
            lemma_empty_week_days(f);
            assert(weeks_days(ws0.push(cur1), f) + week_days(empty_week(), f) =~= days);
            assert(fold_days(days, f).0 == ws0.push(cur1));
            assert(forall|w: int|
                0 <= w < ws0.len() ==> ws0.push(cur1)[w] == ws0[w]);
            assert(week_days(cur1, f).len() >= 1);
            assert(empty_week().is_empty_spec());
        } else {
            assert(fold_days(days, f).1 == cur1);
            assert(week_col(cur1, f, c) == Some(d));
            assert forall|cc: int| c < cc < 7 implies week_col(cur1, f, cc) is None by {
                assert(week_col(cur1, f, cc) == week_col(cur0, f, cc));
            }
            assert(cur_shape(days, f, cur1));
            assert(week_days(cur1, f).len() >= 1);
        }
    }
}

/// The populated slots of a month grid, read in week order and display
/// order, reproduce exactly the consecutive days it was built from,
/// with no gaps, no duplicates, and no trailing empty week.
pub proof fn lemma_build_month_days(days: Seq<Date>, f: FirstDayOfWeek)
    requires
        forall|i: int| 0 <= i < days.len() ==> (#[trigger] days[i]).wf(),
        forall|i: int| 0 <= i < days.len() - 1 ==> days[i + 1] == next_date(#[trigger] days[i]),
    ensures
        weeks_days(spec_build_weeks(days, f), f) == days,
        forall|w: int|
            0 <= w < spec_build_weeks(days, f).len() ==> week_days(
                #[trigger] spec_build_weeks(days, f)[w],
                f,
            ).len() >= 1,
{
    lemma_fold_ok(days, f);
    let acc = fold_days(days, f);
    if acc.1.is_empty_spec() {
        lemma_upto_to_end(acc.1, f, 0);
        assert(week_days(acc.1, f) =~= Seq::<Date>::empty());
        assert(weeks_days(acc.0, f) + Seq::<Date>::empty() =~= weeks_days(acc.0, f));
    } else {
        lemma_weeks_days_push(acc.0, acc.1, f);
        assert(forall|w: int|
            0 <= w < acc.0.len() ==> acc.0.push(acc.1)[w] == acc.0[w]);
    }
}

/// A month grid built from a run of consecutive days shows exactly
/// those days: reading its populated slots in order gives them back.
pub proof fn lemma_month_days(m: Month, days: Seq<Date>)
    requires
        m.weeks@ == spec_build_weeks(days, m.first_day_of_week),
        forall|i: int| 0 <= i < days.len() ==> (#[trigger] days[i]).wf(),
        forall|i: int| 0 <= i < days.len() - 1 ==> days[i + 1] == next_date(#[trigger] days[i]),
    ensures
        month_days(m) == days,
{
    lemma_build_month_days(days, m.first_day_of_week);
}


impl Week {
    /// Every date held by a slot has a day number small enough for a
    /// two-character cell.
    pub open spec fn wf_days(self) -> bool {
        forall|i: int|
            0 <= i < 7 ==> match #[trigger] self.slot(i) {
                Some(d) => d.day < 100,
                None => true,
            }
    }
}

/// Folding well-formed days yields weeks whose slots all hold
/// well-formed day numbers.
proof fn lemma_fold_days_small(days: Seq<Date>, f: FirstDayOfWeek)
    requires
        forall|i: int| 0 <= i < days.len() ==> (#[trigger] days[i]).wf(),
    ensures
        forall|k: int| 0 <= k < fold_days(days, f).0.len() ==> (#[trigger] fold_days(days, f).0[k]).wf_days(),
        fold_days(days, f).1.wf_days(),
    decreases days.len(),
{
    if days.len() == 0 {
        assert(empty_week().wf_days());
    } else {
        let prefix = days.drop_last();
        let d = days.last();
        assert(forall|i: int| 0 <= i < prefix.len() ==> prefix[i] == days[i]);
        lemma_fold_days_small(prefix, f);
        let acc0 = fold_days(prefix, f);
        assert(fold_days(days, f) == fold_step(acc0, d, f));
        let wd = d.weekday_spec();
        let cur1 = set_slot(acc0.1, wd, d);
        assert(cur1.wf_days()) by {
            assert(d.wf());
            assert(forall|i: int|
                0 <= i < 7 && cur1.slot(i) != acc0.1.slot(i) ==> cur1.slot(i) == Some(d));
        }
        if is_week_end(d, f) {
            assert(forall|k: int|
                0 <= k < acc0.0.len() ==> acc0.0.push(cur1)[k] == acc0.0[k]);
            assert(empty_week().wf_days());
        }
    }
}

/// The weeks a day run folds into all hold well-formed day numbers.
pub proof fn lemma_build_weeks_small(days: Seq<Date>, f: FirstDayOfWeek)
    requires
        forall|i: int| 0 <= i < days.len() ==> (#[trigger] days[i]).wf(),
    ensures
        forall|k: int|
            0 <= k < spec_build_weeks(days, f).len() ==> (#[trigger] spec_build_weeks(days, f)[k]).wf_days(),
{
    lemma_fold_days_small(days, f);
    let acc = fold_days(days, f);
    if !acc.1.is_empty_spec() {
        assert(forall|k: int|
            0 <= k < acc.0.len() ==> acc.0.push(acc.1)[k] == acc.0[k]);
    }
}


/// The mathematical content of a `Month`: the same fields with the
/// week list as a sequence.
pub struct MonthV {
    pub start_date: Date,
    pub first_day_of_week: FirstDayOfWeek,
    pub weeks: Seq<Week>,
}

impl View for Month {
    type V = MonthV;

    open spec fn view(&self) -> MonthV {
        MonthV {
            start_date: self.start_date,
            first_day_of_week: self.first_day_of_week,
            weeks: self.weeks@,
        }
    }
}

/// The views of a sequence of month grids.
pub open spec fn months_view(ms: Seq<Month>) -> Seq<MonthV> {
    Seq::new(ms.len(), |i: int| ms[i]@)
}

/// The month grids a resolved range yields, as mathematical values:
/// one per calendar month touched, each gridding only the in-range
/// days of its month.
pub open spec fn build_view(start: Date, end: Date, f: FirstDayOfWeek) -> Seq<MonthV> {
    if !date_le(start, end) {
        Seq::empty()
    } else {
        Seq::new(
            month_count(start, end) as nat,
            |k: int|
                MonthV {
                    start_date: group_lo(start, k),
                    first_day_of_week: f,
                    weeks: spec_build_weeks(range_days(group_lo(start, k), group_hi(start, end, k)), f),
                },
        )
    }
}


/// Every month group of an ordered range has well-formed, ordered
/// bounds.
pub proof fn lemma_group_range_wf(start: Date, end: Date, k: int)
    requires
        start.wf(),
        end.wf(),
        date_le(start, end),
        0 <= k < month_count(start, end),
    ensures
        group_lo(start, k).wf(),
        group_hi(start, end, k).wf(),
        date_le(group_lo(start, k), group_hi(start, end, k)),
{
    let mi = month_ordinal(start) + k;
    let y = mi / 12;
    let m = mi % 12 + 1;
    lemma_month_ordinal_inverse(start.year as int, start.month as int);
    lemma_month_ordinal_inverse(end.year as int, end.month as int);
    assert(month_ordinal(start) <= mi <= month_ordinal(end));
    assert(start.year as int <= y <= end.year as int) by {
        vstd::arithmetic::div_mod::lemma_div_is_ordered(month_ordinal(start), mi, 12);
        vstd::arithmetic::div_mod::lemma_div_is_ordered(mi, month_ordinal(end), 12);
    }
    assert(1 <= m <= 12) by {
        vstd::arithmetic::div_mod::lemma_mod_bound(mi, 12);
    }
    if k == month_count(start, end) - 1 {
        assert(mi == month_ordinal(end));
        assert(y == end.year as int && m == end.month as int);
    }
}


/// The dates of a sequence of month grids, month by month.
pub open spec fn view_days(ms: Seq<MonthV>) -> Seq<Date>
    decreases ms.len(),
{
    if ms.len() == 0 {
        Seq::empty()
    } else {
        weeks_days(ms.first().weeks, ms.first().first_day_of_week) + view_days(ms.drop_first())
    }
}

/// An inclusive range splits at any inner day: the days up to it,
/// then the days after it.
proof fn lemma_range_days_split(start: Date, mid: Date, end: Date)
    requires
        start.wf(),
        mid.wf(),
        end.wf(),
        date_le(start, mid),
        date_le(mid, end),
        mid != end,
    ensures
        range_days(start, end) == range_days(start, mid) + range_days(next_date(mid), end),
    decreases mid.index() - start.index(),
{
    lemma_date_le_index(start, mid);
    lemma_date_le_index(mid, end);
    lemma_date_le_index(start, end);
    if start == mid {
        assert(range_days(start, end) == seq![start] + range_days(next_date(start), end));
        assert(range_days(start, mid) == seq![start]);
    } else {
        let nxt = next_date(start);
        lemma_index_max(mid);
        lemma_next_day_index(start);
        lemma_date_le_index(nxt, mid);
        lemma_range_days_split(nxt, mid, end);
        assert(range_days(start, end) == seq![start] + range_days(nxt, end));
        assert(range_days(start, mid) == seq![start] + range_days(nxt, mid));
        assert(seq![start] + (range_days(nxt, mid) + range_days(next_date(mid), end)) =~= (
        seq![start] + range_days(nxt, mid)) + range_days(next_date(mid), end));
    }
}

/// The month grids of a resolved range, read grid by grid and slot by
/// slot, reproduce exactly the days of the range, in order, with no
/// gaps and no duplicates.
pub proof fn lemma_build_view_days(start: Date, end: Date, f: FirstDayOfWeek)
    requires
        start.wf(),
        end.wf(),
        date_le(start, end),
    ensures
        view_days(build_view(start, end, f)) == range_days(start, end),
    decreases month_count(start, end),
{
    let bv = build_view(start, end, f);
    let n = month_count(start, end);
    lemma_month_ordinal_inverse(start.year as int, start.month as int);
    lemma_month_ordinal_inverse(end.year as int, end.month as int);
    assert(n >= 1);
    lemma_group_range_wf(start, end, 0);
    let hi0 = group_hi(start, end, 0);
    lemma_range_days_props(start, hi0);
    lemma_build_month_days(range_days(start, hi0), f);
    if n == 1 {
        assert(hi0 == end);
        assert(bv.len() == 1);
        assert(bv.first().weeks == spec_build_weeks(range_days(start, end), f));
        assert(view_days(bv.drop_first()) == Seq::<Date>::empty());
        assert(weeks_days(bv.first().weeks, f) + Seq::<Date>::empty() =~= weeks_days(
            bv.first().weeks,
            f,
        ));
    } else {
        assert(hi0.year == start.year && hi0.month == start.month);
        let nxt = next_date(hi0);
        assert(hi0 != end);
        lemma_month_ordinal_inverse(hi0.year as int, hi0.month as int);
        if hi0.year == YEAR_MAX && hi0.month == 12 {
            assert(month_ordinal(end) <= month_ordinal(hi0));
        }
        lemma_next_day_index(hi0);
        assert(nxt.wf());
        assert(month_ordinal(nxt) == month_ordinal(start) + 1) by {
            lemma_month_ordinal_inverse(nxt.year as int, nxt.month as int);
        }
        assert(nxt.day == 1);
        assert(date_le(nxt, end)) by {
            lemma_month_ordinal_inverse(nxt.year as int, nxt.month as int);
            lemma_month_ordinal_inverse(end.year as int, end.month as int);
        }
        lemma_build_view_days(nxt, end, f);
        let bvn = build_view(nxt, end, f);
        assert(bvn =~= bv.drop_first()) by {
            assert(month_count(nxt, end) == n - 1);
            assert forall|k: int| 0 <= k < n - 1 implies bvn[k] == bv[k + 1] by {
                assert(month_ordinal(nxt) + k == month_ordinal(start) + (k + 1));
                if k == 0 {
                    lemma_month_ordinal_inverse(nxt.year as int, nxt.month as int);
                    assert(group_lo(nxt, 0) == nxt);
                    assert(group_lo(start, 1) == nxt);
                }
            }
        }
        assert(range_days(start, hi0) + range_days(nxt, end) == range_days(start, end)) by {
            lemma_range_days_split(start, hi0, end);
        }
        assert(view_days(bv) == weeks_days(bv.first().weeks, f) + view_days(bv.drop_first()));
        assert(weeks_days(bv.first().weeks, f) == range_days(start, hi0)) by {
            assert(bv.first().weeks == spec_build_weeks(range_days(start, hi0), f));
        }
    }
}

} // verus!

use vstd::prelude::*;
use vstd::slice::slice_subrange;
use vstd::string::StrSliceExecFns;

use crate::date::Date;

verus! {

/// Whether a year (and its quarters) is counted by the calendar or by
/// the fiscal convention, where fiscal year N spans July N-1 .. June N.
#[derive(Clone, Copy, Debug, PartialEq, Eq, Structural)]
pub enum YearStyle {
    Calendar,
    Fiscal,
}

/// One quarter of a year.
#[derive(Clone, Copy, Debug, PartialEq, Eq, Structural)]
pub enum Quarter {
    Q1,
    Q2,
    Q3,
    Q4,
}

/// A year together with the convention it is counted in.
#[derive(Clone, Copy, Debug, PartialEq, Eq, Structural)]
pub struct Year {
    pub style: YearStyle,
    pub year: i32,
}

/// A parsed date specification: a whole year, one month of a year, or
/// one quarter of a year.
#[derive(Clone, Copy, Debug, PartialEq, Eq, Structural)]
pub enum DateInput {
    Year(Year),
    YearMonth(Year, u32),
    YearQuarter(Year, Quarter),
}

/// Why a date token was rejected.
#[derive(Clone, Debug, PartialEq, Eq)]
pub enum ParseError {
    /// A six-digit token carried a month outside 1..=12.
    InvalidMonth { month: u32 },
    /// No rule matched the token, which is returned for display.
    InvalidFormat { token: String },
}

/// The outcome `parse_date_input` is specified against.
pub enum Parsed {
    Input(DateInput),
    MonthError(int),
    FormatError,
}

/// An ASCII decimal digit.
pub open spec fn is_digit(c: char) -> bool {
    '0' <= c && c <= '9'
}

/// Numeric value of a digit character.
pub open spec fn digit_val(c: char) -> int {
    c as int - '0' as int
}

/// All characters of `s` are digits.
pub open spec fn all_digits(s: Seq<char>) -> bool {
    forall|i: int| 0 <= i < s.len() ==> is_digit(s[i])
}

/// Value of a digit string read in base ten.
pub open spec fn digits_val(s: Seq<char>) -> int
    decreases s.len(),
{
    if s.len() == 0 {
        0
    } else {
        digits_val(s.drop_last()) * 10 + digit_val(s.last())
    }
}

/// The digits of an integer token, with any single leading sign removed.
pub open spec fn int_body(s: Seq<char>) -> Seq<char> {
    if s.len() >= 1 && (s[0] == '+' || s[0] == '-') {
        s.subrange(1, s.len() as int)
    } else {
        s
    }
}

/// The token starts with a minus sign.
pub open spec fn int_negative(s: Seq<char>) -> bool {
    s.len() >= 1 && s[0] == '-'
}

/// The token is an optional sign followed by at least one digit.
pub open spec fn is_int_syntax(s: Seq<char>) -> bool {
    int_body(s).len() > 0 && all_digits(int_body(s))
}

/// Signed value of an integer token with valid syntax.
pub open spec fn int_value(s: Seq<char>) -> int {
    if int_negative(s) {
        -digits_val(int_body(s))
    } else {
        digits_val(int_body(s))
    }
}

/// What `str::parse::<i32>` yields on `s`: the value, if the syntax is
/// valid and the value fits.
pub open spec fn parse_i32_spec(s: Seq<char>) -> Option<int> {
    if is_int_syntax(s) && -0x8000_0000 <= int_value(s) <= 0x7fff_ffff {
        Some(int_value(s))
    } else {
        None
    }
}

/// What `str::parse::<u32>` yields on `s`: a plus sign is accepted, a
/// minus sign is not.
pub open spec fn parse_u32_spec(s: Seq<char>) -> Option<int> {
    if is_int_syntax(s) && !int_negative(s) && int_value(s) <= 0xffff_ffff {
        Some(int_value(s))
    } else {
        None
    }
}

/// A digit string never has a negative value.
proof fn lemma_digits_val_nonneg(s: Seq<char>)
    requires
        all_digits(s),
    ensures
        digits_val(s) >= 0,
    decreases s.len(),
{
    if s.len() > 0 {
        assert(all_digits(s.drop_last())) by {
            assert(forall|i: int|
                0 <= i < s.len() - 1 ==> s.drop_last()[i] == s[i] && is_digit(s[i]));
        }
        lemma_digits_val_nonneg(s.drop_last());
    }
}

/// Extending a digit string can only grow its value.
proof fn lemma_digits_val_prefix_le(s: Seq<char>, i: int)
    requires
        all_digits(s),
        0 <= i <= s.len(),
    ensures
        digits_val(s.subrange(0, i)) <= digits_val(s),
    decreases s.len() - i,
{
    if i < s.len() {
        lemma_digits_val_prefix_le(s, i + 1);
        let a = s.subrange(0, i);
        let b = s.subrange(0, i + 1);
        assert(b.drop_last() =~= a);
        assert(all_digits(a)) by {
            assert(forall|k: int| 0 <= k < i ==> a[k] == s[k] && is_digit(s[k]));
        }
        lemma_digits_val_nonneg(a);
        assert(digits_val(b) == digits_val(a) * 10 + digit_val(s[i]));
        assert(digits_val(a) * 10 >= digits_val(a)) by (nonlinear_arith)
            requires
                digits_val(a) >= 0,
        ;
    } else {
        assert(s.subrange(0, i) =~= s);
    }
}

/// Digit test, executable form.
fn is_digit_exec(c: char) -> (r: bool)
    ensures
        r == is_digit(c),
{
    '0' <= c && c <= '9'
}

/// What `str::parse::<i32>` does, on a slice of characters.
fn parse_i32_chars(s: &[char]) -> (r: Option<i32>)
    ensures
        match r {
            Some(v) => parse_i32_spec(s@) == Some(v as int),
            None => parse_i32_spec(s@) is None,
        },
{
    let n = s.len();
    let ghost body = int_body(s@);
    let mut start: usize = 0;
    let mut neg = false;
    if n >= 1 && (s[0] == '+' || s[0] == '-') {
        start = 1;
        neg = s[0] == '-';
    }
    if start >= n {
        return None;
    }
    assert(body =~= s@.subrange(start as int, n as int));
    let mut i: usize = start;
    let mut acc: i64 = 0;
    while i < n
        invariant
            start <= i <= n,
            n == s@.len(),
            start <= 1,
            body == int_body(s@),
            body == s@.subrange(start as int, n as int),
            forall|k: int| start <= k < i ==> is_digit(s@[k]),
            0 <= acc <= 0x8000_0000,
            acc == digits_val(s@.subrange(start as int, i as int)),
        decreases n - i,
    {
        let c = s[i];
        if !is_digit_exec(c) {
            proof {
                assert(body[i - start] == s@[i as int]);
            }
            return None;
        }
        proof {
            let a = s@.subrange(start as int, i as int);
            let b = s@.subrange(start as int, i + 1);
            assert(b.drop_last() =~= a);
        }
        acc = acc * 10 + (c as u32 as i64 - 48);
        i = i + 1;
        if acc > 0x8000_0000 {
            proof {
                if all_digits(body) {
                    lemma_digits_val_prefix_le(body, i - start);
                    assert(body.subrange(0, i - start) =~= s@.subrange(start as int, i as int));
                }
            }
            return None;
        }
    }
    assert(s@.subrange(start as int, i as int) =~= body);
    assert(all_digits(body)) by {
        assert(forall|k: int| 0 <= k < body.len() ==> body[k] == s@[k + start] && is_digit(
            s@[k + start],
        ));
    }
    if neg {
        Some((-(acc)) as i32)
    } else {
        if acc > 0x7fff_ffff {
            return None;
        }
        Some(acc as i32)
    }
}

/// What `str::parse::<u32>` does, on a slice of characters.
fn parse_u32_chars(s: &[char]) -> (r: Option<u32>)
    ensures
        match r {
            Some(v) => parse_u32_spec(s@) == Some(v as int),
            None => parse_u32_spec(s@) is None,
        },
{
    let n = s.len();
    let ghost body = int_body(s@);
    let mut start: usize = 0;
    if n >= 1 && s[0] == '-' {
        return None;
    }
    if n >= 1 && s[0] == '+' {
        start = 1;
    }
    if start >= n {
        return None;
    }
    assert(body =~= s@.subrange(start as int, n as int));
    let mut i: usize = start;
    let mut acc: u64 = 0;
    while i < n
        invariant
            start <= i <= n,
            n == s@.len(),
            start <= 1,
            !int_negative(s@),
            body == int_body(s@),
            body == s@.subrange(start as int, n as int),
            forall|k: int| start <= k < i ==> is_digit(s@[k]),
            acc <= 0xffff_ffff,
            acc == digits_val(s@.subrange(start as int, i as int)),
        decreases n - i,
    {
        let c = s[i];
        if !is_digit_exec(c) {
            proof {
                assert(body[i - start] == s@[i as int]);
            }
            return None;
        }
        proof {
            let a = s@.subrange(start as int, i as int);
            let b = s@.subrange(start as int, i + 1);
            assert(b.drop_last() =~= a);
        }
        acc = acc * 10 + (c as u32 as u64 - 48);
        i = i + 1;
        if acc > 0xffff_ffff {
            proof {
                if all_digits(body) {
                    lemma_digits_val_prefix_le(body, i - start);
                    assert(body.subrange(0, i - start) =~= s@.subrange(start as int, i as int));
                }
            }
            return None;
        }
    }
    assert(s@.subrange(start as int, i as int) =~= body);
    assert(all_digits(body)) by {
        assert(forall|k: int| 0 <= k < body.len() ==> body[k] == s@[k + start] && is_digit(
            s@[k + start],
        ));
    }
    Some(acc as u32)
}


/// `c` is the quarter letter, optionally ignoring case.
pub open spec fn is_q_char(c: char, ci: bool) -> bool {
    c == 'Q' || (ci && c == 'q')
}

/// The quarter named by a single digit 1..=4.
pub open spec fn quarter_from_digit(c: char) -> Option<Quarter> {
    if c == '1' {
        Some(Quarter::Q1)
    } else if c == '2' {
        Some(Quarter::Q2)
    } else if c == '3' {
        Some(Quarter::Q3)
    } else if c == '4' {
        Some(Quarter::Q4)
    } else {
        None
    }
}

/// A bare quarter token such as `Q1` or `q3`.
pub open spec fn bare_quarter_spec(s: Seq<char>) -> Option<Quarter> {
    if s.len() == 2 && (s[0] == 'Q' || s[0] == 'q') {
        quarter_from_digit(s[1])
    } else {
        None
    }
}

/// First position at or after `i` holding `a` or `b`.
pub open spec fn find_char2(s: Seq<char>, i: int, a: char, b: char) -> Option<int>
    decreases s.len() - i,
{
    if i < 0 || i >= s.len() {
        None
    } else if s[i] == a || s[i] == b {
        Some(i)
    } else {
        find_char2(s, i + 1, a, b)
    }
}

/// First position at or after `i` where a dash is followed by the
/// quarter letter.
pub open spec fn find_dash_q(s: Seq<char>, i: int, ci: bool) -> Option<int>
    decreases s.len() - i,
{
    if i < 0 || i + 1 >= s.len() {
        None
    } else if s[i] == '-' && is_q_char(s[i + 1], ci) {
        Some(i)
    } else {
        find_dash_q(s, i + 1, ci)
    }
}

/// Split a token at a delimiter of length `l` found at `j`: the head
/// must be an integer year and the tail a single quarter digit.
pub open spec fn year_quarter_spec(s: Seq<char>, j: int, l: int, style: YearStyle) -> Option<
    DateInput,
> {
    let ypart = s.subrange(0, j);
    let qpart = s.subrange(j + l, s.len() as int);
    if parse_i32_spec(ypart) is Some && qpart.len() == 1 && quarter_from_digit(qpart[0]) is Some {
        Some(
            DateInput::YearQuarter(
                Year { style, year: parse_i32_spec(ypart)->0 as i32 },
                quarter_from_digit(qpart[0])->0,
            ),
        )
    } else {
        None
    }
}

/// The rule for tokens holding a dash directly before the quarter letter.
pub open spec fn dq_rule(s: Seq<char>, ci: bool, style: YearStyle) -> Option<DateInput> {
    match find_dash_q(s, 0, ci) {
        Some(j) => year_quarter_spec(s, j, 2, style),
        None => None,
    }
}

/// The rule for tokens holding the quarter letter without a dash.
pub open spec fn q_rule(s: Seq<char>, ci: bool, style: YearStyle) -> Option<DateInput> {
    match find_char2(
        s,
        0,
        'Q',
        if ci {
            'q'
        } else {
            'Q'
        },
    ) {
        Some(j) => year_quarter_spec(s, j, 1, style),
        None => None,
    }
}

/// The rule for `year-month` tokens split at the first dash.
pub open spec fn dash_rule(s: Seq<char>) -> Option<DateInput> {
    match find_char2(s, 0, '-', '-') {
        Some(j) => {
            let ypart = s.subrange(0, j);
            let mpart = s.subrange(j + 1, s.len() as int);
            if parse_i32_spec(ypart) is Some && parse_u32_spec(mpart) is Some && 1
                <= parse_u32_spec(mpart)->0 <= 12 {
                Some(
                    DateInput::YearMonth(
                        Year { style: YearStyle::Calendar, year: parse_i32_spec(ypart)->0 as i32 },
                        parse_u32_spec(mpart)->0 as u32,
                    ),
                )
            } else {
                None
            }
        },
        None => None,
    }
}

/// The current year under a style: the calendar year of `today`, or the
/// fiscal year it falls in (July starts the next fiscal year).
pub open spec fn current_year_spec(style: YearStyle, today: Date) -> int {
    match style {
        YearStyle::Calendar => today.year as int,
        YearStyle::Fiscal => if today.month <= 6 {
            today.year as int
        } else {
            today.year + 1
        },
    }
}

/// The token starts with the fiscal-year prefix, in any case.
pub open spec fn fy_prefix(s: Seq<char>) -> bool {
    s.len() >= 2 && (s[0] == 'F' || s[0] == 'f') && (s[1] == 'Y' || s[1] == 'y')
}

/// The rules tried on what follows the fiscal-year prefix.
pub open spec fn fy_tail_spec(rest: Seq<char>, today: Date) -> Option<DateInput> {
    if parse_i32_spec(rest) is Some {
        Some(
            DateInput::Year(Year { style: YearStyle::Fiscal, year: parse_i32_spec(rest)->0 as i32 }),
        )
    } else if bare_quarter_spec(rest) is Some {
        Some(
            DateInput::YearQuarter(
                Year {
                    style: YearStyle::Fiscal,
                    year: current_year_spec(YearStyle::Fiscal, today) as i32,
                },
                bare_quarter_spec(rest)->0,
            ),
        )
    } else if dq_rule(rest, true, YearStyle::Fiscal) is Some {
        dq_rule(rest, true, YearStyle::Fiscal)
    } else if q_rule(rest, true, YearStyle::Fiscal) is Some {
        q_rule(rest, true, YearStyle::Fiscal)
    } else {
        None
    }
}

/// The rule for tokens that parse whole as an integer: two or four
/// digits name a year, six digits split as year then month.
pub open spec fn int_token_spec(s: Seq<char>) -> Parsed {
    if s.len() == 2 || s.len() == 4 {
        Parsed::Input(
            DateInput::Year(Year { style: YearStyle::Calendar, year: parse_i32_spec(s)->0 as i32 }),
        )
    } else if s.len() == 6 {
        let ypart = s.subrange(0, 4);
        let mpart = s.subrange(4, 6);
        if parse_i32_spec(ypart) is Some && parse_u32_spec(mpart) is Some {
            if 1 <= parse_u32_spec(mpart)->0 <= 12 {
                Parsed::Input(
                    DateInput::YearMonth(
                        Year { style: YearStyle::Calendar, year: parse_i32_spec(ypart)->0 as i32 },
                        parse_u32_spec(mpart)->0 as u32,
                    ),
                )
            } else {
                Parsed::MonthError(parse_u32_spec(mpart)->0)
            }
        } else {
            Parsed::FormatError
        }
    } else {
        Parsed::FormatError
    }
}

/// What `parse_date_input` yields on token `s`, seen from `today`:
/// a priority-ordered cascade in which the first matching rule wins.
pub open spec fn parse_spec(s: Seq<char>, today: Date) -> Parsed {
    if bare_quarter_spec(s) is Some {
        Parsed::Input(
            DateInput::YearQuarter(
                Year { style: YearStyle::Calendar, year: today.year },
                bare_quarter_spec(s)->0,
            ),
        )
    } else if fy_prefix(s) && fy_tail_spec(s.subrange(2, s.len() as int), today) is Some {
        Parsed::Input(fy_tail_spec(s.subrange(2, s.len() as int), today)->0)
    } else if parse_i32_spec(s) is Some {
        int_token_spec(s)
    } else if dq_rule(s, false, YearStyle::Calendar) is Some {
        Parsed::Input(dq_rule(s, false, YearStyle::Calendar)->0)
    } else if q_rule(s, false, YearStyle::Calendar) is Some {
        Parsed::Input(q_rule(s, false, YearStyle::Calendar)->0)
    } else if dash_rule(s) is Some {
        Parsed::Input(dash_rule(s)->0)
    } else {
        Parsed::FormatError
    }
}


/// The characters of a string, as a vector.
pub(crate) fn chars_of(s: &str) -> (v: Vec<char>)
    ensures
        v@ == s@,
{
    let n = s.unicode_len();
    let mut v: Vec<char> = Vec::new();
    let mut i: usize = 0;
    while i < n
        invariant
            i <= n,
            n == s@.len(),
            v@ == s@.subrange(0, i as int),
        decreases n - i,
    {
        let c = s.get_char(i);
        v.push(c);
        proof {
            assert(s@.subrange(0, i + 1) =~= s@.subrange(0, i as int).push(s@[i as int]));
        }
        i = i + 1;
    }
    proof {
        assert(s@.subrange(0, n as int) =~= s@);
    }
    v
}

/// Quarter named by a digit, executable form.
fn quarter_digit(c: char) -> (r: Option<Quarter>)
    ensures
        r == quarter_from_digit(c),
{
    match c {
        '1' => Some(Quarter::Q1),
        '2' => Some(Quarter::Q2),
        '3' => Some(Quarter::Q3),
        '4' => Some(Quarter::Q4),
        _ => None,
    }
}

/// Bare quarter token, executable form.
fn bare_quarter(s: &[char]) -> (r: Option<Quarter>)
    ensures
        r == bare_quarter_spec(s@),
{
    if s.len() == 2 && (s[0] == 'Q' || s[0] == 'q') {
        quarter_digit(s[1])
    } else {
        None
    }
}

/// First position holding `a` or `b`, executable form.
fn find_char2_exec(s: &[char], a: char, b: char) -> (r: Option<usize>)
    ensures
        match r {
            Some(j) => find_char2(s@, 0, a, b) == Some(j as int) && j < s@.len(),
            None => find_char2(s@, 0, a, b) is None,
        },
{
    let n = s.len();
    let mut i: usize = 0;
    while i < n
        invariant
            i <= n,
            n == s@.len(),
            find_char2(s@, 0, a, b) == find_char2(s@, i as int, a, b),
        decreases n - i,
    {
        if s[i] == a || s[i] == b {
            return Some(i);
        }
        i = i + 1;
    }
    None
}

/// First dash-then-quarter-letter position, executable form.
fn find_dash_q_exec(s: &[char], ci: bool) -> (r: Option<usize>)
    ensures
        match r {
            Some(j) => find_dash_q(s@, 0, ci) == Some(j as int) && j + 2 <= s@.len(),
            None => find_dash_q(s@, 0, ci) is None,
        },
{
    let n = s.len();
    if n == 0 {
        return None;
    }
    let mut i: usize = 0;
    while i < n - 1
        invariant
            i <= n,
            1 <= n == s@.len(),
            find_dash_q(s@, 0, ci) == find_dash_q(s@, i as int, ci),
        decreases n - i,
    {
        if s[i] == '-' && (s[i + 1] == 'Q' || (ci && s[i + 1] == 'q')) {
            return Some(i);
        }
        i = i + 1;
    }
    None
}

/// Split a token at a delimiter of length `l` found at position `j` and
/// read it as year and quarter.
fn parse_year_quarter(s: &[char], j: usize, l: usize, style: YearStyle) -> (r: Option<DateInput>)
    requires
        j + l <= s@.len(),
    ensures
        r == year_quarter_spec(s@, j as int, l as int, style),
{
    let n = s.len();
    let ypart = slice_subrange(s, 0, j);
    let y = parse_i32_chars(ypart);
    if n - j - l == 1 {
        let q = quarter_digit(s[j + l]);
        proof {
            assert(s@.subrange(j + l, s@.len() as int).len() == 1);
            assert(s@.subrange(j + l, s@.len() as int)[0] == s@[j + l]);
        }
        match (y, q) {
            (Some(yv), Some(qv)) => Some(DateInput::YearQuarter(Year { style, year: yv }, qv)),
            _ => None,
        }
    } else {
        None
    }
}

/// The current year under a style, as seen from `today`.
pub fn determine_current_year(style: YearStyle, today: Date) -> (y: i32)
    requires
        today.wf(),
    ensures
        y as int == current_year_spec(style, today),
{
    match style {
        YearStyle::Calendar => today.year,
        YearStyle::Fiscal => if today.month <= 6 {
            today.year
        } else {
            today.year + 1
        },
    }
}

/// Read a bare quarter token under a style, with the year taken from
/// `today`.
pub fn parse_bare_quarter(s: &str, style: YearStyle, today: Date) -> (r: Option<DateInput>)
    requires
        today.wf(),
    ensures
        r == match bare_quarter_spec(s@) {
            Some(q) => Some(
                DateInput::YearQuarter(
                    Year { style, year: current_year_spec(style, today) as i32 },
                    q,
                ),
            ),
            None => None,
        },
{
    let v = chars_of(s);
    match bare_quarter(v.as_slice()) {
        Some(q) => Some(
            DateInput::YearQuarter(Year { style, year: determine_current_year(style, today) }, q),
        ),
        None => None,
    }
}

/// Parse a free-form date token: bare quarters, fiscal-year forms,
/// plain year / year-month digit runs, and year-quarter or year-month
/// forms split at a delimiter, in that order of priority.
pub fn parse_date_input(s: &str, today: Date) -> (r: Result<DateInput, ParseError>)
    requires
        today.wf(),
    ensures
        match r {
            Ok(d) => parse_spec(s@, today) == Parsed::Input(d),
            Err(e) => match e {
                ParseError::InvalidMonth { month } => parse_spec(s@, today) == Parsed::MonthError(
                    month as int,
                ),
                ParseError::InvalidFormat { token } => parse_spec(s@, today) is FormatError
                    && token@ == s@,
            },
        },
{
    let v = chars_of(s);
    let n = v.len();
    let sl = v.as_slice();
    if let Some(q) = bare_quarter(sl) {
        return Ok(
            DateInput::YearQuarter(Year { style: YearStyle::Calendar, year: today.year }, q),
        );
    }
    if n >= 2 && (sl[0] == 'F' || sl[0] == 'f') && (sl[1] == 'Y' || sl[1] == 'y') {
        let rest = slice_subrange(sl, 2, n);
        if let Some(y) = parse_i32_chars(rest) {
            return Ok(DateInput::Year(Year { style: YearStyle::Fiscal, year: y }));
        }
        if let Some(q) = bare_quarter(rest) {
            let year = determine_current_year(YearStyle::Fiscal, today);
            return Ok(DateInput::YearQuarter(Year { style: YearStyle::Fiscal, year }, q));
        }
        if let Some(j) = find_dash_q_exec(rest, true) {
            if let Some(d) = parse_year_quarter(rest, j, 2, YearStyle::Fiscal) {
                return Ok(d);
            }
        }
        if let Some(j) = find_char2_exec(rest, 'Q', 'q') {
            if let Some(d) = parse_year_quarter(rest, j, 1, YearStyle::Fiscal) {
                return Ok(d);
            }
        }
    }
    if let Some(y) = parse_i32_chars(sl) {
        if n == 2 || n == 4 {
            return Ok(DateInput::Year(Year { style: YearStyle::Calendar, year: y }));
        }
        if n == 6 {
            let yp = parse_i32_chars(slice_subrange(sl, 0, 4));
            let mp = parse_u32_chars(slice_subrange(sl, 4, 6));
            if let (Some(yy), Some(mm)) = (yp, mp) {
                if 1 <= mm && mm <= 12 {
                    return Ok(
                        DateInput::YearMonth(Year { style: YearStyle::Calendar, year: yy }, mm),
                    );
                }
                return Err(ParseError::InvalidMonth { month: mm });
            }
        }
        return Err(ParseError::InvalidFormat { token: s.to_owned() });
    }
    if let Some(j) = find_dash_q_exec(sl, false) {
        if let Some(d) = parse_year_quarter(sl, j, 2, YearStyle::Calendar) {
            return Ok(d);
        }
    }
    if let Some(j) = find_char2_exec(sl, 'Q', 'Q') {
        if let Some(d) = parse_year_quarter(sl, j, 1, YearStyle::Calendar) {
            return Ok(d);
        }
    }
    if let Some(j) = find_char2_exec(sl, '-', '-') {
        let yp = parse_i32_chars(slice_subrange(sl, 0, j));
        let mp = parse_u32_chars(slice_subrange(sl, j + 1, n));
        if let (Some(yy), Some(mm)) = (yp, mp) {
            if 1 <= mm && mm <= 12 {
                return Ok(DateInput::YearMonth(Year { style: YearStyle::Calendar, year: yy }, mm));
            }
        }
    }
    Err(ParseError::InvalidFormat { token: s.to_owned() })
}


/// Century of a year, rounding the quotient toward zero as machine
/// division does.
pub open spec fn century_of(y: int) -> int {
    if y >= 0 {
        y / 100
    } else {
        -((-y) / 100)
    }
}

/// A year in 0..=99 is moved into the century of `current`; other
/// years pass through unchanged.
pub open spec fn normalize_short_year_spec(current: Date, year: int) -> int {
    if 0 <= year <= 99 {
        century_of(current.year as int) * 100 + year
    } else {
        year
    }
}

/// Combine a two-digit year with the century of `current_date`.
pub fn normalize_short_year(current_date: Date, year: i32) -> (r: i32)
    requires
        current_date.wf(),
    ensures
        r as int == normalize_short_year_spec(current_date, year as int),
{
    if 0 <= year && year <= 99 {
        let cy = current_date.year;
        let century: i32 = if cy >= 0 {
            ((cy as u32) / 100) as i32
        } else {
            -((((-(cy as i64)) as u64) / 100) as i32)
        };
        century * 100 + year
    } else {
        year
    }
}

/// `normalize_short_year` applied to the year inside a specification.
pub open spec fn normalize_date_input_spec(current: Date, date_input: Option<DateInput>) -> Option<
    DateInput,
> {
    match date_input {
        None => None,
        Some(DateInput::Year(y)) => Some(
            DateInput::Year(
                Year {
                    style: y.style,
                    year: normalize_short_year_spec(current, y.year as int) as i32,
                },
            ),
        ),
        Some(DateInput::YearMonth(y, m)) => Some(
            DateInput::YearMonth(
                Year {
                    style: y.style,
                    year: normalize_short_year_spec(current, y.year as int) as i32,
                },
                m,
            ),
        ),
        Some(DateInput::YearQuarter(y, q)) => Some(
            DateInput::YearQuarter(
                Year {
                    style: y.style,
                    year: normalize_short_year_spec(current, y.year as int) as i32,
                },
                q,
            ),
        ),
    }
}

/// Apply two-digit-year normalization to whichever variant is present.
pub fn normalize_date_input_for_two_digit_year(current_date: Date, date_input: Option<DateInput>)
    -> (r: Option<DateInput>)
    requires
        current_date.wf(),
    ensures
        r == normalize_date_input_spec(current_date, date_input),
{
    if let Some(date_input) = date_input {
        match date_input {
            DateInput::Year(year) => {
                let updated_year = normalize_short_year(current_date, year.year);
                Some(DateInput::Year(Year { style: year.style, year: updated_year }))
            },
            DateInput::YearMonth(year, month) => {
                let updated_year = normalize_short_year(current_date, year.year);
                Some(DateInput::YearMonth(Year { style: year.style, year: updated_year }, month))
            },
            DateInput::YearQuarter(year, quarter) => {
                let updated_year = normalize_short_year(current_date, year.year);
                Some(
                    DateInput::YearQuarter(Year { style: year.style, year: updated_year }, quarter),
                )
            },
        }
    } else {
        None
    }
}

/// Ten to the power `n`.
spec fn pow10(n: nat) -> int
    decreases n,
{
    if n == 0 {
        1
    } else {
        10 * pow10((n - 1) as nat)
    }
}

/// A digit string of length n has a value below ten to the n.
proof fn lemma_digits_val_bound(s: Seq<char>)
    requires
        all_digits(s),
    ensures
        0 <= digits_val(s) < pow10(s.len()),
    decreases s.len(),
{
    if s.len() == 0 {
    } else {
        assert(all_digits(s.drop_last())) by {
            assert(forall|i: int|
                0 <= i < s.len() - 1 ==> s.drop_last()[i] == s[i] && is_digit(s[i]));
        }
        lemma_digits_val_bound(s.drop_last());
        assert(digits_val(s.drop_last()) * 10 <= (pow10((s.len() - 1) as nat) - 1) * 10) by (nonlinear_arith)
            requires
                digits_val(s.drop_last()) <= pow10((s.len() - 1) as nat) - 1,
        ;
    }
}

/// Every four-digit token names that year in calendar style.
///
/// Law: for all four-digit numeral strings `s`, parsing yields the
/// calendar year whose number the digits spell.
pub proof fn lemma_parse_four_digit_year(s: Seq<char>, today: Date)
    requires
        s.len() == 4,
        all_digits(s),
    ensures
        parse_spec(s, today) == Parsed::Input(
            DateInput::Year(Year { style: YearStyle::Calendar, year: digits_val(s) as i32 }),
        ),
{
    lemma_digits_val_bound(s);
    assert(pow10(4) == 10000) by {
        assert(pow10(0) == 1);
        assert(pow10(1) == 10);
        assert(pow10(2) == 100);
        assert(pow10(3) == 1000);
        assert(pow10(4) == 10000);
    }
    assert(is_digit(s[0]));
    assert(int_body(s) == s);
    assert(parse_i32_spec(s) == Some(digits_val(s)));
}

/// Every fiscal-prefixed four-digit token names that fiscal year.
///
/// Law: for all tokens of the fiscal prefix followed by four digits,
/// parsing yields the fiscal year whose number the digits spell.
pub proof fn lemma_parse_fiscal_four_digit_year(s: Seq<char>, today: Date)
    requires
        s.len() == 6,
        s[0] == 'F' || s[0] == 'f',
        s[1] == 'Y' || s[1] == 'y',
        all_digits(s.subrange(2, 6)),
    ensures
        parse_spec(s, today) == Parsed::Input(
            DateInput::Year(
                Year { style: YearStyle::Fiscal, year: digits_val(s.subrange(2, 6)) as i32 },
            ),
        ),
{
    let rest = s.subrange(2, 6);
    lemma_digits_val_bound(rest);
    assert(pow10(4) == 10000) by {
        assert(pow10(0) == 1);
        assert(pow10(1) == 10);
        assert(pow10(2) == 100);
        assert(pow10(3) == 1000);
        assert(pow10(4) == 10000);
    }
    assert(is_digit(rest[0]));
    assert(int_body(rest) == rest);
    assert(parse_i32_spec(rest) == Some(digits_val(rest)));
    assert(bare_quarter_spec(s) is None);
    assert(s.subrange(2, s.len() as int) == rest);
}

/// A bare first-quarter token, in either letter case, resolves to the
/// first quarter of the current calendar year.
///
/// Law: `Q1` and `q1` both parse to the year of `today` in calendar
/// style with quarter one.
pub proof fn lemma_parse_bare_quarter_current_year(s: Seq<char>, today: Date)
    requires
        s == "Q1"@ || s == "q1"@,
    ensures
        parse_spec(s, today) == Parsed::Input(
            DateInput::YearQuarter(
                Year { style: YearStyle::Calendar, year: today.year },
                Quarter::Q1,
            ),
        ),
{
    reveal_strlit("Q1");
    reveal_strlit("q1");
}

} // verus!

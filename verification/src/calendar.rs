//! The calendar grid: which cell of the month grid is padding, which sits
//! in a weekend column, and which takes assignments.
//!
//! A month is laid out as `spec_rows` weeks of seven columns, Sunday
//! first.  Cells before day one and after month end are padding; columns
//! zero and six are the weekend columns and never take assignments; every
//! other in-month cell is assignable.

use vstd::arithmetic::div_mod::{lemma_fundamental_div_mod, lemma_mod_division_less_than_divisor};
use vstd::prelude::*;

verus! {

/// A calendar month, identified by year and one-based month number.
#[derive(Debug, Clone, Copy, PartialEq, Eq, Structural)]
pub struct MonthDate {
    pub year: i32,
    pub month: u32,
}

impl MonthDate {
    /// The range of months the scheduler accepts.
    pub open spec fn wf(self) -> bool {
        &&& 1 <= self.month <= 12
        &&& 0 <= self.year <= 9999
    }
}

/// Whether a year is a leap year of the proleptic Gregorian calendar.
pub open spec fn spec_is_leap_year(year: int) -> bool {
    (year % 4 == 0 && year % 100 != 0) || year % 400 == 0
}

/// The number of days in a month of the proleptic Gregorian calendar.
pub open spec fn spec_days_in_month(year: int, month: int) -> int {
    if month == 2 {
        if spec_is_leap_year(year) {
            29
        } else {
            28
        }
    } else if month == 4 || month == 6 || month == 9 || month == 11 {
        30
    } else {
        31
    }
}

/// The day-of-week ordinal (Sunday = 0) of day one of the given month of
/// the proleptic Gregorian calendar.  The value is a fixed function of
/// year and month; `month_start_weekday` computes it.
pub uninterp spec fn day1_weekday_ordinal(year: int, month: int) -> int;

/// Relies on chrono's `NaiveDate::from_ymd_opt` and
/// `Weekday::num_days_from_sunday`: the weekday of day one of a valid
/// month, as an ordinal counted from Sunday, which is always below seven.
#[verifier::external_body]
pub fn month_start_weekday(year: i32, month: u32) -> (r: u32)
    requires
        1 <= month <= 12,
        0 <= year <= 9999,
    ensures
        r == day1_weekday_ordinal(year as int, month as int),
        r < 7,
{
    let first = chrono::NaiveDate::from_ymd_opt(year, month, 1).unwrap();
    chrono::Datelike::weekday(&first).num_days_from_sunday()
}

/// Relies on chrono's `Datelike::num_days_in_month`: the day count of a
/// month of the proleptic Gregorian calendar, 28 through 31 with the
/// documented leap-year rule for February.
#[verifier::external_body]
pub fn month_day_count(year: i32, month: u32) -> (r: u32)
    requires
        1 <= month <= 12,
        0 <= year <= 9999,
    ensures
        r == spec_days_in_month(year as int, month as int),
{
    let first = chrono::NaiveDate::from_ymd_opt(year, month, 1).unwrap();
    chrono::Datelike::num_days_in_month(&first) as u32
}

/// How many week rows the grid of a month has: at least five, six when
/// the month spills past the thirty-fifth cell.
pub open spec fn spec_rows(start_col: int, num_days: int) -> int {
    let weeks = (start_col + num_days + 6) / 7;
    if weeks < 5 {
        5
    } else {
        weeks
    }
}

/// Whether cell (`w`, `c`) lies before day one or after month end.
pub open spec fn is_padding(start_col: int, num_days: int, w: int, c: int) -> bool {
    w * 7 + c < start_col || w * 7 + c >= start_col + num_days
}

/// Whether column `c` is one of the two weekend columns.
pub open spec fn is_weekend(c: int) -> bool {
    c == 0 || c == 6
}

/// Whether cell (`w`, `c`) takes assignments: in the month and not in a
/// weekend column.
pub open spec fn is_assignable(start_col: int, num_days: int, w: int, c: int) -> bool {
    !is_padding(start_col, num_days, w, c) && !is_weekend(c)
}

/// The shape every assignment matrix of a month has: `spec_rows` weeks of
/// seven cells, with every padding and weekend cell empty.
pub open spec fn shape_ok(m: Vec<Vec<Vec<String>>>, start_col: int, num_days: int) -> bool {
    &&& m@.len() == spec_rows(start_col, num_days)
    &&& forall|w: int| 0 <= w < m@.len() ==> (#[trigger] m@[w])@.len() == 7
    &&& forall|w: int, c: int|
        0 <= w < m@.len() && 0 <= c < 7 && !is_assignable(start_col, num_days, w, c)
            ==> (#[trigger] m@[w]@[c])@.len() == 0
}

/// The grid of a month always covers the whole month: the rows hold at
/// least `start_col + num_days` cells, and there are five or six of them.
pub proof fn lemma_rows_cover(start_col: int, num_days: int)
    requires
        0 <= start_col < 7,
        1 <= num_days <= 31,
    ensures
        spec_rows(start_col, num_days) * 7 >= start_col + num_days,
        5 <= spec_rows(start_col, num_days) <= 6,
{
    let cells = start_col + num_days;
    lemma_fundamental_div_mod(cells + 6, 7);
    lemma_mod_division_less_than_divisor(cells + 6, 7);
}

/// How many of the cells with linear index below `t` (the cell (`w`,
/// `c`) has linear index `w * 7 + c`) are in-month cells, i.e. not
/// padding.
pub open spec fn count_emitted_upto(start_col: int, num_days: int, t: int) -> int
    decreases t,
{
    if t <= 0 {
        0
    } else {
        count_emitted_upto(start_col, num_days, t - 1) + if start_col <= t - 1
            < start_col + num_days {
            1int
        } else {
            0int
        }
    }
}

proof fn lemma_count_emitted_closed(start_col: int, num_days: int, t: int)
    requires
        0 <= start_col,
        1 <= num_days,
        0 <= t,
    ensures
        count_emitted_upto(start_col, num_days, t) == if t <= start_col {
            0
        } else if t >= start_col + num_days {
            num_days
        } else {
            t - start_col
        },
    decreases t,
{
    if t > 0 {
        lemma_count_emitted_closed(start_col, num_days, t - 1);
    }
}

/// The sum over all cells of the grid of the days emitted — every cell
/// that is not padding stands for exactly one calendar day — equals the
/// number of days in the month.
pub proof fn lemma_emitted_day_count(start_col: int, num_days: int)
    requires
        0 <= start_col < 7,
        1 <= num_days <= 31,
    ensures
        count_emitted_upto(start_col, num_days, spec_rows(start_col, num_days) * 7) == num_days,
{
    lemma_rows_cover(start_col, num_days);
    lemma_count_emitted_closed(start_col, num_days, spec_rows(start_col, num_days) * 7);
}

/// Two matrices of the same month have identical shape: the same number
/// of weeks, seven cells in every week, and the same forcibly empty
/// padding and weekend cells.  Only the labels inside assignable cells
/// may differ between two runs.
pub proof fn lemma_shape_deterministic(
    m1: Vec<Vec<Vec<String>>>,
    m2: Vec<Vec<Vec<String>>>,
    start_col: int,
    num_days: int,
)
    requires
        shape_ok(m1, start_col, num_days),
        shape_ok(m2, start_col, num_days),
    ensures
        m1@.len() == m2@.len(),
        forall|w: int| 0 <= w < m1@.len() ==> (#[trigger] m1@[w])@.len() == (#[trigger] m2@[w])@.len(),
        forall|w: int, c: int|
            0 <= w < m1@.len() && 0 <= c < 7 && !is_assignable(start_col, num_days, w, c)
                ==> (#[trigger] m1@[w]@[c])@.len() == 0 && (#[trigger] m2@[w]@[c])@.len() == 0,
{
}

} // verus!

//! Calendar dates and day-stepping arithmetic.
//!
//! Dates are proleptic Gregorian year-month-day triples.  The forecast
//! engine advances dates by a fixed number of calendar days and jumps to
//! the first day of the following month; both operations are specified
//! against the mathematical successor function [`next_day_spec`].

use vstd::prelude::*;

verus! {

/// Largest year a [`Date`] may carry; keeps dates within the four-digit
/// `YYYY-MM-DD` form that the persistence format uses.
pub const MAX_YEAR: u32 = 9999;

/// A calendar date.
#[derive(Clone, Copy, PartialEq, Eq, Structural, Debug)]
pub struct Date {
    pub year: u32,
    pub month: u32,
    pub day: u32,
}

/// Gregorian leap-year rule.
pub open spec fn is_leap_year(y: int) -> bool {
    (y % 4 == 0 && y % 100 != 0) || y % 400 == 0
}

/// Number of days in month `m` of year `y` (months counted from 1).
pub open spec fn days_in_month(y: int, m: int) -> int {
    if m == 2 {
        if is_leap_year(y) {
            29
        } else {
            28
        }
    } else if m == 4 || m == 6 || m == 9 || m == 11 {
        30
    } else {
        31
    }
}

/// A real calendar date within the supported year range.
pub open spec fn date_ok(d: Date) -> bool {
    &&& 1 <= d.year <= MAX_YEAR
    &&& 1 <= d.month <= 12
    &&& 1 <= d.day <= days_in_month(d.year as int, d.month as int)
}

/// The day after `d`.
pub open spec fn next_day_spec(d: Date) -> Date {
    if d.day < days_in_month(d.year as int, d.month as int) {
        Date { year: d.year, month: d.month, day: (d.day + 1) as u32 }
    } else if d.month < 12 {
        Date { year: d.year, month: (d.month + 1) as u32, day: 1 }
    } else {
        Date { year: (d.year + 1) as u32, month: 1, day: 1 }
    }
}

/// The date `n` days after `d`.
pub open spec fn plus_days(d: Date, n: nat) -> Date
    decreases n,
{
    if n == 0 {
        d
    } else {
        next_day_spec(plus_days(d, (n - 1) as nat))
    }
}

/// Strict chronological order on dates.
pub open spec fn date_before(a: Date, b: Date) -> bool {
    ||| a.year < b.year
    ||| (a.year == b.year && a.month < b.month)
    ||| (a.year == b.year && a.month == b.month && a.day < b.day)
}

/// The first day of the month after the month containing `d`.
pub open spec fn next_month_first(d: Date) -> Date {
    if d.month < 12 {
        Date { year: d.year, month: (d.month + 1) as u32, day: 1 }
    } else {
        Date { year: (d.year + 1) as u32, month: 1, day: 1 }
    }
}

/// Stepping one day preserves validity and raises the year by at most one.
pub proof fn lemma_next_day_ok(d: Date)
    requires
        date_ok(d),
        d.year < MAX_YEAR,
    ensures
        date_ok(next_day_spec(d)),
        next_day_spec(d).year <= d.year + 1,
        date_before(d, next_day_spec(d)),
{
}

/// Stepping `n` days preserves validity and raises the year by at most `n`.
pub proof fn lemma_plus_days_ok(d: Date, n: nat)
    requires
        date_ok(d),
        d.year + n <= MAX_YEAR,
    ensures
        date_ok(plus_days(d, n)),
        plus_days(d, n).year <= d.year + n,
    decreases n,
{
    if n > 0 {
        lemma_plus_days_ok(d, (n - 1) as nat);
        lemma_next_day_ok(plus_days(d, (n - 1) as nat));
    }
}

/// Day-stepping composes additively.
pub proof fn lemma_plus_days_add(d: Date, a: nat, b: nat)
    ensures
        plus_days(plus_days(d, a), b) == plus_days(d, a + b),
    decreases b,
{
    if b > 0 {
        lemma_plus_days_add(d, a, (b - 1) as nat);
    }
}

/// Number of days in month `m` of year `y`.
pub fn month_length(y: u32, m: u32) -> (r: u32)
    requires
        1 <= m <= 12,
    ensures
        r == days_in_month(y as int, m as int),
{
    if m == 2 {
        if (y % 4 == 0 && y % 100 != 0) || y % 400 == 0 {
            29
        } else {
            28
        }
    } else if m == 4 || m == 6 || m == 9 || m == 11 {
        30
    } else {
        31
    }
}

/// The day after `d`.
pub fn next_day(d: Date) -> (r: Date)
    requires
        date_ok(d),
        d.year < MAX_YEAR,
    ensures
        r == next_day_spec(d),
        date_ok(r),
{
    proof {
        lemma_next_day_ok(d);
    }
    let ml = month_length(d.year, d.month);
    if d.day < ml {
        Date { year: d.year, month: d.month, day: d.day + 1 }
    } else if d.month < 12 {
        Date { year: d.year, month: d.month + 1, day: 1 }
    } else {
        Date { year: d.year + 1, month: 1, day: 1 }
    }
}

/// The date `n` days after `d`.
pub fn add_days(d: Date, n: u64) -> (r: Date)
    requires
        date_ok(d),
        d.year + n <= MAX_YEAR,
    ensures
        r == plus_days(d, n as nat),
        date_ok(r),
{
    let mut cur = d;
    let mut j: u64 = 0;
    while j < n
        invariant
            j <= n,
            date_ok(d),
            d.year + n <= MAX_YEAR,
            cur == plus_days(d, j as nat),
            date_ok(cur),
            cur.year <= d.year + j,
        decreases n - j,
    {
        proof {
            lemma_next_day_ok(cur);
        }
        cur = next_day(cur);
        j = j + 1;
    }
    cur
}

/// Whether `d` is a real calendar date within the supported range.
pub fn date_valid(d: Date) -> (r: bool)
    ensures
        r == date_ok(d),
{
    if 1 <= d.year && d.year <= MAX_YEAR && 1 <= d.month && d.month <= 12 {
        1 <= d.day && d.day <= month_length(d.year, d.month)
    } else {
        false
    }
}

/// Strict chronological comparison.
pub fn date_lt(a: Date, b: Date) -> (r: bool)
    ensures
        r == date_before(a, b),
{
    a.year < b.year || (a.year == b.year && (a.month < b.month || (a.month == b.month && a.day < b.day)))
}

/// The first day of the month after the month containing `d`.
pub fn month_start_after(d: Date) -> (r: Date)
    requires
        1 <= d.month <= 12,
        d.month < 12 || d.year < MAX_YEAR,
    ensures
        r == next_month_first(d),
        1 <= r.month <= 12,
        r.day == 1,
{
    if d.month < 12 {
        Date { year: d.year, month: d.month + 1, day: 1 }
    } else {
        Date { year: d.year + 1, month: 1, day: 1 }
    }
}

} // verus!

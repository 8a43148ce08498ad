//! A calendar date in the proleptic Gregorian calendar.
//!
//! Dates are plain `year`/`month`/`day` values restricted to the years 1
//! through 9999, which covers every timestamp the four-digit-year log format
//! can hold.  Day arithmetic goes through a day number counted from the first
//! of January of year 1, so that "n days earlier" and "day of the week" are
//! ordinary integer operations.

use vstd::prelude::*;

verus! {

use vstd::arithmetic::div_mod::{
    lemma_fundamental_div_mod,
    lemma_fundamental_div_mod_converse_div,
    lemma_fundamental_div_mod_converse_mod,
    lemma_div_is_ordered_by_denominator,
    lemma_div_is_ordered,
    lemma_div_nonincreasing,
};

/// Lowest year a `Date` can hold.
pub const YEAR_MIN: u32 = 1;

/// Highest year a `Date` can hold: the log format writes years as four digits.
pub const YEAR_MAX: u32 = 9999;

/// Number of days in the years `YEAR_MIN ..= YEAR_MAX`; one past the largest
/// valid day number.
pub const DAY_NUMBER_LIMIT: u32 = 3652059;

/// A calendar date, `year`-`month`-`day`.
#[derive(Clone, Copy, Debug, PartialEq, Eq, Structural)]
pub struct Date {
    pub year: u32,
    pub month: u32,
    pub day: u32,
}

/// A year has 366 days when it is divisible by 4 but not by 100, or
/// divisible by 400.
pub open spec fn is_leap_year(y: int) -> bool {
    (y % 4 == 0 && y % 100 != 0) || y % 400 == 0
}

/// How many days the month `m` of year `y` has.
pub open spec fn spec_days_in_month(y: int, m: int) -> int {
    if m == 2 {
        if is_leap_year(y) {
            29
        } else {
            28
        }
    } else if m == 4 || m == 6 || m == 9 || m == 11 {
        30
    } else {
        31
    }
}

/// A date the calendar and this library accept.
pub open spec fn valid_date(d: Date) -> bool {
    &&& YEAR_MIN <= d.year <= YEAR_MAX
    &&& 1 <= d.month <= 12
    &&& 1 <= d.day <= spec_days_in_month(d.year as int, d.month as int)
}

/// Days in the months of year `y` strictly before month `m`.
pub open spec fn spec_days_before_month(y: int, m: int) -> int {
    let base: int = if m <= 1 {
        0
    } else if m == 2 {
        31
    } else if m == 3 {
        59
    } else if m == 4 {
        90
    } else if m == 5 {
        120
    } else if m == 6 {
        151
    } else if m == 7 {
        181
    } else if m == 8 {
        212
    } else if m == 9 {
        243
    } else if m == 10 {
        273
    } else if m == 11 {
        304
    } else {
        334
    };
    if m >= 3 && is_leap_year(y) {
        base + 1
    } else {
        base
    }
}

/// Days in the years from year 1 up to, and not including, year `y`.
pub open spec fn spec_days_before_year(y: int) -> int {
    365 * (y - 1) + (y - 1) / 4 - (y - 1) / 100 + (y - 1) / 400
}

/// Days from the first of January of year 1 to `d`; that first day is day 0.
pub open spec fn spec_day_number(d: Date) -> int {
    spec_days_before_year(d.year as int) + spec_days_before_month(d.year as int, d.month as int)
        + d.day - 1
}

/// `a` is on or before `b` in calendar order.
pub open spec fn spec_date_le(a: Date, b: Date) -> bool {
    ||| a.year < b.year
    ||| (a.year == b.year && a.month < b.month)
    ||| (a.year == b.year && a.month == b.month && a.day <= b.day)
}

/// `a` is strictly before `b` in calendar order.
pub open spec fn spec_date_lt(a: Date, b: Date) -> bool {
    spec_date_le(a, b) && a != b
}

impl Date {
    /// Build a date, checking it against the calendar.
    pub fn new(year: u32, month: u32, day: u32) -> (r: Option<Date>)
        ensures
            match r {
                Some(d) => d == (Date { year, month, day }) && valid_date(d),
                None => !valid_date(Date { year, month, day }),
            },
    {
        if YEAR_MIN <= year && year <= YEAR_MAX && 1 <= month && month <= 12 && 1 <= day
            && day <= days_in_month(year, month) {
            Some(Date { year, month, day })
        } else {
            None
        }
    }
}

/// Whether year `y` is a leap year.
pub fn is_leap(y: u32) -> (b: bool)
    ensures
        b == is_leap_year(y as int),
{
    (y % 4 == 0 && y % 100 != 0) || y % 400 == 0
}

/// How many days month `m` of year `y` has.
pub fn days_in_month(y: u32, m: u32) -> (r: u32)
    ensures
        r == spec_days_in_month(y as int, m as int),
{
    if m == 2 {
        if is_leap(y) {
            29
        } else {
            28
        }
    } else if m == 4 || m == 6 || m == 9 || m == 11 {
        30
    } else {
        31
    }
}

/// Days in the months of year `y` strictly before month `m`.
fn days_before_month(y: u32, m: u32) -> (r: u32)
    requires
        1 <= m <= 12,
    ensures
        r == spec_days_before_month(y as int, m as int),
{
    let base: u32 = if m <= 1 {
        0
    } else if m == 2 {
        31
    } else if m == 3 {
        59
    } else if m == 4 {
        90
    } else if m == 5 {
        120
    } else if m == 6 {
        151
    } else if m == 7 {
        181
    } else if m == 8 {
        212
    } else if m == 9 {
        243
    } else if m == 10 {
        273
    } else if m == 11 {
        304
    } else {
        334
    };
    if m >= 3 && is_leap(y) {
        base + 1
    } else {
        base
    }
}

/// Days in the years from year 1 up to, and not including, year `y`.
fn days_before_year(y: u32) -> (r: u32)
    requires
        YEAR_MIN <= y <= YEAR_MAX + 1,
    ensures
        r == spec_days_before_year(y as int),
        r <= DAY_NUMBER_LIMIT,
{
    let q = y - 1;
    proof {
        assert(q / 100 <= 365 * q) by {
            lemma_div_nonincreasing(q as int, 100);
            assert(q <= 365 * q) by (nonlinear_arith)
                requires
                    q >= 0,
            ;
        }
        assert(365 * q + q / 4 + q / 400 <= 365 * 9999int + 9999int / 4 + 9999int / 400) by {
            assert(365 * q <= 365 * 9999) by (nonlinear_arith)
                requires
                    q <= 9999,
            ;
            lemma_div_is_ordered(q as int, 9999, 4);
            lemma_div_is_ordered(q as int, 9999, 400);
        }
    }
    365 * q + q / 4 - q / 100 + q / 400
}

/// The day number of `d`: days since the first of January of year 1.
pub fn day_number(d: &Date) -> (n: u32)
    requires
        valid_date(*d),
    ensures
        n == spec_day_number(*d),
        n < DAY_NUMBER_LIMIT,
{
    proof {
        lemma_day_number_in_range(*d);
    }
    days_before_year(d.year) + days_before_month(d.year, d.month) + (d.day - 1)
}

/// Every valid date's day number lies below `DAY_NUMBER_LIMIT`.
proof fn lemma_day_number_in_range(d: Date)
    requires
        valid_date(d),
    ensures
        0 <= spec_day_number(d) < DAY_NUMBER_LIMIT,
{
    let y = d.year as int;
    lemma_days_before_year_monotonic(y, YEAR_MAX as int + 1);
    lemma_days_before_year_step(y);
    assert(spec_days_before_year(y) >= 0) by {
        lemma_days_before_year_monotonic(1, y);
    }
}

/// `spec_days_before_year` grows by the year's length from one year to the
/// next.
proof fn lemma_days_before_year_step(y: int)
    requires
        1 <= y,
    ensures
        spec_days_before_year(y + 1) == spec_days_before_year(y) + if is_leap_year(y) {
            366int
        } else {
            365int
        },
{
    lemma_div_step(y, 4);
    lemma_div_step(y, 100);
    lemma_div_step(y, 400);
    if y % 400 == 0 {
        lemma_mod_multiple_chain(y, 4, 100);
        lemma_mod_multiple_chain(y, 100, 4);
    }
    if y % 100 == 0 {
        lemma_mod_multiple_chain(y, 25, 4);
    }
}

/// If `k * c` divides `x`, then `c` divides `x`.
proof fn lemma_mod_multiple_chain(x: int, k: int, c: int)
    requires
        k > 0,
        c > 0,
        x % (k * c) == 0,
    ensures
        x % c == 0,
{
    let q = x / (k * c);
    assert(k * c > 0) by (nonlinear_arith)
        requires
            k > 0 && c > 0,
    ;
    lemma_fundamental_div_mod(x, k * c);
    assert(x == (q * k) * c) by (nonlinear_arith)
        requires
            x == (k * c) * q,
    ;
    lemma_fundamental_div_mod_converse_mod(x, c, q * k, 0);
}

/// Dividing `n` rather than `n - 1` by `k` adds one exactly when `k`
/// divides `n`.
proof fn lemma_div_step(n: int, k: int)
    requires
        n >= 1,
        k >= 1,
    ensures
        n / k - (n - 1) / k == if n % k == 0 {
            1int
        } else {
            0int
        },
{
    let q = (n - 1) / k;
    let r = (n - 1) % k;
    lemma_fundamental_div_mod(n - 1, k);
    if r == k - 1 {
        assert(n == (q + 1) * k + 0) by (nonlinear_arith)
            requires
                n - 1 == k * q + r && r == k - 1,
        ;
        lemma_fundamental_div_mod_converse_div(n, k, q + 1, 0);
        lemma_fundamental_div_mod_converse_mod(n, k, q + 1, 0);
    } else {
        assert(n == q * k + (r + 1)) by (nonlinear_arith)
            requires
                n - 1 == k * q + r,
        ;
        lemma_fundamental_div_mod_converse_div(n, k, q, r + 1);
        lemma_fundamental_div_mod_converse_mod(n, k, q, r + 1);
    }
}

/// `spec_days_before_year` is monotonic.
proof fn lemma_days_before_year_monotonic(a: int, b: int)
    requires
        1 <= a <= b,
    ensures
        spec_days_before_year(a) <= spec_days_before_year(b),
        spec_days_before_year(b) - spec_days_before_year(a) >= 365 * (b - a),
    decreases b - a,
{
    if a < b {
        lemma_days_before_year_monotonic(a, b - 1);
        lemma_days_before_year_step(b - 1);
    }
}

/// The date with the given day number.
pub fn date_from_day_number(n: u32) -> (d: Date)
    requires
        n < DAY_NUMBER_LIMIT,
    ensures
        valid_date(d),
        spec_day_number(d) == n,
{
    let mut y: u32 = n / 366 + 1;
    proof {
        let q = (n / 366) as int;
        lemma_fundamental_div_mod(n as int, 366);
        assert(q <= 9978) by {
            lemma_div_is_ordered(n as int, (DAY_NUMBER_LIMIT - 1) as int, 366);
        }
        assert(spec_days_before_year(q + 1) <= n) by {
            lemma_div_nonincreasing(q, 4);
            lemma_div_is_ordered_by_denominator(q, 100, 400);
            assert(365 * q + q / 4 - q / 100 + q / 400 <= 366 * q) by (nonlinear_arith)
                requires
                    q / 4 <= q && q / 400 <= q / 100,
            ;
        }
    }
    while y < YEAR_MAX && days_before_year(y + 1) <= n
        invariant
            1 <= y <= YEAR_MAX,
            n < DAY_NUMBER_LIMIT,
            spec_days_before_year(y as int) <= n,
        decreases YEAR_MAX - y,
    {
        y = y + 1;
    }
    proof {
        if y == YEAR_MAX {
            lemma_days_before_year_step(y as int);
        }
        lemma_days_before_year_step(y as int);
    }
    let rem = n - days_before_year(y);
    // rem now lies inside year y: rem < its length of 365 or 366 days.
    let mut m: u32 = 1;
    while m < 12 && days_before_month(y, m + 1) <= rem
        invariant
            1 <= m <= 12,
            YEAR_MIN <= y <= YEAR_MAX,
            rem == n - spec_days_before_year(y as int),
            rem < if is_leap_year(y as int) {
                366int
            } else {
                365int
            },
            spec_days_before_month(y as int, m as int) <= rem,
        decreases 12 - m,
    {
        m = m + 1;
    }
    let day = rem - days_before_month(y, m) + 1;
    Date { year: y, month: m, day }
}

/// On or before, in calendar order.
pub fn date_le(a: &Date, b: &Date) -> (r: bool)
    ensures
        r == spec_date_le(*a, *b),
{
    a.year < b.year || (a.year == b.year && (a.month < b.month || (a.month == b.month && a.day
        <= b.day)))
}

/// Strictly before, in calendar order.
pub fn date_lt(a: &Date, b: &Date) -> (r: bool)
    ensures
        r == spec_date_lt(*a, *b),
{
    a.year < b.year || (a.year == b.year && (a.month < b.month || (a.month == b.month && a.day
        < b.day)))
}

/// The date `days` days before `d`, or `None` when that would fall before
/// year 1.
pub fn checked_sub_days(d: &Date, days: u32) -> (r: Option<Date>)
    requires
        valid_date(*d),
    ensures
        match r {
            Some(e) => valid_date(e) && spec_day_number(e) == spec_day_number(*d) - days,
            None => spec_day_number(*d) < days,
        },
{
    let n = day_number(d);
    if n >= days {
        Some(date_from_day_number(n - days))
    } else {
        None
    }
}

/// Days since the most recent Monday: 0 for a Monday through 6 for a Sunday.
///
/// The first of January of year 1 was a Monday in the proleptic Gregorian
/// calendar, so this is the day number modulo 7.
pub fn days_from_monday(d: &Date) -> (r: u32)
    requires
        valid_date(*d),
    ensures
        r == spec_day_number(*d) % 7,
        r < 7,
{
    day_number(d) % 7
}

} // verus!

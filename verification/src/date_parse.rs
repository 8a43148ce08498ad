//! The date-expression grammar: turns strings such as `"0"`, `"today"`,
//! `"fri"`, `"240401"` or `"04-02"` into calendar dates relative to a
//! reference moment.
//!
//! The grammar, tried in this order:
//! - digits and dashes only: the numeric sub-parser (`N` days back, `MMDD`,
//!   `YYMMDD`, `YYYYMMDD`);
//! - anything starting with `yester`, case folded: the day before;
//! - exactly `today`: the reference date itself;
//! - otherwise the weekday sub-parser (`mon` .. `sun`, with an optional
//!   count of extra weeks back).
//!
//! Every result is stated as a day number relative to the reference date, so
//! each contract pins the returned date exactly.

use vstd::prelude::*;

verus! {

use vstd::string::{StrSliceExecFns, StringExecFns};
use crate::date::{
    Date,
    valid_date,
    spec_day_number,
    spec_date_lt,
    date_lt,
    day_number,
    date_from_day_number,
    checked_sub_days,
};
use crate::strutil::{
    is_digit,
    all_digits,
    spec_digits_value,
    spec_parse_u32,
    spec_starts_with,
    spec_to_lower,
    spec_u64_digits,
    parse_digits_u32,
    parse_u32_str,
    parse_u32_range,
    to_lowercase_ascii,
    str_starts_with,
    str_eq,
    append_u64,
    lemma_digits_bound,
    lemma_digits_value_shift,
};
use crate::util_time::{Clock, clock_wf};

/// A month and day as parsed from four digits; the day is only range
/// checked, not checked against the month's length.
pub struct MonthDay {
    pub month: u32,
    pub day: u32,
}

/// What `MonthDay::from_str` returns on a four-character string: the month
/// and day values, or the exact error.
pub open spec fn spec_month_day(s: Seq<char>) -> Result<(int, int), Seq<char>>
    recommends
        s.len() == 4,
{
    if !all_digits(s, 0, 2) {
        Err("Invalid month: invalid digit found in string"@)
    } else if !all_digits(s, 2, 4) {
        Err("invalid day: invalid digit found in string"@)
    } else {
        let m = spec_digits_value(s, 0, 2);
        let d = spec_digits_value(s, 2, 4);
        if m < 1 || m > 12 {
            Err("invalid month: "@ + s.subrange(0, 2))
        } else if d < 1 || d > 31 {
            Err("invalid day: "@ + s.subrange(2, 4))
        } else {
            Ok((m, d))
        }
    }
}

impl MonthDay {
    /// Read a month and day from four characters, `MMDD`.
    ///
    /// The month must lie in 1..=12 and the day in 1..=31; each error names
    /// what was wrong.
    pub fn from_str(input: &str) -> (r: Result<MonthDay, String>)
        requires
            input@.len() == 4,
        ensures
            match (r, spec_month_day(input@)) {
                (Ok(md), Ok((m, d))) => md.month == m && md.day == d && 1 <= md.month <= 12 && 1
                    <= md.day <= 31,
                (Err(e), Err(se)) => e@ == se,
                _ => false,
            },
    {
        let month = match parse_digits_u32(input, 0, 2) {
            Some(v) => v,
            None => {
                proof {
                    lemma_digits_bound(input@, 0, 2);
                }
                let mut e = String::new();
                e.append("Invalid month: invalid digit found in string");
                return Err(e);
            },
        };
        let day = match parse_digits_u32(input, 2, 4) {
            Some(v) => v,
            None => {
                proof {
                    lemma_digits_bound(input@, 2, 4);
                }
                let mut e = String::new();
                e.append("invalid day: invalid digit found in string");
                return Err(e);
            },
        };
        if month < 1 || month > 12 {
            let mut e = String::new();
            e.append("invalid month: ");
            e.append(input.substring_char(0, 2));
            return Err(e);
        }
        if day < 1 || day > 31 {
            let mut e = String::new();
            e.append("invalid day: ");
            e.append(input.substring_char(2, 4));
            return Err(e);
        }
        Ok(MonthDay { month, day })
    }
}

/// Every character of `s` is a digit or a dash.
pub open spec fn spec_all_digit_or_dash(s: Seq<char>) -> bool {
    forall|i: int| 0 <= i < s.len() ==> is_digit(#[trigger] s[i]) || s[i] == '-'
}

/// `s` with every dash removed.
pub open spec fn spec_strip_dashes(s: Seq<char>) -> Seq<char>
    decreases s.len(),
{
    if s.len() == 0 {
        Seq::empty()
    } else if s.last() == '-' {
        spec_strip_dashes(s.drop_last())
    } else {
        spec_strip_dashes(s.drop_last()).push(s.last())
    }
}

/// The message for a day count that reaches back past year 1.
pub open spec fn spec_unable_days_msg(n: int) -> Seq<char> {
    "Unable to get "@ + spec_u64_digits(n) + " previous days."@
}

/// The message for input that fits no numeric date form.
pub open spec fn spec_invalid_date_msg(s: Seq<char>) -> Seq<char> {
    "invalid date: "@ + s
}

/// What the numeric sub-parser returns for `s` against the reference date
/// `today`: the day number of the resulting date, or the exact error.
///
/// Dashes are stripped first; the digit count then decides the form:
/// one to three digits count days back from `today`; four digits are `MMDD`,
/// resolved to the most recent past occurrence; six are `YYMMDD` in the
/// years 2000 through 2099; eight are `YYYYMMDD`.
pub open spec fn spec_numeric_to_date(s: Seq<char>, today: Date) -> Result<int, Seq<char>>
    recommends
        valid_date(today),
{
    let dl = spec_strip_dashes(s);
    if 1 <= dl.len() <= 3 {
        match spec_parse_u32(dl) {
            Some(v) => if spec_day_number(today) >= v {
                Ok(spec_day_number(today) - v)
            } else {
                Err(spec_unable_days_msg(v as int))
            },
            None => Err("invalid number of days past: "@ + dl),
        }
    } else if dl.len() == 4 {
        match spec_month_day(dl) {
            Err(e) => Err(e),
            Ok((m, d)) => {
                let cand = Date { year: today.year, month: m as u32, day: d as u32 };
                if !valid_date(cand) {
                    Err(spec_invalid_date_msg(s))
                } else if spec_date_lt(cand, today) {
                    Ok(spec_day_number(cand))
                } else {
                    let prev = Date {
                        year: (today.year - 1) as u32,
                        month: m as u32,
                        day: d as u32,
                    };
                    if valid_date(prev) {
                        Ok(spec_day_number(prev))
                    } else {
                        Err(spec_invalid_date_msg(s))
                    }
                }
            },
        }
    } else if dl.len() == 6 || dl.len() == 8 {
        let yhi: int = if dl.len() == 6 {
            2
        } else {
            4
        };
        if !all_digits(dl, 0, yhi) {
            Err("invalid digit found in string"@)
        } else {
            let y = if dl.len() == 6 {
                2000 + spec_digits_value(dl, 0, 2)
            } else {
                spec_digits_value(dl, 0, 4)
            };
            if y < 1 {
                Err(
                    "invalid year: "@ + if dl.len() == 6 {
                        "20"@ + dl.subrange(0, 2)
                    } else {
                        dl.subrange(0, 4)
                    },
                )
            } else {
                match spec_month_day(dl.subrange(yhi, dl.len() as int)) {
                    Err(e) => Err(e),
                    Ok((m, d)) => {
                        let cd = Date { year: y as u32, month: m as u32, day: d as u32 };
                        if valid_date(cd) {
                            Ok(spec_day_number(cd))
                        } else {
                            Err(spec_invalid_date_msg(s))
                        }
                    },
                }
            }
        }
    } else {
        Err(spec_invalid_date_msg(s))
    }
}

/// A date result agrees with a spec-level day number result: same error
/// text, or a valid date standing on the stated day number.
pub open spec fn dn_result_matches(r: Result<Date, String>, s: Result<int, Seq<char>>) -> bool {
    match (r, s) {
        (Ok(d), Ok(n)) => valid_date(d) && spec_day_number(d) == n,
        (Err(m), Err(e)) => m@ == e,
        _ => false,
    }
}

/// `r` agrees with `f` applied to the moment the clock would give: exactly,
/// when the clock is pinned; for some well-formed moment, when it reads the
/// system time; `Err` alone is also allowed then, for a clock failure.
pub open spec fn clock_date_result(
    c: Clock,
    r: Result<Date, String>,
    f: spec_fn(Date) -> Result<int, Seq<char>>,
) -> bool {
    match c.fixed {
        Some(t) => dn_result_matches(r, f(t.date)),
        None => r is Err || exists|now: Date| valid_date(now) && dn_result_matches(r, f(now)),
    }
}

/// Strip every dash out of `s`.
#[verifier::loop_isolation(false)]
fn strip_dashes(s: &str) -> (r: String)
    ensures
        r@ == spec_strip_dashes(s@),
{
    let len = s.unicode_len();
    let mut r = String::new();
    let mut i: usize = 0;
    while i < len
        invariant
            0 <= i <= len,
            r@ == spec_strip_dashes(s@.subrange(0, i as int)),
        decreases len - i,
    {
        let c = s.get_char(i);
        proof {
            assert(s@.subrange(0, i + 1).drop_last() =~= s@.subrange(0, i as int));
            assert(s@.subrange(0, i + 1).last() == s@[i as int]);
        }
        if c != '-' {
            let piece = s.substring_char(i, i + 1);
            r.append(piece);
            proof {
                assert(piece@ =~= seq![s@[i as int]]);
                assert(r@ =~= spec_strip_dashes(s@.subrange(0, i + 1)));
            }
        }
        i = i + 1;
    }
    proof {
        assert(s@.subrange(0, len as int) =~= s@);
    }
    r
}

/// Whether `s` holds only digits and dashes.
#[verifier::loop_isolation(false)]
fn all_digit_or_dash(s: &str) -> (r: bool)
    ensures
        r == spec_all_digit_or_dash(s@),
{
    let len = s.unicode_len();
    let mut i: usize = 0;
    while i < len
        invariant
            0 <= i <= len,
            forall|j: int| 0 <= j < i ==> is_digit(#[trigger] s@[j]) || s@[j] == '-',
        decreases len - i,
    {
        let c = s.get_char(i);
        let u = c as u32;
        if !(48 <= u && u <= 57) && c != '-' {
            return false;
        }
        i = i + 1;
    }
    true
}

/// The message for a day count that reaches back past year 1.
fn unable_days_msg(n: u64) -> (r: String)
    ensures
        r@ == spec_unable_days_msg(n as int),
{
    let mut m = String::new();
    m.append("Unable to get ");
    append_u64(&mut m, n);
    m.append(" previous days.");
    m
}

/// The message for input that fits no numeric date form.
fn invalid_date_msg(s: &str) -> (r: String)
    ensures
        r@ == spec_invalid_date_msg(s@),
{
    let mut m = String::new();
    m.append("invalid date: ");
    m.append(s);
    m
}

/// Read a numeric date expression against a reference date.
///
/// When `reference_date` is absent the clock supplies it.  The result is
/// pinned by [`spec_numeric_to_date`].
pub fn numeric_to_date(input: &str, reference_date: Option<Date>, clock: &Clock) -> (r: Result<
    Date,
    String,
>)
    requires
        clock_wf(*clock),
        reference_date matches Some(d) ==> valid_date(d),
    ensures
        match reference_date {
            Some(today) => dn_result_matches(r, spec_numeric_to_date(input@, today)),
            None => clock_date_result(
                *clock,
                r,
                |today: Date| spec_numeric_to_date(input@, today),
            ),
        },
{
    let today: Date = match reference_date {
        Some(d) => d,
        None => match clock.current_datetime() {
            Ok(t) => t.date,
            Err(e) => {
                return Err(e);
            },
        },
    };
    let r = numeric_to_date_at(input, &today);
    proof {
        if reference_date is None && clock.fixed is None {
            assert(valid_date(today) && dn_result_matches(r, spec_numeric_to_date(input@, today)));
        }
    }
    r
}

/// The numeric sub-parser against an explicit reference date.
fn numeric_to_date_at(input: &str, today: &Date) -> (r: Result<Date, String>)
    requires
        valid_date(*today),
    ensures
        dn_result_matches(r, spec_numeric_to_date(input@, *today)),
{
    let dashless = strip_dashes(input);
    let dl = dashless.as_str();
    let n = dl.unicode_len();
    if 1 <= n && n <= 3 {
        match parse_u32_str(dl) {
            Some(v) => match checked_sub_days(today, v) {
                Some(d) => Ok(d),
                None => Err(unable_days_msg(v as u64)),
            },
            None => {
                let mut m = String::new();
                m.append("invalid number of days past: ");
                m.append(dl);
                Err(m)
            },
        }
    } else if n == 4 {
        match MonthDay::from_str(dl) {
            Err(e) => Err(e),
            Ok(md) => match Date::new(today.year, md.month, md.day) {
                None => Err(invalid_date_msg(input)),
                Some(cand) => {
                    if date_lt(&cand, today) {
                        Ok(cand)
                    } else {
                        match Date::new(today.year - 1, md.month, md.day) {
                            Some(p) => Ok(p),
                            None => Err(invalid_date_msg(input)),
                        }
                    }
                },
            },
        }
    } else if n == 6 || n == 8 {
        let yhi: usize = if n == 6 {
            2
        } else {
            4
        };
        let yv = match parse_digits_u32(dl, 0, yhi) {
            Some(v) => v,
            None => {
                proof {
                    lemma_digits_bound(dl@, 0, yhi as int);
                }
                let mut m = String::new();
                m.append("invalid digit found in string");
                return Err(m);
            },
        };
        let year = if n == 6 {
            proof {
                crate::strutil::lemma_digits_value_small(dl@, 0, 2);
                assert(crate::strutil::ten_pow(2) == 100) by {
                    assert(crate::strutil::ten_pow(0) == 1);
                    assert(crate::strutil::ten_pow(1) == 10);
                }
            }
            2000 + yv
        } else {
            yv
        };
        if year < 1 {
            let mut m = String::new();
            m.append("invalid year: ");
            if n == 6 {
                m.append("20");
                m.append(dl.substring_char(0, 2));
            } else {
                m.append(dl.substring_char(0, 4));
            }
            return Err(m);
        }
        let md_str = dl.substring_char(yhi, n);
        match MonthDay::from_str(md_str) {
            Err(e) => {
                proof {
                    assert(md_str@ =~= dl@.subrange(yhi as int, n as int));
                }
                Err(e)
            },
            Ok(md) => {
                proof {
                    assert(md_str@ =~= dl@.subrange(yhi as int, n as int));
                }
                match Date::new(year, md.month, md.day) {
                    Some(d) => Ok(d),
                    None => Err(invalid_date_msg(input)),
                }
            },
        }
    } else {
        Err(invalid_date_msg(input))
    }
}

/// The weekday abbreviation error.
pub open spec fn spec_abbrev_msg() -> Seq<char> {
    "invalid day of the week abbreviation; use: mon, tue, wed, thu, fri, sat, sun"@
}

/// The weekday named by the first three characters: Monday is 0 through
/// Sunday 6.  The input is already lower case.
pub open spec fn spec_weekday_target(s: Seq<char>) -> Option<int>
    recommends
        s.len() >= 3,
{
    if s[0] == 'm' && s[1] == 'o' && s[2] == 'n' {
        Some(0int)
    } else if s[0] == 't' && s[1] == 'u' && s[2] == 'e' {
        Some(1int)
    } else if s[0] == 'w' && s[1] == 'e' && s[2] == 'd' {
        Some(2int)
    } else if s[0] == 't' && s[1] == 'h' && s[2] == 'u' {
        Some(3int)
    } else if s[0] == 'f' && s[1] == 'r' && s[2] == 'i' {
        Some(4int)
    } else if s[0] == 's' && s[1] == 'a' && s[2] == 't' {
        Some(5int)
    } else if s[0] == 's' && s[1] == 'u' && s[2] == 'n' {
        Some(6int)
    } else {
        None
    }
}

/// Why a weeks suffix fails to read as a number: a stray character, or a
/// value too large.
pub open spec fn spec_weeks_err_detail(t: Seq<char>) -> Seq<char> {
    let start: int = if t.len() > 0 && t[0] == '+' {
        1
    } else {
        0
    };
    if start < t.len() && all_digits(t, start, t.len() as int) {
        "number too large to fit in target type"@
    } else {
        "invalid digit found in string"@
    }
}

/// What the weekday sub-parser returns for the lower-cased `s` against
/// `today`: the day number of the most recent such weekday strictly before
/// today (one further week back per counted week), or the exact error.
pub open spec fn spec_last_dow(s: Seq<char>, today: Date) -> Result<int, Seq<char>>
    recommends
        valid_date(today),
{
    if s.len() < 3 {
        Err(spec_abbrev_msg())
    } else {
        match spec_weekday_target(s) {
            None => Err(spec_abbrev_msg()),
            Some(target) => {
                let tail = s.subrange(3, s.len() as int);
                let weeks: Option<int> = if s.len() > 3 {
                    match spec_parse_u32(tail) {
                        Some(w) => Some(w as int),
                        None => None,
                    }
                } else {
                    Some(0int)
                };
                match weeks {
                    None => Err("failed to parse weeks: "@ + spec_weeks_err_detail(tail)),
                    Some(w0) => {
                        let dfm = spec_day_number(today) % 7;
                        let w = if target == dfm {
                            w0 + 1
                        } else {
                            w0
                        };
                        let back = (dfm + 7 - target) % 7 + w * 7;
                        if spec_day_number(today) >= back {
                            Ok(spec_day_number(today) - back)
                        } else {
                            Err(spec_unable_days_msg(back))
                        }
                    },
                }
            },
        }
    }
}

/// The weekday sub-parser; `lower` is the expression already folded to
/// lower case.
#[verifier::loop_isolation(false)]
fn last_dow(lower: &str, today: &Date) -> (r: Result<Date, String>)
    requires
        valid_date(*today),
    ensures
        dn_result_matches(r, spec_last_dow(lower@, *today)),
{
    let len = lower.unicode_len();
    if len < 3 {
        return Err(abbrev_msg());
    }
    let c0 = lower.get_char(0);
    let c1 = lower.get_char(1);
    let c2 = lower.get_char(2);
    let target: u64 = if c0 == 'm' && c1 == 'o' && c2 == 'n' {
        0
    } else if c0 == 't' && c1 == 'u' && c2 == 'e' {
        1
    } else if c0 == 'w' && c1 == 'e' && c2 == 'd' {
        2
    } else if c0 == 't' && c1 == 'h' && c2 == 'u' {
        3
    } else if c0 == 'f' && c1 == 'r' && c2 == 'i' {
        4
    } else if c0 == 's' && c1 == 'a' && c2 == 't' {
        5
    } else if c0 == 's' && c1 == 'u' && c2 == 'n' {
        6
    } else {
        return Err(abbrev_msg());
    };
    let weeks: u32 = if len > 3 {
        match parse_u32_range(lower, 3, len) {
            Some(w) => w,
            None => {
                let mut m = String::new();
                m.append("failed to parse weeks: ");
                let ghost tail = lower@.subrange(3, len as int);
                let start: usize = if lower.get_char(3) == '+' {
                    4
                } else {
                    3
                };
                let mut all: bool = start < len;
                let mut i = start;
                while i < len
                    invariant
                        start <= i <= len,
                        start < len ==> (all == all_digits(lower@, start as int, i as int)),
                        start >= len ==> !all,
                    decreases len - i,
                {
                    if matches!(crate::strutil::digit_at(lower, i), None) {
                        all = false;
                    }
                    i = i + 1;
                }
                proof {
                    assert(tail.len() == len - 3);
                    assert forall|j: int| 0 <= j < tail.len() implies tail[j] == lower@[3 + j] by {}
                    if start < len {
                        assert(all == all_digits(tail, start - 3, tail.len() as int)) by {
                            if all_digits(lower@, start as int, len as int) {
                                assert forall|j: int|
                                    start - 3 <= j < tail.len() implies is_digit(
                                    #[trigger] tail[j],
                                ) by {
                                    assert(tail[j] == lower@[3 + j]);
                                }
                            }
                            if all_digits(tail, start - 3, tail.len() as int) {
                                assert forall|j: int| start <= j < len implies is_digit(
                                    #[trigger] lower@[j],
                                ) by {
                                    assert(tail[j - 3] == lower@[j]);
                                }
                            }
                        }
                    }
                }
                if all {
                    m.append("number too large to fit in target type");
                } else {
                    m.append("invalid digit found in string");
                }
                return Err(m);
            },
        }
    } else {
        0
    };
    let dfm = crate::date::days_from_monday(today) as u64;
    let mut weeks64 = weeks as u64;
    if target == dfm {
        weeks64 = weeks64 + 1;
    }
    let back: u64 = (dfm + 7 - target) % 7 + weeks64 * 7;
    let dn = day_number(today) as u64;
    if dn >= back {
        Ok(date_from_day_number((dn - back) as u32))
    } else {
        Err(unable_days_msg(back))
    }
}

/// The weekday abbreviation error.
fn abbrev_msg() -> (r: String)
    ensures
        r@ == spec_abbrev_msg(),
{
    let mut m = String::new();
    m.append("invalid day of the week abbreviation; use: mon, tue, wed, thu, fri, sat, sun");
    m
}

/// What the full date-expression grammar returns for `s` against `now`; see
/// the module comment for the forms.
pub open spec fn spec_date_from_str(s: Seq<char>, now: Date) -> Result<int, Seq<char>>
    recommends
        valid_date(now),
{
    if spec_all_digit_or_dash(s) {
        spec_numeric_to_date(s, now)
    } else {
        let lower = spec_to_lower(s);
        if spec_starts_with(lower, "yester"@) {
            if spec_day_number(now) >= 1 {
                Ok(spec_day_number(now) - 1)
            } else {
                Err("unable to get "@ + lower + " "@)
            }
        } else if s == "today"@ {
            Ok(spec_day_number(now))
        } else {
            spec_last_dow(lower, now)
        }
    }
}

/// Read a date expression relative to the clock's current date.
///
/// The result is pinned by [`spec_date_from_str`].
pub fn date_from_str(format: &str, clock: &Clock) -> (r: Result<Date, String>)
    requires
        clock_wf(*clock),
    ensures
        clock_date_result(*clock, r, |now: Date| spec_date_from_str(format@, now)),
{
    let now: Date = match clock.current_datetime() {
        Ok(t) => t.date,
        Err(e) => {
            return Err(e);
        },
    };
    let r = date_from_str_at(format, &now);
    proof {
        if clock.fixed is None {
            assert(valid_date(now) && dn_result_matches(r, spec_date_from_str(format@, now)));
        }
    }
    r
}

/// The date-expression grammar against an explicit reference date.
fn date_from_str_at(format: &str, now: &Date) -> (r: Result<Date, String>)
    requires
        valid_date(*now),
    ensures
        dn_result_matches(r, spec_date_from_str(format@, *now)),
{
    if all_digit_or_dash(format) {
        return numeric_to_date_at(format, now);
    }
    let lower = to_lowercase_ascii(format);
    if str_starts_with(lower.as_str(), "yester") {
        match checked_sub_days(now, 1) {
            Some(d) => Ok(d),
            None => {
                let mut m = String::new();
                m.append("unable to get ");
                m.append(lower.as_str());
                m.append(" ");
                Err(m)
            },
        }
    } else if str_eq(format, "today") {
        Ok(*now)
    } else {
        last_dow(lower.as_str(), now)
    }
}

/// What reading a whole list of date expressions returns: the day numbers
/// in order, or the first error wrapped with its offending expression.
pub open spec fn spec_strings_to_dates(list: Seq<Seq<char>>, now: Date) -> Result<
    Seq<int>,
    Seq<char>,
>
    decreases list.len(),
{
    if list.len() == 0 {
        Ok(Seq::empty())
    } else {
        match spec_strings_to_dates(list.drop_last(), now) {
            Err(e) => Err(e),
            Ok(v) => match spec_date_from_str(list.last(), now) {
                Ok(n) => Ok(v.push(n)),
                Err(e) => Err("Invalid "@ + list.last() + ": "@ + e),
            },
        }
    }
}

/// A vector of dates agrees with a spec-level list of day numbers.
pub open spec fn dates_result_matches(r: Result<Vec<Date>, String>, s: Result<
    Seq<int>,
    Seq<char>,
>) -> bool {
    match (r, s) {
        (Ok(v), Ok(ns)) => v@.len() == ns.len() && forall|k: int|
            0 <= k < ns.len() ==> valid_date(#[trigger] v@[k]) && spec_day_number(v@[k]) == ns[k],
        (Err(m), Err(e)) => m@ == e,
        _ => false,
    }
}

/// Read every date expression of `dates`, relative to the clock's current
/// date; an absent list gives no dates.  The first failing expression stops
/// the run, named in the error.
#[verifier::loop_isolation(false)]
pub fn strings_to_dates(dates: &Option<Vec<String>>, clock: &Clock) -> (r: Result<
    Vec<Date>,
    String,
>)
    requires
        clock_wf(*clock),
    ensures
        match dates {
            None => r matches Ok(v) && v@.len() == 0,
            Some(list) => match clock.fixed {
                Some(t) => dates_result_matches(r, spec_strings_to_dates(list.deep_view(), t.date)),
                None => r is Err || exists|now: Date|
                    valid_date(now) && dates_result_matches(
                        r,
                        spec_strings_to_dates(list.deep_view(), now),
                    ),
            },
        },
{
    let list = match dates {
        Some(list) => list,
        None => {
            return Ok(Vec::new());
        },
    };
    let now: Date = match clock.current_datetime() {
        Ok(t) => t.date,
        Err(e) => {
            return Err(e);
        },
    };
    let ghost views = list.deep_view();
    let mut parsed: Vec<Date> = Vec::new();
    let mut i: usize = 0;
    proof {
        assert(views.subrange(0, 0) =~= Seq::<Seq<char>>::empty());
    }
    while i < list.len()
        invariant
            0 <= i <= list.len(),
            views.len() == list.len(),
            forall|k: int| 0 <= k < list.len() ==> views[k] == #[trigger] list@[k]@,
            valid_date(now),
            dates_result_matches(Ok(parsed), spec_strings_to_dates(views.subrange(0, i as int), now)),
        decreases list.len() - i,
    {
        let date_str: &String = &list[i];
        proof {
            assert(views.subrange(0, i + 1).drop_last() =~= views.subrange(0, i as int));
            assert(views.subrange(0, i + 1).last() == date_str@);
        }
        match date_from_str_at(date_str.as_str(), &now) {
            Ok(date) => {
                parsed.push(date);
            },
            Err(err) => {
                let mut m = String::new();
                m.append("Invalid ");
                m.append(date_str.as_str());
                m.append(": ");
                m.append(err.as_str());
                proof {
                    lemma_strings_to_dates_extends_err(views, i as int, now);
                }
                return mk_err(m, Ghost(now), Ghost(clock.fixed), Ghost(views));
            },
        }
        i = i + 1;
    }
    proof {
        assert(views.subrange(0, list.len() as int) =~= views);
        if clock.fixed is None {
            assert(valid_date(now) && dates_result_matches(
                Ok(parsed),
                spec_strings_to_dates(views, now),
            ));
        }
    }
    Ok(parsed)
}

/// An error in a prefix is the whole list's error.
proof fn lemma_strings_to_dates_extends_err(views: Seq<Seq<char>>, i: int, now: Date)
    requires
        0 <= i < views.len(),
        spec_strings_to_dates(views.subrange(0, i + 1), now) is Err,
    ensures
        spec_strings_to_dates(views, now) == spec_strings_to_dates(views.subrange(0, i + 1), now),
    decreases views.len(),
{
    if i + 1 < views.len() {
        assert(views.drop_last() =~= views.subrange(0, views.len() - 1));
        assert(views.subrange(0, views.len() - 1).subrange(0, i + 1) =~= views.subrange(0, i + 1));
        lemma_strings_to_dates_extends_err(views.subrange(0, views.len() - 1), i, now);
    } else {
        assert(views.subrange(0, i + 1) =~= views);
    }
}

/// Wrap an error so the enclosing postcondition's witness is visible.
fn mk_err(m: String, Ghost(now): Ghost<Date>, Ghost(fixed): Ghost<Option<crate::timestamp::Timestamp>>, Ghost(views): Ghost<Seq<Seq<char>>>) -> (r: Result<Vec<Date>, String>)
    requires
        valid_date(now),
        spec_strings_to_dates(views, now) matches Err(e) && m@ == e,
        fixed matches Some(t) ==> t.date == now,
    ensures
        match fixed {
            Some(t) => dates_result_matches(r, spec_strings_to_dates(views, t.date)),
            None => r is Err || exists|nw: Date|
                valid_date(nw) && dates_result_matches(r, spec_strings_to_dates(views, nw)),
        },
{
    Err(m)
}

} // verus!

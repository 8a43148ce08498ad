//! An instant with an explicit UTC offset, as the log file stores it: the
//! civil date and clock time that were written, plus the offset in minutes.
//! The offset is kept verbatim, never normalized away.
//!
//! The text form is the log's fixed timestamp format: a four-digit year,
//! month, day, a `T` (or `t`, or a space), the time, an optional fraction of
//! a second (read and discarded), and either `Z` or a signed `HH:MM` offset.

use vstd::prelude::*;

verus! {

use vstd::string::{StrSliceExecFns, StringExecFns};
use crate::date::{
    Date,
    valid_date,
    spec_day_number,
    day_number,
    date_from_day_number,
    DAY_NUMBER_LIMIT,
};
use crate::strutil::{
    is_digit,
    all_digits,
    spec_digits_value,
    digit_at,
    parse_digits_u32,
    lemma_digits_value_nonneg,
    lemma_digits_bound,
    spec_two_digit_seq,
    spec_four_digit_seq,
    append_two_digits,
    append_four_digits,
};
use vstd::arithmetic::div_mod::{lemma_fundamental_div_mod, lemma_div_is_ordered};

/// An instant: a civil date and time together with its fixed UTC offset.
#[derive(Clone, Copy, Debug, PartialEq, Eq, Structural)]
pub struct Timestamp {
    pub date: Date,
    pub hour: u32,
    pub minute: u32,
    pub second: u32,
    pub offset_minutes: i32,
}

/// A timestamp whose fields are in range.
pub open spec fn wf_timestamp(ts: Timestamp) -> bool {
    &&& valid_date(ts.date)
    &&& ts.hour <= 23
    &&& ts.minute <= 59
    &&& ts.second <= 59
    &&& -1439 <= ts.offset_minutes <= 1439
}

/// Seconds from the start of year 1 in UTC to the instant.
pub open spec fn spec_epoch_seconds(ts: Timestamp) -> int {
    spec_day_number(ts.date) * 86400 + ts.hour * 3600 + ts.minute * 60 + ts.second
        - ts.offset_minutes * 60
}

/// Seconds from the start of year 1 in UTC to the instant.
pub fn epoch_seconds(ts: &Timestamp) -> (r: i64)
    requires
        wf_timestamp(*ts),
    ensures
        r == spec_epoch_seconds(*ts),
{
    let dn = day_number(&ts.date) as i64;
    dn * 86400 + ts.hour as i64 * 3600 + ts.minute as i64 * 60 + ts.second as i64
        - ts.offset_minutes as i64 * 60
}

/// The fixed first nineteen characters: `YYYY-MM-DD` separator `HH:MM:SS`.
pub open spec fn spec_fixed_ok(s: Seq<char>) -> bool {
    &&& s.len() >= 20
    &&& all_digits(s, 0, 4)
    &&& s[4] == '-'
    &&& all_digits(s, 5, 7)
    &&& s[7] == '-'
    &&& all_digits(s, 8, 10)
    &&& (s[10] == 'T' || s[10] == 't' || s[10] == ' ')
    &&& all_digits(s, 11, 13)
    &&& s[13] == ':'
    &&& all_digits(s, 14, 16)
    &&& s[16] == ':'
    &&& all_digits(s, 17, 19)
}

/// First position at or after `i` that does not hold a digit.
pub open spec fn spec_skip_digits(s: Seq<char>, i: int) -> int
    decreases s.len() - i,
{
    if i < s.len() && is_digit(s[i]) {
        spec_skip_digits(s, i + 1)
    } else {
        i
    }
}

/// Where the offset starts: past an optional `.` with at least one digit.
pub open spec fn spec_frac_end(s: Seq<char>) -> Option<int> {
    if s.len() > 19 && s[19] == '.' {
        if s.len() > 20 && is_digit(s[20]) {
            Some(spec_skip_digits(s, 20))
        } else {
            None
        }
    } else {
        Some(19int)
    }
}

/// The offset written at position `j`, in minutes east: `Z`, `z`, or a sign
/// and `HH:MM` no further than 23:59 from UTC, ending the string.
pub open spec fn spec_parse_offset(s: Seq<char>, j: int) -> Option<int> {
    if j < 0 || j >= s.len() {
        None
    } else if s[j] == 'Z' || s[j] == 'z' {
        if j + 1 == s.len() {
            Some(0int)
        } else {
            None
        }
    } else if s[j] == '+' || s[j] == '-' || s[j] == '\u{2212}' {
        if j + 6 == s.len() && all_digits(s, j + 1, j + 3) && s[j + 3] == ':' && all_digits(
            s,
            j + 4,
            j + 6,
        ) {
            let hh = spec_digits_value(s, j + 1, j + 3);
            let mm = spec_digits_value(s, j + 4, j + 6);
            if hh <= 23 && mm <= 59 {
                if s[j] == '+' {
                    Some(hh * 60 + mm)
                } else {
                    Some(-(hh * 60 + mm))
                }
            } else {
                None
            }
        } else {
            None
        }
    } else {
        None
    }
}

/// The timestamp a text line holds, when it is well formed.
pub open spec fn spec_parse_rfc3339(s: Seq<char>) -> Option<Timestamp> {
    if !spec_fixed_ok(s) {
        None
    } else {
        let d = Date {
            year: spec_digits_value(s, 0, 4) as u32,
            month: spec_digits_value(s, 5, 7) as u32,
            day: spec_digits_value(s, 8, 10) as u32,
        };
        let hour = spec_digits_value(s, 11, 13);
        let minute = spec_digits_value(s, 14, 16);
        let second = spec_digits_value(s, 17, 19);
        if valid_date(d) && hour <= 23 && minute <= 59 && second <= 59 {
            match spec_frac_end(s) {
                None => None,
                Some(j) => match spec_parse_offset(s, j) {
                    None => None,
                    Some(off) => Some(
                        Timestamp {
                            date: d,
                            hour: hour as u32,
                            minute: minute as u32,
                            second: second as u32,
                            offset_minutes: off as i32,
                        },
                    ),
                },
            }
        } else {
            None
        }
    }
}

/// First position at or after `start` without a digit.
#[verifier::loop_isolation(false)]
fn skip_digits_from(s: &str, start: usize) -> (j: usize)
    requires
        start <= s@.len(),
    ensures
        j == spec_skip_digits(s@, start as int),
        start <= j <= s@.len(),
{
    let len = s.unicode_len();
    let mut i = start;
    while i < len && matches!(digit_at(s, i), Some(_))
        invariant
            start <= i <= len,
            spec_skip_digits(s@, start as int) == spec_skip_digits(s@, i as int),
        decreases len - i,
    {
        i = i + 1;
    }
    i
}

/// The message a rejected timestamp text carries.
pub open spec fn spec_timestamp_err(s: Seq<char>) -> Seq<char> {
    "invalid timestamp '"@ + s + "'"@
}

/// A parse error naming the text that was rejected.
fn timestamp_error(s: &str) -> (r: String)
    ensures
        r@ == spec_timestamp_err(s@),
{
    let mut m = String::new();
    m.append("invalid timestamp '");
    m.append(s);
    m.append("'");
    m
}

/// Read a timestamp from its text form.
///
/// Returns `Err` exactly on text the format does not cover; the message
/// names the text.
pub fn parse_rfc3339(s: &str) -> (r: Result<Timestamp, String>)
    ensures
        match r {
            Ok(ts) => spec_parse_rfc3339(s@) == Some(ts) && wf_timestamp(ts),
            Err(m) => spec_parse_rfc3339(s@) is None && m@ == spec_timestamp_err(s@),
        },
{
    let len = s.unicode_len();
    if len < 20 {
        return Err(timestamp_error(s));
    }
    let year = match parse_digits_u32(s, 0, 4) {
        Some(v) => v,
        None => {
            proof {
                lemma_digits_bound(s@, 0, 4);
            }
            return Err(timestamp_error(s));
        },
    };
    if s.get_char(4) != '-' {
        return Err(timestamp_error(s));
    }
    let month = match parse_digits_u32(s, 5, 7) {
        Some(v) => v,
        None => {
            proof {
                lemma_digits_bound(s@, 5, 7);
            }
            return Err(timestamp_error(s));
        },
    };
    if s.get_char(7) != '-' {
        return Err(timestamp_error(s));
    }
    let day = match parse_digits_u32(s, 8, 10) {
        Some(v) => v,
        None => {
            proof {
                lemma_digits_bound(s@, 8, 10);
            }
            return Err(timestamp_error(s));
        },
    };
    let sep = s.get_char(10);
    if !(sep == 'T' || sep == 't' || sep == ' ') {
        return Err(timestamp_error(s));
    }
    let hour = match parse_digits_u32(s, 11, 13) {
        Some(v) => v,
        None => {
            proof {
                lemma_digits_bound(s@, 11, 13);
            }
            return Err(timestamp_error(s));
        },
    };
    if s.get_char(13) != ':' {
        return Err(timestamp_error(s));
    }
    let minute = match parse_digits_u32(s, 14, 16) {
        Some(v) => v,
        None => {
            proof {
                lemma_digits_bound(s@, 14, 16);
            }
            return Err(timestamp_error(s));
        },
    };
    if s.get_char(16) != ':' {
        return Err(timestamp_error(s));
    }
    let second = match parse_digits_u32(s, 17, 19) {
        Some(v) => v,
        None => {
            proof {
                lemma_digits_bound(s@, 17, 19);
            }
            return Err(timestamp_error(s));
        },
    };
    let d = match Date::new(year, month, day) {
        Some(d) => d,
        None => {
            return Err(timestamp_error(s));
        },
    };
    if hour > 23 || minute > 59 || second > 59 {
        return Err(timestamp_error(s));
    }
    let j: usize = if s.get_char(19) == '.' {
        if len > 20 && matches!(digit_at(s, 20), Some(_)) {
            skip_digits_from(s, 20)
        } else {
            return Err(timestamp_error(s));
        }
    } else {
        19
    };
    if j >= len {
        return Err(timestamp_error(s));
    }
    let sign = s.get_char(j);
    let off: i32 = if sign == 'Z' || sign == 'z' {
        if len - j != 1 {
            return Err(timestamp_error(s));
        }
        0
    } else if sign == '+' || sign == '-' || sign == '\u{2212}' {
        if len - j != 6 {
            return Err(timestamp_error(s));
        }
        let hh = match parse_digits_u32(s, j + 1, j + 3) {
            Some(v) => v,
            None => {
                proof {
                    lemma_digits_bound(s@, j as int + 1, j as int + 3);
                }
                return Err(timestamp_error(s));
            },
        };
        if s.get_char(j + 3) != ':' {
            return Err(timestamp_error(s));
        }
        let mm = match parse_digits_u32(s, j + 4, j + 6) {
            Some(v) => v,
            None => {
                proof {
                    lemma_digits_bound(s@, j as int + 4, j as int + 6);
                }
                return Err(timestamp_error(s));
            },
        };
        if hh > 23 || mm > 59 {
            return Err(timestamp_error(s));
        }
        if sign == '+' {
            (hh * 60 + mm) as i32
        } else {
            -((hh * 60 + mm) as i32)
        }
    } else {
        return Err(timestamp_error(s));
    };
    let ts = Timestamp { date: d, hour, minute, second, offset_minutes: off };
    proof {
        assert(spec_parse_rfc3339(s@) == Some(ts));
    }
    Ok(ts)
}

/// The text form of the offset: a sign and `HH:MM`.
pub open spec fn spec_offset_suffix(off: int) -> Seq<char> {
    let sign = if off < 0 {
        seq!['-']
    } else {
        seq!['+']
    };
    let a = if off < 0 {
        -off
    } else {
        off
    };
    sign + spec_two_digit_seq(a / 60) + seq![':'] + spec_two_digit_seq(a % 60)
}

/// The text form of `ts`: date, separator, time to whole seconds, offset.
pub open spec fn spec_format_timestamp(ts: Timestamp, sep: char) -> Seq<char> {
    spec_four_digit_seq(ts.date.year as int) + seq!['-'] + spec_two_digit_seq(ts.date.month as int)
        + seq!['-'] + spec_two_digit_seq(ts.date.day as int) + seq![sep] + spec_two_digit_seq(
        ts.hour as int,
    ) + seq![':'] + spec_two_digit_seq(ts.minute as int) + seq![':'] + spec_two_digit_seq(
        ts.second as int,
    ) + spec_offset_suffix(ts.offset_minutes as int)
}

/// Write `ts` in the log's timestamp form, `T` between date and time.
pub fn format_rfc3339(ts: &Timestamp) -> (r: String)
    requires
        wf_timestamp(*ts),
    ensures
        r@ == spec_format_timestamp(*ts, 'T'),
{
    format_timestamp(ts, true)
}

/// Write `ts` with either `T` or a space between date and time.
pub fn format_timestamp(ts: &Timestamp, t_sep: bool) -> (r: String)
    requires
        wf_timestamp(*ts),
    ensures
        r@ == spec_format_timestamp(
            *ts,
            if t_sep {
                'T'
            } else {
                ' '
            },
        ),
{
    proof {
        reveal_strlit("-");
        reveal_strlit(":");
        reveal_strlit("T");
        reveal_strlit(" ");
        reveal_strlit("+");
    }
    let mut r = String::new();
    append_four_digits(&mut r, ts.date.year);
    r.append("-");
    append_two_digits(&mut r, ts.date.month);
    r.append("-");
    append_two_digits(&mut r, ts.date.day);
    if t_sep {
        r.append("T");
    } else {
        r.append(" ");
    }
    append_two_digits(&mut r, ts.hour);
    r.append(":");
    append_two_digits(&mut r, ts.minute);
    r.append(":");
    append_two_digits(&mut r, ts.second);
    let a: u32 = if ts.offset_minutes < 0 {
        r.append("-");
        (-ts.offset_minutes) as u32
    } else {
        r.append("+");
        ts.offset_minutes as u32
    };
    append_two_digits(&mut r, a / 60);
    r.append(":");
    append_two_digits(&mut r, a % 60);
    proof {
        assert(r@ =~= spec_format_timestamp(
            *ts,
            if t_sep {
                'T'
            } else {
                ' '
            },
        ));
    }
    r
}

/// The clock's current moment written as `YYYY-MM-DD HH:MM:SS+HH:MM`.
///
/// Fails only when the clock reads a system time outside the supported
/// years.
pub fn get_current_timestamp(clock: &crate::util_time::Clock) -> (r: Result<String, String>)
    requires
        crate::util_time::clock_wf(*clock),
    ensures
        match r {
            Ok(s) => match clock.fixed {
                Some(t) => s@ == spec_format_timestamp(t, ' '),
                None => exists|t: Timestamp|
                    wf_timestamp(t) && s@ == spec_format_timestamp(t, ' '),
            },
            Err(_) => clock.fixed is None,
        },
{
    match clock.current_datetime() {
        Ok(t) => {
            let s = format_timestamp(&t, false);
            proof {
                if clock.fixed is None {
                    assert(wf_timestamp(t) && s@ == spec_format_timestamp(t, ' '));
                }
            }
            Ok(s)
        },
        Err(e) => Err(e),
    }
}

/// The digit character of a value 0 through 9 reads back as that value.
proof fn lemma_digit_char_val(v: int)
    requires
        0 <= v <= 9,
    ensures
        is_digit(crate::strutil::digit_char(v)),
        crate::strutil::digit_val(crate::strutil::digit_char(v)) == v,
{
}

/// A two-digit rendering reads back as its value.
proof fn lemma_two_digit_value(s: Seq<char>, i: int, v: int)
    requires
        0 <= v <= 99,
        0 <= i,
        i + 2 <= s.len(),
        s[i] == crate::strutil::digit_char(v / 10),
        s[i + 1] == crate::strutil::digit_char(v % 10),
    ensures
        all_digits(s, i, i + 2),
        spec_digits_value(s, i, i + 2) == v,
{
    lemma_digit_char_val(v / 10);
    lemma_digit_char_val(v % 10);
    assert(spec_digits_value(s, i, i + 2) == spec_digits_value(s, i, i + 1) * 10
        + crate::strutil::digit_val(s[i + 1]));
    assert(spec_digits_value(s, i, i + 1) == spec_digits_value(s, i, i) * 10
        + crate::strutil::digit_val(s[i]));
    lemma_fundamental_div_mod(v, 10);
}

/// A four-digit rendering reads back as its value.
proof fn lemma_four_digit_value(s: Seq<char>, i: int, v: int)
    requires
        0 <= v <= 9999,
        0 <= i,
        i + 4 <= s.len(),
        s[i] == crate::strutil::digit_char(v / 1000 % 10),
        s[i + 1] == crate::strutil::digit_char(v / 100 % 10),
        s[i + 2] == crate::strutil::digit_char(v / 10 % 10),
        s[i + 3] == crate::strutil::digit_char(v % 10),
    ensures
        all_digits(s, i, i + 4),
        spec_digits_value(s, i, i + 4) == v,
{
    lemma_digit_char_val(v / 1000 % 10);
    lemma_digit_char_val(v / 100 % 10);
    lemma_digit_char_val(v / 10 % 10);
    lemma_digit_char_val(v % 10);
    assert(spec_digits_value(s, i, i + 4) == spec_digits_value(s, i, i + 3) * 10
        + crate::strutil::digit_val(s[i + 3]));
    assert(spec_digits_value(s, i, i + 3) == spec_digits_value(s, i, i + 2) * 10
        + crate::strutil::digit_val(s[i + 2]));
    assert(spec_digits_value(s, i, i + 2) == spec_digits_value(s, i, i + 1) * 10
        + crate::strutil::digit_val(s[i + 1]));
    assert(spec_digits_value(s, i, i + 1) == spec_digits_value(s, i, i) * 10
        + crate::strutil::digit_val(s[i]));
    lemma_fundamental_div_mod(v, 10);
    lemma_fundamental_div_mod(v / 10, 10);
    lemma_fundamental_div_mod(v / 100, 10);
    vstd::arithmetic::div_mod::lemma_div_denominator(v, 10, 10);
    vstd::arithmetic::div_mod::lemma_div_denominator(v, 100, 10);
    assert(v / 1000 <= 9) by {
        lemma_div_is_ordered(v, 9999, 1000);
    }
    vstd::arithmetic::div_mod::lemma_small_mod((v / 1000) as nat, 10);
    vstd::arithmetic::div_mod::lemma_mod_division_less_than_divisor(v, 10);
    vstd::arithmetic::div_mod::lemma_mod_division_less_than_divisor(v / 10, 10);
    vstd::arithmetic::div_mod::lemma_mod_division_less_than_divisor(v / 100, 10);
}

/// Writing an instant and reading the text back gives the same instant:
/// the timestamp format's writer and reader are inverse.
pub proof fn lemma_parse_format_round_trip(ts: Timestamp)
    requires
        wf_timestamp(ts),
    ensures
        spec_parse_rfc3339(spec_format_timestamp(ts, 'T')) == Some(ts),
        spec_format_timestamp(ts, 'T').len() == 25,
        forall|i: int|
            0 <= i < 25 ==> #[trigger] spec_format_timestamp(ts, 'T')[i] != '\t'
                && spec_format_timestamp(ts, 'T')[i] != '\n' && !crate::strutil::spec_is_ws(
                spec_format_timestamp(ts, 'T')[i],
            ),
{
    let f = spec_format_timestamp(ts, 'T');
    let y = ts.date.year as int;
    let mo = ts.date.month as int;
    let d = ts.date.day as int;
    let h = ts.hour as int;
    let mi = ts.minute as int;
    let se = ts.second as int;
    let off = ts.offset_minutes as int;
    let a: int = if off < 0 {
        -off
    } else {
        off
    };
    let sign: char = if off < 0 {
        '-'
    } else {
        '+'
    };
    let dc = |v: int| crate::strutil::digit_char(v);
    let explicit: Seq<char> = seq![
        dc(y / 1000 % 10),
        dc(y / 100 % 10),
        dc(y / 10 % 10),
        dc(y % 10),
        '-',
        dc(mo / 10),
        dc(mo % 10),
        '-',
        dc(d / 10),
        dc(d % 10),
        'T',
        dc(h / 10),
        dc(h % 10),
        ':',
        dc(mi / 10),
        dc(mi % 10),
        ':',
        dc(se / 10),
        dc(se % 10),
        sign,
        dc(a / 60 / 10),
        dc(a / 60 % 10),
        ':',
        dc(a % 60 / 10),
        dc(a % 60 % 10),
    ];
    assert(f =~= explicit);
    assert(a / 60 <= 23) by {
        lemma_div_is_ordered(a, 1439, 60);
    }
    assert(a % 60 <= 59) by {
        vstd::arithmetic::div_mod::lemma_mod_division_less_than_divisor(a, 60);
    }
    lemma_four_digit_value(f, 0, y);
    lemma_two_digit_value(f, 5, mo);
    lemma_two_digit_value(f, 8, d);
    lemma_two_digit_value(f, 11, h);
    lemma_two_digit_value(f, 14, mi);
    lemma_two_digit_value(f, 17, se);
    lemma_two_digit_value(f, 20, a / 60);
    lemma_two_digit_value(f, 23, a % 60);
    assert(spec_fixed_ok(f));
    assert(spec_frac_end(f) == Some(19int)) by {
        lemma_digit_char_val(se % 10);
        assert(f[19] == sign);
    }
    assert(spec_parse_offset(f, 19) == Some(off)) by {
        assert(all_digits(f, 20, 22));
        assert(all_digits(f, 23, 25));
        assert(f[22] == ':');
        lemma_fundamental_div_mod(a, 60);
        assert(a / 60 * 60 + a % 60 == a);
        assert(spec_digits_value(f, 20, 22) * 60 + spec_digits_value(f, 23, 25) == a);
    }
    assert(forall|i: int| 0 <= i <= 9 ==> !crate::strutil::spec_is_ws(#[trigger] dc(i)) && dc(i)
        != '\t' && dc(i) != '\n');
    assert(spec_parse_rfc3339(f) == Some(ts));
}

/// The instant `minutes` minutes before `ts`, same offset and second; `None`
/// when that would fall before the start of year 1.
pub fn timestamp_sub_minutes(ts: &Timestamp, minutes: u32) -> (r: Option<Timestamp>)
    requires
        wf_timestamp(*ts),
        minutes <= 1440,
    ensures
        match r {
            Some(t2) => wf_timestamp(t2) && t2.offset_minutes == ts.offset_minutes && t2.second
                == ts.second && spec_epoch_seconds(t2) == spec_epoch_seconds(*ts) - minutes * 60,
            None => spec_day_number(ts.date) * 1440 + ts.hour * 60 + ts.minute < minutes,
        },
{
    let dn = day_number(&ts.date);
    let total: u64 = dn as u64 * 1440 + ts.hour as u64 * 60 + ts.minute as u64;
    if total < minutes as u64 {
        return None;
    }
    let t = total - minutes as u64;
    let day = t / 1440;
    let rest = t % 1440;
    proof {
        lemma_fundamental_div_mod(t as int, 1440);
        assert(day < DAY_NUMBER_LIMIT) by {
            lemma_div_is_ordered(t as int, (DAY_NUMBER_LIMIT as int - 1) * 1440 + 1439, 1440);
            assert(((DAY_NUMBER_LIMIT as int - 1) * 1440 + 1439) / 1440 == DAY_NUMBER_LIMIT - 1);
        }
        lemma_fundamental_div_mod(rest as int, 60);
    }
    let date2 = date_from_day_number(day as u32);
    let t2 = Timestamp {
        date: date2,
        hour: (rest / 60) as u32,
        minute: (rest % 60) as u32,
        second: ts.second,
        offset_minutes: ts.offset_minutes,
    };
    Some(t2)
}

} // verus!

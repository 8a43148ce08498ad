//! The time-of-day grammar: turns strings such as `"30"`, `"7:30"` or
//! `"8pm"` into an instant relative to the current moment.
//!
//! A whole number is minutes into the past, 1 through 1440.  Anything else
//! must be `HH`, `HH:MM`, with an optional `am` or `pm` suffix, and names a
//! clock time on the current day; with a meridiem suffix the hour may not
//! pass 11.

use vstd::prelude::*;

verus! {

use vstd::string::{StrSliceExecFns, StringExecFns};
use crate::date::spec_day_number;
use crate::timestamp::{Timestamp, wf_timestamp, spec_epoch_seconds, timestamp_sub_minutes};
use crate::strutil::{
    is_digit,
    spec_parse_u32,
    spec_parse_i32,
    spec_ends_with,
    spec_strip_suffix_all,
    spec_is_ws,
    spec_trim,
    spec_trim_start,
    spec_trim_end,
    spec_find_char,
    is_ws_char,
    find_char_in,
    lemma_find_char_first,
    spec_u64_digits,
    parse_i32_str,
    parse_u32_range,
    digit_at,
    append_u64,
};
use crate::util_time::{Clock, clock_wf};

/// The malformed-time message.
pub open spec fn spec_format_msg() -> Seq<char> {
    "invalid HH[:MM](am|mm) format"@
}

/// Range-check the parsed hour and minute of `s` and apply its meridiem
/// suffix: the final 24-hour clock time, or the exact error.
pub open spec fn spec_hhmm_check(s: Seq<char>, hour: int, minute: int) -> Result<
    (int, int),
    Seq<char>,
> {
    if minute > 59 {
        Err("invalid minutes"@)
    } else if hour > 23 {
        Err("invalid hours"@)
    } else {
        let pm = spec_ends_with(s, seq!['p', 'm']);
        let am = spec_ends_with(s, seq!['a', 'm']);
        if hour > 11 && (pm || am) {
            if pm {
                Err("invalid hours with \"pm\""@)
            } else {
                Err("invalid hours with \"am\""@)
            }
        } else if pm {
            Ok((hour + 12, minute))
        } else {
            Ok((hour, minute))
        }
    }
}

/// What the clock-time form of `s` means: a 24-hour time, or the exact
/// error.  Trailing `am`s, then `pm`s, then whitespace are stripped; the
/// rest must be digits with at most one colon.
pub open spec fn spec_hhmm(s: Seq<char>) -> Result<(int, int), Seq<char>> {
    let t1 = spec_strip_suffix_all(s, seq!['a', 'm']);
    let t2 = spec_strip_suffix_all(t1, seq!['p', 'm']);
    let t = spec_trim(t2);
    if !(forall|i: int| 0 <= i < t.len() ==> is_digit(#[trigger] t[i]) || t[i] == ':') {
        Err(spec_format_msg())
    } else {
        match spec_find_char(t, ':', 0) {
            None => match spec_parse_u32(t) {
                None => Err("invalid HH(am|mm) format"@),
                Some(h) => spec_hhmm_check(s, h as int, 0),
            },
            Some(k) => match spec_find_char(t, ':', k + 1) {
                Some(k2) => Err(spec_format_msg()),
                None => match spec_parse_u32(t.subrange(0, k)) {
                    None => Err("invalid hours"@),
                    Some(h) => match spec_parse_u32(t.subrange(k + 1, t.len() as int)) {
                        None => Err("invalid minutes"@),
                        Some(mi) => spec_hhmm_check(s, h as int, mi as int),
                    },
                },
            },
        }
    }
}

/// `r` is what the time-of-day grammar gives for `input` against `now`.
///
/// No input returns `now` itself.  A whole number within 1..=1440 moves that
/// many minutes back; outside the range it is rejected naming the input.
/// Any other input is read as a clock time on `now`'s date.
pub open spec fn spec_time_adjustment_rel(
    input: Option<Seq<char>>,
    now: Timestamp,
    r: Result<Timestamp, String>,
) -> bool {
    match input {
        None => r == Ok::<Timestamp, String>(now),
        Some(s) => match spec_parse_i32(s) {
            Some(m) => if 1 <= m <= 1440 {
                match r {
                    Ok(t2) => wf_timestamp(t2) && t2.offset_minutes == now.offset_minutes
                        && t2.second == now.second && spec_epoch_seconds(t2) == spec_epoch_seconds(
                        now,
                    ) - m * 60,
                    Err(e) => spec_day_number(now.date) * 1440 + now.hour * 60 + now.minute < m
                        && e@ == "unable to go back "@ + spec_u64_digits(m as int) + " minutes"@,
                }
            } else {
                r matches Err(e) && e@ == "Invalid minutes \""@ + s + "\""@
            },
            None => match spec_hhmm(s) {
                Err(msg) => r matches Err(e) && e@ == msg,
                Ok((h, mi)) => r == Ok::<Timestamp, String>(
                    Timestamp {
                        date: now.date,
                        hour: h as u32,
                        minute: mi as u32,
                        second: 0,
                        offset_minutes: now.offset_minutes,
                    },
                ),
            },
        },
    }
}

/// The view of an optional string.
pub open spec fn spec_opt_view(o: Option<&str>) -> Option<Seq<char>> {
    match o {
        Some(s) => Some(s@),
        None => None,
    }
}

/// Read a time-of-day expression against the clock's current moment.
///
/// The result is pinned by [`spec_time_adjustment_rel`]: exactly when the
/// clock is pinned, and for some well-formed current moment when it reads
/// the system time.
pub fn time_adjustment(input: Option<&str>, clock: &Clock) -> (r: Result<Timestamp, String>)
    requires
        clock_wf(*clock),
    ensures
        match clock.fixed {
            Some(t) => spec_time_adjustment_rel(spec_opt_view(input), t, r),
            None => r is Err || exists|t: Timestamp|
                wf_timestamp(t) && spec_time_adjustment_rel(spec_opt_view(input), t, r),
        },
{
    let now: Timestamp = match clock.current_datetime() {
        Ok(t) => t,
        Err(e) => {
            return Err(e);
        },
    };
    let r = time_adjustment_at(input, &now);
    proof {
        if clock.fixed is None {
            assert(wf_timestamp(now) && spec_time_adjustment_rel(spec_opt_view(input), now, r));
        }
    }
    r
}

/// The time-of-day grammar against an explicit current moment.
fn time_adjustment_at(input: Option<&str>, now: &Timestamp) -> (r: Result<Timestamp, String>)
    requires
        wf_timestamp(*now),
    ensures
        spec_time_adjustment_rel(spec_opt_view(input), *now, r),
{
    let input_str = match input {
        None => {
            return Ok(*now);
        },
        Some(s) => s,
    };
    match parse_i32_str(input_str) {
        Some(minutes) => {
            if 1 <= minutes && minutes <= 1440 {
                match timestamp_sub_minutes(now, minutes as u32) {
                    Some(t2) => Ok(t2),
                    None => {
                        let mut m = String::new();
                        m.append("unable to go back ");
                        append_u64(&mut m, minutes as u64);
                        m.append(" minutes");
                        Err(m)
                    },
                }
            } else {
                let mut m = String::new();
                m.append("Invalid minutes \"");
                m.append(input_str);
                m.append("\"");
                Err(m)
            }
        },
        None => match parse_hhmm(input_str) {
            Ok((h, mi)) => Ok(
                Timestamp {
                    date: now.date,
                    hour: h,
                    minute: mi,
                    second: 0,
                    offset_minutes: now.offset_minutes,
                },
            ),
            Err(e) => Err(e),
        },
    }
}

/// The bounds of `s` once trailing `am`s, then `pm`s, then whitespace at
/// both ends are stripped, as `spec_hhmm` strips them.
#[verifier::loop_isolation(false)]
fn stripped_bounds(s: &str) -> (r: (usize, usize))
    ensures
        r.0 <= r.1 <= s@.len(),
        s@.subrange(r.0 as int, r.1 as int) == spec_trim(
            spec_strip_suffix_all(spec_strip_suffix_all(s@, seq!['a', 'm']), seq!['p', 'm']),
        ),
{
    let len = s.unicode_len();
    let ghost am: Seq<char> = seq!['a', 'm'];
    let ghost pm_seq: Seq<char> = seq!['p', 'm'];
    proof {
        assert(s@.subrange(0, len as int) =~= s@);
    }
    // strip every trailing "am"
    let mut hi: usize = len;
    while hi >= 2 && s.get_char(hi - 2) == 'a' && s.get_char(hi - 1) == 'm'
        invariant
            hi <= len,
            spec_strip_suffix_all(s@, am) == spec_strip_suffix_all(s@.subrange(0, hi as int), am),
        decreases hi,
    {
        proof {
            let cur = s@.subrange(0, hi as int);
            assert(spec_ends_with(cur, am));
            assert(cur.take(cur.len() - 2) =~= s@.subrange(0, hi - 2));
        }
        hi = hi - 2;
    }
    proof {
        let cur = s@.subrange(0, hi as int);
        assert(!spec_ends_with(cur, am)) by {
            if spec_ends_with(cur, am) {
                assert(cur[cur.len() - 2] == 'a' && cur[cur.len() - 1] == 'm');
            }
        }
        assert(spec_strip_suffix_all(s@, am) == s@.subrange(0, hi as int));
    }
    let ghost t1 = spec_strip_suffix_all(s@, am);
    // strip every trailing "pm"
    let mut h2: usize = hi;
    while h2 >= 2 && s.get_char(h2 - 2) == 'p' && s.get_char(h2 - 1) == 'm'
        invariant
            h2 <= hi <= len,
            t1 == s@.subrange(0, hi as int),
            spec_strip_suffix_all(t1, pm_seq) == spec_strip_suffix_all(
                s@.subrange(0, h2 as int),
                pm_seq,
            ),
        decreases h2,
    {
        proof {
            let cur = s@.subrange(0, h2 as int);
            assert(spec_ends_with(cur, pm_seq));
            assert(cur.take(cur.len() - 2) =~= s@.subrange(0, h2 - 2));
        }
        h2 = h2 - 2;
    }
    proof {
        let cur = s@.subrange(0, h2 as int);
        assert(!spec_ends_with(cur, pm_seq)) by {
            if spec_ends_with(cur, pm_seq) {
                assert(cur[cur.len() - 2] == 'p' && cur[cur.len() - 1] == 'm');
            }
        }
        assert(spec_strip_suffix_all(t1, pm_seq) == s@.subrange(0, h2 as int));
    }
    let ghost t2 = spec_strip_suffix_all(t1, pm_seq);
    // trim trailing whitespace
    let mut h3: usize = h2;
    while h3 >= 1 && is_ws_char(s.get_char(h3 - 1))
        invariant
            h3 <= h2 <= len,
            t2 == s@.subrange(0, h2 as int),
            spec_trim_end(t2) == spec_trim_end(s@.subrange(0, h3 as int)),
        decreases h3,
    {
        proof {
            let cur = s@.subrange(0, h3 as int);
            assert(cur.drop_last() =~= s@.subrange(0, h3 - 1));
        }
        h3 = h3 - 1;
    }
    proof {
        assert(spec_trim_end(t2) == s@.subrange(0, h3 as int));
    }
    // trim leading whitespace
    let mut lo: usize = 0;
    while lo < h3 && is_ws_char(s.get_char(lo))
        invariant
            0 <= lo <= h3 <= len,
            spec_trim_end(t2) == s@.subrange(0, h3 as int),
            spec_trim_start(s@.subrange(0, h3 as int)) == spec_trim_start(
                s@.subrange(lo as int, h3 as int),
            ),
        decreases h3 - lo,
    {
        proof {
            let cur = s@.subrange(lo as int, h3 as int);
            assert(cur.subrange(1, cur.len() as int) =~= s@.subrange(lo + 1, h3 as int));
        }
        lo = lo + 1;
    }
    proof {
        let cur = s@.subrange(lo as int, h3 as int);
        if cur.len() > 0 && spec_is_ws(cur[0]) {
            assert(spec_is_ws(s@[lo as int]));
        }
        assert(spec_trim_start(s@.subrange(0, h3 as int)) == cur);
    }
    (lo, h3)
}

/// Read the clock-time form of `s`: the 24-hour hour and minute, or the
/// exact error of [`spec_hhmm`].
#[verifier::loop_isolation(false)]
#[verifier::rlimit(60)]
fn parse_hhmm(s: &str) -> (r: Result<(u32, u32), String>)
    ensures
        match (r, spec_hhmm(s@)) {
            (Ok((h, mi)), Ok((sh, smi))) => h == sh && mi == smi && h <= 23 && mi <= 59,
            (Err(e), Err(m)) => e@ == m,
            _ => false,
        },
{
    let len = s.unicode_len();
    let ghost am: Seq<char> = seq!['a', 'm'];
    let ghost pm_seq: Seq<char> = seq!['p', 'm'];
    let (lo, h3) = stripped_bounds(s);
    let ghost t = spec_trim(spec_strip_suffix_all(spec_strip_suffix_all(s@, am), pm_seq));
    proof {
        assert(t == s@.subrange(lo as int, h3 as int));
    }
    // every remaining character must be a digit or a colon
    let mut i = lo;
    while i < h3
        invariant
            lo <= i <= h3 <= len,
            t == s@.subrange(lo as int, h3 as int),
            forall|j: int| lo <= j < i ==> is_digit(#[trigger] s@[j]) || s@[j] == ':',
        decreases h3 - i,
    {
        let c = s.get_char(i);
        let u = c as u32;
        if !(48 <= u && u <= 57) && c != ':' {
            proof {
                assert(t[i - lo] == s@[i as int]);
                assert(!(is_digit(t[i - lo]) || t[i - lo] == ':'));
            }
            return Err(format_msg());
        }
        i = i + 1;
    }
    proof {
        assert forall|j: int| 0 <= j < t.len() implies is_digit(#[trigger] t[j]) || t[j]
            == ':' by {
            assert(t[j] == s@[lo + j]);
        }
    }
    // split on the colon, if any
    let first_colon = find_char_in(s, ':', lo, h3);
    proof {
        lemma_find_char_first(t, ':', 0);
    }
    let (hour, minute): (u32, u32) = match first_colon {
        None => {
            proof {
                match spec_find_char(t, ':', 0) {
                    Some(k0) => {
                        assert(s@[lo + k0] == ':');
                    },
                    None => {},
                }
            }
            let h = match parse_u32_range(s, lo, h3) {
                Some(h) => h,
                None => {
                    let mut m = String::new();
                    m.append("invalid HH(am|mm) format");
                    return Err(m);
                },
            };
            (h, 0)
        },
        Some(k) => {
            proof {
                match spec_find_char(t, ':', 0) {
                    Some(k0) => {
                        if k0 < k - lo {
                            assert(s@[lo + k0] == ':');
                        } else if k0 > k - lo {
                            assert(t[k - lo] == ':');
                        }
                    },
                    None => {
                        assert(t[k - lo] == ':');
                    },
                }
            }
            let second_colon = find_char_in(s, ':', k + 1, h3);
            proof {
                lemma_find_char_first(t, ':', k - lo + 1);
            }
            match second_colon {
                Some(k2) => {
                    proof {
                        if spec_find_char(t, ':', k - lo + 1) is None {
                            assert(t[k2 - lo] == ':');
                        }
                    }
                    return Err(format_msg());
                },
                None => {
                    proof {
                        match spec_find_char(t, ':', k - lo + 1) {
                            Some(k20) => {
                                assert(s@[lo + k20] == ':');
                            },
                            None => {},
                        }
                    }
                    let h = match parse_u32_range(s, lo, k) {
                        Some(h) => {
                            proof {
                                assert(t.subrange(0, k - lo) =~= s@.subrange(lo as int, k as int));
                            }
                            h
                        },
                        None => {
                            proof {
                                assert(t.subrange(0, k - lo) =~= s@.subrange(lo as int, k as int));
                            }
                            return Err(mk_msg_invalid_hours());
                        },
                    };
                    let mi = match parse_u32_range(s, k + 1, h3) {
                        Some(mi) => {
                            proof {
                                assert(t.subrange(k - lo + 1, t.len() as int) =~= s@.subrange(
                                    k + 1,
                                    h3 as int,
                                ));
                            }
                            mi
                        },
                        None => {
                            proof {
                                assert(t.subrange(k - lo + 1, t.len() as int) =~= s@.subrange(
                                    k + 1,
                                    h3 as int,
                                ));
                            }
                            let mut m = String::new();
                            m.append("invalid minutes");
                            return Err(m);
                        },
                    };
                    (h, mi)
                },
            }
        },
    };
    if minute > 59 {
        let mut m = String::new();
        m.append("invalid minutes");
        return Err(m);
    }
    if hour > 23 {
        return Err(mk_msg_invalid_hours());
    }
    let pm = len >= 2 && s.get_char(len - 2) == 'p' && s.get_char(len - 1) == 'm';
    let am_suffix = len >= 2 && s.get_char(len - 2) == 'a' && s.get_char(len - 1) == 'm';
    proof {
        assert(pm == spec_ends_with(s@, pm_seq)) by {
            if spec_ends_with(s@, pm_seq) {
                assert(s@[s@.len() - 2] == 'p' && s@[s@.len() - 1] == 'm');
            }
        }
        assert(am_suffix == spec_ends_with(s@, am)) by {
            if spec_ends_with(s@, am) {
                assert(s@[s@.len() - 2] == 'a' && s@[s@.len() - 1] == 'm');
            }
        }
    }
    if hour > 11 && (pm || am_suffix) {
        let mut m = String::new();
        if pm {
            m.append("invalid hours with \"pm\"");
        } else {
            m.append("invalid hours with \"am\"");
        }
        return Err(m);
    }
    if pm {
        Ok((hour + 12, minute))
    } else {
        Ok((hour, minute))
    }
}

/// The malformed-time error.
fn format_msg() -> (r: String)
    ensures
        r@ == spec_format_msg(),
{
    let mut m = String::new();
    m.append("invalid HH[:MM](am|mm) format");
    m
}

/// The out-of-range-hours error.
fn mk_msg_invalid_hours() -> (r: String)
    ensures
        r@ == "invalid hours"@,
{
    let mut m = String::new();
    m.append("invalid hours");
    m
}

} // verus!

//! The current moment, as an injectable collaborator.
//!
//! Every parser that needs "now" takes a [`Clock`].  A clock normally reads
//! the system time; a test pins it to a fixed instant first, so parsing is
//! deterministic.

use vstd::prelude::*;

use chrono::{Datelike, Timelike};

verus! {

use vstd::string::StringExecFns;
use crate::date::Date;
use crate::timestamp::{Timestamp, wf_timestamp};

/// A source of the current moment: the system clock, unless a fixed instant
/// has been set.
pub struct Clock {
    pub fixed: Option<Timestamp>,
}

/// A clock's fixed instant, when set, is well formed.
pub open spec fn clock_wf(c: Clock) -> bool {
    match c.fixed {
        Some(t) => wf_timestamp(t),
        None => true,
    }
}

impl Clock {
    /// A clock that reads the system time.
    pub fn new() -> (c: Clock)
        ensures
            c.fixed is None,
            clock_wf(c),
    {
        Clock { fixed: None }
    }

    /// The current moment: the fixed instant when one is set, otherwise the
    /// system time.  Fails when the system reports a moment outside the
    /// library's supported years.
    pub fn current_datetime(&self) -> (r: Result<Timestamp, String>)
        requires
            clock_wf(*self),
        ensures
            match self.fixed {
                Some(t) => r == Ok::<Timestamp, String>(t),
                None => true,
            },
            r matches Ok(t) ==> wf_timestamp(t),
    {
        match self.fixed {
            Some(t) => Ok(t),
            None => system_timestamp(),
        }
    }

    /// Pin the clock to `t`.
    pub fn current_datetime_set(&mut self, t: Timestamp)
        requires
            wf_timestamp(t),
        ensures
            final(self).fixed == Some(t),
            clock_wf(*final(self)),
    {
        self.fixed = Some(t);
    }

    /// Let the clock read the system time again.
    pub fn current_datetime_reset(&mut self)
        ensures
            final(self).fixed is None,
            clock_wf(*final(self)),
    {
        self.fixed = None;
    }
}

/// Civil fields of the system's current local time.
///
/// Relies on chrono's `Local::now`, read as a fixed-offset value: year,
/// month, day, hour, minute, second, and the offset east of UTC in seconds.
#[verifier::external_body]
fn system_now_fields() -> (i32, u32, u32, u32, u32, u32, i32) {
    let now = chrono::Local::now().fixed_offset();
    (
        now.year(),
        now.month(),
        now.day(),
        now.hour(),
        now.minute(),
        now.second(),
        now.offset().local_minus_utc(),
    )
}

/// The system's current moment, checked field by field; an error when the
/// system clock stands outside the years this library covers.
fn system_timestamp() -> (r: Result<Timestamp, String>)
    ensures
        r matches Ok(t) ==> wf_timestamp(t),
{
    let (y, mo, d, h, mi, se, offs) = system_now_fields();
    if y < 1 || y > 9999 {
        return Err(clock_error());
    }
    let date = match Date::new(y as u32, mo, d) {
        Some(date) => date,
        None => {
            return Err(clock_error());
        },
    };
    if h > 23 || mi > 59 || se > 59 {
        return Err(clock_error());
    }
    let off_min = offs / 60;
    if off_min < -1439 || off_min > 1439 {
        return Err(clock_error());
    }
    Ok(Timestamp { date, hour: h, minute: mi, second: se, offset_minutes: off_min })
}

/// The error for a system clock outside the supported range.
fn clock_error() -> String {
    let mut m = String::new();
    m.append("system clock outside the supported date range");
    m
}

} // verus!

use idid::time_parse::time_adjustment;
use idid::timestamp::{get_current_timestamp, parse_rfc3339, Timestamp};
use idid::util_time::Clock;

/// A clock pinned to 2024-04-01, 12:15:30 at +05:00.
fn fixed_clock() -> Clock {
    let mut clock = Clock::new();
    let ts = parse_rfc3339("2024-04-01T12:15:30+05:00").unwrap();
    clock.current_datetime_set(ts);
    clock
}

/// Today at the given time, in the fixed clock's offset.
fn local(hour: u32, minute: u32) -> Timestamp {
    let base = parse_rfc3339("2024-04-01T12:15:30+05:00").unwrap();
    Timestamp {
        date: base.date,
        hour,
        minute,
        second: 0,
        offset_minutes: base.offset_minutes,
    }
}

fn check_adjustment(input: &str, expected: Timestamp) {
    let clock = fixed_clock();
    match time_adjustment(Some(input), &clock) {
        Ok(actual) => {
            assert_eq!(expected, actual, "input={:?}", input);
        }
        Err(err) => {
            panic!("input={:?}, expected={:?}, error={:?}", input, expected, err);
        }
    }
}

#[test]
fn test_time_adjustment() {
    // 30 minutes before 12:15:30
    let mut back_30 = local(11, 45);
    back_30.second = 30;
    check_adjustment("30", back_30);
    check_adjustment("7:30", local(7, 30));
    check_adjustment("7:30am", local(7, 30));
    check_adjustment("7:30pm", local(19, 30));
    check_adjustment("8am", local(8, 0));
    check_adjustment("8pm", local(20, 0));
}

#[test]
fn test_time_adjustment_across_midnight() {
    // 1440 minutes is a whole day back
    let clock = fixed_clock();
    let got = time_adjustment(Some("1440"), &clock).unwrap();
    let expected = parse_rfc3339("2024-03-31T12:15:30+05:00").unwrap();
    assert_eq!(expected, got);
}

fn check_adjustment_error(input: &str, expected: &str) {
    let clock = fixed_clock();
    match time_adjustment(Some(input), &clock) {
        Ok(ts) => {
            panic!("input={:?}: expected Err but got Ok({:?})", input, ts);
        }
        Err(err) => {
            assert_eq!(expected, err, "input={:?}", input);
        }
    }
}

#[test]
fn test_time_adjustment_bad_input() {
    check_adjustment_error("0", "Invalid minutes \"0\"");
    check_adjustment_error("1441", "Invalid minutes \"1441\"");
    check_adjustment_error("invalid", "invalid HH[:MM](am|mm) format");
    check_adjustment_error("1:60", "invalid minutes");
    check_adjustment_error("24pm", "invalid hours");
    check_adjustment_error("13pm", "invalid hours with \"pm\"");
    check_adjustment_error("13am", "invalid hours with \"am\"");
    check_adjustment_error("1jk", "invalid HH[:MM](am|mm) format");
    check_adjustment_error("1:30jk", "invalid HH[:MM](am|mm) format");
    check_adjustment_error("1:2:3", "invalid HH[:MM](am|mm) format");
}

#[test]
fn test_time_adjustment_none() {
    let set_time = parse_rfc3339("2024-04-01T12:15:30+05:00").unwrap();
    let mut clock = Clock::new();
    clock.current_datetime_set(set_time);

    // With no input the current time comes back unchanged.
    let found_datetime = time_adjustment(None, &clock).expect("Should be current time.");
    clock.current_datetime_reset();

    assert_eq!(set_time, found_datetime);
}

#[test]
fn test_get_current_timestamp_fixed() {
    let clock = fixed_clock();
    let s = get_current_timestamp(&clock).unwrap();
    assert_eq!(s, "2024-04-01 12:15:30+05:00");
}

#[test]
fn test_clock_reset_reads_system_again() {
    let mut clock = fixed_clock();
    clock.current_datetime_reset();
    // the system clock stands in a supported year, so this succeeds
    let now = clock.current_datetime().unwrap();
    assert!(now.date.year >= 1 && now.date.year <= 9999);
}

#[test]
fn test_timestamp_round_trip() {
    let text = "2024-04-01T12:00:00+00:00";
    let ts = parse_rfc3339(text).unwrap();
    assert_eq!(idid::timestamp::format_rfc3339(&ts), text);
    // Z parses as offset zero and is written back as +00:00
    let z = parse_rfc3339("2024-04-01T12:00:00Z").unwrap();
    assert_eq!(z, ts);
    // negative offsets keep their sign
    let neg = parse_rfc3339("2024-04-01T12:00:00-07:30").unwrap();
    assert_eq!(idid::timestamp::format_rfc3339(&neg), "2024-04-01T12:00:00-07:30");
    // fractional seconds are read and dropped
    let frac = parse_rfc3339("2024-04-01T12:00:00.125+00:00").unwrap();
    assert_eq!(frac, ts);
}

#[test]
fn test_timestamp_rejects_malformed() {
    assert!(parse_rfc3339("2024-04-01").is_err());
    assert!(parse_rfc3339("2024-04-01 12:00:00").is_err());
    assert!(parse_rfc3339("2024-13-01T12:00:00Z").is_err());
    assert!(parse_rfc3339("2024-02-30T12:00:00Z").is_err());
    assert!(parse_rfc3339("2024-04-01T24:00:00Z").is_err());
    assert!(parse_rfc3339("2024-04-01T12:61:00Z").is_err());
    assert!(parse_rfc3339("2024-04-01T12:00:00+25:00").is_err());
    assert!(parse_rfc3339("2024-04-01T12:00:00+05:70").is_err());
    assert!(parse_rfc3339("2024-04-01T12:00:00.Z").is_err());
    assert!(parse_rfc3339("2024-04-01T12:00:00Zx").is_err());
}

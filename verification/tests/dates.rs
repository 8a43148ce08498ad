use idid::date::{days_from_monday, Date};
use idid::date_filter::ymd;
use idid::date_parse::{date_from_str, numeric_to_date, strings_to_dates, MonthDay};
use idid::timestamp::parse_rfc3339;
use idid::util_time::Clock;

/// A clock pinned to Monday 2024-04-01, 12:15:30 at +05:00.
fn april_1_2024_clock() -> Clock {
    let mut clock = Clock::new();
    let ts = parse_rfc3339("2024-04-01T12:15:30+05:00").unwrap();
    clock.current_datetime_set(ts);
    clock
}

fn check_parse(input: &str, year: u32, month: u32, day: u32) {
    let clock = april_1_2024_clock();
    let expected = ymd(year, month, day);
    match date_from_str(input, &clock) {
        Ok(actual) => {
            assert_eq!(expected, actual, "input={:?}", input);
        }
        Err(err) => {
            panic!("input={:?}, expected={:?}, error={:?}", input, expected, err);
        }
    }
}

#[test]
fn test_date_parse() {
    check_parse("0", 2024, 4, 1);
    check_parse("1", 2024, 3, 31);
    check_parse("today", 2024, 4, 1);
    check_parse("yester", 2024, 3, 31);
    check_parse("yesterday", 2024, 3, 31);
    check_parse("2024-03-01", 2024, 3, 1);
    check_parse("fri", 2024, 3, 29);
}

fn check_numeric(input: &str, year: u32, month: u32, day: u32) {
    let clock = Clock::new();
    let reference = ymd(2024, 4, 1);
    let expected = ymd(year, month, day);
    match numeric_to_date(input, Some(reference), &clock) {
        Ok(actual) => {
            assert_eq!(expected, actual, "input={:?}", input);
        }
        Err(err) => {
            panic!("input={:?}, expected={:?}, error={:?}", input, expected, err);
        }
    }
}

#[test]
fn test_date_parse_numeric() {
    check_numeric("2", 2024, 3, 30);
    check_numeric("999", 2021, 7, 7);
    check_numeric("0402", 2023, 4, 2);
    check_numeric("04-02", 2023, 4, 2);
    check_numeric("240401", 2024, 4, 1);
    check_numeric("2024-04-01", 2024, 4, 1);
}

fn check_numeric_error(input: &str, expected_error: &str) {
    let clock = Clock::new();
    let reference = ymd(2024, 4, 1);
    match numeric_to_date(input, Some(reference), &clock) {
        Ok(date) => {
            panic!("input={:?}: expected Err but got Ok({:?})", input, date);
        }
        Err(err) => {
            assert_eq!(expected_error, err, "input={:?}", input);
        }
    }
}

#[test]
fn test_date_parse_numeric_bad_input() {
    check_numeric_error("ABC", "invalid number of days past: ABC");
    check_numeric_error("1000", "invalid day: 00");
    check_numeric_error("0432", "invalid day: 32");
    check_numeric_error("0030", "invalid month: 00");
    check_numeric_error("1330", "invalid month: 13");
    check_numeric_error("0230", "invalid date: 0230");
    check_numeric_error("0000-04-06", "invalid year: 0000");
    check_numeric_error("12345", "invalid date: 12345");
}

fn check_dow(input: &str, dom: u32) {
    let clock = april_1_2024_clock(); // a Monday
    let actual = date_from_str(input, &clock).unwrap();
    let expected = ymd(2024, 3, dom);
    assert_eq!(expected, actual, "input={:?}", input);
}

#[test]
fn test_date_parse_dow() {
    check_dow("sun", 31);
    check_dow("sun1", 24);
    check_dow("mon", 25);
    check_dow("mon0", 25);
    check_dow("mon1", 18);
    check_dow("tue0", 26);
    check_dow("tue1", 19);
    check_dow("FRI", 29);
}

#[test]
fn test_date_parse_dow_bad_input() {
    let clock = april_1_2024_clock();
    assert_eq!(
        date_from_str("xyz", &clock),
        Err(
            "invalid day of the week abbreviation; use: mon, tue, wed, thu, fri, sat, sun"
                .to_string()
        )
    );
}

#[test]
fn test_parse_dow_bad_input() {
    let input = "xyz";
    let clock = Clock::new();
    match date_from_str(input, &clock) {
        Ok(_) => {
            panic!("Expected Err but got Ok");
        }
        Err(err) => {
            let expected =
                "invalid day of the week abbreviation; use: mon, tue, wed, thu, fri, sat, sun";
            assert_eq!(
                expected, err,
                "input=\"{}\", expected=\"{}\", actual=\"{}\" ",
                input, expected, err
            );
        }
    }
}

#[test]
fn test_parse_dow_no_reference_date() {
    // Parse Tuesday against the real clock
    let tuesday = date_from_str("tue", &Clock::new());
    assert_eq!(days_from_monday(&tuesday.unwrap()), 1);
}

#[test]
fn test_month_day_from_str() {
    let md = MonthDay::from_str("0402").unwrap();
    assert_eq!(md.month, 4);
    assert_eq!(md.day, 2);
    match MonthDay::from_str("a402") {
        Err(e) => assert_eq!(e, "Invalid month: invalid digit found in string"),
        Ok(_) => panic!("expected Err"),
    }
    match MonthDay::from_str("0400") {
        Err(e) => assert_eq!(e, "invalid day: 00"),
        Ok(_) => panic!("expected Err"),
    }
}

#[test]
fn test_strings_to_dates_parses_each() {
    let clock = april_1_2024_clock();
    let input = Some(vec!["0".to_string(), "fri".to_string()]);
    let dates = strings_to_dates(&input, &clock).unwrap();
    assert_eq!(dates, vec![ymd(2024, 4, 1), ymd(2024, 3, 29)]);
}

#[test]
fn test_strings_to_dates_none_and_error() {
    let clock = april_1_2024_clock();
    assert_eq!(strings_to_dates(&None, &clock).unwrap(), Vec::<Date>::new());
    let bad = Some(vec!["0".to_string(), "xyz".to_string()]);
    let err = strings_to_dates(&bad, &clock).unwrap_err();
    assert_eq!(
        err,
        "Invalid xyz: invalid day of the week abbreviation; use: mon, tue, wed, thu, fri, sat, sun"
    );
}

#[test]
fn test_date_parse_weeks_suffix_bad() {
    let clock = april_1_2024_clock();
    let err = date_from_str("monx", &clock).unwrap_err();
    assert_eq!(err, "failed to parse weeks: invalid digit found in string");
}

#[test]
fn test_date_parse_weeks_sign_only() {
    // a lone sign after the weekday reads as whatever std's integer parser
    // says of it; the library mirrors that wording
    let clock = april_1_2024_clock();
    let err = date_from_str("mon+", &clock).unwrap_err();
    let std_err = "+".parse::<u32>().unwrap_err().to_string();
    assert_eq!(err, format!("failed to parse weeks: {}", std_err));
}

use idid::date::Date;
use idid::date_filter::ymd;
use idid::DateFilter;

#[test]
fn test_filter_empty() {
    let range = [];
    let dates = [];

    let filter = DateFilter::new(&range, &dates);
    println!("Filter: {:#?}", filter);
    assert!(filter.date_ranges.is_empty());
    assert!(filter.dates.is_empty());
    assert_eq!(filter.oldest_date, None);
    assert_eq!(filter.newest_date, None);
    assert_eq!(filter.contains(&ymd(2024, 4, 1)), false);
}

#[test]
fn test_filter_only_dates() {
    let individual_dates = vec![ymd(2024, 3, 1), ymd(2024, 2, 1), ymd(2024, 4, 1)];
    let filter = DateFilter::new(&[], &individual_dates);
    assert_eq!(filter.contains(&ymd(2024, 3, 1)), true);
    assert_eq!(filter.contains(&ymd(2024, 1, 1)), false);
    assert_eq!(filter.oldest_date, filter.dates.first().cloned());
    assert_eq!(filter.newest_date, filter.dates.last().cloned());
}

#[test]
fn test_filter_only_ranges() {
    let date_ranges = vec![
        ymd(2024, 3, 1),
        ymd(2024, 3, 10),
        ymd(2024, 1, 10),
        ymd(2024, 1, 1),
    ];
    let filter = DateFilter::new(&date_ranges, &[]);
    assert!(!filter.date_ranges.is_empty());

    let expected_oldest = filter.date_ranges.first().map(|(start, _)| *start);
    assert_eq!(filter.oldest_date, expected_oldest);

    let expected_newest = filter.date_ranges.last().map(|(_, end)| *end);
    assert_eq!(filter.newest_date, expected_newest);

    assert_eq!(filter.contains(&ymd(2024, 1, 1)), true);
    assert_eq!(filter.contains(&ymd(2024, 1, 10)), true);
    assert_eq!(filter.contains(&ymd(2024, 1, 5)), true);
    assert_eq!(filter.contains(&ymd(2024, 2, 1)), false);
}

#[test]
fn test_filter_both_ranges_and_dates() {
    let date_ranges = vec![
        ymd(2024, 1, 1),
        ymd(2024, 1, 10),
        ymd(2024, 3, 1),
        ymd(2024, 3, 10),
    ];
    let individual_dates = vec![ymd(2024, 4, 1), ymd(2024, 2, 1), ymd(2024, 3, 15)];
    let filter = DateFilter::new(&date_ranges, &individual_dates);

    assert_eq!(filter.oldest_date, Some(ymd(2024, 1, 1)));
    assert_eq!(filter.newest_date, Some(ymd(2024, 4, 1)));

    assert_eq!(filter.contains(&ymd(2024, 1, 5)), true);
    assert_eq!(filter.contains(&ymd(2024, 1, 1)), true);
    assert_eq!(filter.contains(&ymd(2024, 1, 10)), true);
    assert_eq!(filter.contains(&ymd(2024, 6, 1)), false);
}

#[test]
fn test_filter_swapped_pair_is_identical() {
    // a pair given backward builds the very same filter
    let forward = DateFilter::new(&[ymd(2024, 3, 1), ymd(2024, 3, 10)], &[]);
    let backward = DateFilter::new(&[ymd(2024, 3, 10), ymd(2024, 3, 1)], &[]);
    assert_eq!(forward.date_ranges, backward.date_ranges);
    assert_eq!(forward.dates, backward.dates);
    assert_eq!(forward.oldest_date, backward.oldest_date);
    assert_eq!(forward.newest_date, backward.newest_date);
    assert!(backward.contains(&ymd(2024, 3, 1)));
    assert!(backward.contains(&ymd(2024, 3, 10)));
    assert!(backward.contains(&ymd(2024, 3, 5)));
    assert!(!backward.contains(&ymd(2024, 2, 29)));
}

#[test]
fn test_filter_range_boundaries_inclusive() {
    let filter = DateFilter::new(
        &[ymd(2024, 2, 10), ymd(2024, 2, 20)],
        &[ymd(2024, 2, 10)],
    );
    // a single date equal to a range boundary is still contained
    assert!(filter.contains(&ymd(2024, 2, 10)));
    assert!(filter.contains(&ymd(2024, 2, 20)));
    assert!(!filter.contains(&ymd(2024, 2, 9)));
    assert!(!filter.contains(&ymd(2024, 2, 21)));
}

#[test]
fn test_filter_duplicates_tolerated() {
    let dates = vec![ymd(2024, 5, 5), ymd(2024, 5, 5)];
    let ranges = vec![
        ymd(2024, 5, 1),
        ymd(2024, 5, 3),
        ymd(2024, 5, 1),
        ymd(2024, 5, 3),
    ];
    let filter = DateFilter::new(&ranges, &dates);
    assert!(filter.contains(&ymd(2024, 5, 5)));
    assert!(filter.contains(&ymd(2024, 5, 2)));
    assert_eq!(filter.oldest_date, Some(ymd(2024, 5, 1)));
    assert_eq!(filter.newest_date, Some(ymd(2024, 5, 5)));
}

#[test]
fn test_filter_is_empty() {
    let empty = DateFilter::new(&[], &[]);
    assert!(empty.is_empty());
    let with_date = DateFilter::new(&[], &[ymd(2024, 1, 2)]);
    assert!(!with_date.is_empty());
    let with_range = DateFilter::new(&[ymd(2024, 1, 2), ymd(2024, 1, 3)], &[]);
    assert!(!with_range.is_empty());
}

#[test]
fn test_date_new_checks_calendar() {
    assert!(Date::new(2024, 2, 29).is_some());
    assert!(Date::new(2023, 2, 29).is_none());
    assert!(Date::new(1900, 2, 29).is_none());
    assert!(Date::new(2000, 2, 29).is_some());
    assert!(Date::new(2024, 4, 31).is_none());
    assert!(Date::new(2024, 0, 1).is_none());
    assert!(Date::new(2024, 13, 1).is_none());
    assert!(Date::new(0, 1, 1).is_none());
    assert!(Date::new(10000, 1, 1).is_none());
}

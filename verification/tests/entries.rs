use idid::date_filter::ymd;
use idid::entry::{
    escape_for_json, make_record, split_reversed_lines, Entry, EntryFilter, EntryIterator,
    START_RECORDING,
};
use idid::hh_mm;
use idid::pick;
use idid::timestamp::parse_rfc3339;
use idid::DateFilter;

/// Pull every entry, panicking on a malformed line.
fn collect_entries(it: &mut EntryIterator) -> Vec<Entry> {
    let mut out = Vec::new();
    loop {
        match it.next_entry().unwrap() {
            Some(e) => out.push(e),
            None => return out,
        }
    }
}

// Two entries
fn sample_simple() -> String {
    "2024-04-01T08:00:00Z\t*~*~*--------------------\n2024-04-01T12:00:00Z\tSample text\n2024-04-01T12:15:00Z\tAnother entry"
    .to_string()
}

/// One entry for each day of the work week
fn sample_week() -> String {
    "2024-03-25T09:00:00Z\t*~*~*--------------------\n2024-03-25T17:00:00Z\tMonday\n2024-03-26T09:00:00Z\t*~*~*--------------------\n2024-03-26T17:00:00Z\tTuesday\n2024-03-27T08:00:00Z\t*~*~*--------------------\n2024-03-27T09:00:00Z\t*~*~*--------------------\n2024-03-27T17:00:00Z\tWednesday\n2024-03-28T09:00:00Z\t*~*~*--------------------\n2024-03-28T17:00:00Z\tThursday\n2024-03-29T09:00:00Z\t*~*~*--------------------\n2024-03-29T17:00:00Z\tFriday\n"
    .to_string()
}

/// A day with 4 issue, 3 messages, and total of 10 entries
fn sample_day() -> String {
    "2024-04-01T08:00:00Z\t*~*~*--------------------\n2024-04-01T08:10:00Z\t+messages\n2024-04-01T08:15:00Z\tday planning and prep\n2024-04-01T09:00:00Z\treviewed material for meeting\n2024-04-01T10:05:30Z\t+meeting about issues with Acme Corp\n2024-04-01T10:20:00Z\t+messages Acme Corp\n2024-04-01T12:05:00Z\t+issue 22A wip\n2024-04-01T12:55:00Z\t*~*~*--------------------\n2024-04-01T13:30:00Z\t+issue 22A resolved\n2024-04-01T14:00:00Z\t+messages\n2024-04-01T15:50:00Z\t+issue 27 resolved\n2024-04-01T16:55:00Z\t+issue 24 wip\n"
    .to_string()
}

#[test]
fn test_entry_from_tsv() {
    let line = "2024-04-01T12:00:00+00:00\tSample text";
    let entry = Entry::from_tsv(line).unwrap();
    assert_eq!(entry.1, "Sample text");
}

#[test]
fn test_entry_from_tsv_keeps_later_tabs() {
    let line = "2024-04-01T12:00:00+00:00\ta\tb";
    let entry = Entry::from_tsv(line).unwrap();
    assert_eq!(entry.1, "a\tb");
}

#[test]
fn test_entry_from_tsv_rejects_garbage() {
    assert_eq!(
        Entry::from_tsv("no timestamp here\ttext").unwrap_err(),
        "DateTime parser error 'no timestamp here': invalid timestamp 'no timestamp here'"
    );
    assert_eq!(
        Entry::from_tsv("").unwrap_err(),
        "log line has no tab separator: ''"
    );
}

#[test]
fn test_entry_from_tsv_rejects_tabless_timestamp() {
    // even a line holding a valid bare timestamp is malformed without a tab
    let line = "2024-04-01T12:00:00+00:00";
    assert_eq!(
        Entry::from_tsv(line).unwrap_err(),
        format!("log line has no tab separator: '{}'", line)
    );
}

#[test]
fn test_marker_is_matched_by_equality() {
    // a description that merely begins with the marker is an ordinary
    // entry, not a session boundary
    let src = format!(
        "2024-04-01T08:00:00Z\t{}\n2024-04-01T09:00:00Z\t{} extra words\n2024-04-01T10:00:00Z\tlater entry\n",
        START_RECORDING, START_RECORDING
    );
    let mut it = EntryIterator::new(split_reversed_lines(&src), EntryFilter::All, None);
    let entries = collect_entries(&mut it);
    let texts: Vec<&str> = entries.iter().map(|e| e.text.as_str()).collect();
    assert_eq!(
        texts,
        vec!["later entry", &format!("{} extra words", START_RECORDING)[..]]
    );
}

#[test]
fn test_pick_iterator_empty() {
    let mut iterator = EntryIterator::new(Vec::new(), EntryFilter::All, None);
    let next_value = iterator.next_entry().unwrap();
    assert!(next_value.is_none());
}

#[test]
fn test_entry_iterator_new() {
    let source: String = sample_simple();
    let lines = split_reversed_lines(&source);

    // Only get one of the two possible entries
    let filter = EntryFilter::TextContains("Sample".to_string());
    let mut iterator = EntryIterator::new(lines, filter, None);
    let entries = collect_entries(&mut iterator);

    assert_eq!(1, entries.len());
    assert_eq!(entries[0].text, "Sample text");
}

#[test]
fn test_pick_with_datefilter_all() {
    let source: String = sample_week();
    let date_ranges = vec![ymd(2024, 4, 1), ymd(2024, 3, 1)];
    let filter = DateFilter::new(&date_ranges, &[]);

    let mut it = pick(source, &filter);
    let actual = collect_entries(&mut it).len();
    assert_eq!(5, actual);
}

#[test]
fn test_pick_empty() {
    let mut it = EntryIterator::new(split_reversed_lines(""), EntryFilter::All, None);
    assert!(it.next_entry().unwrap().is_none());
}

#[test]
fn test_pick_all() {
    let src: String = sample_week();
    let mut iterator = EntryIterator::new(split_reversed_lines(&src), EntryFilter::All, None);
    assert_eq!(5, collect_entries(&mut iterator).len());
}

#[test]
fn test_pick_filter_by_text() {
    let src = sample_day();
    let filter = EntryFilter::TextStartsWith("+issue".to_string());
    let mut iterator = EntryIterator::new(split_reversed_lines(&src), filter, None);
    assert_eq!(4, collect_entries(&mut iterator).len());
}

#[test]
fn test_week_reconstruction_order_and_bounds() {
    // Seven start markers and five description lines give exactly five
    // entries, most recent first, each beginning at the line before it.
    let src = sample_week();
    let mut it = EntryIterator::new(split_reversed_lines(&src), EntryFilter::All, None);
    let entries = collect_entries(&mut it);
    assert_eq!(5, entries.len());
    let texts: Vec<&str> = entries.iter().map(|e| e.text.as_str()).collect();
    assert_eq!(
        texts,
        vec!["Friday", "Thursday", "Wednesday", "Tuesday", "Monday"]
    );
    let friday = &entries[0];
    assert_eq!(friday.begin, parse_rfc3339("2024-03-29T09:00:00Z").unwrap());
    assert_eq!(friday.cease, parse_rfc3339("2024-03-29T17:00:00Z").unwrap());
    let wednesday = &entries[2];
    assert_eq!(
        wednesday.begin,
        parse_rfc3339("2024-03-27T09:00:00Z").unwrap()
    );
}

#[test]
fn test_early_termination_skips_corrupt_older_lines() {
    // The first two lines are older than the bound; the very first is not
    // even a log line.  The scan must stop before reading either.
    let src = "this line is not a log record at all\n2024-03-27T17:00:00Z\tWednesday\n2024-03-28T09:00:00Z\t*~*~*--------------------\n2024-03-28T17:00:00Z\tThursday\n2024-03-29T09:00:00Z\t*~*~*--------------------\n2024-03-29T17:00:00Z\tFriday\n"
    .to_string();
    let filter = DateFilter::new(&[ymd(2024, 3, 28), ymd(2024, 3, 29)], &[]);
    let mut it = pick(src, &filter);
    let entries = collect_entries(&mut it);
    let texts: Vec<&str> = entries.iter().map(|e| e.text.as_str()).collect();
    assert_eq!(texts, vec!["Friday", "Thursday"]);
}

#[test]
fn test_corrupt_line_in_range_fails() {
    let src = "2024-03-29T09:00:00Z\t*~*~*--------------------\nnot a record\n2024-03-29T17:00:00Z\tFriday\n"
    .to_string();
    let mut it = EntryIterator::new(split_reversed_lines(&src), EntryFilter::All, None);
    let mut saw_error = false;
    loop {
        match it.next_entry() {
            Ok(Some(_)) => {}
            Ok(None) => break,
            Err(e) => {
                saw_error = true;
                // the second line from the end is the corrupt one
                assert_eq!(
                    e,
                    "TSV #2 from end: log line has no tab separator: 'not a record'"
                );
                break;
            }
        }
    }
    assert!(saw_error);
}

#[test]
fn test_entry_duration_and_hh_mm() {
    let e = Entry {
        begin: parse_rfc3339("2024-04-01T08:00:00Z").unwrap(),
        cease: parse_rfc3339("2024-04-01T09:02:30Z").unwrap(),
        text: "x".to_string(),
    };
    assert_eq!(e.duration(), 3750);
    assert_eq!(e.hh_mm(), "01:02");
    assert_eq!(hh_mm(0), "00:00");
    assert_eq!(hh_mm(59), "00:00");
    assert_eq!(hh_mm(3600), "01:00");
    assert_eq!(hh_mm(100 * 3600), "100:00");
}

#[test]
fn test_entry_duration_offsets_matter() {
    // same wall-clock time, different offsets: one hour apart as instants
    let e = Entry {
        begin: parse_rfc3339("2024-04-01T08:00:00+01:00").unwrap(),
        cease: parse_rfc3339("2024-04-01T08:00:00+00:00").unwrap(),
        text: String::new(),
    };
    assert_eq!(e.duration(), 3600);
}

#[test]
fn test_entry_serialize() {
    let e = Entry {
        begin: parse_rfc3339("2024-04-01T08:00:00+00:00").unwrap(),
        cease: parse_rfc3339("2024-04-01T08:10:00+00:00").unwrap(),
        text: "did a thing".to_string(),
    };
    assert_eq!(
        e.serialize(&false, false),
        "2024-04-01T08:00:00+00:00\t00:10\tdid a thing"
    );
    assert_eq!(
        e.serialize(&true, false),
        "2024-04-01T08:00:00+00:00\t600\tdid a thing"
    );
    assert_eq!(
        e.serialize(&false, true),
        "{\"begin\":\"2024-04-01T08:00:00+00:00\",\"duration\":\"00:10\",\"text\":\"did a thing\"}"
    );
    assert_eq!(
        e.serialize(&true, true),
        "{\"begin\":\"2024-04-01T08:00:00+00:00\",\"seconds\":600,\"text\":\"did a thing\"}"
    );
}

#[test]
fn test_entry_display_string() {
    let e = Entry {
        begin: parse_rfc3339("2024-04-01T08:00:00+00:00").unwrap(),
        cease: parse_rfc3339("2024-04-01T08:10:00+00:00").unwrap(),
        text: "t".to_string(),
    };
    assert_eq!(
        e.display_string(),
        "2024-04-01T08:00:00+00:00\t2024-04-01T08:10:00+00:00\tt"
    );
}

#[test]
fn test_escape_for_json() {
    assert_eq!(
        escape_for_json("a\"b\\c\nd\re\tf"),
        "a\\\"b\\\\c\\nd\\re\\tf"
    );
    assert_eq!(escape_for_json("plain"), "plain");
    assert_eq!(escape_for_json(""), "");
}

#[test]
fn test_make_record() {
    let ts = parse_rfc3339("2024-04-01T08:00:00+00:00").unwrap();
    assert_eq!(
        make_record(&ts, Some("worked")),
        "2024-04-01T08:00:00+00:00\tworked\n"
    );
    let marker_line = make_record(&ts, None);
    assert_eq!(
        marker_line,
        format!("2024-04-01T08:00:00+00:00\t{}\n", START_RECORDING)
    );
}

#[test]
fn test_entry_is_in() {
    let filter = DateFilter::new(&[], &[ymd(2024, 4, 1)]);
    let inside = Entry {
        begin: parse_rfc3339("2024-04-01T08:00:00Z").unwrap(),
        cease: parse_rfc3339("2024-04-02T08:10:00Z").unwrap(),
        text: String::new(),
    };
    // membership goes by the begin date
    assert!(inside.is_in(&filter));
    let outside = Entry {
        begin: parse_rfc3339("2024-04-02T08:00:00Z").unwrap(),
        cease: parse_rfc3339("2024-04-02T08:10:00Z").unwrap(),
        text: String::new(),
    };
    assert!(!outside.is_in(&filter));
}

//! The entry model and the reconstruction engine.
//!
//! A log line is `<timestamp>\t<text>`.  An [`Entry`] is the interval
//! between two adjacent lines: it begins at the older line's timestamp and
//! takes its end and text from the newer one.  The engine scans lines from
//! the end of the log backward, carrying one pending line, and yields each
//! interval that passes the filter; a line whose text is exactly the
//! session-start marker breaks continuity instead of describing an interval.

use vstd::prelude::*;

verus! {

use vstd::string::{StrSliceExecFns, StringExecFns};
use crate::date::{Date, spec_date_lt, date_lt};
use crate::timestamp::{
    Timestamp,
    wf_timestamp,
    spec_epoch_seconds,
    epoch_seconds,
    spec_parse_rfc3339,
    parse_rfc3339,
    spec_format_timestamp,
    format_rfc3339,
};
use crate::date_filter::{DateFilter, spec_filter_wf, spec_filter_contains};
use crate::strutil::{
    spec_starts_with,
    spec_str_contains,
    spec_trim,
    spec_find_char,
    spec_u64_digits,
    spec_i64_string,
    spec_i64_pad2,
    str_starts_with,
    str_contains,
    find_char_in,
    lemma_find_char_first,
    trim_bounds,
    append_u64,
    append_i64,
    append_i64_pad2,
};

/// The reserved text that marks the start of a recording session.
pub const START_RECORDING: &'static str = "*~*~*--------------------";

/// The session-start marker's characters.
pub open spec fn spec_marker() -> Seq<char> {
    "*~*~*--------------------"@
}

/// An entry: it begins at `begin`, ends at `cease`, and `text` says what
/// was done.
#[derive(Clone)]
pub struct Entry {
    pub begin: Timestamp,
    pub cease: Timestamp,
    pub text: String,
}

impl View for Entry {
    type V = (Timestamp, Timestamp, Seq<char>);

    open spec fn view(&self) -> (Timestamp, Timestamp, Seq<char>) {
        (self.begin, self.cease, self.text@)
    }
}

/// Both of an entry's instants are well formed.
pub open spec fn wf_entry(e: (Timestamp, Timestamp, Seq<char>)) -> bool {
    wf_timestamp(e.0) && wf_timestamp(e.1)
}

/// What a log line holds: the timestamp before the first tab, and the text
/// after it, further tabs included.  A line without a tab is malformed,
/// whatever it holds.  `None` is a malformed line.
pub open spec fn spec_parse_line(s: Seq<char>) -> Option<(Timestamp, Seq<char>)> {
    match spec_find_char(s, '\t', 0) {
        None => None,
        Some(k) => match spec_parse_rfc3339(s.subrange(0, k)) {
            Some(ts) => Some((ts, s.subrange(k + 1, s.len() as int))),
            None => None,
        },
    }
}

/// The error a malformed log line carries: a line with no tab is named
/// whole; otherwise the text before the tab would not read as a timestamp.
pub open spec fn spec_from_tsv_err(line: Seq<char>) -> Seq<char>
    recommends
        spec_parse_line(line) is None,
{
    match spec_find_char(line, '\t', 0) {
        None => "log line has no tab separator: '"@ + line + "'"@,
        Some(k) => "DateTime parser error '"@ + line.subrange(0, k) + "': "@
            + crate::timestamp::spec_timestamp_err(line.subrange(0, k)),
    }
}

impl Entry {
    /// Split a log line into its timestamp and text.
    ///
    /// Fails exactly on lines [`spec_parse_line`] rejects, with the message
    /// [`spec_from_tsv_err`] names: the whole line when it has no tab, else
    /// the timestamp text that would not read.
    pub fn from_tsv(line: &str) -> (r: Result<(Timestamp, String), String>)
        ensures
            match (r, spec_parse_line(line@)) {
                (Ok((ts, text)), Some((sts, stext))) => ts == sts && text@ == stext && wf_timestamp(
                    ts,
                ),
                (Err(m), None) => m@ == spec_from_tsv_err(line@),
                _ => false,
            },
    {
        let len = line.unicode_len();
        match find_char_in(line, '\t', 0, len) {
            None => {
                proof {
                    lemma_find_char_first(line@, '\t', 0);
                    match spec_find_char(line@, '\t', 0) {
                        Some(k0) => {
                            assert(line@[k0] == '\t');
                        },
                        None => {},
                    }
                }
                let mut m = String::new();
                m.append("log line has no tab separator: '");
                m.append(line);
                m.append("'");
                Err(m)
            },
            Some(k) => {
                proof {
                    lemma_find_char_first(line@, '\t', 0);
                    match spec_find_char(line@, '\t', 0) {
                        Some(k0) => {
                            if k0 < k {
                                assert(line@[k0] == '\t');
                            } else if k0 > k {
                                assert(line@[k as int] == '\t');
                            }
                        },
                        None => {
                            assert(line@[k as int] == '\t');
                        },
                    }
                }
                let when_str = line.substring_char(0, k);
                match parse_rfc3339(when_str) {
                    Ok(ts) => {
                        let text = line.substring_char(k + 1, len);
                        Ok((ts, String::from_str(text)))
                    },
                    Err(e) => {
                        let m = tsv_error(when_str, e);
                        proof {
                            assert(m@ =~= spec_from_tsv_err(line@));
                        }
                        Err(m)
                    },
                }
            },
        }
    }

    /// Seconds from `begin` to `cease`.
    pub fn duration(&self) -> (r: i64)
        requires
            wf_timestamp(self.begin),
            wf_timestamp(self.cease),
        ensures
            r == spec_epoch_seconds(self.cease) - spec_epoch_seconds(self.begin),
    {
        epoch_seconds(&self.cease) - epoch_seconds(&self.begin)
    }

    /// The entry's duration as zero-padded `HH:MM`.
    pub fn hh_mm(&self) -> (r: String)
        requires
            wf_timestamp(self.begin),
            wf_timestamp(self.cease),
        ensures
            r@ == spec_hh_mm(spec_epoch_seconds(self.cease) - spec_epoch_seconds(self.begin)),
    {
        let d = self.duration();
        hh_mm(d)
    }

    /// The entry as one line of text: begin, cease and the text, tab
    /// separated.
    pub fn display_string(&self) -> (r: String)
        requires
            wf_timestamp(self.begin),
            wf_timestamp(self.cease),
        ensures
            r@ == spec_format_timestamp(self.begin, 'T') + seq!['\t'] + spec_format_timestamp(
                self.cease,
                'T',
            ) + seq!['\t'] + self.text@,
    {
        proof {
            reveal_strlit("\t");
        }
        let mut r = format_rfc3339(&self.begin);
        r.append("\t");
        let c = format_rfc3339(&self.cease);
        r.append(c.as_str());
        r.append("\t");
        r.append(self.text.as_str());
        proof {
            assert(r@ =~= spec_format_timestamp(self.begin, 'T') + seq!['\t']
                + spec_format_timestamp(self.cease, 'T') + seq!['\t'] + self.text@);
        }
        r
    }

    /// The entry serialized for output: tab-separated text, or a JSON
    /// object, with the duration either as whole seconds or as `HH:MM`.
    pub fn serialize(&self, in_seconds: &bool, json: bool) -> (r: String)
        requires
            wf_timestamp(self.begin),
            wf_timestamp(self.cease),
        ensures
            r@ == spec_serialize((self.begin, self.cease, self.text@), *in_seconds, json),
    {
        let d = self.duration();
        let value: String = if *in_seconds {
            let mut v = String::new();
            append_i64(&mut v, d);
            v
        } else {
            hh_mm(d)
        };
        if json {
            proof {
                reveal_strlit("\"");
            }
            let mut r = String::new();
            r.append("{\"begin\":\"");
            let b = format_rfc3339(&self.begin);
            r.append(b.as_str());
            if *in_seconds {
                r.append("\",\"seconds\":");
            } else {
                r.append("\",\"duration\":\"");
            }
            r.append(value.as_str());
            if *in_seconds {
                r.append(",\"text\":\"");
            } else {
                r.append("\",\"text\":\"");
            }
            let esc = escape_for_json(self.text.as_str());
            r.append(esc.as_str());
            r.append("\"}");
            proof {
                assert(r@ =~= spec_serialize((self.begin, self.cease, self.text@), *in_seconds, json));
            }
            r
        } else {
            proof {
                reveal_strlit("\t");
            }
            let mut r = format_rfc3339(&self.begin);
            r.append("\t");
            r.append(value.as_str());
            r.append("\t");
            r.append(self.text.as_str());
            proof {
                assert(r@ =~= spec_serialize((self.begin, self.cease, self.text@), *in_seconds, json));
            }
            r
        }
    }

    /// Whether the entry's begin date is of interest to `filter`.
    pub fn is_in(&self, filter: &DateFilter) -> (r: bool)
        requires
            spec_filter_wf(*filter),
        ensures
            r == spec_filter_contains(*filter, self.begin.date),
    {
        filter.contains(&self.begin.date)
    }
}

/// The serialized form of an entry; `spec_serialize(e, s, j)` is what
/// `Entry::serialize` returns for duration-in-seconds `s` and JSON `j`.
pub open spec fn spec_serialize(
    e: (Timestamp, Timestamp, Seq<char>),
    in_seconds: bool,
    json: bool,
) -> Seq<char> {
    let d = spec_epoch_seconds(e.1) - spec_epoch_seconds(e.0);
    let value = if in_seconds {
        spec_i64_string(d)
    } else {
        spec_hh_mm(d)
    };
    if json {
        let label_part = if in_seconds {
            "\",\"seconds\":"@ + value + ",\"text\":\""@
        } else {
            "\",\"duration\":\""@ + value + "\",\"text\":\""@
        };
        "{\"begin\":\""@ + spec_format_timestamp(e.0, 'T') + label_part + spec_escape(e.2)
            + "\"}"@
    } else {
        spec_format_timestamp(e.0, 'T') + seq!['\t'] + value + seq!['\t'] + e.2
    }
}

/// Truncating division, as Rust's `/` on signed integers rounds.
pub open spec fn spec_tdiv(a: int, b: int) -> int {
    if a >= 0 {
        a / b
    } else {
        -((-a) / b)
    }
}

/// Truncating remainder, as Rust's `%` on signed integers rounds.
pub open spec fn spec_tmod(a: int, b: int) -> int {
    if a >= 0 {
        a % b
    } else {
        -((-a) % b)
    }
}

/// A duration in seconds as zero-padded `HH:MM`: whole hours, then the
/// leftover minutes.
pub open spec fn spec_hh_mm(d: int) -> Seq<char> {
    spec_i64_pad2(spec_tdiv(d, 3600)) + seq![':'] + spec_i64_pad2(spec_tmod(spec_tdiv(d, 60), 60))
}

/// Write a duration in seconds as zero-padded `HH:MM`.
pub fn hh_mm(duration_secs: i64) -> (r: String)
    requires
        duration_secs != i64::MIN,
    ensures
        r@ == spec_hh_mm(duration_secs as int),
{
    proof {
        reveal_strlit(":");
    }
    let mut r = String::new();
    if duration_secs >= 0 {
        let m: u64 = duration_secs as u64;
        append_i64_pad2(&mut r, (m / 3600) as i64);
        r.append(":");
        append_i64_pad2(&mut r, ((m / 60) % 60) as i64);
    } else {
        let m: u64 = (-duration_secs) as u64;
        let hours: i64 = -((m / 3600) as i64);
        let minutes: i64 = -(((m / 60) % 60) as i64);
        append_i64_pad2(&mut r, hours);
        r.append(":");
        append_i64_pad2(&mut r, minutes);
    }
    proof {
        assert(r@ =~= spec_hh_mm(duration_secs as int));
    }
    r
}

/// `c` as it appears inside a JSON string.
pub open spec fn spec_escape_char(c: char) -> Seq<char> {
    if c == '"' {
        seq!['\\', '"']
    } else if c == '\\' {
        seq!['\\', '\\']
    } else if c == '\n' {
        seq!['\\', 'n']
    } else if c == '\r' {
        seq!['\\', 'r']
    } else if c == '\t' {
        seq!['\\', 't']
    } else {
        seq![c]
    }
}

/// `s` with every character escaped for a JSON string.
pub open spec fn spec_escape(s: Seq<char>) -> Seq<char>
    decreases s.len(),
{
    if s.len() == 0 {
        Seq::empty()
    } else {
        spec_escape(s.drop_last()) + spec_escape_char(s.last())
    }
}

/// Escape quotes, backslashes and control whitespace for a JSON string.
#[verifier::loop_isolation(false)]
pub fn escape_for_json(text: &str) -> (r: String)
    ensures
        r@ == spec_escape(text@),
{
    let len = text.unicode_len();
    let mut r = String::new();
    let mut i: usize = 0;
    while i < len
        invariant
            0 <= i <= len,
            r@ == spec_escape(text@.subrange(0, i as int)),
        decreases len - i,
    {
        let c = text.get_char(i);
        proof {
            assert(text@.subrange(0, i + 1).drop_last() =~= text@.subrange(0, i as int));
            assert(text@.subrange(0, i + 1).last() == text@[i as int]);
        }
        if c == '"' {
            proof {
                reveal_strlit("\\\"");
            }
            r.append("\\\"");
            proof {
                assert(r@ =~= spec_escape(text@.subrange(0, i + 1)));
            }
        } else if c == '\\' {
            proof {
                reveal_strlit("\\\\");
            }
            r.append("\\\\");
            proof {
                assert(r@ =~= spec_escape(text@.subrange(0, i + 1)));
            }
        } else if c == '\n' {
            proof {
                reveal_strlit("\\n");
            }
            r.append("\\n");
            proof {
                assert(r@ =~= spec_escape(text@.subrange(0, i + 1)));
            }
        } else if c == '\r' {
            proof {
                reveal_strlit("\\r");
            }
            r.append("\\r");
            proof {
                assert(r@ =~= spec_escape(text@.subrange(0, i + 1)));
            }
        } else if c == '\t' {
            proof {
                reveal_strlit("\\t");
            }
            r.append("\\t");
            proof {
                assert(r@ =~= spec_escape(text@.subrange(0, i + 1)));
            }
        } else {
            let piece = text.substring_char(i, i + 1);
            r.append(piece);
            proof {
                assert(piece@ =~= seq![text@[i as int]]);
                assert(r@ =~= spec_escape(text@.subrange(0, i + 1)));
            }
        }
        i = i + 1;
    }
    proof {
        assert(text@.subrange(0, len as int) =~= text@);
    }
    r
}

/// One log line for `ts` with `text`, or with the session-start marker when
/// no text is given: timestamp, tab, text, newline.
pub fn make_record(ts: &Timestamp, text: Option<&str>) -> (r: String)
    requires
        wf_timestamp(*ts),
    ensures
        r@ == spec_format_timestamp(*ts, 'T') + seq!['\t'] + (match text {
            Some(t) => t@,
            None => spec_marker(),
        }) + seq!['\n'],
{
    proof {
        reveal_strlit("\t");
        reveal_strlit("\n");
    }
    let mut r = format_rfc3339(ts);
    r.append("\t");
    match text {
        Some(t) => r.append(t),
        None => r.append(START_RECORDING),
    }
    r.append("\n");
    proof {
        assert(r@ =~= spec_format_timestamp(*ts, 'T') + seq!['\t'] + (match text {
            Some(t) => t@,
            None => spec_marker(),
        }) + seq!['\n']);
    }
    r
}

/// The error for a log line whose timestamp would not read.
fn tsv_error(when_str: &str, detail: String) -> (r: String)
    ensures
        r@ == "DateTime parser error '"@ + when_str@ + "': "@ + detail@,
{
    let mut m = String::new();
    m.append("DateTime parser error '");
    m.append(when_str);
    m.append("': ");
    m.append(detail.as_str());
    m
}

/// Which entries a scan yields.
pub enum EntryFilter {
    /// Every entry.
    All,
    /// Entries whose begin date the date filter contains.
    Dates(DateFilter),
    /// Entries whose text starts with the given prefix.
    TextStartsWith(String),
    /// Entries whose text contains the given fragment.
    TextContains(String),
}

/// The filter's own validity: a date filter must be well formed.
pub open spec fn spec_entry_filter_wf(f: EntryFilter) -> bool {
    match f {
        EntryFilter::Dates(df) => spec_filter_wf(df),
        _ => true,
    }
}

/// Whether the filter accepts the entry.
pub open spec fn spec_entry_matches(f: EntryFilter, e: (Timestamp, Timestamp, Seq<char>)) -> bool {
    match f {
        EntryFilter::All => true,
        EntryFilter::Dates(df) => spec_filter_contains(df, e.0.date),
        EntryFilter::TextStartsWith(p) => spec_starts_with(e.2, p@),
        EntryFilter::TextContains(p) => spec_str_contains(e.2, p@),
    }
}

/// Whether the filter accepts the entry.
pub fn entry_matches(f: &EntryFilter, e: &Entry) -> (r: bool)
    requires
        spec_entry_filter_wf(*f),
    ensures
        r == spec_entry_matches(*f, e@),
{
    match f {
        EntryFilter::All => true,
        EntryFilter::Dates(df) => df.contains(&e.begin.date),
        EntryFilter::TextStartsWith(p) => str_starts_with(e.text.as_str(), p.as_str()),
        EntryFilter::TextContains(p) => str_contains(e.text.as_str(), p.as_str()),
    }
}

/// What one call to the scanner reported.
pub enum ScanOutcome {
    /// An entry passed the filter.
    Yielded(Entry),
    /// The line was consumed without an entry to yield.
    Skipped,
    /// The scan is over; no line will be read again.
    Finished,
}

/// The reverse-scan state machine: one unit of carried state, the pending
/// more-recent line, plus the filter and the early-termination bound.
pub struct EntryScanner {
    /// Which entries to yield.
    pub filter: EntryFilter,
    /// Stop for good at the first line dated before this.
    pub oldest: Option<Date>,
    /// The more recent line carried between steps.
    pub last_line: Option<(Timestamp, String)>,
    /// The scan has ended and reads nothing further.
    pub done: bool,
    /// How many lines from the end of the log have been read.
    pub line_from_end: u64,
}

/// The carried line's view.
pub open spec fn spec_pending(p: Option<(Timestamp, String)>) -> Option<(Timestamp, Seq<char>)> {
    match p {
        Some((t, s)) => Some((t, s@)),
        None => None,
    }
}

/// A scanner whose filter and carried line are well formed.
pub open spec fn spec_scanner_wf(s: EntryScanner) -> bool {
    &&& spec_entry_filter_wf(s.filter)
    &&& match s.last_line {
        Some((t, _)) => wf_timestamp(t),
        None => true,
    }
}

/// What the whole scan from line `i` on yields, and how it ends: the
/// entries in order, and `Some(j)` when line `j` is malformed, `None` for a
/// clean end (the lines ran out, or one fell before `oldest`).
pub open spec fn spec_scan(
    lines: Seq<Seq<char>>,
    i: int,
    pending: Option<(Timestamp, Seq<char>)>,
    filter: EntryFilter,
    oldest: Option<Date>,
) -> (Seq<(Timestamp, Timestamp, Seq<char>)>, Option<int>)
    decreases lines.len() - i,
{
    if i < 0 || i >= lines.len() {
        (Seq::empty(), Option::None)
    } else {
        match spec_parse_line(spec_trim(lines[i])) {
            None => (Seq::empty(), Some(i)),
            Some((when, text)) => {
                if (match oldest {
                    Some(o) => spec_date_lt(when.date, o),
                    None => false,
                }) {
                    (Seq::empty(), Option::None)
                } else {
                    let new_pending: Option<(Timestamp, Seq<char>)> = if text == spec_marker() {
                        Option::None
                    } else {
                        Some((when, text))
                    };
                    let rest = spec_scan(lines, i + 1, new_pending, filter, oldest);
                    match pending {
                        Some((cw, ct)) => {
                            let e = (when, cw, ct);
                            if spec_entry_matches(filter, e) {
                                (seq![e] + rest.0, rest.1)
                            } else {
                                rest
                            }
                        },
                        None => rest,
                    }
                }
            },
        }
    }
}

/// The error the scan raises at the `n`-th line from the end of the log
/// when that line, trimmed, is malformed.
pub open spec fn spec_step_err(line: Seq<char>, n: int) -> Seq<char> {
    "TSV #"@ + spec_u64_digits(n) + " from end: "@ + spec_from_tsv_err(spec_trim(line))
}

impl EntryScanner {
    /// Feed the scanner the next line from the end of the log.
    ///
    /// The line is trimmed and split; a malformed line ends the scan with an
    /// error naming its distance from the end.  A line dated before the
    /// `oldest` bound finishes the scan for good.  Otherwise the line
    /// becomes the carried state — unless its text is exactly the
    /// session-start marker — and the interval it closes, if any passes the
    /// filter, is yielded.
    pub fn step(&mut self, line: &str) -> (r: Result<ScanOutcome, String>)
        requires
            spec_scanner_wf(*old(self)),
            !old(self).done,
        ensures
            spec_scanner_wf(*final(self)),
            final(self).filter == old(self).filter,
            final(self).oldest == old(self).oldest,
            final(self).line_from_end == (if old(self).line_from_end < u64::MAX {
                (old(self).line_from_end + 1) as u64
            } else {
                old(self).line_from_end
            }),
            match spec_parse_line(spec_trim(line@)) {
                None => (r matches Err(m) && m@ == spec_step_err(
                    line@,
                    final(self).line_from_end as int,
                )) && final(self).done,
                Some((when, text)) => {
                    &&& wf_timestamp(when)
                    &&& if (match old(self).oldest {
                        Some(o) => spec_date_lt(when.date, o),
                        None => false,
                    }) {
                        r == Ok::<ScanOutcome, String>(ScanOutcome::Finished) && final(self).done
                    } else {
                        &&& !final(self).done
                        &&& spec_pending(final(self).last_line) == (if text == spec_marker() {
                            Option::<(Timestamp, Seq<char>)>::None
                        } else {
                            Option::Some((when, text))
                        })
                        &&& match spec_pending(old(self).last_line) {
                            Some((cw, ct)) => {
                                let e = (when, cw, ct);
                                if spec_entry_matches(old(self).filter, e) {
                                    r matches Ok(ScanOutcome::Yielded(en)) && en@ == e && wf_entry(
                                        e,
                                    )
                                } else {
                                    r == Ok::<ScanOutcome, String>(ScanOutcome::Skipped)
                                }
                            },
                            None => r == Ok::<ScanOutcome, String>(ScanOutcome::Skipped),
                        }
                    }
                },
            },
    {
        if self.line_from_end < u64::MAX {
            self.line_from_end = self.line_from_end + 1;
        }
        let (lo, hi) = trim_bounds(line);
        let trimmed = line.substring_char(lo, hi);
        match Entry::from_tsv(trimmed) {
            Err(e) => {
                self.done = true;
                let mut m = String::new();
                m.append("TSV #");
                append_u64(&mut m, self.line_from_end);
                m.append(" from end: ");
                m.append(e.as_str());
                proof {
                    assert(trimmed@ == spec_trim(line@));
                    assert(m@ =~= spec_step_err(line@, self.line_from_end as int));
                }
                Err(m)
            },
            Ok((when, text)) => {
                let stop = match &self.oldest {
                    Some(o) => date_lt(&when.date, o),
                    None => false,
                };
                if stop {
                    self.done = true;
                    return Ok(ScanOutcome::Finished);
                }
                let candidate: Option<Entry> = match &self.last_line {
                    Some((cw, ctext)) => Some(
                        Entry { begin: when, cease: *cw, text: ctext.clone() },
                    ),
                    None => None,
                };
                let is_marker = crate::strutil::str_eq(text.as_str(), START_RECORDING);
                self.last_line = if is_marker {
                    None
                } else {
                    Some((when, text))
                };
                match candidate {
                    Some(e) => {
                        if entry_matches(&self.filter, &e) {
                            Ok(ScanOutcome::Yielded(e))
                        } else {
                            Ok(ScanOutcome::Skipped)
                        }
                    },
                    None => Ok(ScanOutcome::Skipped),
                }
            },
        }
    }
}

/// The lazy reverse iterator over reconstructed entries: the log's lines in
/// reverse order, the position of the next line to read, and the scanner.
pub struct EntryIterator {
    /// The log's lines from last to first.
    pub lines: Vec<String>,
    /// The next line to read.
    pub pos: usize,
    /// The scan state.
    pub scanner: EntryScanner,
}

/// A well-formed iterator.
pub open spec fn spec_iter_wf(it: EntryIterator) -> bool {
    &&& spec_scanner_wf(it.scanner)
    &&& it.pos <= it.lines@.len()
    &&& it.scanner.line_from_end == it.pos as u64
}

/// The entries the iterator has still to yield, and how it will end.
pub open spec fn spec_iter_remaining(it: EntryIterator) -> (
    Seq<(Timestamp, Timestamp, Seq<char>)>,
    Option<int>,
) {
    if it.scanner.done {
        (Seq::empty(), Option::None)
    } else {
        spec_scan(
            it.lines.deep_view(),
            it.pos as int,
            spec_pending(it.scanner.last_line),
            it.scanner.filter,
            it.scanner.oldest,
        )
    }
}

impl EntryIterator {
    /// A fresh scan over `lines`, which hold the log from its last line to
    /// its first.
    pub fn new(lines: Vec<String>, filter: EntryFilter, oldest: Option<Date>) -> (it:
        EntryIterator)
        requires
            spec_entry_filter_wf(filter),
        ensures
            it.lines == lines,
            it.pos == 0,
            it.scanner.filter == filter,
            it.scanner.oldest == oldest,
            it.scanner.last_line is None,
            !it.scanner.done,
            spec_iter_wf(it),
    {
        EntryIterator {
            lines,
            pos: 0,
            scanner: EntryScanner {
                filter,
                oldest,
                last_line: None,
                done: false,
                line_from_end: 0,
            },
        }
    }

    /// The next entry that passes the filter: `Ok(Some(..))` to yield,
    /// `Ok(None)` when the scan is over, and `Err` on a malformed line,
    /// which also ends the scan.
    #[verifier::loop_isolation(false)]
    pub fn next_entry(&mut self) -> (r: Result<Option<Entry>, String>)
        requires
            spec_iter_wf(*old(self)),
        ensures
            spec_iter_wf(*final(self)),
            final(self).lines == old(self).lines,
            final(self).scanner.filter == old(self).scanner.filter,
            final(self).scanner.oldest == old(self).scanner.oldest,
            ({
                let (out, term) = spec_iter_remaining(*old(self));
                &&& out.len() > 0 ==> (r matches Ok(Some(e)) && e@ == out[0] && wf_entry(e@)
                    && spec_iter_remaining(*final(self)).0 =~= out.skip(1)
                    && spec_iter_remaining(*final(self)).1 == term)
                &&& (out.len() == 0 && term is None) ==> (r == Ok::<Option<Entry>, String>(None)
                    && spec_iter_remaining(*final(self)).0.len() == 0 && spec_iter_remaining(
                    *final(self),
                ).1 is None)
                &&& (out.len() == 0 && term is Some) ==> (final(self).scanner.done && (
                r matches Err(m) && m@ == spec_step_err(
                    old(self).lines@[term->Some_0]@,
                    term->Some_0 + 1,
                )))
            }),
    {
        if self.scanner.done {
            return Ok(None);
        }
        while self.pos < self.lines.len()
            invariant
                spec_iter_wf(*self),
                !self.scanner.done,
                self.lines == old(self).lines,
                self.scanner.filter == old(self).scanner.filter,
                self.scanner.oldest == old(self).scanner.oldest,
                spec_iter_remaining(*self) == spec_iter_remaining(*old(self)),
            decreases self.lines@.len() - self.pos,
        {
            let ghost pre = *self;
            let ghost views = pre.lines.deep_view();
            proof {
                assert(views[pre.pos as int] == pre.lines@[pre.pos as int]@);
            }
            let res = self.scanner.step(self.lines[self.pos].as_str());
            self.pos = self.pos + 1;
            let ghost unfolded = spec_scan(
                views,
                pre.pos as int,
                spec_pending(pre.scanner.last_line),
                pre.scanner.filter,
                pre.scanner.oldest,
            );
            match res {
                Ok(ScanOutcome::Yielded(e)) => {
                    proof {
                        let rest = spec_scan(
                            views,
                            pre.pos + 1,
                            spec_pending(self.scanner.last_line),
                            pre.scanner.filter,
                            pre.scanner.oldest,
                        );
                        assert(unfolded.0 =~= seq![e@] + rest.0);
                        assert(spec_iter_remaining(*self).0 =~= unfolded.0.skip(1));
                    }
                    return Ok(Some(e));
                },
                Ok(ScanOutcome::Skipped) => {
                    proof {
                        assert(spec_iter_remaining(*self) == unfolded);
                    }
                },
                Ok(ScanOutcome::Finished) => {
                    proof {
                        assert(unfolded.0.len() == 0 && unfolded.1 is None);
                    }
                    return Ok(None);
                },
                Err(e) => {
                    proof {
                        assert(unfolded.1 is Some);
                    }
                    return Err(e);
                },
            }
        }
        Ok(None)
    }
}

/// The log content split on newlines; a trailing newline adds no empty
/// line, and an empty log has no lines at all.
pub open spec fn spec_split_lines(s: Seq<char>) -> Seq<Seq<char>>
    decreases s.len(),
{
    if s.len() == 0 {
        Seq::empty()
    } else {
        match spec_find_char(s, '\n', 0) {
            None => seq![s],
            Some(k) => if 0 <= k < s.len() {
                seq![s.subrange(0, k)] + spec_split_lines(s.subrange(k + 1, s.len() as int))
            } else {
                seq![s]
            },
        }
    }
}

/// Split the log content into lines and reverse them, so the last line of
/// the log comes first.
#[verifier::loop_isolation(false)]
pub fn split_reversed_lines(input: &str) -> (r: Vec<String>)
    ensures
        r.deep_view() =~= spec_split_lines(input@).reverse(),
{
    let len = input.unicode_len();
    let mut fwd: Vec<String> = Vec::new();
    let mut pos: usize = 0;
    proof {
        assert(input@.subrange(0, len as int) =~= input@);
    }
    while pos < len
        invariant
            0 <= pos <= len,
            spec_split_lines(input@) =~= fwd.deep_view() + spec_split_lines(
                input@.subrange(pos as int, len as int),
            ),
        decreases len - pos,
    {
        let ghost tail = input@.subrange(pos as int, len as int);
        let ghost pre_deep = fwd.deep_view();
        match find_char_in(input, '\n', pos, len) {
            None => {
                proof {
                    lemma_find_char_first(tail, '\n', 0);
                    match spec_find_char(tail, '\n', 0) {
                        Some(k0) => {
                            assert(input@[pos + k0] == '\n');
                        },
                        None => {},
                    }
                }
                let piece = input.substring_char(pos, len);
                fwd.push(String::from_str(piece));
                proof {
                    assert(fwd.deep_view() =~= pre_deep.push(tail)) by {
                        assert(fwd.deep_view().len() == pre_deep.len() + 1);
                        assert forall|t: int| 0 <= t < fwd.deep_view().len() implies fwd.deep_view()[t]
                            == pre_deep.push(tail)[t] by {
                            assert(fwd.deep_view()[t] == fwd@[t]@);
                        }
                    }
                    assert(spec_split_lines(tail) =~= seq![tail]);
                    assert(spec_split_lines(input@.subrange(len as int, len as int)) =~= Seq::<
                        Seq<char>,
                    >::empty());
                    assert(spec_split_lines(input@) =~= fwd.deep_view() + spec_split_lines(
                        input@.subrange(len as int, len as int),
                    ));
                }
                pos = len;
            },
            Some(k) => {
                proof {
                    lemma_find_char_first(tail, '\n', 0);
                    match spec_find_char(tail, '\n', 0) {
                        Some(k0) => {
                            if k0 < k - pos {
                                assert(input@[pos + k0] == '\n');
                            } else if k0 > k - pos {
                                assert(tail[k - pos] == '\n');
                            }
                        },
                        None => {
                            assert(tail[k - pos] == '\n');
                        },
                    }
                    assert(spec_find_char(tail, '\n', 0) == Some(k - pos));
                }
                let piece = input.substring_char(pos, k);
                fwd.push(String::from_str(piece));
                proof {
                    assert(fwd.deep_view() =~= pre_deep.push(tail.subrange(0, k - pos))) by {
                        assert(fwd.deep_view().len() == pre_deep.len() + 1);
                        assert(piece@ =~= tail.subrange(0, k - pos));
                        assert forall|t: int| 0 <= t < fwd.deep_view().len() implies fwd.deep_view()[t]
                            == pre_deep.push(tail.subrange(0, k - pos))[t] by {
                            assert(fwd.deep_view()[t] == fwd@[t]@);
                        }
                    }
                    assert(tail.subrange(k - pos + 1, tail.len() as int) =~= input@.subrange(
                        k + 1,
                        len as int,
                    ));
                    assert(spec_split_lines(tail) =~= seq![tail.subrange(0, k - pos)]
                        + spec_split_lines(input@.subrange(k + 1, len as int)));
                    assert(spec_split_lines(input@) =~= fwd.deep_view() + spec_split_lines(
                        input@.subrange(k + 1, len as int),
                    ));
                }
                pos = k + 1;
            },
        }
    }
    proof {
        assert(spec_split_lines(input@.subrange(len as int, len as int)) =~= Seq::<
            Seq<char>,
        >::empty());
        assert(spec_split_lines(input@) =~= fwd.deep_view());
    }
    let mut rev: Vec<String> = Vec::new();
    let mut i: usize = fwd.len();
    while i > 0
        invariant
            0 <= i <= fwd@.len(),
            rev.deep_view().len() == fwd@.len() - i,
            forall|j: int|
                0 <= j < rev.deep_view().len() ==> rev.deep_view()[j] == fwd.deep_view()[fwd@.len()
                    - 1 - j],
        decreases i,
    {
        i = i - 1;
        let s = fwd[i].clone();
        proof {
            assert(s@ == fwd@[i as int]@);
        }
        let ghost pre_rev = rev@;
        let ghost pre_deep = rev.deep_view();
        rev.push(s);
        proof {
            assert(fwd.deep_view()[i as int] == fwd@[i as int]@);
            assert(rev@ == pre_rev.push(s));
            assert forall|j: int| 0 <= j < rev.deep_view().len() implies rev.deep_view()[j]
                == fwd.deep_view()[fwd@.len() - 1 - j] by {
                assert(rev.deep_view()[j] == rev@[j]@);
                if j == pre_rev.len() {
                    assert(rev@[j] == s);
                } else {
                    assert(rev@[j] == pre_rev[j]);
                    assert(pre_deep[j] == pre_rev[j]@);
                    assert(pre_deep[j] == fwd.deep_view()[fwd@.len() - 1 - j]);
                }
            }
        }
    }
    proof {
        assert(rev.deep_view() =~= spec_split_lines(input@).reverse()) by {
            assert(rev.deep_view().len() == spec_split_lines(input@).reverse().len());
            assert forall|j: int| 0 <= j < rev.deep_view().len() implies rev.deep_view()[j]
                == spec_split_lines(input@).reverse()[j] by {
                assert(rev.deep_view()[j] == fwd.deep_view()[fwd@.len() - 1 - j]);
            }
        }
    }
    rev
}

/// Scan the log content in `input` for the entries whose begin date the
/// filter contains, using the filter's oldest bound for early termination.
pub fn pick(input: String, filter: &DateFilter) -> (it: EntryIterator)
    requires
        spec_filter_wf(*filter),
    ensures
        spec_iter_wf(it),
        it.lines.deep_view() =~= spec_split_lines(input@).reverse(),
        it.pos == 0,
        it.scanner.last_line is None,
        !it.scanner.done,
        it.scanner.oldest == filter.oldest_date,
        it.scanner.filter matches EntryFilter::Dates(df) && df.dates@ == filter.dates@
            && df.date_ranges@ == filter.date_ranges@ && df.oldest_date == filter.oldest_date
            && df.newest_date == filter.newest_date,
{
    let lines = split_reversed_lines(input.as_str());
    let cloned = filter.clone();
    let f = EntryFilter::Dates(cloned);
    proof {
        assert(spec_entry_filter_wf(f));
    }
    EntryIterator::new(lines, f, filter.oldest_date)
}

/// Writing a record and reading its line back give the same instant and
/// text: [`make_record`] and the scan's line parsing are inverse, for any
/// non-empty text that fits on one line and does not end in whitespace
/// (the scan trims each line before reading it, so an empty or
/// whitespace-ending text would lose its tab or its tail to the trim).
pub proof fn lemma_record_round_trip(ts: Timestamp, text: Seq<char>)
    requires
        wf_timestamp(ts),
        text.len() > 0,
        forall|i: int| 0 <= i < text.len() ==> text[i] != '\n',
        !crate::strutil::spec_is_ws(text.last()),
    ensures
        spec_parse_line(spec_trim(spec_format_timestamp(ts, 'T') + seq!['\t'] + text)) == Some(
            (ts, text),
        ),
{
    crate::timestamp::lemma_parse_format_round_trip(ts);
    let f = spec_format_timestamp(ts, 'T');
    let line = f + seq!['\t'] + text;
    assert(line.last() == text.last());
    assert(crate::strutil::spec_trim_end(line) == line);
    assert(line[0] == f[0]);
    assert(!crate::strutil::spec_is_ws(line[0]));
    assert(crate::strutil::spec_trim_start(line) == line);
    assert(spec_trim(line) == line);
    assert(line[25] == '\t');
    lemma_find_char_first(line, '\t', 0);
    match spec_find_char(line, '\t', 0) {
        None => {
            assert(false);
        },
        Some(k) => {
            if k < 25 {
                assert(line[k] == f[k]);
                assert(false);
            } else if k > 25 {
                assert(line[25] != '\t');
                assert(false);
            }
            assert(line.subrange(0, 25) =~= f);
            assert(line.subrange(26, line.len() as int) =~= text);
        },
    }
}

/// Early termination reads nothing past the stopping line: when the line
/// at `j` carries a date before the `oldest` bound `o`, two line sequences
/// that agree up to `j` scan identically from any point at or before `j` —
/// whatever stands after `j`, even lines that would not parse.
pub proof fn lemma_scan_stops_at_bound(
    lines1: Seq<Seq<char>>,
    lines2: Seq<Seq<char>>,
    i: int,
    j: int,
    pending: Option<(Timestamp, Seq<char>)>,
    filter: EntryFilter,
    o: Date,
)
    requires
        0 <= i <= j,
        j < lines1.len(),
        j < lines2.len(),
        forall|k: int| i <= k <= j ==> lines1[k] == lines2[k],
        match spec_parse_line(spec_trim(lines1[j])) {
            Some((when, text)) => spec_date_lt(when.date, o),
            None => false,
        },
    ensures
        spec_scan(lines1, i, pending, filter, Some(o)) == spec_scan(
            lines2,
            i,
            pending,
            filter,
            Some(o),
        ),
    decreases j - i,
{
    assert(lines1[i] == lines2[i]);
    match spec_parse_line(spec_trim(lines1[i])) {
        None => {},
        Some((when, text)) => {
            if spec_date_lt(when.date, o) {
            } else {
                assert(i < j);
                let new_pending: Option<(Timestamp, Seq<char>)> = if text == spec_marker() {
                    Option::None
                } else {
                    Some((when, text))
                };
                lemma_scan_stops_at_bound(lines1, lines2, i + 1, j, new_pending, filter, o);
            }
        },
    }
}

} // verus!

//! The date filter: an immutable snapshot of individual dates and inclusive
//! date ranges, with the union's tight bounds for early termination.
//!
//! Ranges come in endpoint pairs in either orientation; construction
//! normalizes each pair to `start <= end` and sorts.  `contains` checks
//! membership exactly; the `oldest_date`/`newest_date` bounds only speed
//! rejection up and are proved to bound every configured date.

use vstd::prelude::*;

verus! {

use crate::date::{Date, spec_date_le, spec_date_lt, date_le, date_lt};

/// A set of individual dates and inclusive date ranges.
#[derive(Debug)]
pub struct DateFilter {
    /// Normalized (`start <= end`) range pairs, sorted by start.
    pub date_ranges: Vec<(Date, Date)>,
    /// The individual dates, sorted.
    pub dates: Vec<Date>,
    /// The oldest date of interest, when any is configured.
    pub oldest_date: Option<Date>,
    /// The newest date of interest, when any is configured.
    pub newest_date: Option<Date>,
}

/// `x` is one of `dates`.
pub open spec fn spec_in_singles(dates: Seq<Date>, x: Date) -> bool {
    exists|i: int| 0 <= i < dates.len() && dates[i] == x
}

/// `x` lies in one of the inclusive `ranges`.
pub open spec fn spec_in_ranges(ranges: Seq<(Date, Date)>, x: Date) -> bool {
    exists|i: int|
        0 <= i < ranges.len() && spec_date_le(#[trigger] ranges[i].0, x) && spec_date_le(
            x,
            ranges[i].1,
        )
}

/// `p` is one of `ranges`.
pub open spec fn spec_in_pairs(ranges: Seq<(Date, Date)>, p: (Date, Date)) -> bool {
    exists|i: int| 0 <= i < ranges.len() && ranges[i] == p
}

/// What the filter matches: one of its dates, or a date inside one of its
/// ranges.
pub open spec fn spec_filter_contains(f: DateFilter, x: Date) -> bool {
    spec_in_singles(f.dates@, x) || spec_in_ranges(f.date_ranges@, x)
}

/// The dates are in ascending order.
pub open spec fn spec_sorted_dates(s: Seq<Date>) -> bool {
    forall|i: int, j: int| 0 <= i < j < s.len() ==> spec_date_le(#[trigger] s[i], #[trigger] s[j])
}

/// The ranges are in ascending order of their starts.
pub open spec fn spec_sorted_ranges(s: Seq<(Date, Date)>) -> bool {
    forall|i: int, j: int|
        0 <= i < j < s.len() ==> spec_date_le((#[trigger] s[i]).0, (#[trigger] s[j]).0)
}

/// `x` placed into the sorted `s`, after any equal dates.
pub open spec fn spec_insert_date(s: Seq<Date>, x: Date) -> Seq<Date>
    decreases s.len(),
{
    if s.len() == 0 {
        seq![x]
    } else if spec_date_le(s.last(), x) {
        s.push(x)
    } else {
        spec_insert_date(s.drop_last(), x).push(s.last())
    }
}

/// `s` sorted by insertion, stably.
pub open spec fn spec_sort_dates(s: Seq<Date>) -> Seq<Date>
    decreases s.len(),
{
    if s.len() == 0 {
        Seq::empty()
    } else {
        spec_insert_date(spec_sort_dates(s.drop_last()), s.last())
    }
}

/// `p` placed into `s`, sorted by range start, after any equal starts.
pub open spec fn spec_insert_range(s: Seq<(Date, Date)>, p: (Date, Date)) -> Seq<(Date, Date)>
    decreases s.len(),
{
    if s.len() == 0 {
        seq![p]
    } else if spec_date_le(s.last().0, p.0) {
        s.push(p)
    } else {
        spec_insert_range(s.drop_last(), p).push(s.last())
    }
}

/// `s` sorted by range start, stably.
pub open spec fn spec_sort_ranges(s: Seq<(Date, Date)>) -> Seq<(Date, Date)>
    decreases s.len(),
{
    if s.len() == 0 {
        Seq::empty()
    } else {
        spec_insert_range(spec_sort_ranges(s.drop_last()), s.last())
    }
}

/// Endpoint pairs taken two at a time, each turned the right way round.
pub open spec fn spec_normalize(s: Seq<Date>) -> Seq<(Date, Date)>
    decreases s.len(),
{
    if s.len() < 2 {
        Seq::empty()
    } else {
        let a = s[s.len() - 2];
        let b = s[s.len() - 1];
        spec_normalize(s.take(s.len() - 2)).push(
            if spec_date_le(a, b) {
                (a, b)
            } else {
                (b, a)
            },
        )
    }
}

/// The filter's bounds are honest: absent exactly when nothing is
/// configured, and otherwise attained tight bounds on every configured date.
pub open spec fn spec_bounds_ok(f: DateFilter) -> bool {
    match (f.oldest_date, f.newest_date) {
        (Option::None, Option::None) => f.dates@.len() == 0 && f.date_ranges@.len() == 0,
        (Option::Some(o), Option::Some(n)) => {
            &&& f.dates@.len() > 0 || f.date_ranges@.len() > 0
            &&& forall|i: int|
                0 <= i < f.dates@.len() ==> spec_date_le(o, #[trigger] f.dates@[i])
                    && spec_date_le(f.dates@[i], n)
            &&& forall|i: int|
                0 <= i < f.date_ranges@.len() ==> spec_date_le(o, #[trigger] f.date_ranges@[i].0)
                    && spec_date_le(f.date_ranges@[i].1, n)
            &&& spec_in_singles(f.dates@, o) || exists|i: int|
                0 <= i < f.date_ranges@.len() && (#[trigger] f.date_ranges@[i]).0 == o
            &&& spec_in_singles(f.dates@, n) || exists|i: int|
                0 <= i < f.date_ranges@.len() && (#[trigger] f.date_ranges@[i]).1 == n
        },
        _ => false,
    }
}

/// A well-formed filter: sorted, each range the right way round, honest
/// bounds.
pub open spec fn spec_filter_wf(f: DateFilter) -> bool {
    &&& spec_sorted_dates(f.dates@)
    &&& spec_sorted_ranges(f.date_ranges@)
    &&& forall|i: int|
        0 <= i < f.date_ranges@.len() ==> spec_date_le(
            #[trigger] f.date_ranges@[i].0,
            f.date_ranges@[i].1,
        )
    &&& spec_bounds_ok(f)
}

/// Inserting keeps a date sequence sorted, adds one slot, and adds exactly
/// the new date to its members.
proof fn lemma_insert_date_props(s: Seq<Date>, x: Date)
    requires
        spec_sorted_dates(s),
    ensures
        spec_sorted_dates(spec_insert_date(s, x)),
        spec_insert_date(s, x).len() == s.len() + 1,
        forall|y: Date|
            #![trigger spec_in_singles(spec_insert_date(s, x), y)]
            #![trigger spec_in_singles(s, y)]
            spec_in_singles(spec_insert_date(s, x), y) <==> (spec_in_singles(s, y) || y == x),
        spec_insert_date(s, x).last() == if s.len() == 0 || spec_date_le(s.last(), x) {
            x
        } else {
            s.last()
        },
    decreases s.len(),
{
    let r = spec_insert_date(s, x);
    if s.len() == 0 {
        assert forall|y: Date| spec_in_singles(r, y) implies (spec_in_singles(s, y) || y == x) by {
            let i = choose|i: int| 0 <= i < r.len() && r[i] == y;
            assert(r[0] == x);
        }
        assert(spec_in_singles(r, x)) by {
            assert(r[0] == x);
        }
    } else if spec_date_le(s.last(), x) {
        assert forall|y: Date| spec_in_singles(r, y) implies (spec_in_singles(s, y) || y == x) by {
            let i = choose|i: int| 0 <= i < r.len() && r[i] == y;
            if i < s.len() {
                assert(s[i] == y);
            }
        }
        assert forall|y: Date| spec_in_singles(s, y) || y == x implies spec_in_singles(r, y) by {
            if spec_in_singles(s, y) {
                let i = choose|i: int| 0 <= i < s.len() && s[i] == y;
                assert(r[i] == y);
            } else {
                assert(r[s.len() as int] == x);
            }
        }
    } else {
        let dl = s.drop_last();
        assert(spec_sorted_dates(dl)) by {
            assert forall|i: int, j: int| 0 <= i < j < dl.len() implies spec_date_le(
                #[trigger] dl[i],
                #[trigger] dl[j],
            ) by {
                assert(spec_date_le(s[i], s[j]));
            }
        }
        lemma_insert_date_props(dl, x);
        let q = spec_insert_date(dl, x);
        assert(r == q.push(s.last()));
        assert(spec_sorted_dates(r)) by {
            assert forall|i: int, j: int| 0 <= i < j < r.len() implies spec_date_le(
                #[trigger] r[i],
                #[trigger] r[j],
            ) by {
                if j < q.len() {
                    assert(spec_date_le(q[i], q[j]));
                } else {
                    // the pushed element is s.last(), above everything in q
                    assert(r[j] == s.last());
                    assert(r[i] == q[i]);
                    assert(spec_in_singles(q, q[i]));
                    if spec_in_singles(dl, q[i]) {
                        let w = choose|w: int| 0 <= w < dl.len() && dl[w] == q[i];
                        assert(dl[w] == s[w]);
                        assert(spec_date_le(s[w], s[s.len() - 1]));
                    } else {
                        assert(q[i] == x);
                    }
                }
            }
        }
        assert forall|y: Date| spec_in_singles(r, y) implies (spec_in_singles(s, y) || y == x) by {
            let i = choose|i: int| 0 <= i < r.len() && r[i] == y;
            if i < q.len() {
                assert(spec_in_singles(q, y));
                if spec_in_singles(dl, y) {
                    let j = choose|j: int| 0 <= j < dl.len() && dl[j] == y;
                    assert(s[j] == y);
                }
            } else {
                assert(y == s.last());
                assert(s[s.len() - 1] == y);
            }
        }
        assert forall|y: Date| spec_in_singles(s, y) || y == x implies spec_in_singles(r, y) by {
            if y == x {
                assert(spec_in_singles(q, x));
                let j = choose|j: int| 0 <= j < q.len() && q[j] == x;
                assert(r[j] == x);
            } else {
                let i = choose|i: int| 0 <= i < s.len() && s[i] == y;
                if i < s.len() - 1 {
                    assert(dl[i] == y);
                    assert(spec_in_singles(q, y));
                    let j = choose|j: int| 0 <= j < q.len() && q[j] == y;
                    assert(r[j] == y);
                } else {
                    assert(r[r.len() - 1] == y);
                }
            }
        }
    }
}

/// Sorting keeps the length and the members of a date sequence.
proof fn lemma_sort_dates_props(s: Seq<Date>)
    ensures
        spec_sorted_dates(spec_sort_dates(s)),
        spec_sort_dates(s).len() == s.len(),
        forall|y: Date|
            #![trigger spec_in_singles(spec_sort_dates(s), y)]
            #![trigger spec_in_singles(s, y)]
            spec_in_singles(spec_sort_dates(s), y) <==> spec_in_singles(s, y),
    decreases s.len(),
{
    if s.len() > 0 {
        let dl = s.drop_last();
        lemma_sort_dates_props(dl);
        lemma_insert_date_props(spec_sort_dates(dl), s.last());
        assert forall|y: Date| spec_in_singles(s, y) implies spec_in_singles(
            spec_sort_dates(s),
            y,
        ) by {
            let i = choose|i: int| 0 <= i < s.len() && s[i] == y;
            if i < s.len() - 1 {
                assert(dl[i] == y);
            }
        }
        assert forall|y: Date| spec_in_singles(spec_sort_dates(s), y) implies spec_in_singles(
            s,
            y,
        ) by {
            if spec_in_singles(dl, y) {
                let i = choose|i: int| 0 <= i < dl.len() && dl[i] == y;
                assert(s[i] == y);
            } else {
                assert(s[s.len() - 1] == y);
            }
        }
    }
}

/// Inserting keeps a range sequence sorted by start, adds one slot, and
/// adds exactly the new pair to its members.
proof fn lemma_insert_range_props(s: Seq<(Date, Date)>, p: (Date, Date))
    requires
        spec_sorted_ranges(s),
    ensures
        spec_sorted_ranges(spec_insert_range(s, p)),
        spec_insert_range(s, p).len() == s.len() + 1,
        forall|q: (Date, Date)|
            #![trigger spec_in_pairs(spec_insert_range(s, p), q)]
            #![trigger spec_in_pairs(s, q)]
            spec_in_pairs(spec_insert_range(s, p), q) <==> (spec_in_pairs(s, q) || q == p),
        spec_insert_range(s, p).last() == if s.len() == 0 || spec_date_le(s.last().0, p.0) {
            p
        } else {
            s.last()
        },
    decreases s.len(),
{
    let r = spec_insert_range(s, p);
    if s.len() == 0 {
        assert forall|y: (Date, Date)| spec_in_pairs(r, y) implies (spec_in_pairs(s, y) || y
            == p) by {
            let i = choose|i: int| 0 <= i < r.len() && r[i] == y;
            assert(r[0] == p);
        }
        assert(spec_in_pairs(r, p)) by {
            assert(r[0] == p);
        }
    } else if spec_date_le(s.last().0, p.0) {
        assert forall|y: (Date, Date)| spec_in_pairs(r, y) implies (spec_in_pairs(s, y) || y
            == p) by {
            let i = choose|i: int| 0 <= i < r.len() && r[i] == y;
            if i < s.len() {
                assert(s[i] == y);
            }
        }
        assert forall|y: (Date, Date)| spec_in_pairs(s, y) || y == p implies spec_in_pairs(
            r,
            y,
        ) by {
            if spec_in_pairs(s, y) {
                let i = choose|i: int| 0 <= i < s.len() && s[i] == y;
                assert(r[i] == y);
            } else {
                assert(r[s.len() as int] == p);
            }
        }
    } else {
        let dl = s.drop_last();
        assert(spec_sorted_ranges(dl)) by {
            assert forall|i: int, j: int| 0 <= i < j < dl.len() implies spec_date_le(
                (#[trigger] dl[i]).0,
                (#[trigger] dl[j]).0,
            ) by {
                assert(spec_date_le(s[i].0, s[j].0));
            }
        }
        lemma_insert_range_props(dl, p);
        let q = spec_insert_range(dl, p);
        assert(r == q.push(s.last()));
        assert(spec_sorted_ranges(r)) by {
            assert forall|i: int, j: int| 0 <= i < j < r.len() implies spec_date_le(
                (#[trigger] r[i]).0,
                (#[trigger] r[j]).0,
            ) by {
                if j < q.len() {
                    assert(spec_date_le(q[i].0, q[j].0));
                } else {
                    // the pushed element is s.last(), above everything in q
                    assert(r[j] == s.last());
                    assert(r[i] == q[i]);
                    assert(spec_in_pairs(q, q[i]));
                    if spec_in_pairs(dl, q[i]) {
                        let w = choose|w: int| 0 <= w < dl.len() && dl[w] == q[i];
                        assert(dl[w] == s[w]);
                        assert(spec_date_le(s[w].0, s[s.len() - 1].0));
                    } else {
                        assert(q[i] == p);
                    }
                }
            }
        }
        assert forall|y: (Date, Date)| spec_in_pairs(r, y) implies (spec_in_pairs(s, y) || y
            == p) by {
            let i = choose|i: int| 0 <= i < r.len() && r[i] == y;
            if i < q.len() {
                assert(spec_in_pairs(q, y));
                if spec_in_pairs(dl, y) {
                    let j = choose|j: int| 0 <= j < dl.len() && dl[j] == y;
                    assert(s[j] == y);
                }
            } else {
                assert(s[s.len() - 1] == y);
            }
        }
        assert forall|y: (Date, Date)| spec_in_pairs(s, y) || y == p implies spec_in_pairs(
            r,
            y,
        ) by {
            if y == p {
                assert(spec_in_pairs(q, p));
                let j = choose|j: int| 0 <= j < q.len() && q[j] == p;
                assert(r[j] == p);
            } else {
                let i = choose|i: int| 0 <= i < s.len() && s[i] == y;
                if i < s.len() - 1 {
                    assert(dl[i] == y);
                    assert(spec_in_pairs(q, y));
                    let j = choose|j: int| 0 <= j < q.len() && q[j] == y;
                    assert(r[j] == y);
                } else {
                    assert(r[r.len() - 1] == y);
                }
            }
        }
    }
}

/// Sorting keeps the length and the members of a range sequence.
proof fn lemma_sort_ranges_props(s: Seq<(Date, Date)>)
    ensures
        spec_sorted_ranges(spec_sort_ranges(s)),
        spec_sort_ranges(s).len() == s.len(),
        forall|y: (Date, Date)|
            #![trigger spec_in_pairs(spec_sort_ranges(s), y)]
            #![trigger spec_in_pairs(s, y)]
            spec_in_pairs(spec_sort_ranges(s), y) <==> spec_in_pairs(s, y),
    decreases s.len(),
{
    if s.len() > 0 {
        let dl = s.drop_last();
        lemma_sort_ranges_props(dl);
        lemma_insert_range_props(spec_sort_ranges(dl), s.last());
        assert forall|y: (Date, Date)| spec_in_pairs(s, y) implies spec_in_pairs(
            spec_sort_ranges(s),
            y,
        ) by {
            let i = choose|i: int| 0 <= i < s.len() && s[i] == y;
            if i < s.len() - 1 {
                assert(dl[i] == y);
            }
        }
        assert forall|y: (Date, Date)| spec_in_pairs(spec_sort_ranges(s), y) implies spec_in_pairs(
            s,
            y,
        ) by {
            if spec_in_pairs(dl, y) {
                let i = choose|i: int| 0 <= i < dl.len() && dl[i] == y;
                assert(s[i] == y);
            } else {
                assert(s[s.len() - 1] == y);
            }
        }
    }
}

/// Each normalized pair holds its two source endpoints, turned the right
/// way round.
proof fn lemma_normalize_props(s: Seq<Date>)
    requires
        s.len() % 2 == 0,
    ensures
        spec_normalize(s).len() == s.len() / 2,
        forall|k: int|
            0 <= k < s.len() / 2 ==> #[trigger] spec_normalize(s)[k] == (if spec_date_le(
                s[2 * k],
                s[2 * k + 1],
            ) {
                (s[2 * k], s[2 * k + 1])
            } else {
                (s[2 * k + 1], s[2 * k])
            }),
    decreases s.len(),
{
    if s.len() >= 2 {
        let pre = s.take(s.len() - 2);
        lemma_normalize_props(pre);
        assert forall|k: int| 0 <= k < s.len() / 2 implies #[trigger] spec_normalize(s)[k] == (
        if spec_date_le(s[2 * k], s[2 * k + 1]) {
            (s[2 * k], s[2 * k + 1])
        } else {
            (s[2 * k + 1], s[2 * k])
        }) by {
            if k < s.len() / 2 - 1 {
                assert(spec_normalize(s)[k] == spec_normalize(pre)[k]);
                assert(pre[2 * k] == s[2 * k]);
                assert(pre[2 * k + 1] == s[2 * k + 1]);
            }
        }
    }
}

/// Place `x` into the sorted vector `v`, after any equal dates.
#[verifier::loop_isolation(false)]
fn insert_date_sorted(v: &mut Vec<Date>, x: Date)
    requires
        spec_sorted_dates(old(v)@),
    ensures
        final(v)@ == spec_insert_date(old(v)@, x),
        spec_sorted_dates(final(v)@),
{
    proof {
        lemma_insert_date_props(v@, x);
    }
    let mut q: usize = 0;
    while q < v.len() && date_le(&v[q], &x)
        invariant
            0 <= q <= v@.len(),
            forall|j: int| 0 <= j < q ==> spec_date_le(#[trigger] v@[j], x),
        decreases v@.len() - q,
    {
        q = q + 1;
    }
    proof {
        lemma_insert_date_at(v@, x, q as int);
    }
    v.insert(q, x);
}

/// Scanning past every date at most `x` finds where the spec insertion
/// lands.
proof fn lemma_insert_date_at(s: Seq<Date>, x: Date, q: int)
    requires
        spec_sorted_dates(s),
        0 <= q <= s.len(),
        forall|j: int| 0 <= j < q ==> spec_date_le(#[trigger] s[j], x),
        q < s.len() ==> !spec_date_le(s[q], x),
    ensures
        spec_insert_date(s, x) == s.insert(q, x),
    decreases s.len(),
{
    if s.len() == 0 {
        assert(spec_insert_date(s, x) =~= s.insert(0, x));
    } else if spec_date_le(s.last(), x) {
        assert(q == s.len()) by {
            if q < s.len() {
                if q < s.len() - 1 {
                    assert(spec_date_le(s[q], s[s.len() - 1]));
                }
            }
        }
        assert(spec_insert_date(s, x) =~= s.insert(q, x));
    } else {
        let dl = s.drop_last();
        assert(spec_sorted_dates(dl)) by {
            assert forall|i: int, j: int| 0 <= i < j < dl.len() implies spec_date_le(
                #[trigger] dl[i],
                #[trigger] dl[j],
            ) by {
                assert(spec_date_le(s[i], s[j]));
            }
        }
        assert(q < s.len()) by {
            if q == s.len() {
                assert(spec_date_le(s[q - 1], x));
            }
        }
        lemma_insert_date_at(dl, x, q);
        assert(spec_insert_date(s, x) =~= s.insert(q, x)) by {
            assert(spec_insert_date(dl, x) == dl.insert(q, x));
        }
    }
}

/// Place `p` into the vector `v`, sorted by start, after any equal starts.
#[verifier::loop_isolation(false)]
fn insert_range_sorted(v: &mut Vec<(Date, Date)>, p: (Date, Date))
    requires
        spec_sorted_ranges(old(v)@),
    ensures
        final(v)@ == spec_insert_range(old(v)@, p),
        spec_sorted_ranges(final(v)@),
{
    proof {
        lemma_insert_range_props(v@, p);
    }
    let mut q: usize = 0;
    while q < v.len() && date_le(&v[q].0, &p.0)
        invariant
            0 <= q <= v@.len(),
            forall|j: int| 0 <= j < q ==> spec_date_le((#[trigger] v@[j]).0, p.0),
        decreases v@.len() - q,
    {
        q = q + 1;
    }
    proof {
        lemma_insert_range_at(v@, p, q as int);
    }
    v.insert(q, p);
}

/// Scanning past every start at most `p.0` finds where the spec insertion
/// lands.
proof fn lemma_insert_range_at(s: Seq<(Date, Date)>, p: (Date, Date), q: int)
    requires
        spec_sorted_ranges(s),
        0 <= q <= s.len(),
        forall|j: int| 0 <= j < q ==> spec_date_le((#[trigger] s[j]).0, p.0),
        q < s.len() ==> !spec_date_le(s[q].0, p.0),
    ensures
        spec_insert_range(s, p) == s.insert(q, p),
    decreases s.len(),
{
    if s.len() == 0 {
        assert(spec_insert_range(s, p) =~= s.insert(0, p));
    } else if spec_date_le(s.last().0, p.0) {
        assert(q == s.len()) by {
            if q < s.len() {
                if q < s.len() - 1 {
                    assert(spec_date_le(s[q].0, s[s.len() - 1].0));
                }
            }
        }
        assert(spec_insert_range(s, p) =~= s.insert(q, p));
    } else {
        let dl = s.drop_last();
        assert(spec_sorted_ranges(dl)) by {
            assert forall|i: int, j: int| 0 <= i < j < dl.len() implies spec_date_le(
                (#[trigger] dl[i]).0,
                (#[trigger] dl[j]).0,
            ) by {
                assert(spec_date_le(s[i].0, s[j].0));
            }
        }
        assert(q < s.len()) by {
            if q == s.len() {
                assert(spec_date_le(s[q - 1].0, p.0));
            }
        }
        lemma_insert_range_at(dl, p, q);
        assert(spec_insert_range(s, p) =~= s.insert(q, p)) by {
            assert(spec_insert_range(dl, p) == dl.insert(q, p));
        }
    }
}

impl DateFilter {
    /// Build a filter from range endpoint pairs (either orientation) and
    /// individual dates.
    ///
    /// The endpoint list must have even length: an odd list is a caller
    /// bug, not user input.
    #[verifier::loop_isolation(false)]
    #[verifier::rlimit(60)]
    pub fn new(date_ranges: &[Date], individual_dates: &[Date]) -> (r: DateFilter)
        requires
            date_ranges@.len() % 2 == 0,
        ensures
            r.dates@ == spec_sort_dates(individual_dates@),
            r.date_ranges@ == spec_sort_ranges(spec_normalize(date_ranges@)),
            spec_filter_wf(r),
    {
        let mut dates: Vec<Date> = Vec::new();
        let mut i: usize = 0;
        proof {
            assert(individual_dates@.subrange(0, 0) =~= Seq::<Date>::empty());
        }
        while i < individual_dates.len()
            invariant
                0 <= i <= individual_dates@.len(),
                dates@ == spec_sort_dates(individual_dates@.subrange(0, i as int)),
                spec_sorted_dates(dates@),
            decreases individual_dates@.len() - i,
        {
            let x = individual_dates[i];
            proof {
                assert(individual_dates@.subrange(0, i + 1).drop_last() =~= individual_dates@
                    .subrange(0, i as int));
                assert(individual_dates@.subrange(0, i + 1).last() == x);
            }
            insert_date_sorted(&mut dates, x);
            i = i + 1;
        }
        proof {
            assert(individual_dates@.subrange(0, individual_dates@.len() as int)
                =~= individual_dates@);
        }
        let mut ranges: Vec<(Date, Date)> = Vec::new();
        let mut j: usize = 0;
        proof {
            assert(date_ranges@.subrange(0, 0) =~= Seq::<Date>::empty());
        }
        while j + 1 < date_ranges.len()
            invariant
                0 <= j <= date_ranges@.len(),
                j % 2 == 0,
                ranges@ == spec_sort_ranges(spec_normalize(date_ranges@.subrange(0, j as int))),
                spec_sorted_ranges(ranges@),
                forall|t: int|
                    0 <= t < ranges@.len() ==> spec_date_le(
                        (#[trigger] ranges@[t]).0,
                        ranges@[t].1,
                    ),
            decreases date_ranges@.len() - j,
        {
            let a = date_ranges[j];
            let b = date_ranges[j + 1];
            let p: (Date, Date) = if date_le(&a, &b) {
                (a, b)
            } else {
                (b, a)
            };
            proof {
                let pre2 = date_ranges@.subrange(0, j + 2);
                assert(pre2.take(pre2.len() - 2) =~= date_ranges@.subrange(0, j as int));
                assert(pre2[pre2.len() - 2] == a && pre2[pre2.len() - 1] == b);
                assert(spec_normalize(pre2) == spec_normalize(
                    date_ranges@.subrange(0, j as int),
                ).push(p));
                assert(spec_normalize(pre2).drop_last() =~= spec_normalize(
                    date_ranges@.subrange(0, j as int),
                ));
                let prev = spec_sort_ranges(spec_normalize(date_ranges@.subrange(0, j as int)));
                lemma_insert_range_props(prev, p);
                assert forall|y: (Date, Date)|
                    spec_in_pairs(spec_insert_range(prev, p), y) implies spec_date_le(
                    y.0,
                    y.1,
                ) by {
                    if spec_in_pairs(prev, y) {
                        lemma_sort_ranges_props(spec_normalize(date_ranges@.subrange(0, j as int)));
                        let t = choose|t: int|
                            0 <= t < spec_normalize(date_ranges@.subrange(0, j as int)).len()
                                && spec_normalize(date_ranges@.subrange(0, j as int))[t] == y;
                        lemma_normalize_props(date_ranges@.subrange(0, j as int));
                    }
                }
            }
            insert_range_sorted(&mut ranges, p);
            proof {
                assert forall|t: int| 0 <= t < ranges@.len() implies spec_date_le(
                    (#[trigger] ranges@[t]).0,
                    ranges@[t].1,
                ) by {
                    assert(spec_in_pairs(ranges@, ranges@[t]));
                }
            }
            j = j + 2;
        }
        proof {
            assert(j == date_ranges@.len());
            assert(date_ranges@.subrange(0, date_ranges@.len() as int) =~= date_ranges@);
        }
        // compute the attained bounds over what was kept
        let mut oldest: Option<Date> = None;
        let mut newest: Option<Date> = None;
        let mut k: usize = 0;
        while k < dates.len()
            invariant
                0 <= k <= dates@.len(),
                oldest is None <==> k == 0,
                newest is None <==> k == 0,
                match (oldest, newest) {
                    (Option::Some(o), Option::Some(n)) => {
                        &&& forall|t: int|
                            0 <= t < k ==> spec_date_le(o, #[trigger] dates@[t]) && spec_date_le(
                                dates@[t],
                                n,
                            )
                        &&& exists|t: int| 0 <= t < k && dates@[t] == o
                        &&& exists|t: int| 0 <= t < k && dates@[t] == n
                    },
                    _ => k == 0,
                },
            decreases dates@.len() - k,
        {
            let d = dates[k];
            oldest = match oldest {
                None => Some(d),
                Some(o) => if date_lt(&d, &o) {
                    Some(d)
                } else {
                    Some(o)
                },
            };
            newest = match newest {
                None => Some(d),
                Some(n) => if date_lt(&n, &d) {
                    Some(d)
                } else {
                    Some(n)
                },
            };
            k = k + 1;
        }
        let ghost n_dates = dates@.len() as int;
        let mut k2: usize = 0;
        while k2 < ranges.len()
            invariant
                0 <= k2 <= ranges@.len(),
                oldest is None <==> (dates@.len() == 0 && k2 == 0),
                newest is None <==> (dates@.len() == 0 && k2 == 0),
                forall|t: int|
                    0 <= t < ranges@.len() ==> spec_date_le(
                        (#[trigger] ranges@[t]).0,
                        ranges@[t].1,
                    ),
                match (oldest, newest) {
                    (Option::Some(o), Option::Some(n)) => {
                        &&& forall|t: int|
                            0 <= t < dates@.len() ==> spec_date_le(o, #[trigger] dates@[t])
                                && spec_date_le(dates@[t], n)
                        &&& forall|t: int|
                            0 <= t < k2 ==> spec_date_le(o, (#[trigger] ranges@[t]).0)
                                && spec_date_le(ranges@[t].1, n)
                        &&& (spec_in_singles(dates@, o) || exists|t: int|
                            0 <= t < k2 && (#[trigger] ranges@[t]).0 == o)
                        &&& (spec_in_singles(dates@, n) || exists|t: int|
                            0 <= t < k2 && (#[trigger] ranges@[t]).1 == n)
                    },
                    _ => dates@.len() == 0 && k2 == 0,
                },
            decreases ranges@.len() - k2,
        {
            let (s, e) = ranges[k2];
            oldest = match oldest {
                None => Some(s),
                Some(o) => if date_lt(&s, &o) {
                    Some(s)
                } else {
                    Some(o)
                },
            };
            newest = match newest {
                None => Some(e),
                Some(n) => if date_lt(&n, &e) {
                    Some(e)
                } else {
                    Some(n)
                },
            };
            k2 = k2 + 1;
        }
        let r = DateFilter { date_ranges: ranges, dates, oldest_date: oldest, newest_date: newest };
        proof {
            assert(spec_sorted_dates(r.dates@));
            assert(spec_sorted_ranges(r.date_ranges@));
            assert(forall|t: int|
                0 <= t < r.date_ranges@.len() ==> spec_date_le(
                    (#[trigger] r.date_ranges@[t]).0,
                    r.date_ranges@[t].1,
                ));
            assert(spec_bounds_ok(r)) by {
                match (r.oldest_date, r.newest_date) {
                    (Option::None, Option::None) => {
                        assert(r.dates@.len() == 0 && r.date_ranges@.len() == 0);
                    },
                    (Option::Some(o), Option::Some(n)) => {
                        assert(r.dates@.len() > 0 || r.date_ranges@.len() > 0);
                        assert(forall|i: int|
                            0 <= i < r.dates@.len() ==> spec_date_le(o, #[trigger] r.dates@[i])
                                && spec_date_le(r.dates@[i], n));
                        assert(forall|i: int|
                            0 <= i < r.date_ranges@.len() ==> spec_date_le(
                                o,
                                #[trigger] r.date_ranges@[i].0,
                            ) && spec_date_le(r.date_ranges@[i].1, n));
                        assert(spec_in_singles(r.dates@, o) || exists|i: int|
                            0 <= i < r.date_ranges@.len() && (#[trigger] r.date_ranges@[i]).0
                                == o);
                        assert(spec_in_singles(r.dates@, n) || exists|i: int|
                            0 <= i < r.date_ranges@.len() && (#[trigger] r.date_ranges@[i]).1
                                == n);
                    },
                    _ => {
                        assert(false);
                    },
                }
            }
        }
        r
    }

    /// Whether `date` is one of the filter's dates or lies in one of its
    /// ranges.
    pub fn contains(&self, date: &Date) -> (r: bool)
        requires
            spec_filter_wf(*self),
        ensures
            r == spec_filter_contains(*self, *date),
    {
        if let (Some(o), Some(n)) = (self.oldest_date, self.newest_date) {
            if date_lt(date, &o) || date_lt(&n, date) {
                return false;
            }
        }
        let mut i: usize = 0;
        while i < self.dates.len()
            invariant
                0 <= i <= self.dates@.len(),
                forall|j: int| 0 <= j < i ==> self.dates@[j] != *date,
            decreases self.dates@.len() - i,
        {
            if date_eq(&self.dates[i], date) {
                return true;
            }
            i = i + 1;
        }
        let mut k: usize = 0;
        while k < self.date_ranges.len()
            invariant
                0 <= k <= self.date_ranges@.len(),
                forall|j: int|
                    0 <= j < k ==> !(spec_date_le((#[trigger] self.date_ranges@[j]).0, *date)
                        && spec_date_le(*date, self.date_ranges@[j].1)),
            decreases self.date_ranges@.len() - k,
        {
            let (b, c) = self.date_ranges[k];
            if date_le(&b, date) && date_le(date, &c) {
                return true;
            }
            k = k + 1;
        }
        false
    }

    /// Whether neither dates nor ranges are configured.
    pub fn is_empty(&self) -> (r: bool)
        ensures
            r == (self.dates@.len() == 0 && self.date_ranges@.len() == 0),
    {
        self.dates.len() == 0 && self.date_ranges.len() == 0
    }
}

impl Clone for DateFilter {
    /// An identical snapshot of the filter.
    fn clone(&self) -> (r: Self)
        ensures
            r.dates@ == self.dates@,
            r.date_ranges@ == self.date_ranges@,
            r.oldest_date == self.oldest_date,
            r.newest_date == self.newest_date,
    {
        let mut dates: Vec<Date> = Vec::new();
        let mut i: usize = 0;
        while i < self.dates.len()
            invariant
                0 <= i <= self.dates@.len(),
                dates@ =~= self.dates@.subrange(0, i as int),
            decreases self.dates@.len() - i,
        {
            dates.push(self.dates[i]);
            i = i + 1;
        }
        let mut ranges: Vec<(Date, Date)> = Vec::new();
        let mut k: usize = 0;
        while k < self.date_ranges.len()
            invariant
                0 <= k <= self.date_ranges@.len(),
                ranges@ =~= self.date_ranges@.subrange(0, k as int),
            decreases self.date_ranges@.len() - k,
        {
            ranges.push(self.date_ranges[k]);
            k = k + 1;
        }
        proof {
            assert(dates@ =~= self.dates@);
            assert(ranges@ =~= self.date_ranges@);
        }
        DateFilter { date_ranges: ranges, dates, oldest_date: self.oldest_date, newest_date: self.newest_date }
    }
}

/// Whether two dates are the same day.
fn date_eq(a: &Date, b: &Date) -> (r: bool)
    ensures
        r == (*a == *b),
{
    a.year == b.year && a.month == b.month && a.day == b.day
}

/// The date for a year, month and day known to be on the calendar.
pub fn ymd(year: u32, month: u32, day: u32) -> (r: Date)
    requires
        crate::date::valid_date(Date { year, month, day }),
    ensures
        r == (Date { year, month, day }),
        crate::date::valid_date(r),
{
    Date { year, month, day }
}

/// A filter built from `ranges` (endpoint pairs in either orientation) and
/// `singles` contains `x` exactly when `x` is one of `singles` or lies
/// inclusively between the endpoints of one of the pairs.
pub proof fn lemma_filter_contains_iff(ranges: Seq<Date>, singles: Seq<Date>, f: DateFilter, x: Date)
    requires
        ranges.len() % 2 == 0,
        f.dates@ == spec_sort_dates(singles),
        f.date_ranges@ == spec_sort_ranges(spec_normalize(ranges)),
    ensures
        spec_filter_contains(f, x) <==> (spec_in_singles(singles, x) || exists|k: int|
            0 <= k && 2 * k + 1 < ranges.len() && ((spec_date_le(#[trigger] ranges[2 * k], x)
                && spec_date_le(x, ranges[2 * k + 1])) || (spec_date_le(ranges[2 * k + 1], x)
                && spec_date_le(x, ranges[2 * k])))),
{
    lemma_sort_dates_props(singles);
    lemma_sort_ranges_props(spec_normalize(ranges));
    lemma_normalize_props(ranges);
    let norm = spec_normalize(ranges);
    if spec_in_ranges(f.date_ranges@, x) {
        let i = choose|i: int|
            0 <= i < f.date_ranges@.len() && spec_date_le(#[trigger] f.date_ranges@[i].0, x)
                && spec_date_le(x, f.date_ranges@[i].1);
        assert(spec_in_pairs(f.date_ranges@, f.date_ranges@[i]));
        let k = choose|k: int| 0 <= k < norm.len() && norm[k] == f.date_ranges@[i];
        assert((spec_date_le(ranges[2 * k], x) && spec_date_le(x, ranges[2 * k + 1])) || (
        spec_date_le(ranges[2 * k + 1], x) && spec_date_le(x, ranges[2 * k])));
    }
    if exists|k: int|
        0 <= k && 2 * k + 1 < ranges.len() && ((spec_date_le(#[trigger] ranges[2 * k], x)
            && spec_date_le(x, ranges[2 * k + 1])) || (spec_date_le(ranges[2 * k + 1], x)
            && spec_date_le(x, ranges[2 * k]))) {
        let k = choose|k: int|
            0 <= k && 2 * k + 1 < ranges.len() && ((spec_date_le(#[trigger] ranges[2 * k], x)
                && spec_date_le(x, ranges[2 * k + 1])) || (spec_date_le(ranges[2 * k + 1], x)
                && spec_date_le(x, ranges[2 * k])));
        assert(spec_in_pairs(norm, norm[k]));
        let i = choose|i: int| 0 <= i < f.date_ranges@.len() && f.date_ranges@[i] == norm[k];
        assert(spec_date_le(f.date_ranges@[i].0, x) && spec_date_le(x, f.date_ranges@[i].1));
    }
}

/// A filter built from nothing matches nothing, and carries no bounds.
pub proof fn lemma_empty_filter_matches_nothing(f: DateFilter, x: Date)
    requires
        f.dates@ == spec_sort_dates(Seq::<Date>::empty()),
        f.date_ranges@ == spec_sort_ranges(spec_normalize(Seq::<Date>::empty())),
        spec_filter_wf(f),
    ensures
        !spec_filter_contains(f, x),
        f.oldest_date is None,
        f.newest_date is None,
{
    lemma_filter_contains_iff(Seq::empty(), Seq::empty(), f, x);
}

/// The filter's bounds are the union's true, attained bounds: `oldest_date`
/// and `newest_date` are absent exactly when nothing is configured, and
/// otherwise are themselves configured endpoints that bound every
/// configured single date and range endpoint.
#[verifier::rlimit(60)]
pub proof fn lemma_filter_bounds(ranges: Seq<Date>, singles: Seq<Date>, f: DateFilter)
    requires
        ranges.len() % 2 == 0,
        f.dates@ == spec_sort_dates(singles),
        f.date_ranges@ == spec_sort_ranges(spec_normalize(ranges)),
        spec_filter_wf(f),
    ensures
        f.oldest_date is None <==> (singles.len() == 0 && ranges.len() == 0),
        f.newest_date is None <==> (singles.len() == 0 && ranges.len() == 0),
        match (f.oldest_date, f.newest_date) {
            (Option::Some(o), Option::Some(n)) => {
                &&& forall|i: int|
                    0 <= i < singles.len() ==> spec_date_le(o, #[trigger] singles[i])
                        && spec_date_le(singles[i], n)
                &&& forall|i: int|
                    0 <= i < ranges.len() ==> spec_date_le(o, #[trigger] ranges[i])
                        && spec_date_le(ranges[i], n)
                &&& (spec_in_singles(singles, o) || exists|i: int|
                    0 <= i < ranges.len() && #[trigger] ranges[i] == o)
                &&& (spec_in_singles(singles, n) || exists|i: int|
                    0 <= i < ranges.len() && #[trigger] ranges[i] == n)
            },
            _ => true,
        },
{
    lemma_sort_dates_props(singles);
    lemma_sort_ranges_props(spec_normalize(ranges));
    lemma_normalize_props(ranges);
    let norm = spec_normalize(ranges);
    assert(f.dates@.len() == singles.len());
    assert(f.date_ranges@.len() == ranges.len() / 2);
    match (f.oldest_date, f.newest_date) {
        (Option::Some(o), Option::Some(n)) => {
            assert(spec_bounds_ok(f));
            assert(forall|t: int|
                0 <= t < f.dates@.len() ==> spec_date_le(o, #[trigger] f.dates@[t])
                    && spec_date_le(f.dates@[t], n));
            assert(forall|t: int|
                0 <= t < f.date_ranges@.len() ==> spec_date_le(o, #[trigger] f.date_ranges@[t].0)
                    && spec_date_le(f.date_ranges@[t].1, n));
            assert(forall|t: int|
                0 <= t < f.date_ranges@.len() ==> spec_date_le(
                    #[trigger] f.date_ranges@[t].0,
                    f.date_ranges@[t].1,
                ));
            assert forall|i: int| 0 <= i < singles.len() implies spec_date_le(
                o,
                #[trigger] singles[i],
            ) && spec_date_le(singles[i], n) by {
                assert(spec_in_singles(singles, singles[i]));
                assert(spec_in_singles(f.dates@, singles[i]));
                let j = choose|j: int| 0 <= j < f.dates@.len() && f.dates@[j] == singles[i];
            }
            assert forall|i: int| 0 <= i < ranges.len() implies spec_date_le(
                o,
                #[trigger] ranges[i],
            ) && spec_date_le(ranges[i], n) by {
                let k = i / 2;
                let a = ranges[2 * k];
                let b = ranges[2 * k + 1];
                assert(i == 2 * k || i == 2 * k + 1);
                assert(spec_in_pairs(norm, norm[k]));
                let j = choose|j: int|
                    0 <= j < f.date_ranges@.len() && f.date_ranges@[j] == norm[k];
                assert(spec_date_le(o, f.date_ranges@[j].0) && spec_date_le(
                    f.date_ranges@[j].1,
                    n,
                ));
                assert(spec_date_le(f.date_ranges@[j].0, f.date_ranges@[j].1));
            }
            if spec_in_singles(f.dates@, o) {
                assert(spec_in_singles(singles, o));
            } else {
                let j = choose|j: int|
                    0 <= j < f.date_ranges@.len() && (#[trigger] f.date_ranges@[j]).0 == o;
                assert(spec_in_pairs(norm, f.date_ranges@[j]));
                let k = choose|k: int| 0 <= k < norm.len() && norm[k] == f.date_ranges@[j];
                assert(ranges[2 * k] == o || ranges[2 * k + 1] == o);
            }
            if spec_in_singles(f.dates@, n) {
                assert(spec_in_singles(singles, n));
            } else {
                let j = choose|j: int|
                    0 <= j < f.date_ranges@.len() && (#[trigger] f.date_ranges@[j]).1 == n;
                assert(spec_in_pairs(norm, f.date_ranges@[j]));
                let k = choose|k: int| 0 <= k < norm.len() && norm[k] == f.date_ranges@[j];
                assert(ranges[2 * k] == n || ranges[2 * k + 1] == n);
            }
        },
        _ => {},
    }
}

/// Swapping the two endpoints of one pair before construction changes
/// nothing: the normalized ranges, and so the whole filter, are identical.
pub proof fn lemma_swap_pair_same_filter(ranges: Seq<Date>, k: int)
    requires
        ranges.len() % 2 == 0,
        0 <= k,
        2 * k + 1 < ranges.len(),
    ensures
        spec_normalize(ranges.update(2 * k, ranges[2 * k + 1]).update(2 * k + 1, ranges[2 * k]))
            == spec_normalize(ranges),
    decreases ranges.len(),
{
    let u = ranges.update(2 * k, ranges[2 * k + 1]).update(2 * k + 1, ranges[2 * k]);
    let len = ranges.len() as int;
    if 2 * k + 1 < len - 2 {
        assert(u.take(len - 2) =~= ranges.take(len - 2).update(2 * k, ranges[2 * k + 1]).update(
            2 * k + 1,
            ranges[2 * k],
        ));
        lemma_swap_pair_same_filter(ranges.take(len - 2), k);
        assert(u[len - 2] == ranges[len - 2] && u[len - 1] == ranges[len - 1]);
        assert(spec_normalize(u) == spec_normalize(ranges));
    } else {
        assert(2 * k == len - 2 && 2 * k + 1 == len - 1);
        assert(u.take(len - 2) =~= ranges.take(len - 2));
        let a = ranges[len - 2];
        let b = ranges[len - 1];
        assert(u[len - 2] == b && u[len - 1] == a);
        assert((if spec_date_le(b, a) {
            (b, a)
        } else {
            (a, b)
        }) == (if spec_date_le(a, b) {
            (a, b)
        } else {
            (b, a)
        }));
        assert(spec_normalize(u) == spec_normalize(ranges));
    }
}

} // verus!

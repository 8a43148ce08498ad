//! Character-level helpers shared by the parsers and formatters: decimal
//! digits, integer reading in the style of `str::parse`, decimal formatting,
//! and substring tests, all specified over `Seq<char>` views.

use vstd::prelude::*;

verus! {

use vstd::string::{StrSliceExecFns, StringExecFns};

/// `c` is an ASCII decimal digit.
pub open spec fn is_digit(c: char) -> bool {
    48 <= c as u32 <= 57
}

/// Numeric value of the digit `c`.
pub open spec fn digit_val(c: char) -> int {
    c as u32 - 48
}

/// Every character of `s` in `from .. to` is a digit.
pub open spec fn all_digits(s: Seq<char>, from: int, to: int) -> bool {
    forall|i: int| from <= i < to ==> is_digit(#[trigger] s[i])
}

/// The digit character for a value 0 through 9.
pub open spec fn digit_char(v: int) -> char {
    if v == 0 {
        '0'
    } else if v == 1 {
        '1'
    } else if v == 2 {
        '2'
    } else if v == 3 {
        '3'
    } else if v == 4 {
        '4'
    } else if v == 5 {
        '5'
    } else if v == 6 {
        '6'
    } else if v == 7 {
        '7'
    } else if v == 8 {
        '8'
    } else {
        '9'
    }
}

/// Value of the digit string `s[from .. to]` read in base ten.
pub open spec fn spec_digits_value(s: Seq<char>, from: int, to: int) -> int
    decreases to - from,
{
    if from >= to {
        0
    } else {
        spec_digits_value(s, from, to - 1) * 10 + digit_val(s[to - 1])
    }
}

/// A digit string's value is never negative.
pub proof fn lemma_digits_value_nonneg(s: Seq<char>, from: int, to: int)
    requires
        0 <= from,
        to <= s.len(),
        all_digits(s, from, to),
    ensures
        spec_digits_value(s, from, to) >= 0,
    decreases to - from,
{
    if from < to {
        lemma_digits_value_nonneg(s, from, to - 1);
    }
}

/// Reading more digits never shrinks the value.
pub proof fn lemma_digits_value_monotonic(s: Seq<char>, from: int, to1: int, to2: int)
    requires
        0 <= from <= to1 <= to2 <= s.len(),
        all_digits(s, from, to2),
    ensures
        spec_digits_value(s, from, to1) <= spec_digits_value(s, from, to2),
    decreases to2 - to1,
{
    if to1 < to2 {
        lemma_digits_value_monotonic(s, from, to1, to2 - 1);
        lemma_digits_value_nonneg(s, from, to2 - 1);
        assert(spec_digits_value(s, from, to2) == spec_digits_value(s, from, to2 - 1) * 10
            + digit_val(s[to2 - 1]));
        assert(spec_digits_value(s, from, to2 - 1) <= spec_digits_value(s, from, to2 - 1) * 10)
            by (nonlinear_arith)
            requires
                spec_digits_value(s, from, to2 - 1) >= 0,
        ;
    }
}

/// What `str::parse::<u32>` accepts: an optional `+`, then at least one
/// digit, and a value that fits.
pub open spec fn spec_parse_u32(s: Seq<char>) -> Option<u32> {
    let start: int = if s.len() > 0 && s[0] == '+' {
        1
    } else {
        0
    };
    if start < s.len() && all_digits(s, start, s.len() as int) && spec_digits_value(
        s,
        start,
        s.len() as int,
    ) <= u32::MAX {
        Some(spec_digits_value(s, start, s.len() as int) as u32)
    } else {
        None
    }
}

/// What `str::parse::<i32>` accepts: an optional sign, then at least one
/// digit, and a value that fits.
pub open spec fn spec_parse_i32(s: Seq<char>) -> Option<i32> {
    if s.len() == 0 {
        None
    } else {
        let neg = s[0] == '-';
        let start: int = if s[0] == '-' || s[0] == '+' {
            1
        } else {
            0
        };
        if start < s.len() && all_digits(s, start, s.len() as int) {
            let v = spec_digits_value(s, start, s.len() as int);
            if neg {
                if v <= 0x8000_0000 {
                    Some((-v) as i32)
                } else {
                    None
                }
            } else {
                if v <= 0x7fff_ffff {
                    Some(v as i32)
                } else {
                    None
                }
            }
        } else {
            None
        }
    }
}

/// The digit at character `i` of `s`, when there is one.
pub fn digit_at(s: &str, i: usize) -> (r: Option<u32>)
    requires
        i < s@.len(),
    ensures
        match r {
            Some(v) => is_digit(s@[i as int]) && v == digit_val(s@[i as int]) && v <= 9,
            None => !is_digit(s@[i as int]),
        },
{
    let c = s.get_char(i);
    let u = c as u32;
    if 48 <= u && u <= 57 {
        Some(u - 48)
    } else {
        None
    }
}

/// Read `s[from .. to]` as an unsigned number; `None` on a non-digit or on
/// overflow past `u32::MAX`.
pub fn parse_digits_u32(s: &str, from: usize, to: usize) -> (r: Option<u32>)
    requires
        from <= to <= s@.len(),
    ensures
        match r {
            Some(v) => all_digits(s@, from as int, to as int) && v == spec_digits_value(
                s@,
                from as int,
                to as int,
            ),
            None => !(all_digits(s@, from as int, to as int) && spec_digits_value(
                s@,
                from as int,
                to as int,
            ) <= u32::MAX),
        },
{
    let mut i = from;
    let mut acc: u64 = 0;
    while i < to
        invariant
            from <= i <= to <= s@.len(),
            all_digits(s@, from as int, i as int),
            acc == spec_digits_value(s@, from as int, i as int),
            acc <= u32::MAX,
        decreases to - i,
    {
        match digit_at(s, i) {
            Some(d) => {
                if acc > (u32::MAX as u64 - d as u64) / 10 {
                    proof {
                        lemma_digits_value_nonneg(s@, from as int, i as int);
                        assert(acc * 10 + d > u32::MAX) by (nonlinear_arith)
                            requires
                                acc > (0xffff_ffffu64 - d as u64) / 10,
                                acc >= 0,
                                d <= 9,
                        ;
                        if all_digits(s@, from as int, to as int) {
                            lemma_digits_value_monotonic(s@, from as int, i as int + 1, to as int);
                        }
                    }
                    return None;
                }
                proof {
                    assert(acc * 10 + d <= u32::MAX) by (nonlinear_arith)
                        requires
                            acc <= (0xffff_ffffu64 - d as u64) / 10,
                            acc >= 0,
                            d <= 9,
                    ;
                }
                acc = acc * 10 + d as u64;
            },
            None => {
                return None;
            },
        }
        i = i + 1;
    }
    Some(acc as u32)
}

/// A digit string keeps its value when read out of a larger string.
pub proof fn lemma_digits_value_shift(s: Seq<char>, lo: int, hi: int, a: int, b: int)
    requires
        0 <= lo <= hi <= s.len(),
        0 <= a <= b <= hi - lo,
    ensures
        spec_digits_value(s.subrange(lo, hi), a, b) == spec_digits_value(s, lo + a, lo + b),
    decreases b - a,
{
    if a < b {
        lemma_digits_value_shift(s, lo, hi, a, b - 1);
    }
}

/// Read `s[from .. to]` as `str::parse::<u32>` reads a whole string: an
/// optional `+`, then at least one digit, and a value that fits.
pub fn parse_u32_range(s: &str, from: usize, to: usize) -> (r: Option<u32>)
    requires
        from <= to <= s@.len(),
    ensures
        r == spec_parse_u32(s@.subrange(from as int, to as int)),
{
    let ghost sub = s@.subrange(from as int, to as int);
    let start: usize = if from < to && s.get_char(from) == '+' {
        from + 1
    } else {
        from
    };
    if start >= to {
        return None;
    }
    let r = parse_digits_u32(s, start, to);
    proof {
        lemma_digits_value_shift(s@, from as int, to as int, start - from, to - from);
        assert(all_digits(sub, start - from, sub.len() as int) == all_digits(
            s@,
            start as int,
            to as int,
        )) by {
            if all_digits(sub, start - from, sub.len() as int) {
                assert forall|i: int| start <= i < to implies is_digit(#[trigger] s@[i]) by {
                    assert(sub[i - from] == s@[i]);
                }
            }
            if all_digits(s@, start as int, to as int) {
                assert forall|i: int| start - from <= i < sub.len() implies is_digit(
                    #[trigger] sub[i],
                ) by {
                    assert(sub[i] == s@[from + i]);
                }
            }
        }
    }
    r
}

/// Read a whole string as `str::parse::<u32>` would.
pub fn parse_u32_str(s: &str) -> (r: Option<u32>)
    ensures
        r == spec_parse_u32(s@),
{
    let len = s.unicode_len();
    let start: usize = if len > 0 && s.get_char(0) == '+' {
        1
    } else {
        0
    };
    if start >= len {
        return None;
    }
    parse_digits_u32(s, start, len)
}

/// Read a whole string as `str::parse::<i32>` would.
#[verifier::loop_isolation(false)]
pub fn parse_i32_str(s: &str) -> (r: Option<i32>)
    ensures
        r == spec_parse_i32(s@),
{
    let len = s.unicode_len();
    if len == 0 {
        return None;
    }
    let c0 = s.get_char(0);
    let neg = c0 == '-';
    let start: usize = if c0 == '-' || c0 == '+' {
        1
    } else {
        0
    };
    if start >= len {
        return None;
    }
    let mut i = start;
    let mut acc: u64 = 0;
    while i < len
        invariant
            start <= i <= len,
            len == s@.len(),
            all_digits(s@, start as int, i as int),
            acc == spec_digits_value(s@, start as int, i as int),
            acc <= 0x8000_0000,
        decreases len - i,
    {
        match digit_at(s, i) {
            Some(d) => {
                if acc > (0x8000_0000u64 - d as u64) / 10 {
                    proof {
                        lemma_digits_value_nonneg(s@, start as int, i as int);
                        assert(acc * 10 + d > 0x8000_0000) by (nonlinear_arith)
                            requires
                                acc > (0x8000_0000u64 - d as u64) / 10,
                                acc >= 0,
                                d <= 9,
                        ;
                        if all_digits(s@, start as int, len as int) {
                            lemma_digits_value_monotonic(s@, start as int, i as int + 1, len as int);
                        }
                    }
                    return None;
                }
                proof {
                    assert(acc * 10 + d <= 0x8000_0000) by (nonlinear_arith)
                        requires
                            acc <= (0x8000_0000u64 - d as u64) / 10,
                            acc >= 0,
                            d <= 9,
                    ;
                }
                acc = acc * 10 + d as u64;
            },
            None => {
                return None;
            },
        }
        i = i + 1;
    }
    if neg {
        negated_i32(acc)
    } else {
        if acc <= 0x7fff_ffff {
            Some(acc as i32)
        } else {
            None
        }
    }
}

/// The negated value of `acc` as an `i32`; helper for the signed parser.
fn negated_i32(acc: u64) -> (r: Option<i32>)
    requires
        acc <= 0x8000_0000,
    ensures
        r == Some((-(acc as int)) as i32),
{
    if acc == 0x8000_0000 {
        Some(i32::MIN)
    } else {
        Some(-(acc as i32))
    }
}

/// The two strings hold the same characters.
pub fn str_eq(a: &str, b: &str) -> (r: bool)
    ensures
        r == (a@ == b@),
{
    let la = a.unicode_len();
    let lb = b.unicode_len();
    if la != lb {
        return false;
    }
    let mut i: usize = 0;
    while i < la
        invariant
            0 <= i <= la,
            la == a@.len(),
            la == b@.len(),
            forall|j: int| 0 <= j < i ==> a@[j] == b@[j],
        decreases la - i,
    {
        if s_ne(a.get_char(i), b.get_char(i)) {
            return false;
        }
        i = i + 1;
    }
    proof {
        assert(a@ =~= b@);
    }
    true
}

/// The two characters differ.
fn s_ne(x: char, y: char) -> (r: bool)
    ensures
        r == (x != y),
{
    x != y
}

/// `p` occurs at the front of `s`.
pub open spec fn spec_starts_with(s: Seq<char>, p: Seq<char>) -> bool {
    p.len() <= s.len() && forall|i: int| 0 <= i < p.len() ==> s[i] == #[trigger] p[i]
}

/// `p` occurs in `s` at offset `k`.
pub open spec fn spec_match_at(s: Seq<char>, p: Seq<char>, k: int) -> bool {
    0 <= k && k + p.len() <= s.len() && forall|i: int| 0 <= i < p.len() ==> s[k + i] == #[trigger] p[i]
}

/// `p` occurs somewhere in `s`.
pub open spec fn spec_str_contains(s: Seq<char>, p: Seq<char>) -> bool {
    exists|k: int| spec_match_at(s, p, k)
}

/// Whether `s` starts with `p`, as `str::starts_with` decides it.
pub fn str_starts_with(s: &str, p: &str) -> (r: bool)
    ensures
        r == spec_starts_with(s@, p@),
{
    let ls = s.unicode_len();
    let lp = p.unicode_len();
    if lp > ls {
        return false;
    }
    let mut i: usize = 0;
    while i < lp
        invariant
            0 <= i <= lp <= ls,
            ls == s@.len(),
            lp == p@.len(),
            forall|j: int| 0 <= j < i ==> s@[j] == #[trigger] p@[j],
        decreases lp - i,
    {
        if s_ne(s.get_char(i), p.get_char(i)) {
            return false;
        }
        i = i + 1;
    }
    true
}

/// Whether `p` occurs in `s`, as `str::contains` decides it.
#[verifier::loop_isolation(false)]
pub fn str_contains(s: &str, p: &str) -> (r: bool)
    ensures
        r == spec_str_contains(s@, p@),
{
    let ls = s.unicode_len();
    let lp = p.unicode_len();
    if lp > ls {
        return false;
    }
    if lp == 0 {
        proof {
            assert(spec_match_at(s@, p@, 0));
        }
        return true;
    }
    let mut k: usize = 0;
    while k <= ls - lp
        invariant
            0 <= k <= ls - lp + 1,
            forall|k2: int| 0 <= k2 < k ==> !spec_match_at(s@, p@, k2),
        decreases ls - lp - k + 1,
    {
        let mut i: usize = 0;
        let mut hit = true;
        while i < lp && hit
            invariant
                0 <= i <= lp,
                k + lp <= ls,
                hit ==> forall|j: int| 0 <= j < i ==> s@[k + j] == #[trigger] p@[j],
                !hit ==> !spec_match_at(s@, p@, k as int),
            decreases lp - i,
        {
            if s_ne(s.get_char(k + i), p.get_char(i)) {
                hit = false;
            }
            i = i + 1;
        }
        if hit {
            proof {
                assert(spec_match_at(s@, p@, k as int));
            }
            return true;
        }
        k = k + 1;
    }
    proof {
        assert forall|k2: int| !spec_match_at(s@, p@, k2) by {
            if 0 <= k2 && k2 + p@.len() <= s@.len() {
                assert(k2 < k);
            }
        }
    }
    false
}

/// Ten to the power `n`.
pub open spec fn ten_pow(n: nat) -> int
    decreases n,
{
    if n == 0 {
        1
    } else {
        10 * ten_pow((n - 1) as nat)
    }
}

/// `ten_pow` is positive.
pub proof fn lemma_ten_pow_pos(n: nat)
    ensures
        ten_pow(n) >= 1,
    decreases n,
{
    if n > 0 {
        lemma_ten_pow_pos((n - 1) as nat);
    }
}

/// `ten_pow` never shrinks as the exponent grows.
pub proof fn lemma_ten_pow_monotonic(a: nat, b: nat)
    requires
        a <= b,
    ensures
        ten_pow(a) <= ten_pow(b),
        ten_pow(a) >= 1,
    decreases b,
{
    if a == b {
        lemma_ten_pow_pos(a);
    } else {
        lemma_ten_pow_monotonic(a, (b - 1) as nat);
    }
}

/// The value of a digit string is below ten to its length.
pub proof fn lemma_digits_value_small(s: Seq<char>, from: int, to: int)
    requires
        0 <= from <= to <= s.len(),
        all_digits(s, from, to),
    ensures
        spec_digits_value(s, from, to) < ten_pow((to - from) as nat),
    decreases to - from,
{
    if from < to {
        lemma_digits_value_small(s, from, to - 1);
        let prev = spec_digits_value(s, from, to - 1);
        let p = ten_pow((to - 1 - from) as nat);
        assert(prev * 10 <= (p - 1) * 10) by (nonlinear_arith)
            requires
                prev <= p - 1,
        ;
    }
}

/// A string of up to nine digits has a value below `u32::MAX`.
pub proof fn lemma_digits_bound(s: Seq<char>, from: int, to: int)
    requires
        0 <= from <= to <= s.len(),
        to - from <= 9,
    ensures
        all_digits(s, from, to) ==> spec_digits_value(s, from, to) <= u32::MAX,
{
    if all_digits(s, from, to) {
        lemma_digits_value_small(s, from, to);
        assert(ten_pow(9) == 1000000000) by {
            assert(ten_pow(0) == 1);
            assert(ten_pow(1) == 10);
            assert(ten_pow(2) == 100);
            assert(ten_pow(3) == 1000);
            assert(ten_pow(4) == 10000);
            assert(ten_pow(5) == 100000);
            assert(ten_pow(6) == 1000000);
            assert(ten_pow(7) == 10000000);
            assert(ten_pow(8) == 100000000);
        }
        lemma_ten_pow_monotonic((to - from) as nat, 9);
    }
}

/// The ASCII code of `c` with an upper-case letter folded to lower case.
pub open spec fn lower_code(c: char) -> int {
    if 65 <= c as u32 <= 90 {
        c as u32 + 32
    } else {
        c as u32 as int
    }
}

/// The code point of `c`, upper-case ASCII letters folded to lower case.
pub fn char_lower_code(c: char) -> (r: u32)
    ensures
        r == lower_code(c),
{
    let u = c as u32;
    if 65 <= u && u <= 90 {
        u + 32
    } else {
        u
    }
}

/// `p` occurs at the end of `s`.
pub open spec fn spec_ends_with(s: Seq<char>, p: Seq<char>) -> bool {
    p.len() <= s.len() && forall|i: int|
        0 <= i < p.len() ==> s[s.len() - p.len() + i] == #[trigger] p[i]
}

/// `s` with every trailing copy of `p` removed, as `str::trim_end_matches`
/// strips them.
pub open spec fn spec_strip_suffix_all(s: Seq<char>, p: Seq<char>) -> Seq<char>
    decreases s.len(),
{
    if p.len() > 0 && spec_ends_with(s, p) {
        spec_strip_suffix_all(s.take(s.len() - p.len()), p)
    } else {
        s
    }
}

/// An ASCII whitespace character.
pub open spec fn spec_is_ws(c: char) -> bool {
    c == ' ' || c == '\t' || c == '\n' || c == '\r'
}

/// `s` without leading whitespace.
pub open spec fn spec_trim_start(s: Seq<char>) -> Seq<char>
    decreases s.len(),
{
    if s.len() > 0 && spec_is_ws(s[0]) {
        spec_trim_start(s.subrange(1, s.len() as int))
    } else {
        s
    }
}

/// `s` without trailing whitespace.
pub open spec fn spec_trim_end(s: Seq<char>) -> Seq<char>
    decreases s.len(),
{
    if s.len() > 0 && spec_is_ws(s.last()) {
        spec_trim_end(s.drop_last())
    } else {
        s
    }
}

/// `s` without leading or trailing whitespace.
pub open spec fn spec_trim(s: Seq<char>) -> Seq<char> {
    spec_trim_start(spec_trim_end(s))
}

/// Whether `c` is ASCII whitespace.
pub fn is_ws_char(c: char) -> (r: bool)
    ensures
        r == spec_is_ws(c),
{
    c == ' ' || c == '\t' || c == '\n' || c == '\r'
}

/// The bounds of `s` with whitespace stripped from both ends.
#[verifier::loop_isolation(false)]
pub fn trim_bounds(s: &str) -> (r: (usize, usize))
    ensures
        r.0 <= r.1 <= s@.len(),
        s@.subrange(r.0 as int, r.1 as int) == spec_trim(s@),
{
    let len = s.unicode_len();
    proof {
        assert(s@.subrange(0, len as int) =~= s@);
    }
    let mut hi: usize = len;
    while hi >= 1 && is_ws_char(s.get_char(hi - 1))
        invariant
            hi <= len,
            spec_trim_end(s@) == spec_trim_end(s@.subrange(0, hi as int)),
        decreases hi,
    {
        proof {
            let cur = s@.subrange(0, hi as int);
            assert(cur.drop_last() =~= s@.subrange(0, hi - 1));
        }
        hi = hi - 1;
    }
    proof {
        assert(spec_trim_end(s@) == s@.subrange(0, hi as int));
    }
    let mut lo: usize = 0;
    while lo < hi && is_ws_char(s.get_char(lo))
        invariant
            0 <= lo <= hi <= len,
            spec_trim_end(s@) == s@.subrange(0, hi as int),
            spec_trim_start(s@.subrange(0, hi as int)) == spec_trim_start(
                s@.subrange(lo as int, hi as int),
            ),
        decreases hi - lo,
    {
        proof {
            let cur = s@.subrange(lo as int, hi as int);
            assert(cur.subrange(1, cur.len() as int) =~= s@.subrange(lo + 1, hi as int));
        }
        lo = lo + 1;
    }
    proof {
        let cur = s@.subrange(lo as int, hi as int);
        if cur.len() > 0 && spec_is_ws(cur[0]) {
            assert(spec_is_ws(s@[lo as int]));
        }
        assert(spec_trim_start(s@.subrange(0, hi as int)) == cur);
    }
    (lo, hi)
}

/// The first position at or after `i` holding `c`, if any.
pub open spec fn spec_find_char(s: Seq<char>, c: char, i: int) -> Option<int>
    decreases s.len() - i,
{
    if i < 0 || i >= s.len() {
        None
    } else if s[i] == c {
        Some(i)
    } else {
        spec_find_char(s, c, i + 1)
    }
}

/// The first position in `[from, to)` holding `c`, if any.
#[verifier::loop_isolation(false)]
pub fn find_char_in(s: &str, c: char, from: usize, to: usize) -> (r: Option<usize>)
    requires
        from <= to <= s@.len(),
    ensures
        match r {
            Some(k) => from <= k < to && s@[k as int] == c && forall|j: int|
                from <= j < k ==> s@[j] != c,
            None => forall|j: int| from <= j < to ==> s@[j] != c,
        },
{
    let mut i = from;
    while i < to
        invariant
            from <= i <= to,
            forall|j: int| from <= j < i ==> s@[j] != c,
        decreases to - i,
    {
        if s.get_char(i) == c {
            return Some(i);
        }
        i = i + 1;
    }
    None
}

/// `spec_find_char` finds the first occurrence at or after `i`.
pub proof fn lemma_find_char_first(t: Seq<char>, c: char, i: int)
    requires
        0 <= i,
    ensures
        match spec_find_char(t, c, i) {
            Some(k) => i <= k < t.len() && t[k] == c && forall|j: int| i <= j < k ==> t[j] != c,
            None => forall|j: int| i <= j < t.len() ==> t[j] != c,
        },
    decreases t.len() - i,
{
    if i < t.len() && t[i] != c {
        lemma_find_char_first(t, c, i + 1);
    }
}

/// `c` with an upper-case ASCII letter folded to lower case.
pub open spec fn spec_lower_char(c: char) -> char {
    if c == 'A' {
        'a'
    } else if c == 'B' {
        'b'
    } else if c == 'C' {
        'c'
    } else if c == 'D' {
        'd'
    } else if c == 'E' {
        'e'
    } else if c == 'F' {
        'f'
    } else if c == 'G' {
        'g'
    } else if c == 'H' {
        'h'
    } else if c == 'I' {
        'i'
    } else if c == 'J' {
        'j'
    } else if c == 'K' {
        'k'
    } else if c == 'L' {
        'l'
    } else if c == 'M' {
        'm'
    } else if c == 'N' {
        'n'
    } else if c == 'O' {
        'o'
    } else if c == 'P' {
        'p'
    } else if c == 'Q' {
        'q'
    } else if c == 'R' {
        'r'
    } else if c == 'S' {
        's'
    } else if c == 'T' {
        't'
    } else if c == 'U' {
        'u'
    } else if c == 'V' {
        'v'
    } else if c == 'W' {
        'w'
    } else if c == 'X' {
        'x'
    } else if c == 'Y' {
        'y'
    } else if c == 'Z' {
        'z'
    } else {
        c
    }
}

/// `s` with upper-case ASCII letters folded to lower case.
pub open spec fn spec_to_lower(s: Seq<char>) -> Seq<char> {
    Seq::new(s.len(), |i: int| spec_lower_char(s[i]))
}

/// Fold the upper-case ASCII letters of `s` to lower case; other characters
/// are kept as they are.
#[verifier::loop_isolation(false)]
pub fn to_lowercase_ascii(s: &str) -> (r: String)
    ensures
        r@ == spec_to_lower(s@),
{
    let len = s.unicode_len();
    let mut r = String::new();
    let mut i: usize = 0;
    while i < len
        invariant
            0 <= i <= len,
            r@.len() == i,
            forall|j: int| 0 <= j < i ==> r@[j] == spec_lower_char(s@[j]),
        decreases len - i,
    {
        let c = s.get_char(i);
        if c == 'A' {
            proof {
                reveal_strlit("a");
            }
            r.append("a");
        } else if c == 'B' {
            proof {
                reveal_strlit("b");
            }
            r.append("b");
        } else if c == 'C' {
            proof {
                reveal_strlit("c");
            }
            r.append("c");
        } else if c == 'D' {
            proof {
                reveal_strlit("d");
            }
            r.append("d");
        } else if c == 'E' {
            proof {
                reveal_strlit("e");
            }
            r.append("e");
        } else if c == 'F' {
            proof {
                reveal_strlit("f");
            }
            r.append("f");
        } else if c == 'G' {
            proof {
                reveal_strlit("g");
            }
            r.append("g");
        } else if c == 'H' {
            proof {
                reveal_strlit("h");
            }
            r.append("h");
        } else if c == 'I' {
            proof {
                reveal_strlit("i");
            }
            r.append("i");
        } else if c == 'J' {
            proof {
                reveal_strlit("j");
            }
            r.append("j");
        } else if c == 'K' {
            proof {
                reveal_strlit("k");
            }
            r.append("k");
        } else if c == 'L' {
            proof {
                reveal_strlit("l");
            }
            r.append("l");
        } else if c == 'M' {
            proof {
                reveal_strlit("m");
            }
            r.append("m");
        } else if c == 'N' {
            proof {
                reveal_strlit("n");
            }
            r.append("n");
        } else if c == 'O' {
            proof {
                reveal_strlit("o");
            }
            r.append("o");
        } else if c == 'P' {
            proof {
                reveal_strlit("p");
            }
            r.append("p");
        } else if c == 'Q' {
            proof {
                reveal_strlit("q");
            }
            r.append("q");
        } else if c == 'R' {
            proof {
                reveal_strlit("r");
            }
            r.append("r");
        } else if c == 'S' {
            proof {
                reveal_strlit("s");
            }
            r.append("s");
        } else if c == 'T' {
            proof {
                reveal_strlit("t");
            }
            r.append("t");
        } else if c == 'U' {
            proof {
                reveal_strlit("u");
            }
            r.append("u");
        } else if c == 'V' {
            proof {
                reveal_strlit("v");
            }
            r.append("v");
        } else if c == 'W' {
            proof {
                reveal_strlit("w");
            }
            r.append("w");
        } else if c == 'X' {
            proof {
                reveal_strlit("x");
            }
            r.append("x");
        } else if c == 'Y' {
            proof {
                reveal_strlit("y");
            }
            r.append("y");
        } else if c == 'Z' {
            proof {
                reveal_strlit("z");
            }
            r.append("z");
        } else {
            let piece = s.substring_char(i, i + 1);
            r.append(piece);
            proof {
                assert(piece@ =~= seq![s@[i as int]]);
            }
        }
        i = i + 1;
    }
    proof {
        assert(r@ =~= spec_to_lower(s@));
    }
    r
}

/// Append the digit `v` to `s`.
pub fn append_digit(s: &mut String, v: u32)
    requires
        v <= 9,
    ensures
        final(s)@ == old(s)@ + seq![digit_char(v as int)],
{
    if v == 0 {
        proof {
            reveal_strlit("0");
        }
        s.append("0");
        proof {
            assert(final(s)@ =~= old(s)@ + seq![digit_char(v as int)]);
        }
    } else if v == 1 {
        proof {
            reveal_strlit("1");
        }
        s.append("1");
        proof {
            assert(final(s)@ =~= old(s)@ + seq![digit_char(v as int)]);
        }
    } else if v == 2 {
        proof {
            reveal_strlit("2");
        }
        s.append("2");
        proof {
            assert(final(s)@ =~= old(s)@ + seq![digit_char(v as int)]);
        }
    } else if v == 3 {
        proof {
            reveal_strlit("3");
        }
        s.append("3");
        proof {
            assert(final(s)@ =~= old(s)@ + seq![digit_char(v as int)]);
        }
    } else if v == 4 {
        proof {
            reveal_strlit("4");
        }
        s.append("4");
        proof {
            assert(final(s)@ =~= old(s)@ + seq![digit_char(v as int)]);
        }
    } else if v == 5 {
        proof {
            reveal_strlit("5");
        }
        s.append("5");
        proof {
            assert(final(s)@ =~= old(s)@ + seq![digit_char(v as int)]);
        }
    } else if v == 6 {
        proof {
            reveal_strlit("6");
        }
        s.append("6");
        proof {
            assert(final(s)@ =~= old(s)@ + seq![digit_char(v as int)]);
        }
    } else if v == 7 {
        proof {
            reveal_strlit("7");
        }
        s.append("7");
        proof {
            assert(final(s)@ =~= old(s)@ + seq![digit_char(v as int)]);
        }
    } else if v == 8 {
        proof {
            reveal_strlit("8");
        }
        s.append("8");
        proof {
            assert(final(s)@ =~= old(s)@ + seq![digit_char(v as int)]);
        }
    } else {
        proof {
            reveal_strlit("9");
        }
        s.append("9");
        proof {
            assert(final(s)@ =~= old(s)@ + seq![digit_char(v as int)]);
        }
    }
}

/// The two-digit, zero-padded decimal form of `v`.
pub open spec fn spec_two_digit_seq(v: int) -> Seq<char> {
    seq![digit_char(v / 10), digit_char(v % 10)]
}

/// Append `v` as exactly two digits, zero padded.
pub fn append_two_digits(s: &mut String, v: u32)
    requires
        v <= 99,
    ensures
        final(s)@ == old(s)@ + spec_two_digit_seq(v as int),
{
    append_digit(s, v / 10);
    append_digit(s, v % 10);
    proof {
        assert(final(s)@ =~= old(s)@ + spec_two_digit_seq(v as int));
    }
}

/// The four-digit, zero-padded decimal form of `v`.
pub open spec fn spec_four_digit_seq(v: int) -> Seq<char> {
    seq![
        digit_char(v / 1000 % 10),
        digit_char(v / 100 % 10),
        digit_char(v / 10 % 10),
        digit_char(v % 10),
    ]
}

/// Append `v` as exactly four digits, zero padded.
pub fn append_four_digits(s: &mut String, v: u32)
    requires
        v <= 9999,
    ensures
        final(s)@ == old(s)@ + spec_four_digit_seq(v as int),
{
    append_digit(s, v / 1000 % 10);
    append_digit(s, v / 100 % 10);
    append_digit(s, v / 10 % 10);
    append_digit(s, v % 10);
    proof {
        assert(final(s)@ =~= old(s)@ + spec_four_digit_seq(v as int));
    }
}

/// The decimal form of the non-negative number `v`.
pub open spec fn spec_u64_digits(v: int) -> Seq<char>
    decreases v,
{
    if v <= 9 {
        seq![digit_char(v)]
    } else {
        spec_u64_digits(v / 10).push(digit_char(v % 10))
    }
}

/// Append the decimal form of `v`.
pub fn append_u64(s: &mut String, v: u64)
    ensures
        final(s)@ == old(s)@ + spec_u64_digits(v as int),
    decreases v,
{
    if v <= 9 {
        append_digit(s, v as u32);
    } else {
        append_u64(s, v / 10);
        append_digit(s, (v % 10) as u32);
        proof {
            assert(final(s)@ =~= old(s)@ + spec_u64_digits(v as int));
        }
    }
}

/// The decimal form of `v`, with a leading minus sign when negative.
pub open spec fn spec_i64_string(v: int) -> Seq<char> {
    if v < 0 {
        seq!['-'] + spec_u64_digits(-v)
    } else {
        spec_u64_digits(v)
    }
}

/// Append the decimal form of `v`, signed.
pub fn append_i64(s: &mut String, v: i64)
    requires
        v != i64::MIN,
    ensures
        final(s)@ == old(s)@ + spec_i64_string(v as int),
{
    if v < 0 {
        proof {
            reveal_strlit("-");
        }
        s.append("-");
        append_u64(s, (-v) as u64);
        proof {
            assert("-"@ =~= seq!['-']);
            assert(final(s)@ =~= old(s)@ + spec_i64_string(v as int));
        }
    } else {
        append_u64(s, v as u64);
    }
}

/// `spec_i64_string(v)` padded on the left with `0` to at least two
/// characters, as `{:02}` formatting pads it.
pub open spec fn spec_i64_pad2(v: int) -> Seq<char> {
    if 0 <= v <= 9 {
        seq!['0'] + spec_u64_digits(v)
    } else {
        spec_i64_string(v)
    }
}

/// Append `v` zero-padded to at least two characters.
pub fn append_i64_pad2(s: &mut String, v: i64)
    requires
        v != i64::MIN,
    ensures
        final(s)@ == old(s)@ + spec_i64_pad2(v as int),
{
    if 0 <= v && v <= 9 {
        append_digit(s, 0);
        append_digit(s, v as u32);
        proof {
            assert(final(s)@ =~= old(s)@ + spec_i64_pad2(v as int));
        }
    } else {
        append_i64(s, v);
    }
}

} // verus!

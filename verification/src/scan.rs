//! Matchers for the recognized line shapes: generic timestamps, level
//! tokens, and Common-Log-Format lines. Matching is leftmost and
//! non-overlapping.

use vstd::prelude::*;
use crate::text::is_digit_char;
use crate::text::is_space_char;
use crate::text::is_word_char;
use crate::text::digit_char;
use crate::text::space_char;
use crate::text::word_char;
use crate::text::char_eq_ci;
use crate::text::eq_ci;
use crate::text::token_len_from;
use crate::models::LogLevel;
use crate::models::keyword_table;

verus! {

// ---------------------------------------------------------------------------
// Shared digit helpers
// ---------------------------------------------------------------------------

/// `n` ASCII digits stand at positions `[i, i + n)`.
pub open spec fn digits_at(s: Seq<char>, i: int, n: int) -> bool {
    &&& 0 <= i
    &&& 0 <= n
    &&& i + n <= s.len()
    &&& forall|k: int| i <= k < i + n ==> is_digit_char(#[trigger] s[k])
}

/// Length of the maximal run of ASCII digits starting at `i`.
pub open spec fn digit_run_from(s: Seq<char>, i: int) -> nat
    decreases s.len() - i,
{
    if i < 0 || i >= s.len() || !is_digit_char(s[i]) {
        0
    } else {
        1 + digit_run_from(s, i + 1)
    }
}

pub proof fn lemma_digit_run_le(s: Seq<char>, i: int)
    requires
        0 <= i <= s.len(),
    ensures
        i + digit_run_from(s, i) <= s.len(),
    decreases s.len() - i,
{
    if i < s.len() && is_digit_char(s[i]) {
        lemma_digit_run_le(s, i + 1);
    }
}

proof fn lemma_digit_run_eq(s: Seq<char>, i: int, j: int)
    requires
        0 <= i <= j <= s.len(),
        forall|k: int| i <= k < j ==> is_digit_char(#[trigger] s[k]),
        j == s.len() || !is_digit_char(s[j]),
    ensures
        digit_run_from(s, i) == j - i,
    decreases j - i,
{
    if i < j {
        lemma_digit_run_eq(s, i + 1, j);
    }
}

/// A maximal digit run is digits throughout and stops on a non-digit.
pub proof fn lemma_digit_run_chars(s: Seq<char>, i: int)
    requires
        0 <= i,
    ensures
        forall|d: int| 0 <= d < digit_run_from(s, i) ==> is_digit_char(#[trigger] s[i + d]),
    decreases s.len() - i,
{
    if i < s.len() && is_digit_char(s[i]) {
        lemma_digit_run_chars(s, i + 1);
        assert forall|d: int| 0 <= d < digit_run_from(s, i) implies is_digit_char(
            #[trigger] s[i + d],
        ) by {
            if d > 0 {
                assert(s[(i + 1) + (d - 1)] == s[i + d]);
            }
        }
    }
}

/// The numeric value of the digit character `c`.
pub open spec fn digit_val(c: char) -> int {
    c as u32 - 48
}

fn check_digits(v: &Vec<char>, i: usize, n: usize) -> (b: bool)
    ensures
        b == digits_at(v@, i as int, n as int),
{
    let len = v.len();
    if i > len || n > len - i {
        return false;
    }
    let mut k: usize = 0;
    while k < n
        invariant
            i + n <= len,
            len == v@.len(),
            k <= n,
            forall|m: int| i <= m < i + k ==> is_digit_char(#[trigger] v@[m]),
        decreases n - k,
    {
        if !digit_char(v[i + k]) {
            return false;
        }
        k = k + 1;
    }
    true
}

pub fn digit_run(v: &Vec<char>, i: usize) -> (r: usize)
    requires
        i <= v@.len(),
    ensures
        r == digit_run_from(v@, i as int),
        i + r <= v@.len(),
{
    let n = v.len();
    let mut j: usize = i;
    while j < n && digit_char(v[j])
        invariant
            i <= j <= n,
            n == v@.len(),
            forall|k: int| i <= k < j ==> is_digit_char(#[trigger] v@[k]),
        decreases n - j,
    {
        j = j + 1;
    }
    proof {
        lemma_digit_run_eq(v@, i as int, j as int);
    }
    j - i
}

// ---------------------------------------------------------------------------
// Generic timestamps
// ---------------------------------------------------------------------------

/// The fixed 19-character head of a generic timestamp at `i`:
/// `dddd-dd-dd` then `T` or a space, then `dd:dd:dd`.
pub open spec fn ts_head_at(s: Seq<char>, i: int) -> bool {
    &&& 0 <= i
    &&& i + 19 <= s.len()
    &&& digits_at(s, i, 4)
    &&& s[i + 4] == '-'
    &&& digits_at(s, i + 5, 2)
    &&& s[i + 7] == '-'
    &&& digits_at(s, i + 8, 2)
    &&& (s[i + 10] == 'T' || s[i + 10] == ' ')
    &&& digits_at(s, i + 11, 2)
    &&& s[i + 13] == ':'
    &&& digits_at(s, i + 14, 2)
    &&& s[i + 16] == ':'
    &&& digits_at(s, i + 17, 2)
}

/// Length of the fractional-seconds part at `i`: a dot followed by at
/// least one digit (taken maximally), or nothing.
pub open spec fn frac_len_at(s: Seq<char>, i: int) -> nat {
    if 0 <= i < s.len() && s[i] == '.' && digit_run_from(s, i + 1) >= 1 {
        1 + digit_run_from(s, i + 1)
    } else {
        0
    }
}

/// Length of the zone part at `i`: `Z`, `±dd:dd` or `±dddd`, or nothing.
pub open spec fn zone_len_at(s: Seq<char>, i: int) -> nat {
    if 0 <= i < s.len() && s[i] == 'Z' {
        1
    } else if 0 <= i < s.len() && (s[i] == '+' || s[i] == '-') && digits_at(s, i + 1, 2) {
        if i + 3 < s.len() && s[i + 3] == ':' && digits_at(s, i + 4, 2) {
            6
        } else if digits_at(s, i + 3, 2) {
            5
        } else {
            0
        }
    } else {
        0
    }
}

/// Total length of the generic timestamp match at `i`, assuming the head
/// shape holds there.
pub open spec fn ts_len_at(s: Seq<char>, i: int) -> nat {
    (19 + frac_len_at(s, i + 19) + zone_len_at(s, i + 19 + frac_len_at(s, i + 19))) as nat
}

/// Position of the leftmost generic timestamp match at or after `i`.
pub open spec fn ts_find_from(s: Seq<char>, i: int) -> Option<int>
    decreases s.len() - i,
{
    if i < 0 || i >= s.len() {
        None
    } else if ts_head_at(s, i) {
        Some(i)
    } else {
        ts_find_from(s, i + 1)
    }
}

/// Position of the leftmost generic timestamp match.
pub open spec fn ts_find(s: Seq<char>) -> Option<int> {
    ts_find_from(s, 0)
}

pub proof fn lemma_ts_find_in_range(s: Seq<char>, i: int)
    requires
        ts_find_from(s, i) is Some,
    ensures
        i <= ts_find_from(s, i)->0,
        ts_head_at(s, ts_find_from(s, i)->0),
    decreases s.len() - i,
{
    if 0 <= i < s.len() && !ts_head_at(s, i) {
        lemma_ts_find_in_range(s, i + 1);
    }
}

/// The matched timestamp span lies within the line.
pub proof fn lemma_ts_len_le(s: Seq<char>, i: int)
    requires
        ts_head_at(s, i),
    ensures
        19 <= ts_len_at(s, i),
        i + ts_len_at(s, i) <= s.len(),
{
    let f = frac_len_at(s, i + 19);
    if f > 0 {
        lemma_digit_run_le(s, i + 20);
    }
    let z = zone_len_at(s, i + 19 + f);
    assert(i + 19 + f + z <= s.len());
}

/// Every character of a generic timestamp match is a digit or one of the
/// punctuation marks of the shape; the only letters are the `T` separator
/// and the `Z` zone.
pub proof fn lemma_ts_span_chars(s: Seq<char>, i: int, d: int)
    requires
        ts_head_at(s, i),
        0 <= d < ts_len_at(s, i),
    ensures
        is_digit_char(s[i + d]) || s[i + d] == '-' || s[i + d] == ':' || s[i + d] == '.' || s[i
            + d] == '+' || s[i + d] == ' ' || s[i + d] == 'Z' || (s[i + d] == 'T' && d == 10),
{
    let f = frac_len_at(s, i + 19) as int;
    let z = zone_len_at(s, i + 19 + f) as int;
    lemma_ts_len_le(s, i);
    if d < 19 {
        if d == 4 || d == 7 {
        } else if d == 13 || d == 16 {
        } else if d == 10 {
        } else {
            assert(is_digit_char(s[i + d]));
        }
    } else if d < 19 + f {
        if d == 19 {
            assert(s[i + 19] == '.');
        } else {
            lemma_digit_run_chars(s, i + 20);
            assert(is_digit_char(s[(i + 20) + (d - 20)]));
        }
    } else {
        let zp = i + 19 + f;
        let e = d - (19 + f);
        if z == 1 {
            assert(s[zp] == 'Z');
        } else {
            assert(s[zp] == '+' || s[zp] == '-');
            if z == 6 {
                if e == 0 {
                } else if e == 3 {
                    assert(s[zp + 3] == ':');
                } else if e < 3 {
                    assert(is_digit_char(s[zp + e]));
                } else {
                    assert(is_digit_char(s[zp + e]));
                }
            } else {
                if e == 0 {
                } else {
                    assert(is_digit_char(s[zp + e]));
                }
            }
        }
    }
}

fn ts_head(v: &Vec<char>, i: usize) -> (b: bool)
    ensures
        b == ts_head_at(v@, i as int),
{
    let len = v.len();
    if i > len || len - i < 19 {
        return false;
    }
    check_digits(v, i, 4) && v[i + 4] == '-' && check_digits(v, i + 5, 2) && v[i + 7] == '-'
        && check_digits(v, i + 8, 2) && (v[i + 10] == 'T' || v[i + 10] == ' ') && check_digits(
        v,
        i + 11,
        2,
    ) && v[i + 13] == ':' && check_digits(v, i + 14, 2) && v[i + 16] == ':' && check_digits(
        v,
        i + 17,
        2,
    )
}

fn frac_len(v: &Vec<char>, i: usize) -> (f: usize)
    ensures
        f == frac_len_at(v@, i as int),
        i + f <= v@.len() || f == 0,
{
    if i < v.len() && v[i] == '.' {
        let r = digit_run(v, i + 1);
        if r >= 1 {
            1 + r
        } else {
            0
        }
    } else {
        0
    }
}

fn zone_len(v: &Vec<char>, i: usize) -> (z: usize)
    ensures
        z == zone_len_at(v@, i as int),
{
    let len = v.len();
    if i < len && v[i] == 'Z' {
        1
    } else if i < len && (v[i] == '+' || v[i] == '-') && check_digits(v, i + 1, 2) {
        if len - i > 3 && v[i + 3] == ':' && check_digits(v, i + 4, 2) {
            6
        } else if check_digits(v, i + 3, 2) {
            5
        } else {
            0
        }
    } else {
        0
    }
}

/// The leftmost generic timestamp match: its start, the length of its
/// fractional part, and the length of its zone part.
pub fn find_timestamp(v: &Vec<char>) -> (r: Option<(usize, usize, usize)>)
    ensures
        match r {
            None => ts_find(v@) is None,
            Some((start, frac, zone)) => {
                &&& ts_find(v@) == Some(start as int)
                &&& ts_head_at(v@, start as int)
                &&& frac == frac_len_at(v@, start + 19)
                &&& zone == zone_len_at(v@, start + 19 + frac)
                &&& start + 19 + frac + zone <= v@.len()
            },
        },
{
    let n = v.len();
    let mut i: usize = 0;
    while i < n
        invariant
            i <= n,
            n == v@.len(),
            ts_find(v@) == ts_find_from(v@, i as int),
        decreases n - i,
    {
        if ts_head(v, i) {
            let f = frac_len(v, i + 19);
            let z = zone_len(v, i + 19 + f);
            proof {
                lemma_ts_len_le(v@, i as int);
            }
            return Some((i, f, z));
        }
        i = i + 1;
    }
    None
}

// ---------------------------------------------------------------------------
// Level tokens
// ---------------------------------------------------------------------------

/// A word boundary precedes position `i`.
pub open spec fn boundary_before(s: Seq<char>, i: int) -> bool {
    i == 0 || (0 < i <= s.len() && !is_word_char(s[i - 1]))
}

/// Token `kw` stands at `i` up to ASCII case, with a word boundary after.
pub open spec fn kw_at(s: Seq<char>, i: int, kw: Seq<char>) -> bool {
    &&& 0 <= i
    &&& i + kw.len() <= s.len()
    &&& forall|k: int| 0 <= k < kw.len() ==> eq_ci(s[i + k], #[trigger] kw[k])
    &&& (i + kw.len() == s.len() || !is_word_char(s[i + kw.len()]))
}

/// Index of the first table entry from `j` on whose token stands at `i`.
pub open spec fn first_kw_idx(s: Seq<char>, i: int, j: int) -> Option<int>
    decreases keyword_table().len() - j,
{
    if j < 0 || j >= keyword_table().len() {
        None
    } else if kw_at(s, i, keyword_table()[j].0) {
        Some(j)
    } else {
        first_kw_idx(s, i, j + 1)
    }
}

/// The level token matching at position `i`: the first keyword, in table
/// order, that stands there, provided a word boundary precedes `i`.
pub open spec fn level_match_at(s: Seq<char>, i: int) -> Option<int> {
    if boundary_before(s, i) {
        first_kw_idx(s, i, 0)
    } else {
        None
    }
}

/// The leftmost level-token match at or after `i`: its position and the
/// index of the matched keyword.
pub open spec fn level_find_from(s: Seq<char>, i: int) -> Option<(int, int)>
    decreases s.len() - i,
{
    if i < 0 || i >= s.len() {
        None
    } else {
        match level_match_at(s, i) {
            Some(j) => Some((i, j)),
            None => level_find_from(s, i + 1),
        }
    }
}

/// The leftmost level-token match of the line.
pub open spec fn level_find(s: Seq<char>) -> Option<(int, int)> {
    level_find_from(s, 0)
}

/// The level named by the leftmost explicit level token, if any.
pub open spec fn explicit_level(s: Seq<char>) -> Option<LogLevel> {
    match level_find(s) {
        Some((_i, j)) => Some(keyword_table()[j].1),
        None => None,
    }
}

/// The span `(start, length)` of the leftmost explicit level token.
pub open spec fn level_span(s: Seq<char>) -> Option<(int, int)> {
    match level_find(s) {
        Some((i, j)) => Some((i, keyword_table()[j].0.len() as int)),
        None => None,
    }
}

pub proof fn lemma_level_find_in_range(s: Seq<char>, i: int)
    requires
        level_find_from(s, i) is Some,
    ensures
        i <= (level_find_from(s, i)->0).0 < s.len(),
        level_match_at(s, (level_find_from(s, i)->0).0) == Some((level_find_from(s, i)->0).1),
        0 <= (level_find_from(s, i)->0).1 < keyword_table().len(),
        kw_at(s, (level_find_from(s, i)->0).0, keyword_table()[(level_find_from(s, i)->0).1].0),
    decreases s.len() - i,
{
    if 0 <= i < s.len() {
        if level_match_at(s, i) is Some {
            lemma_first_kw_idx_valid(s, i, 0);
        } else {
            lemma_level_find_in_range(s, i + 1);
        }
    }
}

proof fn lemma_first_kw_idx_valid(s: Seq<char>, i: int, j: int)
    requires
        first_kw_idx(s, i, j) is Some,
    ensures
        j <= first_kw_idx(s, i, j)->0 < keyword_table().len(),
        kw_at(s, i, keyword_table()[first_kw_idx(s, i, j)->0].0),
    decreases keyword_table().len() - j,
{
    if 0 <= j < keyword_table().len() && !kw_at(s, i, keyword_table()[j].0) {
        lemma_first_kw_idx_valid(s, i, j + 1);
    }
}

fn match_kw_at(v: &Vec<char>, i: usize, kw: &Vec<char>) -> (b: bool)
    requires
        i <= v@.len(),
    ensures
        b == kw_at(v@, i as int, kw@),
{
    let len = v.len();
    let m = kw.len();
    if len - i < m {
        return false;
    }
    let mut k: usize = 0;
    while k < m
        invariant
            i + m <= len,
            len == v@.len(),
            m == kw@.len(),
            k <= m,
            forall|t: int| 0 <= t < k ==> eq_ci(v@[i + t], #[trigger] kw@[t]),
        decreases m - k,
    {
        if !char_eq_ci(v[i + k], kw[k]) {
            return false;
        }
        k = k + 1;
    }
    i + m == len || !word_char(v[i + m])
}

/// The leftmost level-token match: its position and keyword index.
pub fn find_level(v: &Vec<char>, table: &Vec<(Vec<char>, LogLevel)>) -> (r: Option<(usize, usize)>)
    requires
        table@.len() == keyword_table().len(),
        forall|t: int|
            0 <= t < table@.len() ==> (#[trigger] table@[t]).0@ == keyword_table()[t].0
                && table@[t].1 == keyword_table()[t].1,
    ensures
        match r {
            None => level_find(v@) is None,
            Some((pos, j)) => level_find(v@) == Some((pos as int, j as int)),
        },
{
    let n = v.len();
    let mut i: usize = 0;
    while i < n
        invariant
            i <= n,
            n == v@.len(),
            table@.len() == keyword_table().len(),
            forall|t: int|
                0 <= t < table@.len() ==> (#[trigger] table@[t]).0@ == keyword_table()[t].0
                    && table@[t].1 == keyword_table()[t].1,
            level_find(v@) == level_find_from(v@, i as int),
        decreases n - i,
    {
        let bound = i == 0 || !word_char(v[i - 1]);
        if bound {
            proof {
                assert(boundary_before(v@, i as int));
            }
            let mut j: usize = 0;
            while j < table.len()
                invariant
                    i < n,
                    n == v@.len(),
                    boundary_before(v@, i as int),
                    level_find(v@) == level_find_from(v@, i as int),
                    j <= table@.len(),
                    table@.len() == keyword_table().len(),
                    forall|t: int|
                        0 <= t < table@.len() ==> (#[trigger] table@[t]).0@
                            == keyword_table()[t].0 && table@[t].1 == keyword_table()[t].1,
                    first_kw_idx(v@, i as int, 0) == first_kw_idx(v@, i as int, j as int),
                decreases table@.len() - j,
            {
                if match_kw_at(v, i, &table[j].0) {
                    proof {
                        assert(kw_at(v@, i as int, keyword_table()[j as int].0));
                        assert(first_kw_idx(v@, i as int, j as int) == Some(j as int));
                        assert(level_match_at(v@, i as int) == Some(j as int));
                    }
                    return Some((i, j));
                }
                proof {
                    assert(!kw_at(v@, i as int, keyword_table()[j as int].0));
                }
                j = j + 1;
            }
            proof {
                assert(first_kw_idx(v@, i as int, j as int) is None);
                assert(level_match_at(v@, i as int) is None);
            }
        } else {
            proof {
                assert(!boundary_before(v@, i as int));
                assert(level_match_at(v@, i as int) is None);
            }
        }
        i = i + 1;
    }
    None
}

// ---------------------------------------------------------------------------
// Common Log Format
// ---------------------------------------------------------------------------

/// A character allowed inside the bracketed CLF timestamp before its zone:
/// a word character, a colon or a slash.
pub open spec fn is_bracket_char(c: char) -> bool {
    is_word_char(c) || c == ':' || c == '/'
}

/// Length of the maximal run of bracket characters starting at `i`.
pub open spec fn bracket_run_from(s: Seq<char>, i: int) -> nat
    decreases s.len() - i,
{
    if i < 0 || i >= s.len() || !is_bracket_char(s[i]) {
        0
    } else {
        1 + bracket_run_from(s, i + 1)
    }
}

proof fn lemma_bracket_run_eq(s: Seq<char>, i: int, j: int)
    requires
        0 <= i <= j <= s.len(),
        forall|k: int| i <= k < j ==> is_bracket_char(#[trigger] s[k]),
        j == s.len() || !is_bracket_char(s[j]),
    ensures
        bracket_run_from(s, i) == j - i,
    decreases j - i,
{
    if i < j {
        lemma_bracket_run_eq(s, i + 1, j);
    }
}

/// Position of the first double quote at or after `i`.
pub open spec fn quote_find_from(s: Seq<char>, i: int) -> Option<int>
    decreases s.len() - i,
{
    if i < 0 || i >= s.len() {
        None
    } else if s[i] == '"' {
        Some(i)
    } else {
        quote_find_from(s, i + 1)
    }
}

/// The Common-Log-Format shape, anchored at the line start: three
/// space-separated tokens, a bracketed timestamp `[date +zzzz]`, a quoted
/// request, a three-digit status and a size field (digits or `-`).
/// Yields `(timestamp start, timestamp length, status code)`.
pub open spec fn clf_parse(s: Seq<char>) -> Option<(int, int, int)> {
    let n1 = token_len_from(s, 0) as int;
    if n1 < 1 || n1 >= s.len() || s[n1] != ' ' {
        None
    } else {
        let p2 = n1 + 1;
        let n2 = token_len_from(s, p2) as int;
        if n2 < 1 || p2 + n2 >= s.len() || s[p2 + n2] != ' ' {
            None
        } else {
            let p3 = p2 + n2 + 1;
            let n3 = token_len_from(s, p3) as int;
            if n3 < 1 || p3 + n3 >= s.len() || s[p3 + n3] != ' ' {
                None
            } else {
                let pb = p3 + n3 + 1;
                if pb >= s.len() || s[pb] != '[' {
                    None
                } else {
                    clf_parse_bracket(s, pb + 1)
                }
            }
        }
    }
}

/// The remainder of the CLF shape from the character after `[` on.
pub open spec fn clf_parse_bracket(s: Seq<char>, ts: int) -> Option<(int, int, int)> {
    let nb = bracket_run_from(s, ts) as int;
    if nb < 1 || ts + nb >= s.len() || !is_space_char(s[ts + nb]) {
        None
    } else {
        let pw = ts + nb + 1;
        if pw >= s.len() || !(s[pw] == '+' || s[pw] == '-') || !digits_at(s, pw + 1, 4) {
            None
        } else {
            let pe = pw + 5;
            if pe >= s.len() || s[pe] != ']' || pe + 2 >= s.len() || s[pe + 1] != ' ' || s[pe + 2]
                != '"' {
                None
            } else {
                match quote_find_from(s, pe + 3) {
                    None => None,
                    Some(q) => {
                        if q + 1 >= s.len() || s[q + 1] != ' ' || !digits_at(s, q + 2, 3) || q + 5
                            >= s.len() || s[q + 5] != ' ' || q + 6 >= s.len() || !(is_digit_char(
                            s[q + 6],
                        ) || s[q + 6] == '-') {
                            None
                        } else {
                            Some(
                                (
                                    ts,
                                    pe - ts,
                                    100 * digit_val(s[q + 2]) + 10 * digit_val(s[q + 3])
                                        + digit_val(s[q + 4]),
                                ),
                            )
                        }
                    },
                }
            }
        }
    }
}

pub proof fn lemma_clf_span_valid(s: Seq<char>)
    requires
        clf_parse(s) is Some,
    ensures
        0 <= (clf_parse(s)->0).0,
        1 <= (clf_parse(s)->0).1,
        (clf_parse(s)->0).0 + (clf_parse(s)->0).1 <= s.len(),
        0 <= (clf_parse(s)->0).2 <= 999,
{
}

fn token_sep_end(v: &Vec<char>, i: usize) -> (r: Option<usize>)
    requires
        i <= v@.len(),
    ensures
        match r {
            // a nonempty whitespace-free token stands at `i`, a plain space after it
            Some(j) => {
                &&& i < j < v@.len()
                &&& j - i == token_len_from(v@, i as int)
                &&& v@[j as int] == ' '
            },
            None => token_len_from(v@, i as int) < 1 || i + token_len_from(v@, i as int)
                >= v@.len() || v@[i + token_len_from(v@, i as int)] != ' ',
        },
{
    let j = crate::text::token_end(v, i);
    if j > i && j < v.len() && v[j] == ' ' {
        Some(j)
    } else {
        None
    }
}

fn bracket_end(v: &Vec<char>, i: usize) -> (j: usize)
    requires
        i <= v@.len(),
    ensures
        i <= j <= v@.len(),
        j - i == bracket_run_from(v@, i as int),
{
    let n = v.len();
    let mut j: usize = i;
    while j < n && (word_char(v[j]) || v[j] == ':' || v[j] == '/')
        invariant
            i <= j <= n,
            n == v@.len(),
            forall|k: int| i <= k < j ==> is_bracket_char(#[trigger] v@[k]),
        decreases n - j,
    {
        j = j + 1;
    }
    proof {
        lemma_bracket_run_eq(v@, i as int, j as int);
    }
    j
}

fn find_quote(v: &Vec<char>, i: usize) -> (r: Option<usize>)
    requires
        i <= v@.len(),
    ensures
        match r {
            Some(q) => quote_find_from(v@, i as int) == Some(q as int) && i <= q < v@.len(),
            None => quote_find_from(v@, i as int) is None,
        },
{
    let n = v.len();
    let mut j: usize = i;
    while j < n
        invariant
            i <= j <= n,
            n == v@.len(),
            quote_find_from(v@, i as int) == quote_find_from(v@, j as int),
        decreases n - j,
    {
        if v[j] == '"' {
            return Some(j);
        }
        j = j + 1;
    }
    None
}

/// Parse the CLF shape of the line: the bracketed timestamp's span and
/// the status code.
pub fn parse_clf(v: &Vec<char>) -> (r: Option<(usize, usize, u16)>)
    ensures
        match r {
            None => clf_parse(v@) is None,
            Some((a, l, st)) => clf_parse(v@) == Some((a as int, l as int, st as int)),
        },
{
    let n = v.len();
    let j1 = match token_sep_end(v, 0) {
        Some(j) => j,
        None => { return None; },
    };
    let j2 = match token_sep_end(v, j1 + 1) {
        Some(j) => j,
        None => { return None; },
    };
    let j3 = match token_sep_end(v, j2 + 1) {
        Some(j) => j,
        None => { return None; },
    };
    let pb = j3 + 1;
    if pb >= n || v[pb] != '[' {
        return None;
    }
    let ts = pb + 1;
    let tb = bracket_end(v, ts);
    if tb == ts || tb >= n || !space_char(v[tb]) {
        return None;
    }
    let pw = tb + 1;
    if pw >= n || !(v[pw] == '+' || v[pw] == '-') || !check_digits(v, pw + 1, 4) {
        return None;
    }
    let pe = pw + 5;
    if pe >= n || v[pe] != ']' || n - pe < 3 || v[pe + 1] != ' ' || v[pe + 2] != '"' {
        return None;
    }
    let q = match find_quote(v, pe + 3) {
        Some(q) => q,
        None => { return None; },
    };
    if n - q < 2 || v[q + 1] != ' ' || !check_digits(v, q + 2, 3) || n - q < 6 || v[q + 5] != ' '
        || n - q < 7 || !(digit_char(v[q + 6]) || v[q + 6] == '-') {
        return None;
    }
    let d1 = (v[q + 2] as u32) - 48;
    let d2 = (v[q + 3] as u32) - 48;
    let d3 = (v[q + 4] as u32) - 48;
    let st: u16 = (100 * d1 + 10 * d2 + d3) as u16;
    Some((ts, pe - ts, st))
}

} // verus!

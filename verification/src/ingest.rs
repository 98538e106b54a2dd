//! The parser: turning raw log lines into structured events. A line
//! never fails to parse; a field that cannot be recognized is absent.

use vstd::prelude::*;
use crate::models::LogEvent;
use crate::models::LogLevel;
use crate::models::keyword_table;
use crate::models::keyword_vecs;
use crate::scan::clf_parse;
use crate::scan::explicit_level;
use crate::scan::find_level;
use crate::scan::find_timestamp;
use crate::scan::frac_len_at;
use crate::scan::level_find;
use crate::scan::level_span;
use crate::scan::lemma_clf_span_valid;
use crate::scan::lemma_level_find_in_range;
use crate::scan::lemma_ts_len_le;
use crate::scan::parse_clf;
use crate::scan::ts_find;
use crate::scan::ts_len_at;
use crate::scan::zone_len_at;
use crate::text::collapse_chars;
use crate::text::eq_ci;
use crate::text::is_digit_char;
use crate::text::collapse_ws;
use crate::text::is_space_char;
use crate::text::push_char;
use crate::text::remove_range;
use crate::text::space_char;
use crate::text::string_of;
use crate::text::string_of_range;
use crate::text::to_chars;
use crate::timeparse::format_millis;
use crate::timeparse::parse_format_millis;
use crate::timeparse::parse_rfc3339_millis;
use crate::timeparse::rfc3339_millis;

verus! {

/// The format of the bracketed Common-Log-Format timestamp.
pub open spec fn clf_format() -> Seq<char> {
    "%d/%b/%Y:%H:%M:%S %z"@
}

// ---------------------------------------------------------------------------
// What each field of a parsed line is
// ---------------------------------------------------------------------------

/// The string handed to the RFC 3339 parser for the generic timestamp
/// match, when there is one to hand: the match itself when it carries a
/// zone; with `Z` appended when it is the space-separated zone-less form,
/// which is read as UTC; nothing when the `T`-separated form lacks a zone.
pub open spec fn generic_ts_input(s: Seq<char>) -> Option<Seq<char>> {
    match ts_find(s) {
        None => None,
        Some(i) => {
            let m = s.subrange(i, i + ts_len_at(s, i));
            if zone_len_at(s, i + 19 + frac_len_at(s, i + 19)) > 0 {
                Some(m)
            } else if s[i + 10] == ' ' {
                Some(m.push('Z'))
            } else {
                None
            }
        },
    }
}

/// The timestamp read from the generic match, if any.
pub open spec fn generic_ts(s: Seq<char>) -> Option<i64> {
    match generic_ts_input(s) {
        None => None,
        Some(p) => rfc3339_millis(p),
    }
}

/// The timestamp read from the bracketed part of a CLF-shaped line.
pub open spec fn clf_ts(s: Seq<char>) -> Option<i64> {
    match clf_parse(s) {
        None => None,
        Some((a, l, _st)) => format_millis(s.subrange(a, a + l), clf_format()),
    }
}

/// The timestamp of the line: the CLF bracketed timestamp is tried first,
/// being the more specific shape, then the generic match.
pub open spec fn extracted_ts(s: Seq<char>) -> Option<i64> {
    if clf_ts(s) is Some {
        clf_ts(s)
    } else {
        generic_ts(s)
    }
}

/// The level a CLF status code maps to.
pub open spec fn status_level(st: int) -> LogLevel {
    if 500 <= st <= 599 {
        LogLevel::Error
    } else if 400 <= st <= 499 {
        LogLevel::Warn
    } else {
        LogLevel::Info
    }
}

/// The level of the line: the leftmost explicit level token; failing
/// that, for a CLF-shaped line, the level inferred from the status code.
pub open spec fn extracted_level(s: Seq<char>) -> Option<LogLevel> {
    match explicit_level(s) {
        Some(l) => Some(l),
        None => match clf_parse(s) {
            Some((_a, _l, st)) => Some(status_level(st)),
            None => None,
        },
    }
}

/// Both spans deleted from the original line, by original-line positions:
/// the second deletion is taken on the line with the later span already
/// removed, its end clamped so that the operation is defined on its own.
pub open spec fn strip_two(
    s: Seq<char>,
    a: Option<(int, int)>,
    b: Option<(int, int)>,
) -> Seq<char> {
    match (a, b) {
        (Option::None, Option::None) => s,
        (Option::Some((x, l)), Option::None) => remove_range(s, x, x + l),
        (Option::None, Option::Some((y, m))) => remove_range(s, y, y + m),
        (Option::Some((x, l)), Option::Some((y, m))) => if x <= y {
            remove_range(remove_range(s, y, y + m), x, if x + l <= y {
                x + l
            } else {
                y
            })
        } else {
            remove_range(remove_range(s, x, x + l), y, if y + m <= x {
                y + m
            } else {
                x
            })
        },
    }
}

/// The span of the generic timestamp match, when a timestamp was in
/// fact extracted (from either source): the generic match is deleted
/// from the message exactly in that case.
pub open spec fn deleted_ts_span(s: Seq<char>) -> Option<(int, int)> {
    if extracted_ts(s) is Some {
        match ts_find(s) {
            Some(i) => Some((i, ts_len_at(s, i) as int)),
            None => None,
        }
    } else {
        None
    }
}

/// The line with the matched timestamp and level token deleted.
pub open spec fn stripped_line(s: Seq<char>) -> Seq<char> {
    strip_two(s, deleted_ts_span(s), level_span(s))
}

/// The message of the line: the line with the matched timestamp and
/// level token deleted, whitespace collapsed, and the ends trimmed.
pub open spec fn message_of(s: Seq<char>) -> Seq<char> {
    collapse_ws(stripped_line(s))
}

/// `e` is the event that parsing the line `l` yields.
pub open spec fn parses_line(e: LogEvent, l: Seq<char>) -> bool {
    &&& e.raw@ == l
    &&& e.timestamp == extracted_ts(l)
    &&& e.level == extracted_level(l)
    &&& e.message@ == message_of(l)
}

/// The line is blank: nothing but whitespace.
pub open spec fn is_blank(l: Seq<char>) -> bool {
    forall|i: int| 0 <= i < l.len() ==> is_space_char(l[i])
}

/// The non-blank lines, in order.
pub open spec fn nonblank(ls: Seq<Seq<char>>) -> Seq<Seq<char>>
    decreases ls.len(),
{
    if ls.len() == 0 {
        Seq::empty()
    } else if is_blank(ls.last()) {
        nonblank(ls.drop_last())
    } else {
        nonblank(ls.drop_last()).push(ls.last())
    }
}

/// The matched timestamp span and the matched level token never overlap,
/// so the two deletions that make the message are deletions of disjoint
/// stretches of the original line: a level token is all letters, while a
/// timestamp holds only digits and marks but for a `T` that no token can
/// continue and a `Z` that no token contains.
pub proof fn lemma_spans_disjoint(s: Seq<char>)
    requires
        ts_find(s) is Some,
        level_find(s) is Some,
    ensures
        ({
            let i = ts_find(s)->0;
            let p = (level_find(s)->0).0;
            let kl = keyword_table()[(level_find(s)->0).1].0.len() as int;
            p + kl <= i || i + ts_len_at(s, i) <= p
        }),
{
    let i = ts_find(s)->0;
    let p = (level_find(s)->0).0;
    let j = (level_find(s)->0).1;
    let kw = keyword_table()[j].0;
    let kl = kw.len() as int;
    let tl = ts_len_at(s, i) as int;
    crate::scan::lemma_ts_find_in_range(s, 0);
    lemma_level_find_in_range(s, 0);
    lemma_ts_len_le(s, i);
    crate::models::lemma_kw_len(j);
    if !(p + kl <= i) && !(i + tl <= p) {
        // some position q lies in both spans
        let q = if i >= p {
            i
        } else {
            p
        };
        assert(i <= q < i + tl);
        assert(p <= q < p + kl);
        let k = q - p;
        crate::models::lemma_kw_chars(j, k);
        let kc = kw[k];
        assert(eq_ci(s[p + k], kw[k]));
        let d = q - i;
        crate::scan::lemma_ts_span_chars(s, i, d);
        if s[q] == kc {
            // the only uppercase letter a timestamp can hold below 'Z'
            // is the `T` separator, which only TRACE could begin; the
            // digit after the separator refutes that
            assert(s[q] == 'T' && d == 10);
            assert(j == 6 && k == 0);
            assert(kw == crate::models::kw_trace());
            assert(kw[1] == 'R');
            assert(eq_ci(s[p + 1], kw[1]));
            assert(s[i + 11] == s[p + 1]);
            assert(is_digit_char(s[i + 11]));
            assert(false);
        } else {
            // the lowercase form: its code point is at least 97, which
            // no timestamp character reaches
            assert((s[q] as u32) == (kc as u32) + 32);
            assert(false);
        }
    }
}

/// For a CLF-shaped line without an explicit level token, the level is
/// inferred from the status code: Error exactly for the 5xx codes, Warn
/// exactly for the 4xx codes, Info for every other code.
pub proof fn lemma_clf_inferred_level(l: Seq<char>)
    requires
        level_find(l) is None,
        clf_parse(l) is Some,
    ensures
        extracted_level(l) == Some(status_level((clf_parse(l)->0).2)),
        (extracted_level(l) == Some(LogLevel::Error)) <==> (500 <= (clf_parse(l)->0).2 <= 599),
        (extracted_level(l) == Some(LogLevel::Warn)) <==> (400 <= (clf_parse(l)->0).2 <= 499),
        (extracted_level(l) == Some(LogLevel::Info)) <==> ((clf_parse(l)->0).2 < 400 || (clf_parse(
            l,
        )->0).2 > 599),
{
}

/// A line whose generic timestamp match yields something to parse that
/// chrono accepts gets a timestamp, and a line with an explicit level
/// token gets a level. (Which text the message then holds is pinned, for
/// every line, by the message clause of `parses_line`.)
pub proof fn lemma_fields_extracted(l: Seq<char>)
    ensures
        (generic_ts_input(l) matches Some(p) && rfc3339_millis(p) is Some) ==> extracted_ts(
            l,
        ) is Some,
        level_find(l) is Some ==> extracted_level(l) is Some,
{
}

// ---------------------------------------------------------------------------
// The parser
// ---------------------------------------------------------------------------

/// Parses log lines into structured events.
pub struct LogParser {}

impl LogParser {
    pub fn new() -> (p: LogParser) {
        LogParser {}
    }

    /// The timestamp of the line, tried in priority order: the CLF
    /// bracketed form, then the generic match.
    fn extract_timestamp(&self, v: &Vec<char>) -> (r: Option<i64>)
        ensures
            r == extracted_ts(v@),
    {
        let n = v.len();
        // The CLF shape first: it is the more specific pattern.
        if let Some((a, l, _st)) = parse_clf(v) {
            proof {
                lemma_clf_span_valid(v@);
                assert(a + l <= n);
            }
            let ts_str = string_of_range(v, a, a + l);
            if let Some(ms) = parse_format_millis(ts_str.as_str(), "%d/%b/%Y:%H:%M:%S %z") {
                return Some(ms);
            }
        }
        match find_timestamp(v) {
            None => None,
            Some((start, f, z)) => {
                proof {
                    lemma_ts_len_le(v@, start as int);
                    assert(start + 19 + f + z <= n);
                }
                let total = 19 + f + z;
                if z > 0 {
                    let p = string_of_range(v, start, start + total);
                    parse_rfc3339_millis(p.as_str())
                } else if v[start + 10] == ' ' {
                    let mut p = string_of_range(v, start, start + total);
                    push_char(&mut p, 'Z');
                    parse_rfc3339_millis(p.as_str())
                } else {
                    None
                }
            },
        }
    }

    /// The level of the line: the leftmost explicit token, or the level
    /// inferred from the status code of a CLF-shaped line.
    fn extract_level(&self, v: &Vec<char>, table: &Vec<(Vec<char>, LogLevel)>) -> (r: Option<
        LogLevel,
    >)
        requires
            table@.len() == keyword_table().len(),
            forall|t: int|
                0 <= t < table@.len() ==> (#[trigger] table@[t]).0@ == keyword_table()[t].0
                    && table@[t].1 == keyword_table()[t].1,
        ensures
            r == extracted_level(v@),
    {
        match find_level(v, table) {
            Some((_pos, j)) => {
                proof {
                    lemma_level_find_in_range(v@, 0);
                }
                Some(table[j].1)
            },
            None => match parse_clf(v) {
                Some((_a, _l, st)) => Some(
                    if 500 <= st && st <= 599 {
                        LogLevel::Error
                    } else if 400 <= st && st <= 499 {
                        LogLevel::Warn
                    } else {
                        LogLevel::Info
                    },
                ),
                None => None,
            },
        }
    }

    /// The message: the line with the matched timestamp and level token
    /// deleted and whitespace collapsed. Both spans are positions of the
    /// original line, computed independently of each other.
    fn extract_message(
        &self,
        v: &Vec<char>,
        has_ts: bool,
        table: &Vec<(Vec<char>, LogLevel)>,
    ) -> (m: String)
        requires
            has_ts == (extracted_ts(v@) is Some),
            table@.len() == keyword_table().len(),
            forall|t: int|
                0 <= t < table@.len() ==> (#[trigger] table@[t]).0@ == keyword_table()[t].0
                    && table@[t].1 == keyword_table()[t].1,
        ensures
            m@ == message_of(v@),
    {
        let n = v.len();
        let ts_span: Option<(usize, usize)> = if has_ts {
            match find_timestamp(v) {
                Some((start, f, z)) => {
                    proof {
                        lemma_ts_len_le(v@, start as int);
                        assert(start + 19 + f + z <= n);
                    }
                    Some((start, 19 + f + z))
                },
                None => None,
            }
        } else {
            None
        };
        let lv_span: Option<(usize, usize)> = match find_level(v, table) {
            Some((pos, j)) => {
                proof {
                    lemma_level_find_in_range(v@, 0);
                    let kw = keyword_table()[j as int].0;
                    assert(pos + kw.len() <= n);
                }
                Some((pos, table[j].0.len()))
            },
            None => None,
        };
        let stripped: Vec<char> = match (ts_span, lv_span) {
            (Option::None, Option::None) => {
                let mut c: Vec<char> = Vec::new();
                let mut i: usize = 0;
                while i < v.len()
                    invariant
                        i <= v@.len(),
                        c@ == v@.take(i as int),
                    decreases v@.len() - i,
                {
                    c.push(v[i]);
                    i = i + 1;
                    proof {
                        assert(c@ =~= v@.take(i as int));
                    }
                }
                proof {
                    assert(c@ =~= v@);
                }
                c
            },
            (Option::Some((x, l)), Option::None) => crate::text::delete_range(v, x, x + l),
            (Option::None, Option::Some((y, m))) => crate::text::delete_range(v, y, y + m),
            (Option::Some((x, l)), Option::Some((y, m))) => {
                if x <= y {
                    let s1 = crate::text::delete_range(v, y, y + m);
                    let e = if x + l <= y {
                        x + l
                    } else {
                        y
                    };
                    crate::text::delete_range(&s1, x, e)
                } else {
                    let s1 = crate::text::delete_range(v, x, x + l);
                    let e = if y + m <= x {
                        y + m
                    } else {
                        x
                    };
                    crate::text::delete_range(&s1, y, e)
                }
            },
        };
        let collapsed = collapse_chars(&stripped);
        string_of(&collapsed)
    }

    /// Parse one line. Parsing never fails: fields that cannot be
    /// recognized are absent and the raw line is kept.
    pub fn parse_line(&self, line: &str) -> (e: LogEvent)
        ensures
            parses_line(e, line@),
    {
        let v = to_chars(line);
        let table = keyword_vecs();
        let timestamp = self.extract_timestamp(&v);
        let level = self.extract_level(&v, &table);
        let has_ts = match timestamp {
            Some(_) => true,
            None => false,
        };
        let message = self.extract_message(&v, has_ts, &table);
        LogEvent { timestamp, level, message, raw: line.to_owned() }
    }

    /// Parse a sequence of lines in order, skipping blank lines.
    pub fn parse_lines(&self, lines: &Vec<String>) -> (events: Vec<LogEvent>)
        ensures
            events@.len() == nonblank(lines.deep_view()).len(),
            forall|i: int|
                0 <= i < events@.len() ==> parses_line(
                    #[trigger] events@[i],
                    nonblank(lines.deep_view())[i],
                ),
    {
        let ghost ldv = lines.deep_view();
        let mut events: Vec<LogEvent> = Vec::new();
        let mut k: usize = 0;
        proof {
            assert(ldv.take(0) =~= Seq::<Seq<char>>::empty());
        }
        while k < lines.len()
            invariant
                k <= lines@.len(),
                ldv == lines.deep_view(),
                ldv.len() == lines@.len(),
                forall|t: int| 0 <= t < ldv.len() ==> #[trigger] ldv[t] == lines@[t]@,
                events@.len() == nonblank(ldv.take(k as int)).len(),
                forall|i: int|
                    0 <= i < events@.len() ==> parses_line(
                        #[trigger] events@[i],
                        nonblank(ldv.take(k as int))[i],
                    ),
            decreases lines@.len() - k,
        {
            let line: &String = &lines[k];
            let blank = line_is_blank(line);
            proof {
                assert(ldv.take(k + 1).drop_last() =~= ldv.take(k as int));
                assert(ldv.take(k + 1).last() == ldv[k as int]);
            }
            if !blank {
                let e = self.parse_line(line.as_str());
                events.push(e);
            }
            k = k + 1;
        }
        proof {
            assert(ldv.take(lines@.len() as int) =~= ldv);
        }
        events
    }
}

/// Whether the line is blank: nothing but whitespace.
pub fn line_is_blank(line: &String) -> (b: bool)
    ensures
        b == is_blank(line@),
{
    let v = to_chars(line.as_str());
    let mut i: usize = 0;
    while i < v.len()
        invariant
            i <= v@.len(),
            v@ == line@,
            forall|k: int| 0 <= k < i ==> is_space_char(v@[k]),
        decreases v@.len() - i,
    {
        if !space_char(v[i]) {
            return false;
        }
        i = i + 1;
    }
    true
}

} // verus!

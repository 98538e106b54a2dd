//! The data model: log levels, parsed events, and event groups with
//! incrementally maintained aggregates.

use vstd::prelude::*;
use crate::text::eq_ci;
use crate::text::char_eq_ci;
use crate::text::to_chars;

verus! {

/// A log severity level.
#[derive(Debug, Clone, Copy, PartialEq, Eq, Structural)]
pub enum LogLevel {
    Error,
    Warn,
    Info,
    Debug,
    Trace,
}

// ---------------------------------------------------------------------------
// Level tokens
// ---------------------------------------------------------------------------

pub open spec fn kw_error() -> Seq<char> {
    seq!['E', 'R', 'R', 'O', 'R']
}

pub open spec fn kw_err() -> Seq<char> {
    seq!['E', 'R', 'R']
}

pub open spec fn kw_warn() -> Seq<char> {
    seq!['W', 'A', 'R', 'N']
}

pub open spec fn kw_warning() -> Seq<char> {
    seq!['W', 'A', 'R', 'N', 'I', 'N', 'G']
}

pub open spec fn kw_info() -> Seq<char> {
    seq!['I', 'N', 'F', 'O']
}

pub open spec fn kw_debug() -> Seq<char> {
    seq!['D', 'E', 'B', 'U', 'G']
}

pub open spec fn kw_trace() -> Seq<char> {
    seq!['T', 'R', 'A', 'C', 'E']
}

/// The recognized level tokens with their levels, in match priority order.
pub open spec fn keyword_table() -> Seq<(Seq<char>, LogLevel)> {
    seq![
        (kw_error(), LogLevel::Error),
        (kw_err(), LogLevel::Error),
        (kw_warn(), LogLevel::Warn),
        (kw_warning(), LogLevel::Warn),
        (kw_info(), LogLevel::Info),
        (kw_debug(), LogLevel::Debug),
        (kw_trace(), LogLevel::Trace),
    ]
}

/// Every character of a level token is an uppercase ASCII letter; none
/// is `Z`, and `T` only opens the TRACE token.
pub proof fn lemma_kw_chars(j: int, k: int)
    requires
        0 <= j < keyword_table().len(),
        0 <= k < keyword_table()[j].0.len(),
    ensures
        'A' <= keyword_table()[j].0[k] <= 'Y',
        keyword_table()[j].0[k] == 'T' ==> j == 6 && k == 0,
{
    let kw = keyword_table()[j].0;
    if j == 0 {
        assert(kw == kw_error());
        assert(kw[0] == 'E' && kw[1] == 'R' && kw[2] == 'R' && kw[3] == 'O' && kw[4] == 'R');
    } else if j == 1 {
        assert(kw == kw_err());
        assert(kw[0] == 'E' && kw[1] == 'R' && kw[2] == 'R');
    } else if j == 2 {
        assert(kw == kw_warn());
        assert(kw[0] == 'W' && kw[1] == 'A' && kw[2] == 'R' && kw[3] == 'N');
    } else if j == 3 {
        assert(kw == kw_warning());
        assert(kw[0] == 'W' && kw[1] == 'A' && kw[2] == 'R' && kw[3] == 'N' && kw[4] == 'I'
            && kw[5] == 'N' && kw[6] == 'G');
    } else if j == 4 {
        assert(kw == kw_info());
        assert(kw[0] == 'I' && kw[1] == 'N' && kw[2] == 'F' && kw[3] == 'O');
    } else if j == 5 {
        assert(kw == kw_debug());
        assert(kw[0] == 'D' && kw[1] == 'E' && kw[2] == 'B' && kw[3] == 'U' && kw[4] == 'G');
    } else {
        assert(kw == kw_trace());
        assert(kw[0] == 'T' && kw[1] == 'R' && kw[2] == 'A' && kw[3] == 'C' && kw[4] == 'E');
    }
}

/// Every level token has at least three characters.
pub proof fn lemma_kw_len(j: int)
    requires
        0 <= j < keyword_table().len(),
    ensures
        3 <= keyword_table()[j].0.len(),
{
    if j == 0 {
        assert(kw_error().len() == 5);
    } else if j == 1 {
        assert(kw_err().len() == 3);
    } else if j == 2 {
        assert(kw_warn().len() == 4);
    } else if j == 3 {
        assert(kw_warning().len() == 7);
    } else if j == 4 {
        assert(kw_info().len() == 4);
    } else if j == 5 {
        assert(kw_debug().len() == 5);
    } else {
        assert(kw_trace().len() == 5);
    }
}

/// `s` equals the all-uppercase token `kw` up to ASCII case.
pub open spec fn seq_eq_ci(s: Seq<char>, kw: Seq<char>) -> bool {
    s.len() == kw.len() && forall|i: int| 0 <= i < s.len() ==> eq_ci(s[i], #[trigger] kw[i])
}

/// The level of the first token in `tbl` that `s` equals up to ASCII case.
pub open spec fn token_level_in(s: Seq<char>, tbl: Seq<(Seq<char>, LogLevel)>) -> Option<LogLevel>
    decreases tbl.len(),
{
    if tbl.len() == 0 {
        None
    } else if seq_eq_ci(s, tbl[0].0) {
        Some(tbl[0].1)
    } else {
        token_level_in(s, tbl.skip(1))
    }
}

/// The level named by `s`, if `s` is one of the recognized tokens
/// (ASCII-case-insensitively).
pub open spec fn spec_level_of_token(s: Seq<char>) -> Option<LogLevel> {
    token_level_in(s, keyword_table())
}

/// The level tokens with their levels, as runtime values.
pub fn keyword_vecs() -> (r: Vec<(Vec<char>, LogLevel)>)
    ensures
        r@.len() == keyword_table().len(),
        forall|i: int|
            0 <= i < r@.len() ==> (#[trigger] r@[i]).0@ == keyword_table()[i].0 && r@[i].1
                == keyword_table()[i].1,
{
    let mut r: Vec<(Vec<char>, LogLevel)> = Vec::new();
    let v = to_chars("ERROR");
    proof {
        reveal_strlit("ERROR");
        assert(v@ =~= kw_error());
    }
    r.push((v, LogLevel::Error));
    let v = to_chars("ERR");
    proof {
        reveal_strlit("ERR");
        assert(v@ =~= kw_err());
    }
    r.push((v, LogLevel::Error));
    let v = to_chars("WARN");
    proof {
        reveal_strlit("WARN");
        assert(v@ =~= kw_warn());
    }
    r.push((v, LogLevel::Warn));
    let v = to_chars("WARNING");
    proof {
        reveal_strlit("WARNING");
        assert(v@ =~= kw_warning());
    }
    r.push((v, LogLevel::Warn));
    let v = to_chars("INFO");
    proof {
        reveal_strlit("INFO");
        assert(v@ =~= kw_info());
    }
    r.push((v, LogLevel::Info));
    let v = to_chars("DEBUG");
    proof {
        reveal_strlit("DEBUG");
        assert(v@ =~= kw_debug());
    }
    r.push((v, LogLevel::Debug));
    let v = to_chars("TRACE");
    proof {
        reveal_strlit("TRACE");
        assert(v@ =~= kw_trace());
    }
    r.push((v, LogLevel::Trace));
    r
}

fn token_eq_ci(v: &Vec<char>, kw: &Vec<char>) -> (b: bool)
    ensures
        b == seq_eq_ci(v@, kw@),
{
    if v.len() != kw.len() {
        return false;
    }
    let mut i: usize = 0;
    while i < v.len()
        invariant
            i <= v@.len(),
            v@.len() == kw@.len(),
            forall|k: int| 0 <= k < i ==> eq_ci(v@[k], #[trigger] kw@[k]),
        decreases v@.len() - i,
    {
        if !char_eq_ci(v[i], kw[i]) {
            return false;
        }
        i = i + 1;
    }
    true
}

impl LogLevel {
    /// Parse a level from its token, ASCII-case-insensitively:
    /// `ERROR`/`ERR`, `WARN`/`WARNING`, `INFO`, `DEBUG`, `TRACE`.
    pub fn from_str(s: &str) -> (r: Option<LogLevel>)
        ensures
            r == spec_level_of_token(s@),
    {
        let chars = to_chars(s);
        let table = keyword_vecs();
        proof {
            assert(keyword_table().skip(0) =~= keyword_table());
        }
        let mut i: usize = 0;
        while i < table.len()
            invariant
                i <= table@.len(),
                chars@ == s@,
                table@.len() == keyword_table().len(),
                forall|k: int|
                    0 <= k < table@.len() ==> (#[trigger] table@[k]).0@ == keyword_table()[k].0
                        && table@[k].1 == keyword_table()[k].1,
                spec_level_of_token(s@) == token_level_in(s@, keyword_table().skip(i as int)),
            decreases table@.len() - i,
        {
            let entry = &table[i];
            if token_eq_ci(&chars, &entry.0) {
                proof {
                    assert(keyword_table().skip(i as int)[0] == keyword_table()[i as int]);
                }
                return Some(entry.1);
            }
            proof {
                assert(keyword_table().skip(i as int)[0] == keyword_table()[i as int]);
                assert(keyword_table().skip(i as int).skip(1) =~= keyword_table().skip(
                    i as int + 1,
                ));
            }
            i = i + 1;
        }
        None
    }
}

// ---------------------------------------------------------------------------
// Events
// ---------------------------------------------------------------------------

/// One parsed log line. Timestamps are UTC instants in milliseconds since
/// the Unix epoch.
#[derive(Debug, Clone)]
pub struct LogEvent {
    /// Timestamp, when one was recognized.
    pub timestamp: Option<i64>,
    /// Severity level, when one was recognized or inferred.
    pub level: Option<LogLevel>,
    /// The line with the matched timestamp and level removed and
    /// whitespace collapsed.
    pub message: String,
    /// The original line, kept for diagnostics.
    pub raw: String,
}

// ---------------------------------------------------------------------------
// Groups and their incremental aggregates
// ---------------------------------------------------------------------------

/// Per-level event counters, kept so that the dominant level can be
/// maintained in constant time per insertion.
#[derive(Debug, Clone)]
pub struct LevelCounts {
    pub error: usize,
    pub warn: usize,
    pub info: usize,
    pub debug: usize,
    pub trace: usize,
}

/// The counter of `c` for level `l`.
pub open spec fn counts_field(c: LevelCounts, l: LogLevel) -> usize {
    match l {
        LogLevel::Error => c.error,
        LogLevel::Warn => c.warn,
        LogLevel::Info => c.info,
        LogLevel::Debug => c.debug,
        LogLevel::Trace => c.trace,
    }
}

impl LevelCounts {
    pub fn new() -> (r: LevelCounts)
        ensures
            forall|l: LogLevel| counts_field(r, l) == 0,
    {
        LevelCounts { error: 0, warn: 0, info: 0, debug: 0, trace: 0 }
    }

    pub fn count_of(&self, l: LogLevel) -> (r: usize)
        ensures
            r == counts_field(*self, l),
    {
        match l {
            LogLevel::Error => self.error,
            LogLevel::Warn => self.warn,
            LogLevel::Info => self.info,
            LogLevel::Debug => self.debug,
            LogLevel::Trace => self.trace,
        }
    }

    pub fn bump(&mut self, l: LogLevel)
        requires
            counts_field(*old(self), l) < usize::MAX,
        ensures
            counts_field(*final(self), l) == counts_field(*old(self), l) + 1,
            forall|k: LogLevel|
                k != l ==> counts_field(*final(self), k) == counts_field(*old(self), k),
    {
        match l {
            LogLevel::Error => self.error = self.error + 1,
            LogLevel::Warn => self.warn = self.warn + 1,
            LogLevel::Info => self.info = self.info + 1,
            LogLevel::Debug => self.debug = self.debug + 1,
            LogLevel::Trace => self.trace = self.trace + 1,
        }
    }
}

/// How many events of `es` carry level `l`.
pub open spec fn level_total(es: Seq<LogEvent>, l: LogLevel) -> nat
    decreases es.len(),
{
    if es.len() == 0 {
        0
    } else {
        level_total(es.drop_last(), l) + (if es.last().level == Some(l) {
            1nat
        } else {
            0nat
        })
    }
}

pub proof fn lemma_level_total_le(es: Seq<LogEvent>, l: LogLevel)
    ensures
        level_total(es, l) <= es.len(),
    decreases es.len(),
{
    if es.len() > 0 {
        lemma_level_total_le(es.drop_last(), l);
    }
}

/// How many events of `es` carry no level.
pub open spec fn unleveled_total(es: Seq<LogEvent>) -> nat
    decreases es.len(),
{
    if es.len() == 0 {
        0
    } else {
        unleveled_total(es.drop_last()) + (if es.last().level is None {
            1nat
        } else {
            0nat
        })
    }
}

/// Every event carries one level or none: the per-level totals and the
/// total of unleveled events partition the events.
pub proof fn lemma_counts_partition(es: Seq<LogEvent>)
    ensures
        level_total(es, LogLevel::Error) + level_total(es, LogLevel::Warn) + level_total(
            es,
            LogLevel::Info,
        ) + level_total(es, LogLevel::Debug) + level_total(es, LogLevel::Trace) + unleveled_total(
            es,
        ) == es.len(),
    decreases es.len(),
{
    if es.len() > 0 {
        lemma_counts_partition(es.drop_last());
        let prior = es.drop_last();
        assert forall|l: LogLevel|
            #[trigger] level_total(es, l) == level_total(prior, l) + (if es.last().level == Some(
                l,
            ) {
                1nat
            } else {
                0nat
            }) by {}
        match es.last().level {
            None => {
                assert(unleveled_total(es) == unleveled_total(prior) + 1);
            },
            Some(lv) => {
                assert(level_total(es, lv) == level_total(prior, lv) + 1);
                assert(unleveled_total(es) == unleveled_total(prior));
            },
        }
    }
}

/// The dominant level after one more event with level `l` arrives, given
/// the dominant level `d` and the events `prior` seen so far: the new
/// level takes over only when its count strictly exceeds the count the
/// current dominant level had before the arrival.
pub open spec fn dominant_step(
    d: Option<LogLevel>,
    prior: Seq<LogEvent>,
    l: Option<LogLevel>,
) -> Option<LogLevel> {
    match l {
        None => d,
        Some(lv) => {
            let prior_dom = match d {
                None => 0nat,
                Some(dl) => level_total(prior, dl),
            };
            if level_total(prior, lv) + 1 > prior_dom {
                Some(lv)
            } else {
                d
            }
        },
    }
}

/// The dominant level of `es`: the level with the highest count, ties kept
/// by the level that reached the current maximum first.
pub open spec fn dominant_of(es: Seq<LogEvent>) -> Option<LogLevel>
    decreases es.len(),
{
    if es.len() == 0 {
        None
    } else {
        dominant_step(dominant_of(es.drop_last()), es.drop_last(), es.last().level)
    }
}

/// The time window after one more event with timestamp `ts` arrives.
pub open spec fn window_step(w: Option<(i64, i64)>, ts: Option<i64>) -> Option<(i64, i64)> {
    match ts {
        None => w,
        Some(t) => match w {
            None => Some((t, t)),
            Some((a, b)) => Some(
                (
                    if t < a {
                        t
                    } else {
                        a
                    },
                    if t > b {
                        t
                    } else {
                        b
                    },
                ),
            ),
        },
    }
}

/// The earliest and latest timestamp among the events of `es`, when any
/// event carries one.
pub open spec fn window_of(es: Seq<LogEvent>) -> Option<(i64, i64)>
    decreases es.len(),
{
    if es.len() == 0 {
        None
    } else {
        window_step(window_of(es.drop_last()), es.last().timestamp)
    }
}

/// A group of events sharing one normalized message pattern.
#[derive(Debug, Clone)]
pub struct LogGroup {
    /// The normalized message all members share.
    pub pattern: String,
    /// The member events, in arrival order.
    pub events: Vec<LogEvent>,
    /// `events.len()`, maintained incrementally.
    pub count: usize,
    /// The level with the highest count among the members, ties kept by
    /// the level that reached the current maximum first.
    pub dominant_level: Option<LogLevel>,
    /// Earliest and latest member timestamp.
    pub time_window: Option<(i64, i64)>,
    /// Per-level member counts, for constant-time dominant-level updates.
    pub level_counts: LevelCounts,
}

impl LogGroup {
    /// The aggregate fields agree with the member events.
    pub open spec fn wf(self) -> bool {
        &&& self.count == self.events@.len()
        &&& forall|l: LogLevel|
            #[trigger] counts_field(self.level_counts, l) == level_total(self.events@, l)
        &&& self.dominant_level == dominant_of(self.events@)
        &&& self.time_window == window_of(self.events@)
    }

    /// An empty group for the given pattern.
    pub fn new(pattern: String) -> (g: LogGroup)
        ensures
            g.wf(),
            g.pattern == pattern,
            g.events@.len() == 0,
            g.count == 0,
            g.dominant_level is None,
            g.time_window is None,
    {
        LogGroup {
            pattern,
            events: Vec::new(),
            count: 0,
            dominant_level: None,
            time_window: None,
            level_counts: LevelCounts::new(),
        }
    }

    /// Append one event, updating every aggregate in constant time.
    pub fn add_event(&mut self, event: LogEvent)
        requires
            old(self).wf(),
            old(self).events@.len() < usize::MAX,
        ensures
            final(self).wf(),
            final(self).pattern == old(self).pattern,
            final(self).events@ == old(self).events@.push(event),
            final(self).count == old(self).count + 1,
            final(self).dominant_level == dominant_step(
                old(self).dominant_level,
                old(self).events@,
                event.level,
            ),
            final(self).time_window == window_step(old(self).time_window, event.timestamp),
    {
        let ghost es = self.events@;

        // Expand the time window.
        if let Some(ts) = event.timestamp {
            self.time_window = match self.time_window {
                None => Some((ts, ts)),
                Some((start, end)) => Some(
                    (
                        if ts < start {
                            ts
                        } else {
                            start
                        },
                        if ts > end {
                            ts
                        } else {
                            end
                        },
                    ),
                ),
            };
        }
        // Update the level counts and the dominant level: capture the
        // current dominant count before the increment, so that a level
        // takes over only when it strictly exceeds it.
        if let Some(level) = event.level {
            let current_dominant_count = match self.dominant_level {
                None => 0,
                Some(dl) => self.level_counts.count_of(dl),
            };
            proof {
                lemma_level_total_le(es, level);
            }
            self.level_counts.bump(level);
            let new_count = self.level_counts.count_of(level);
            if new_count > current_dominant_count {
                self.dominant_level = Some(level);
            }
        }
        let ghost evs = self.events@;
        self.events.push(event);
        self.count = self.count + 1;
        proof {
            assert(self.events@.drop_last() =~= es);
            assert forall|l: LogLevel| #[trigger]
                counts_field(self.level_counts, l) == level_total(self.events@, l) by {
                assert(level_total(self.events@, l) == level_total(es, l) + (
                if event.level == Some(l) {
                    1nat
                } else {
                    0nat
                }));
            }
        }
    }
}

/// The dominant level always holds a maximal per-level count, and a group
/// has a dominant level as soon as any member carries a level.
pub proof fn lemma_dominant_is_argmax(es: Seq<LogEvent>)
    ensures
        dominant_of(es) is None ==> forall|l: LogLevel| level_total(es, l) == 0,
        dominant_of(es) matches Some(d) ==> level_total(es, d) >= 1 && forall|l: LogLevel|
            level_total(es, l) <= level_total(es, d),
    decreases es.len(),
{
    if es.len() > 0 {
        let prior = es.drop_last();
        lemma_dominant_is_argmax(prior);
        assert forall|l: LogLevel|
            level_total(es, l) == level_total(prior, l) + (if es.last().level == Some(l) {
                1nat
            } else {
                0nat
            }) by {}
    }
}

} // verus!

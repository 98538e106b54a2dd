//! The grouper: clustering events by their normalized message and ranking
//! the clusters by size. Grouping is a total function of the event
//! sequence — it has no failure path.

use vstd::prelude::*;
use crate::models::LogEvent;
use crate::models::LogGroup;
use crate::models::LogLevel;
use crate::norm::normalize_chars;
use crate::norm::normalize_spec;
use crate::text::string_of;
use crate::text::to_chars;

verus! {

/// The pattern key of an event: its normalized message.
pub open spec fn pat_of(e: LogEvent) -> Seq<char> {
    normalize_spec(e.message@)
}

// ---------------------------------------------------------------------------
// Grouping, as pairs of pattern and members
// ---------------------------------------------------------------------------

/// Index of the first group with pattern `p`, or `gs.len()` when none.
pub open spec fn find_pat(gs: Seq<(Seq<char>, Seq<LogEvent>)>, p: Seq<char>) -> int
    decreases gs.len(),
{
    if gs.len() == 0 {
        0
    } else if gs[0].0 == p {
        0
    } else {
        1 + find_pat(gs.skip(1), p)
    }
}

pub proof fn lemma_find_pat_at(gs: Seq<(Seq<char>, Seq<LogEvent>)>, p: Seq<char>, j: int)
    requires
        0 <= j <= gs.len(),
        forall|t: int| 0 <= t < j ==> (#[trigger] gs[t]).0 != p,
        j == gs.len() || gs[j].0 == p,
    ensures
        find_pat(gs, p) == j,
    decreases j,
{
    if gs.len() > 0 && j > 0 {
        lemma_find_pat_at(gs.skip(1), p, j - 1);
    }
}

/// The groups after one more event arrives: appended to the group with
/// its pattern, or opening a new group at the end.
pub open spec fn insert_event(
    gs: Seq<(Seq<char>, Seq<LogEvent>)>,
    e: LogEvent,
) -> Seq<(Seq<char>, Seq<LogEvent>)> {
    let p = pat_of(e);
    let k = find_pat(gs, p);
    if k < gs.len() {
        gs.update(k, (gs[k].0, gs[k].1.push(e)))
    } else {
        gs.push((p, seq![e]))
    }
}

/// The groups of the events, in the order their patterns were first
/// encountered, each holding its members in arrival order.
pub open spec fn collect_groups(es: Seq<LogEvent>) -> Seq<(Seq<char>, Seq<LogEvent>)>
    decreases es.len(),
{
    if es.len() == 0 {
        Seq::empty()
    } else {
        insert_event(collect_groups(es.drop_last()), es.last())
    }
}

/// Total number of members over all groups.
pub open spec fn sum_sizes(gs: Seq<(Seq<char>, Seq<LogEvent>)>) -> int
    decreases gs.len(),
{
    if gs.len() == 0 {
        0
    } else {
        sum_sizes(gs.drop_last()) + gs.last().1.len()
    }
}

pub proof fn lemma_sum_sizes_nonneg(gs: Seq<(Seq<char>, Seq<LogEvent>)>)
    ensures
        sum_sizes(gs) >= 0,
    decreases gs.len(),
{
    if gs.len() > 0 {
        lemma_sum_sizes_nonneg(gs.drop_last());
    }
}

/// Each group counts at most the total.
pub proof fn lemma_size_le_sum(gs: Seq<(Seq<char>, Seq<LogEvent>)>, i: int)
    requires
        0 <= i < gs.len(),
    ensures
        gs[i].1.len() <= sum_sizes(gs),
    decreases gs.len(),
{
    if i == gs.len() - 1 {
        lemma_sum_sizes_nonneg(gs.drop_last());
    } else {
        lemma_size_le_sum(gs.drop_last(), i);
        assert(gs.drop_last()[i] == gs[i]);
    }
}

proof fn lemma_sum_sizes_update(
    gs: Seq<(Seq<char>, Seq<LogEvent>)>,
    k: int,
    g: (Seq<char>, Seq<LogEvent>),
)
    requires
        0 <= k < gs.len(),
    ensures
        sum_sizes(gs.update(k, g)) == sum_sizes(gs) - gs[k].1.len() + g.1.len(),
    decreases gs.len(),
{
    let u = gs.update(k, g);
    if k == gs.len() - 1 {
        assert(u.drop_last() =~= gs.drop_last());
        assert(u.last() == g);
    } else {
        assert(u.drop_last() =~= gs.drop_last().update(k, g));
        assert(u.last() == gs.last());
        lemma_sum_sizes_update(gs.drop_last(), k, g);
    }
}

/// One arrival grows the total by exactly one.
pub proof fn lemma_insert_event_sum(gs: Seq<(Seq<char>, Seq<LogEvent>)>, e: LogEvent)
    ensures
        sum_sizes(insert_event(gs, e)) == sum_sizes(gs) + 1,
{
    let p = pat_of(e);
    let k = find_pat(gs, p);
    if k < gs.len() {
        lemma_find_pat_range(gs, p);
        lemma_sum_sizes_update(gs, k, (gs[k].0, gs[k].1.push(e)));
    } else {
        let u = gs.push((p, seq![e]));
        assert(u.drop_last() =~= gs);
    }
}

pub proof fn lemma_find_pat_range(gs: Seq<(Seq<char>, Seq<LogEvent>)>, p: Seq<char>)
    ensures
        0 <= find_pat(gs, p) <= gs.len(),
    decreases gs.len(),
{
    if gs.len() > 0 && gs[0].0 != p {
        lemma_find_pat_range(gs.skip(1), p);
    }
}

/// Grouping neither loses nor invents events.
pub proof fn lemma_collect_sum(es: Seq<LogEvent>)
    ensures
        sum_sizes(collect_groups(es)) == es.len(),
    decreases es.len(),
{
    if es.len() > 0 {
        lemma_collect_sum(es.drop_last());
        lemma_insert_event_sum(collect_groups(es.drop_last()), es.last());
    }
}

// ---------------------------------------------------------------------------
// Ranking: stable descending sort by size
// ---------------------------------------------------------------------------

/// `g` inserted after every group with at least as many members: the
/// stable descending insertion.
pub open spec fn insert_desc(
    gs: Seq<(Seq<char>, Seq<LogEvent>)>,
    g: (Seq<char>, Seq<LogEvent>),
) -> Seq<(Seq<char>, Seq<LogEvent>)>
    decreases gs.len(),
{
    if gs.len() == 0 {
        seq![g]
    } else if gs[0].1.len() >= g.1.len() {
        seq![gs[0]] + insert_desc(gs.skip(1), g)
    } else {
        seq![g] + gs
    }
}

/// The groups sorted by descending size; groups of equal size keep their
/// order.
pub open spec fn sort_desc(gs: Seq<(Seq<char>, Seq<LogEvent>)>) -> Seq<
    (Seq<char>, Seq<LogEvent>),
>
    decreases gs.len(),
{
    if gs.len() == 0 {
        Seq::empty()
    } else {
        insert_desc(sort_desc(gs.drop_last()), gs.last())
    }
}

/// The ranked groups of an event sequence: grouped in first-encounter
/// order, then stably sorted by descending size.
pub open spec fn ranked_groups(es: Seq<LogEvent>) -> Seq<(Seq<char>, Seq<LogEvent>)> {
    sort_desc(collect_groups(es))
}

/// Inserting at the position where the leading run of at-least-as-large
/// groups ends is exactly the descending insertion.
pub proof fn lemma_insert_desc_at(
    gs: Seq<(Seq<char>, Seq<LogEvent>)>,
    g: (Seq<char>, Seq<LogEvent>),
    j: int,
)
    requires
        0 <= j <= gs.len(),
        forall|t: int| 0 <= t < j ==> (#[trigger] gs[t]).1.len() >= g.1.len(),
        j == gs.len() || gs[j].1.len() < g.1.len(),
    ensures
        insert_desc(gs, g) == gs.take(j) + seq![g] + gs.skip(j),
    decreases j,
{
    if gs.len() == 0 {
        assert(insert_desc(gs, g) =~= gs.take(0) + seq![g] + gs.skip(0));
    } else if j == 0 {
        assert(gs[0].1.len() < g.1.len());
        assert(insert_desc(gs, g) =~= gs.take(0) + seq![g] + gs.skip(0));
    } else {
        lemma_insert_desc_at(gs.skip(1), g, j - 1);
        assert(gs.skip(1).take(j - 1) =~= gs.take(j).skip(1));
        assert(gs.skip(1).skip(j - 1) =~= gs.skip(j));
        assert(insert_desc(gs, g) =~= gs.take(j) + seq![g] + gs.skip(j));
    }
}

/// Sorting keeps the total number of members.
pub proof fn lemma_insert_desc_sum(gs: Seq<(Seq<char>, Seq<LogEvent>)>, g: (Seq<char>, Seq<
    LogEvent,
>))
    ensures
        sum_sizes(insert_desc(gs, g)) == sum_sizes(gs) + g.1.len(),
    decreases gs.len(),
{
    if gs.len() == 0 {
        lemma_sum_sizes_cons(g, Seq::<(Seq<char>, Seq<LogEvent>)>::empty());
        assert(seq![g] + Seq::<(Seq<char>, Seq<LogEvent>)>::empty() =~= seq![g]);
    } else if gs[0].1.len() >= g.1.len() {
        lemma_insert_desc_sum(gs.skip(1), g);
        let r = seq![gs[0]] + insert_desc(gs.skip(1), g);
        lemma_sum_sizes_cons(gs[0], insert_desc(gs.skip(1), g));
        lemma_sum_sizes_cons(gs[0], gs.skip(1));
        assert(seq![gs[0]] + gs.skip(1) =~= gs);
    } else {
        lemma_sum_sizes_cons(g, gs);
    }
}

proof fn lemma_sum_sizes_cons(g: (Seq<char>, Seq<LogEvent>), gs: Seq<(Seq<char>, Seq<LogEvent>)>)
    ensures
        sum_sizes(seq![g] + gs) == g.1.len() + sum_sizes(gs),
    decreases gs.len(),
{
    let c = seq![g] + gs;
    if gs.len() == 0 {
        assert(c =~= seq![g]);
        assert(seq![g].drop_last() =~= Seq::<(Seq<char>, Seq<LogEvent>)>::empty());
        assert(seq![g].last() == g);
        assert(sum_sizes(seq![g]) == sum_sizes(Seq::<(Seq<char>, Seq<LogEvent>)>::empty())
            + g.1.len());
    } else {
        assert(c.drop_last() =~= seq![g] + gs.drop_last());
        assert(c.last() == gs.last());
        lemma_sum_sizes_cons(g, gs.drop_last());
    }
}

pub proof fn lemma_sort_desc_sum(gs: Seq<(Seq<char>, Seq<LogEvent>)>)
    ensures
        sum_sizes(sort_desc(gs)) == sum_sizes(gs),
    decreases gs.len(),
{
    if gs.len() > 0 {
        lemma_sort_desc_sum(gs.drop_last());
        lemma_insert_desc_sum(sort_desc(gs.drop_last()), gs.last());
    }
}

/// The group sizes of the ranked output sum to the number of events
/// grouped: grouping and ranking lose and invent no events.
pub proof fn lemma_ranked_sum(es: Seq<LogEvent>)
    ensures
        sum_sizes(ranked_groups(es)) == es.len(),
{
    lemma_collect_sum(es);
    lemma_sort_desc_sum(collect_groups(es));
}

// ---------------------------------------------------------------------------
// The grouper
// ---------------------------------------------------------------------------

/// The model of a built group: its pattern and its members.
pub open spec fn group_model(g: LogGroup) -> (Seq<char>, Seq<LogEvent>) {
    (g.pattern@, g.events@)
}

pub open spec fn models_of(gs: Seq<LogGroup>) -> Seq<(Seq<char>, Seq<LogEvent>)> {
    gs.map_values(|g: LogGroup| group_model(g))
}

/// Every group's aggregates agree with its members.
pub open spec fn all_wf(gs: Seq<LogGroup>) -> bool {
    forall|i: int| 0 <= i < gs.len() ==> (#[trigger] gs[i]).wf()
}

/// Clusters events by their normalized message.
pub struct LogGrouper {}

impl LogGrouper {
    pub fn new() -> (g: LogGrouper) {
        LogGrouper {}
    }

    /// The normalized form of a message: variable parts (UUIDs, IPv4
    /// addresses, decimal numbers) replaced by `<VAR>`, whitespace
    /// collapsed.
    pub fn normalize_message(&self, message: &str) -> (r: String)
        ensures
            r@ == normalize_spec(message@),
    {
        let chars = to_chars(message);
        let normalized = normalize_chars(&chars);
        string_of(&normalized)
    }

    /// Group the events by pattern and rank the groups by descending
    /// size; groups of equal size keep the order in which their patterns
    /// were first encountered. Every aggregate field of every returned
    /// group agrees with its members.
    pub fn group_events(&self, events: Vec<LogEvent>) -> (groups: Vec<LogGroup>)
        ensures
            models_of(groups@) == ranked_groups(events@),
            all_wf(groups@),
    {
        let ghost orig = events@;
        let total = events.len();
        let mut rest = events;
        let mut acc: Vec<LogGroup> = Vec::new();
        let ghost mut k: int = 0;
        proof {
            assert(orig.take(0) =~= Seq::<LogEvent>::empty());
            assert(models_of(acc@) =~= collect_groups(orig.take(0)));
        }
        while rest.len() > 0
            invariant
                0 <= k <= total,
                total == orig.len(),
                rest@ == orig.skip(k),
                models_of(acc@) == collect_groups(orig.take(k)),
                all_wf(acc@),
                sum_sizes(collect_groups(orig.take(k))) == k,
            decreases rest@.len(),
        {
            let e = rest.remove(0);
            let ghost gs = collect_groups(orig.take(k));
            proof {
                assert(e == orig[k]);
                assert(rest@ =~= orig.skip(k + 1));
                assert(orig.take(k + 1).drop_last() =~= orig.take(k));
                assert(orig.take(k + 1).last() == orig[k]);
                lemma_insert_event_sum(gs, e);
            }
            let msg_chars = to_chars(e.message.as_str());
            let key_chars = normalize_chars(&msg_chars);
            let key = string_of(&key_chars);
            proof {
                assert(key@ == pat_of(e));
            }
            let mut j: usize = 0;
            let mut found = false;
            while !found && j < acc.len()
                invariant
                    j <= acc@.len(),
                    key@ == pat_of(e),
                    models_of(acc@) == gs,
                    forall|t: int| 0 <= t < j ==> (#[trigger] gs[t]).0 != pat_of(e),
                    found ==> j < acc@.len() && gs[j as int].0 == pat_of(e),
                decreases 2 * (acc@.len() - j) + (if found {
                    0int
                } else {
                    1int
                }),
            {
                if acc[j].pattern == key {
                    found = true;
                } else {
                    j = j + 1;
                }
            }
            proof {
                assert(gs.len() == acc@.len());
                if found {
                    lemma_find_pat_at(gs, pat_of(e), j as int);
                } else {
                    assert(j == acc@.len());
                    lemma_find_pat_at(gs, pat_of(e), gs.len() as int);
                }
            }
            if found {
                proof {
                    lemma_size_le_sum(gs, j as int);
                }
                let ghost acc0 = acc@;
                let mut g = acc.remove(j);
                g.add_event(e);
                let ghost g2 = g;
                acc.insert(j, g);
                proof {
                    assert(acc@ =~= acc0.update(j as int, g2));
                    assert(group_model(g2) == (gs[j as int].0, gs[j as int].1.push(e)));
                    assert(models_of(acc@) =~= insert_event(gs, e));
                }
            } else {
                let mut g = LogGroup::new(key);
                g.add_event(e);
                let ghost g2 = g;
                acc.push(g);
                proof {
                    assert(g2.events@ =~= seq![e]);
                    assert(group_model(g2) == (pat_of(e), seq![e]));
                    assert(models_of(acc@) =~= insert_event(gs, e));
                }
            }
            proof {
                k = k + 1;
            }
        }
        proof {
            assert(orig.take(total as int) =~= orig);
        }
        // Rank: stable insertion sort by descending size.
        let ghost cg = collect_groups(orig);
        let mut sorted: Vec<LogGroup> = Vec::new();
        let ghost mut m: int = 0;
        proof {
            assert(cg.take(0) =~= Seq::<(Seq<char>, Seq<LogEvent>)>::empty());
            assert(models_of(sorted@) =~= sort_desc(cg.take(0)));
        }
        while acc.len() > 0
            invariant
                0 <= m <= cg.len(),
                models_of(acc@) == cg.skip(m),
                all_wf(acc@),
                models_of(sorted@) == sort_desc(cg.take(m)),
                all_wf(sorted@),
            decreases acc@.len(),
        {
            let ghost acc0 = acc@;
            let g = acc.remove(0);
            let ghost sm = sort_desc(cg.take(m));
            proof {
                assert(models_of(acc0).len() == acc0.len());
                assert(m < cg.len());
                assert(group_model(g) == models_of(acc0)[0]);
                assert(group_model(g) == cg[m]);
                assert forall|t: int| 0 <= t < acc@.len() implies #[trigger] models_of(acc@)[t]
                    == cg.skip(m + 1)[t] by {
                    assert(acc@[t] == acc0[t + 1]);
                    assert(models_of(acc0)[t + 1] == group_model(acc0[t + 1]));
                }
                assert(models_of(acc@) =~= cg.skip(m + 1));
                assert(cg.take(m + 1).drop_last() =~= cg.take(m));
                assert(cg.take(m + 1).last() == cg[m]);
            }
            let mut j: usize = 0;
            while j < sorted.len() && sorted[j].count >= g.count
                invariant
                    j <= sorted@.len(),
                    models_of(sorted@) == sm,
                    all_wf(sorted@),
                    g.wf(),
                    forall|t: int| 0 <= t < j ==> (#[trigger] sm[t]).1.len() >= g.events@.len(),
                decreases sorted@.len() - j,
            {
                proof {
                    assert(sorted@[j as int].wf());
                    assert(sm[j as int].1.len() == sorted@[j as int].events@.len());
                }
                j = j + 1;
            }
            proof {
                if j < sorted@.len() {
                    assert(sorted@[j as int].wf());
                    assert(sm[j as int].1.len() < g.events@.len());
                }
                lemma_insert_desc_at(sm, group_model(g), j as int);
            }
            sorted.insert(j, g);
            proof {
                assert(models_of(sorted@) =~= sm.take(j as int) + seq![group_model(g)]
                    + sm.skip(j as int));
                m = m + 1;
            }
        }
        proof {
            assert(cg.take(cg.len() as int) =~= cg);
        }
        sorted
    }
}

// ---------------------------------------------------------------------------
// Order and stability of the ranking
// ---------------------------------------------------------------------------

/// The groups stand in descending order of size.
pub open spec fn sorted_desc_sizes(gs: Seq<(Seq<char>, Seq<LogEvent>)>) -> bool {
    forall|a: int, b: int|
        0 <= a < b < gs.len() ==> (#[trigger] gs[a]).1.len() >= (#[trigger] gs[b]).1.len()
}

/// Where the descending insertion puts a group: after the leading run of
/// groups with at least as many members.
pub open spec fn ins_pos(gs: Seq<(Seq<char>, Seq<LogEvent>)>, g: (Seq<char>, Seq<LogEvent>)) -> int
    decreases gs.len(),
{
    if gs.len() == 0 {
        0
    } else if gs[0].1.len() >= g.1.len() {
        1 + ins_pos(gs.skip(1), g)
    } else {
        0
    }
}

proof fn lemma_ins_pos(gs: Seq<(Seq<char>, Seq<LogEvent>)>, g: (Seq<char>, Seq<LogEvent>))
    ensures
        0 <= ins_pos(gs, g) <= gs.len(),
        forall|t: int| 0 <= t < ins_pos(gs, g) ==> (#[trigger] gs[t]).1.len() >= g.1.len(),
        ins_pos(gs, g) == gs.len() || gs[ins_pos(gs, g)].1.len() < g.1.len(),
    decreases gs.len(),
{
    if gs.len() > 0 && gs[0].1.len() >= g.1.len() {
        lemma_ins_pos(gs.skip(1), g);
        assert forall|t: int| 0 <= t < ins_pos(gs, g) implies (#[trigger] gs[t]).1.len()
            >= g.1.len() by {
            if t > 0 {
                assert(gs.skip(1)[t - 1] == gs[t]);
            }
        }
    }
}

proof fn lemma_insert_desc_sorted(gs: Seq<(Seq<char>, Seq<LogEvent>)>, g: (Seq<char>, Seq<
    LogEvent,
>))
    requires
        sorted_desc_sizes(gs),
    ensures
        sorted_desc_sizes(insert_desc(gs, g)),
{
    let j = ins_pos(gs, g);
    lemma_ins_pos(gs, g);
    lemma_insert_desc_at(gs, g, j);
    let r = gs.take(j) + seq![g] + gs.skip(j);
    assert forall|a: int, b: int| 0 <= a < b < r.len() implies (#[trigger] r[a]).1.len() >= (
    #[trigger] r[b]).1.len() by {
        if a < j {
            assert(r[a] == gs[a]);
        } else if a == j {
            assert(r[a] == g);
        } else {
            assert(r[a] == gs[a - 1]);
        }
        if b < j {
            assert(r[b] == gs[b]);
        } else if b == j {
            assert(r[b] == g);
        } else {
            assert(r[b] == gs[b - 1]);
        }
    }
}

/// The ranked output is sorted by descending size.
pub proof fn lemma_sort_desc_sorted(gs: Seq<(Seq<char>, Seq<LogEvent>)>)
    ensures
        sorted_desc_sizes(sort_desc(gs)),
    decreases gs.len(),
{
    if gs.len() > 0 {
        lemma_sort_desc_sorted(gs.drop_last());
        lemma_insert_desc_sorted(sort_desc(gs.drop_last()), gs.last());
    }
}

/// The subsequence of groups of exactly `c` members, in order.
pub open spec fn of_size(gs: Seq<(Seq<char>, Seq<LogEvent>)>, c: int) -> Seq<
    (Seq<char>, Seq<LogEvent>),
>
    decreases gs.len(),
{
    if gs.len() == 0 {
        Seq::empty()
    } else if gs.last().1.len() == c {
        of_size(gs.drop_last(), c).push(gs.last())
    } else {
        of_size(gs.drop_last(), c)
    }
}

proof fn lemma_of_size_concat(
    u: Seq<(Seq<char>, Seq<LogEvent>)>,
    w: Seq<(Seq<char>, Seq<LogEvent>)>,
    c: int,
)
    ensures
        of_size(u + w, c) == of_size(u, c) + of_size(w, c),
    decreases w.len(),
{
    if w.len() == 0 {
        assert(u + w =~= u);
        assert(of_size(u, c) + of_size(w, c) =~= of_size(u, c));
    } else {
        lemma_of_size_concat(u, w.drop_last(), c);
        assert((u + w).drop_last() =~= u + w.drop_last());
        assert((u + w).last() == w.last());
        if w.last().1.len() == c {
            assert(of_size(u, c) + of_size(w, c) =~= (of_size(u, c) + of_size(
                w.drop_last(),
                c,
            )).push(w.last()));
        }
    }
}

proof fn lemma_of_size_empty(gs: Seq<(Seq<char>, Seq<LogEvent>)>, c: int)
    requires
        forall|t: int| 0 <= t < gs.len() ==> (#[trigger] gs[t]).1.len() != c,
    ensures
        of_size(gs, c) == Seq::<(Seq<char>, Seq<LogEvent>)>::empty(),
    decreases gs.len(),
{
    if gs.len() > 0 {
        lemma_of_size_empty(gs.drop_last(), c);
    }
}

proof fn lemma_insert_desc_stable(
    gs: Seq<(Seq<char>, Seq<LogEvent>)>,
    g: (Seq<char>, Seq<LogEvent>),
    c: int,
)
    requires
        sorted_desc_sizes(gs),
    ensures
        of_size(insert_desc(gs, g), c) == (if g.1.len() == c {
            of_size(gs, c).push(g)
        } else {
            of_size(gs, c)
        }),
{
    let j = ins_pos(gs, g);
    lemma_ins_pos(gs, g);
    lemma_insert_desc_at(gs, g, j);
    assert(gs.take(j) + gs.skip(j) =~= gs);
    lemma_of_size_concat(gs.take(j), gs.skip(j), c);
    lemma_of_size_concat(gs.take(j) + seq![g], gs.skip(j), c);
    lemma_of_size_concat(gs.take(j), seq![g], c);
    assert(seq![g].drop_last() =~= Seq::<(Seq<char>, Seq<LogEvent>)>::empty());
    assert(seq![g].last() == g);
    assert(of_size(Seq::<(Seq<char>, Seq<LogEvent>)>::empty(), c) =~= Seq::<(Seq<char>, Seq<
        LogEvent,
    >)>::empty());
    assert(of_size(insert_desc(gs, g), c) == of_size(gs.take(j), c) + of_size(seq![g], c)
        + of_size(gs.skip(j), c));
    assert(of_size(gs, c) == of_size(gs.take(j), c) + of_size(gs.skip(j), c));
    if g.1.len() == c {
        // nothing of size `c` stands after the insertion point
        assert forall|t: int| 0 <= t < gs.skip(j).len() implies (#[trigger] gs.skip(
            j,
        )[t]).1.len() != c by {
            assert(gs.skip(j)[t] == gs[j + t]);
            assert(j < gs.len());
            assert(gs[j].1.len() < g.1.len());
            if t > 0 {
                assert(gs[j + t].1.len() <= gs[j].1.len());
            }
        }
        lemma_of_size_empty(gs.skip(j), c);
        assert(of_size(seq![g], c) =~= seq![g]);
        assert(of_size(insert_desc(gs, g), c) =~= of_size(gs, c).push(g));
    } else {
        assert(of_size(seq![g], c) =~= Seq::<(Seq<char>, Seq<LogEvent>)>::empty());
        assert(of_size(insert_desc(gs, g), c) =~= of_size(gs, c));
    }
}

/// Ranking is stable: for every size, the ranked groups of that size are
/// exactly the groups of that size in first-encounter order.
pub proof fn lemma_sort_desc_stable(gs: Seq<(Seq<char>, Seq<LogEvent>)>, c: int)
    ensures
        of_size(sort_desc(gs), c) == of_size(gs, c),
    decreases gs.len(),
{
    if gs.len() > 0 {
        lemma_sort_desc_stable(gs.drop_last(), c);
        lemma_sort_desc_sorted(gs.drop_last());
        lemma_insert_desc_stable(sort_desc(gs.drop_last()), gs.last(), c);
    }
}

/// The ranked groups are sorted by descending size, and among the groups
/// of any one size the order in which their patterns were first
/// encountered is kept.
pub proof fn lemma_ranked_sorted_stable(es: Seq<LogEvent>, c: int)
    ensures
        sorted_desc_sizes(ranked_groups(es)),
        of_size(ranked_groups(es), c) == of_size(collect_groups(es), c),
{
    lemma_sort_desc_sorted(collect_groups(es));
    lemma_sort_desc_stable(collect_groups(es), c);
}

// ---------------------------------------------------------------------------
// Statistics
// ---------------------------------------------------------------------------

/// A snapshot of the grouping outcome.
#[derive(Debug)]
pub struct GroupStats {
    /// Sum of the group counts.
    pub total_events: usize,
    /// Number of groups.
    pub unique_patterns: usize,
    /// The largest group count, zero when there are no groups.
    pub largest_group: usize,
}

/// The largest `count` field, zero over no groups.
pub open spec fn max_count(gs: Seq<LogGroup>) -> int
    decreases gs.len(),
{
    if gs.len() == 0 {
        0
    } else if gs.last().count >= max_count(gs.drop_last()) {
        gs.last().count as int
    } else {
        max_count(gs.drop_last())
    }
}

proof fn lemma_max_count_take(gs: Seq<LogGroup>, i: int)
    requires
        0 <= i < gs.len(),
    ensures
        max_count(gs.take(i + 1)) == (if gs[i].count >= max_count(gs.take(i)) {
            gs[i].count as int
        } else {
            max_count(gs.take(i))
        }),
{
    assert(gs.take(i + 1).drop_last() =~= gs.take(i));
    assert(gs.take(i + 1).last() == gs[i]);
}

/// Sum of the `count` fields.
pub open spec fn sum_counts(gs: Seq<LogGroup>) -> int
    decreases gs.len(),
{
    if gs.len() == 0 {
        0
    } else {
        sum_counts(gs.drop_last()) + gs.last().count
    }
}

proof fn lemma_sum_counts_take(gs: Seq<LogGroup>, i: int)
    requires
        0 <= i < gs.len(),
    ensures
        sum_counts(gs.take(i + 1)) == sum_counts(gs.take(i)) + gs[i].count,
{
    assert(gs.take(i + 1).drop_last() =~= gs.take(i));
    assert(gs.take(i + 1).last() == gs[i]);
}

proof fn lemma_sum_counts_prefix_le(gs: Seq<LogGroup>, i: int)
    requires
        0 <= i <= gs.len(),
    ensures
        sum_counts(gs.take(i)) <= sum_counts(gs),
    decreases gs.len() - i,
{
    if i < gs.len() {
        lemma_sum_counts_take(gs, i);
        lemma_sum_counts_prefix_le(gs, i + 1);
    } else {
        assert(gs.take(i) =~= gs);
    }
}

/// For well-formed groups the counts are the member totals.
pub proof fn lemma_sum_counts_models(gs: Seq<LogGroup>)
    requires
        all_wf(gs),
    ensures
        sum_counts(gs) == sum_sizes(models_of(gs)),
    decreases gs.len(),
{
    if gs.len() > 0 {
        assert(all_wf(gs.drop_last())) by {
            assert(forall|t: int| 0 <= t < gs.len() - 1 ==> gs.drop_last()[t] == gs[t]);
        }
        lemma_sum_counts_models(gs.drop_last());
        assert(models_of(gs).drop_last() =~= models_of(gs.drop_last()));
        assert(models_of(gs).last() == group_model(gs.last()));
        assert(gs.last().wf());
    }
}

impl LogGrouper {
    /// Statistics over a finished group sequence: the total event count,
    /// the number of distinct patterns, and the size of the largest
    /// group.
    pub fn get_stats(groups: &[LogGroup]) -> (st: GroupStats)
        requires
            sum_counts(groups@) <= usize::MAX,
        ensures
            st.total_events == sum_counts(groups@),
            st.unique_patterns == groups@.len(),
            st.largest_group == max_count(groups@),
    {
        let n = groups.len();
        let mut total: usize = 0;
        let mut largest: usize = 0;
        let mut i: usize = 0;
        proof {
            assert(groups@.take(0) =~= Seq::<LogGroup>::empty());
        }
        while i < n
            invariant
                i <= n,
                n == groups@.len(),
                total == sum_counts(groups@.take(i as int)),
                largest == max_count(groups@.take(i as int)),
                sum_counts(groups@) <= usize::MAX,
            decreases n - i,
        {
            proof {
                lemma_sum_counts_take(groups@, i as int);
                lemma_sum_counts_prefix_le(groups@, i as int + 1);
                lemma_max_count_take(groups@, i as int);
            }
            total = total + groups[i].count;
            if groups[i].count >= largest {
                largest = groups[i].count;
            }
            i = i + 1;
        }
        proof {
            assert(groups@.take(n as int) =~= groups@);
        }
        GroupStats { total_events: total, unique_patterns: n, largest_group: largest }
    }
}

/// For every event sequence, the counts of the groups that
/// `group_events` yields sum to the number of events grouped: nothing is
/// lost and nothing invented.
pub proof fn lemma_counts_sum_to_events(groups: Seq<LogGroup>, events: Seq<LogEvent>)
    requires
        all_wf(groups),
        models_of(groups) == ranked_groups(events),
    ensures
        sum_counts(groups) == events.len(),
{
    lemma_sum_counts_models(groups);
    lemma_ranked_sum(events);
}

/// The groups that `group_events` yields stand in descending order of
/// count.
pub proof fn lemma_groups_sorted_by_count(groups: Seq<LogGroup>, events: Seq<LogEvent>)
    requires
        all_wf(groups),
        models_of(groups) == ranked_groups(events),
    ensures
        forall|a: int, b: int|
            0 <= a < b < groups.len() ==> (#[trigger] groups[a]).count >= (
            #[trigger] groups[b]).count,
{
    lemma_ranked_sorted_stable(events, 0);
    assert forall|a: int, b: int|
        0 <= a < b < groups.len() implies (#[trigger] groups[a]).count >= (
    #[trigger] groups[b]).count by {
        assert(models_of(groups)[a] == group_model(groups[a]));
        assert(models_of(groups)[b] == group_model(groups[b]));
        assert(groups[a].wf());
        assert(groups[b].wf());
        assert(ranked_groups(events)[a].1.len() >= ranked_groups(events)[b].1.len());
    }
}

// ---------------------------------------------------------------------------
// The filtering knobs applied around grouping
// ---------------------------------------------------------------------------

/// The events carrying level Error, in order.
pub open spec fn errors_only(es: Seq<LogEvent>) -> Seq<LogEvent>
    decreases es.len(),
{
    if es.len() == 0 {
        Seq::empty()
    } else if es.last().level == Some(LogLevel::Error) {
        errors_only(es.drop_last()).push(es.last())
    } else {
        errors_only(es.drop_last())
    }
}

/// Keep only the events with level Error (the errors-only knob, applied
/// before grouping).
pub fn filter_errors_only(events: Vec<LogEvent>) -> (kept: Vec<LogEvent>)
    ensures
        kept@ == errors_only(events@),
{
    let ghost orig = events@;
    let mut rest = events;
    let mut kept: Vec<LogEvent> = Vec::new();
    let ghost mut k: int = 0;
    proof {
        assert(orig.take(0) =~= Seq::<LogEvent>::empty());
        assert(kept@ =~= errors_only(orig.take(0)));
    }
    while rest.len() > 0
        invariant
            0 <= k <= orig.len(),
            rest@ == orig.skip(k),
            kept@ == errors_only(orig.take(k)),
        decreases rest@.len(),
    {
        let e = rest.remove(0);
        proof {
            assert(e == orig[k]);
            assert(rest@ =~= orig.skip(k + 1));
            assert(orig.take(k + 1).drop_last() =~= orig.take(k));
            assert(orig.take(k + 1).last() == orig[k]);
        }
        let keep = match e.level {
            Some(LogLevel::Error) => true,
            _ => false,
        };
        if keep {
            kept.push(e);
        }
        proof {
            k = k + 1;
        }
    }
    proof {
        assert(orig.take(orig.len() as int) =~= orig);
    }
    kept
}

/// The groups with at least `min` members, in order.
pub open spec fn with_min_count(gs: Seq<LogGroup>, min: int) -> Seq<LogGroup>
    decreases gs.len(),
{
    if gs.len() == 0 {
        Seq::empty()
    } else if gs.last().count >= min {
        with_min_count(gs.drop_last(), min).push(gs.last())
    } else {
        with_min_count(gs.drop_last(), min)
    }
}

/// Keep only the groups with at least `min_count` members (the
/// minimum-count knob, applied after grouping).
pub fn filter_min_count(groups: Vec<LogGroup>, min_count: usize) -> (kept: Vec<LogGroup>)
    ensures
        kept@ == with_min_count(groups@, min_count as int),
{
    let ghost orig = groups@;
    let mut rest = groups;
    let mut kept: Vec<LogGroup> = Vec::new();
    let ghost mut k: int = 0;
    proof {
        assert(orig.take(0) =~= Seq::<LogGroup>::empty());
        assert(kept@ =~= with_min_count(orig.take(0), min_count as int));
    }
    while rest.len() > 0
        invariant
            0 <= k <= orig.len(),
            rest@ == orig.skip(k),
            kept@ == with_min_count(orig.take(k), min_count as int),
        decreases rest@.len(),
    {
        let g = rest.remove(0);
        proof {
            assert(g == orig[k]);
            assert(rest@ =~= orig.skip(k + 1));
            assert(orig.take(k + 1).drop_last() =~= orig.take(k));
            assert(orig.take(k + 1).last() == orig[k]);
        }
        if g.count >= min_count {
            kept.push(g);
        }
        proof {
            k = k + 1;
        }
    }
    proof {
        assert(orig.take(orig.len() as int) =~= orig);
    }
    kept
}

} // verus!

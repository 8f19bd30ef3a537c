//! The summary of a day shown beside the calendar: how many blocks it
//! holds, how many minutes they occupy together, and how many minutes each
//! category takes.
use vstd::prelude::*;

use crate::categories::{has_category, has_category_id};
use crate::domain::{Category, CategoryColor, CategoryId, EventOccurrence};
use crate::layout::occurrence_times_wf;
use crate::repository::{find_category_index, first_category_index};

verus! {

/// Minutes in one day.
pub const DAY_MINUTES: i32 = 1440;

/// The whole minutes since midnight at which an occurrence starts and ends.
pub open spec fn span_of(e: EventOccurrence) -> (i32, i32) {
    (e.draft.start_time.spec_minutes() as i32, e.draft.end_time.spec_minutes() as i32)
}

/// The spans of a list of occurrences, in order.
pub open spec fn spans_of(events: Seq<EventOccurrence>) -> Seq<(i32, i32)> {
    events.map_values(|e: EventOccurrence| span_of(e))
}

/// Span order: by start, then by end.
pub open spec fn span_le(a: (i32, i32), b: (i32, i32)) -> bool {
    a.0 < b.0 || (a.0 == b.0 && a.1 <= b.1)
}

/// Whether spans are in span order.
pub open spec fn spans_sorted(s: Seq<(i32, i32)>) -> bool {
    forall|i: int, j: int| 0 <= i < j < s.len() ==> span_le(#[trigger] s[i], #[trigger] s[j])
}

/// Whether every span starts and ends within one day.
pub open spec fn spans_in_day(s: Seq<(i32, i32)>) -> bool {
    forall|i: int|
        0 <= i < s.len() ==> 0 <= (#[trigger] s[i]).0 < DAY_MINUTES && 0 <= s[i].1 < DAY_MINUTES
}

/// Spans merged left to right: a span that starts no later than the end of
/// the last merged span extends it; any other starts a new one.
pub open spec fn merged_spans(s: Seq<(i32, i32)>) -> Seq<(i32, i32)>
    decreases s.len(),
{
    if s.len() == 0 {
        Seq::empty()
    } else {
        let m = merged_spans(s.drop_last());
        let x = s.last();
        if m.len() > 0 && x.0 <= m.last().1 {
            m.update(
                m.len() - 1,
                (
                    m.last().0,
                    if x.1 > m.last().1 {
                        x.1
                    } else {
                        m.last().1
                    },
                ),
            )
        } else {
            m.push(x)
        }
    }
}

/// The lengths of spans added up.
pub open spec fn total_length(s: Seq<(i32, i32)>) -> int
    decreases s.len(),
{
    if s.len() == 0 {
        0
    } else {
        total_length(s.drop_last()) + (s.last().1 - s.last().0)
    }
}

/// The minutes an occurrence contributes to its category: its length, or
/// none when it ends before it starts.
pub open spec fn span_minutes(e: EventOccurrence) -> int {
    let (a, b) = span_of(e);
    if b > a {
        b - a
    } else {
        0
    }
}

/// The minutes the occurrences of category `id` take.
pub open spec fn category_total(events: Seq<EventOccurrence>, id: CategoryId) -> int
    decreases events.len(),
{
    if events.len() == 0 {
        0
    } else {
        category_total(events.drop_last(), id) + if events.last().draft.category_id == id {
            span_minutes(events.last())
        } else {
            0
        }
    }
}

/// The colour of the first stored category with identifier `id`.
pub open spec fn color_of(categories: Seq<Category>, id: CategoryId) -> CategoryColor {
    categories[first_category_index(categories, id)->0].color
}

/// The minutes one category takes in a day.
#[derive(Clone, Copy, Debug, PartialEq, Eq, Structural)]
pub struct CategoryMinutes {
    pub category: CategoryId,
    pub color: CategoryColor,
    pub minutes: i64,
}

/// Whether `v` lists, once each, every stored category that some occurrence
/// uses, with its colour and the minutes its occurrences take.
pub open spec fn category_minutes_of(
    v: Seq<CategoryMinutes>,
    events: Seq<EventOccurrence>,
    categories: Seq<Category>,
) -> bool {
    &&& forall|k: int|
        0 <= k < v.len() ==> {
            let c = (#[trigger] v[k]).category;
            &&& has_category(categories, c)
            &&& v[k].color == color_of(categories, c)
            &&& v[k].minutes == category_total(events, c)
            &&& exists|i: int| 0 <= i < events.len() && #[trigger] events[i].draft.category_id == c
        }
    &&& forall|k: int, l: int| 0 <= k < l < v.len() ==> (#[trigger] v[k]).category != (#[trigger] v[l]).category
    &&& forall|i: int|
        0 <= i < events.len() && has_category(categories, (#[trigger] events[i]).draft.category_id)
            ==> exists|k: int| 0 <= k < v.len() && (#[trigger] v[k]).category == events[i].draft.category_id
}

/// The summary of a day's occurrences.
#[derive(Clone, Debug, PartialEq, Eq)]
pub struct DailySummary {
    /// How many occurrences the day holds.
    pub blocks: usize,
    /// The minutes the occurrences occupy together.
    pub occupied_minutes: i64,
    /// The minutes each used stored category takes.
    pub category_minutes: Vec<CategoryMinutes>,
}

/// The spans of the occurrences, in order.
fn span_list(events: &[EventOccurrence]) -> (spans: Vec<(i32, i32)>)
    requires
        forall|k: int| 0 <= k < events.len() ==> occurrence_times_wf(#[trigger] events@[k]),
    ensures
        spans@ == spans_of(events@),
        spans_in_day(spans@),
{
    let mut spans: Vec<(i32, i32)> = Vec::new();
    let mut i: usize = 0;
    while i < events.len()
        invariant
            i <= events.len(),
            forall|k: int| 0 <= k < events.len() ==> occurrence_times_wf(#[trigger] events@[k]),
            spans@ == spans_of(events@.take(i as int)),
            spans_in_day(spans@),
        decreases events.len() - i,
    {
        let e = &events[i];
        assert(occurrence_times_wf(events@[i as int]));
        let start = e.draft.start_time.minutes_since_midnight() as i32;
        let end = e.draft.end_time.minutes_since_midnight() as i32;
        spans.push((start, end));
        assert(spans@ =~= spans_of(events@.take(i as int + 1)));
        i += 1;
    }
    assert(events@.take(events.len() as int) =~= events@);
    spans
}

/// Returns whether `a` comes no later than `b` in span order.
fn span_le_exec(a: (i32, i32), b: (i32, i32)) -> (le: bool)
    ensures
        le == span_le(a, b),
{
    a.0 < b.0 || (a.0 == b.0 && a.1 <= b.1)
}

/// The spans in span order.
fn sort_spans(spans: &Vec<(i32, i32)>) -> (sorted: Vec<(i32, i32)>)
    requires
        spans_in_day(spans@),
    ensures
        spans_sorted(sorted@),
        sorted@.to_multiset() == spans@.to_multiset(),
        sorted@.len() == spans@.len(),
        spans_in_day(sorted@),
{
    broadcast use vstd::seq_lib::group_to_multiset_ensures, vstd::multiset::group_multiset_axioms;

    let mut sorted: Vec<(i32, i32)> = Vec::new();
    let mut i: usize = 0;
    while i < spans.len()
        invariant
            i <= spans.len(),
            spans_in_day(spans@),
            spans_sorted(sorted@),
            spans_in_day(sorted@),
            sorted@.to_multiset() == spans@.take(i as int).to_multiset(),
            sorted@.len() == i,
        decreases spans.len() - i,
    {
        let x = spans[i];
        let ghost before = sorted@;
        let mut p: usize = 0;
        while p < sorted.len() && span_le_exec(sorted[p], x)
            invariant
                p <= sorted.len(),
                sorted@ == before,
                forall|j: int| 0 <= j < p ==> span_le(#[trigger] sorted@[j], x),
            decreases sorted.len() - p,
        {
            p += 1;
        }
        proof {
            vstd::seq_lib::to_multiset_insert(before, p as int, x);
            assert(spans@.take(i as int + 1) =~= spans@.take(i as int).push(x));
            vstd::seq_lib::to_multiset_build(spans@.take(i as int), x);
        }
        sorted.insert(p, x);
        proof {
            let s = sorted@;
            assert(s =~= before.insert(p as int, x));
            assert forall|a: int, b: int| 0 <= a < b < s.len() implies span_le(#[trigger] s[a], #[trigger] s[b]) by {
                if a < p && b == p {
                    assert(s[a] == before[a]);
                } else if a == p && b > p {
                    assert(s[b] == before[b - 1]);
                    assert(!span_le(before[p as int], x));
                    if b - 1 > p {
                        assert(span_le(before[p as int], before[b - 1]));
                    }
                } else if b < p {
                    assert(s[a] == before[a] && s[b] == before[b]);
                } else if a < p && b > p {
                    assert(s[a] == before[a] && s[b] == before[b - 1]);
                } else {
                    assert(s[a] == before[a - 1] && s[b] == before[b - 1]);
                }
            }
            assert forall|k: int| 0 <= k < s.len() implies 0 <= (#[trigger] s[k]).0 < DAY_MINUTES && 0
                <= s[k].1 < DAY_MINUTES by {
                if k < p {
                    assert(s[k] == before[k]);
                } else if k > p {
                    assert(s[k] == before[k - 1]);
                }
            }
        }
        i += 1;
    }
    assert(spans@.take(spans.len() as int) =~= spans@);
    sorted
}

/// The total length of the sorted spans once merged.
fn merged_total(sorted: &Vec<(i32, i32)>) -> (total: i64)
    requires
        spans_in_day(sorted@),
        sorted@.len() <= u32::MAX,
    ensures
        total == total_length(merged_spans(sorted@)),
{
    let mut merged: Vec<(i32, i32)> = Vec::new();
    let mut k: usize = 0;
    while k < sorted.len()
        invariant
            k <= sorted.len(),
            spans_in_day(sorted@),
            merged@ == merged_spans(sorted@.take(k as int)),
            spans_in_day(merged@),
            merged@.len() <= k,
        decreases sorted.len() - k,
    {
        let x = sorted[k];
        proof {
            assert(sorted@.take(k as int + 1).drop_last() =~= sorted@.take(k as int));
            assert(sorted@.take(k as int + 1).last() == x);
        }
        let n = merged.len();
        if n > 0 && x.0 <= merged[n - 1].1 {
            let last = merged[n - 1];
            let end = if x.1 > last.1 {
                x.1
            } else {
                last.1
            };
            merged.set(n - 1, (last.0, end));
        } else {
            merged.push(x);
        }
        proof {
            let m = merged@;
            assert forall|j: int| 0 <= j < m.len() implies 0 <= (#[trigger] m[j]).0 < DAY_MINUTES && 0
                <= m[j].1 < DAY_MINUTES by {}
        }
        k += 1;
    }
    assert(sorted@.take(sorted.len() as int) =~= sorted@);
    let mut total: i64 = 0;
    let mut j: usize = 0;
    while j < merged.len()
        invariant
            j <= merged.len(),
            merged.len() <= u32::MAX,
            spans_in_day(merged@),
            total == total_length(merged@.take(j as int)),
            -1440 * j <= total <= 1440 * j,
        decreases merged.len() - j,
    {
        proof {
            assert(merged@.take(j as int + 1).drop_last() =~= merged@.take(j as int));
            assert(merged@[j as int] == merged@.take(j as int + 1).last());
        }
        let (a, b) = merged[j];
        assert(0 <= merged@[j as int].0 < DAY_MINUTES && 0 <= merged@[j as int].1 < DAY_MINUTES);
        total = total + (b as i64 - a as i64);
        j += 1;
    }
    assert(merged@.take(merged.len() as int) =~= merged@);
    total
}

/// No minutes go to a category that no occurrence uses.
proof fn lemma_category_total_unused(events: Seq<EventOccurrence>, id: CategoryId)
    requires
        forall|i: int| 0 <= i < events.len() ==> #[trigger] events[i].draft.category_id != id,
    ensures
        category_total(events, id) == 0,
    decreases events.len(),
{
    if events.len() > 0 {
        let prefix = events.drop_last();
        assert forall|i: int| 0 <= i < prefix.len() implies #[trigger] prefix[i].draft.category_id != id by {
            assert(prefix[i] == events[i]);
        }
        lemma_category_total_unused(prefix, id);
        assert(events.last() == events[events.len() - 1]);
    }
}

/// A category takes between none and a day's minutes per occurrence.
proof fn lemma_category_total_bounds(events: Seq<EventOccurrence>, id: CategoryId)
    requires
        forall|k: int| 0 <= k < events.len() ==> occurrence_times_wf(#[trigger] events[k]),
    ensures
        0 <= category_total(events, id) <= DAY_MINUTES * events.len(),
    decreases events.len(),
{
    if events.len() > 0 {
        let prefix = events.drop_last();
        assert forall|k: int| 0 <= k < prefix.len() implies occurrence_times_wf(#[trigger] prefix[k]) by {
            assert(prefix[k] == events[k]);
        }
        lemma_category_total_bounds(prefix, id);
        let e = events.last();
        assert(e == events[events.len() - 1]);
        assert(occurrence_times_wf(e));
        assert(e.draft.start_time.spec_minutes() < DAY_MINUTES) by (nonlinear_arith)
            requires
                e.draft.start_time.nanos < crate::time::NANOS_PER_DAY,
        ;
        assert(e.draft.end_time.spec_minutes() < DAY_MINUTES) by (nonlinear_arith)
            requires
                e.draft.end_time.nanos < crate::time::NANOS_PER_DAY,
        ;
    }
}

/// What adding one occurrence does to the minutes of each category.
proof fn lemma_category_total_push(prefix: Seq<EventOccurrence>, e: EventOccurrence, d: CategoryId)
    ensures
        category_total(prefix.push(e), d) == category_total(prefix, d) + if e.draft.category_id
            == d {
            span_minutes(e)
        } else {
            0
        },
{
    assert(prefix.push(e).drop_last() =~= prefix);
}

/// Adding the minutes of an occurrence to its category's existing entry
/// keeps the list exact.
proof fn lemma_step_existing(
    before: Seq<CategoryMinutes>,
    after: Seq<CategoryMinutes>,
    prefix: Seq<EventOccurrence>,
    e: EventOccurrence,
    categories: Seq<Category>,
    k: int,
)
    requires
        category_minutes_of(before, prefix, categories),
        0 <= k < before.len(),
        before[k].category == e.draft.category_id,
        after.len() == before.len(),
        after[k] == (CategoryMinutes {
            category: before[k].category,
            color: before[k].color,
            minutes: (before[k].minutes + span_minutes(e)) as i64,
        }),
        before[k].minutes + span_minutes(e) == (before[k].minutes + span_minutes(e)) as i64,
        forall|j: int| 0 <= j < after.len() && j != k ==> after[j] == before[j],
    ensures
        category_minutes_of(after, prefix.push(e), categories),
{
    let grown = prefix.push(e);
    assert forall|m: int| 0 <= m < after.len() implies {
        let d = (#[trigger] after[m]).category;
        &&& has_category(categories, d)
        &&& after[m].color == color_of(categories, d)
        &&& after[m].minutes == category_total(grown, d)
        &&& exists|j: int| 0 <= j < grown.len() && #[trigger] grown[j].draft.category_id == d
    } by {
        let d = before[m].category;
        lemma_category_total_push(prefix, e, d);
        if m != k {
            assert(before[k].category != d);
        }
        let j = choose|j: int| 0 <= j < prefix.len() && #[trigger] prefix[j].draft.category_id == d;
        assert(grown[j] == prefix[j]);
    }
    assert forall|m: int, l: int| 0 <= m < l < after.len() implies (#[trigger] after[m]).category
        != (#[trigger] after[l]).category by {
        assert(before[m].category != before[l].category);
    }
    assert forall|j: int|
        0 <= j < grown.len() && has_category(categories, (#[trigger] grown[j]).draft.category_id)
            implies exists|m: int| 0 <= m < after.len() && (#[trigger] after[m]).category
            == grown[j].draft.category_id by {
        if j < prefix.len() {
            assert(grown[j] == prefix[j]);
            let m = choose|m: int| 0 <= m < before.len() && (#[trigger] before[m]).category
                == prefix[j].draft.category_id;
            assert(after[m].category == before[m].category);
        } else {
            assert(after[k].category == grown[j].draft.category_id);
        }
    }
}

/// Giving an occurrence's category its first entry keeps the list exact.
proof fn lemma_step_new(
    before: Seq<CategoryMinutes>,
    after: Seq<CategoryMinutes>,
    prefix: Seq<EventOccurrence>,
    e: EventOccurrence,
    categories: Seq<Category>,
)
    requires
        category_minutes_of(before, prefix, categories),
        has_category(categories, e.draft.category_id),
        forall|j: int| 0 <= j < before.len() ==> (#[trigger] before[j]).category != e.draft.category_id,
        after == before.push(
            CategoryMinutes {
                category: e.draft.category_id,
                color: color_of(categories, e.draft.category_id),
                minutes: span_minutes(e) as i64,
            },
        ),
        span_minutes(e) == span_minutes(e) as i64,
    ensures
        category_minutes_of(after, prefix.push(e), categories),
{
    let grown = prefix.push(e);
    let c = e.draft.category_id;
    assert forall|j: int| 0 <= j < prefix.len() implies #[trigger] prefix[j].draft.category_id != c by {
        if prefix[j].draft.category_id == c {
            let m = choose|m: int| 0 <= m < before.len() && (#[trigger] before[m]).category
                == prefix[j].draft.category_id;
        }
    }
    lemma_category_total_unused(prefix, c);
    assert forall|m: int| 0 <= m < after.len() implies {
        let d = (#[trigger] after[m]).category;
        &&& has_category(categories, d)
        &&& after[m].color == color_of(categories, d)
        &&& after[m].minutes == category_total(grown, d)
        &&& exists|j: int| 0 <= j < grown.len() && #[trigger] grown[j].draft.category_id == d
    } by {
        let d = after[m].category;
        lemma_category_total_push(prefix, e, d);
        if m < before.len() {
            assert(after[m] == before[m]);
            let j = choose|j: int| 0 <= j < prefix.len() && #[trigger] prefix[j].draft.category_id == d;
            assert(grown[j] == prefix[j]);
        } else {
            assert(grown[prefix.len() as int].draft.category_id == d);
        }
    }
    assert forall|m: int, l: int| 0 <= m < l < after.len() implies (#[trigger] after[m]).category
        != (#[trigger] after[l]).category by {
        if l < before.len() {
            assert(after[m] == before[m] && after[l] == before[l]);
        } else {
            assert(after[m] == before[m]);
        }
    }
    assert forall|j: int|
        0 <= j < grown.len() && has_category(categories, (#[trigger] grown[j]).draft.category_id)
            implies exists|m: int| 0 <= m < after.len() && (#[trigger] after[m]).category
            == grown[j].draft.category_id by {
        if j < prefix.len() {
            assert(grown[j] == prefix[j]);
            let m = choose|m: int| 0 <= m < before.len() && (#[trigger] before[m]).category
                == prefix[j].draft.category_id;
            assert(after[m] == before[m]);
        } else {
            assert(after[before.len() as int].category == c);
        }
    }
}

/// An occurrence whose category is not stored changes no entry.
proof fn lemma_step_unknown(
    v: Seq<CategoryMinutes>,
    prefix: Seq<EventOccurrence>,
    e: EventOccurrence,
    categories: Seq<Category>,
)
    requires
        category_minutes_of(v, prefix, categories),
        !has_category(categories, e.draft.category_id),
    ensures
        category_minutes_of(v, prefix.push(e), categories),
{
    let grown = prefix.push(e);
    assert forall|m: int| 0 <= m < v.len() implies {
        let d = (#[trigger] v[m]).category;
        &&& has_category(categories, d)
        &&& v[m].color == color_of(categories, d)
        &&& v[m].minutes == category_total(grown, d)
        &&& exists|j: int| 0 <= j < grown.len() && #[trigger] grown[j].draft.category_id == d
    } by {
        let d = v[m].category;
        lemma_category_total_push(prefix, e, d);
        let j = choose|j: int| 0 <= j < prefix.len() && #[trigger] prefix[j].draft.category_id == d;
        assert(grown[j] == prefix[j]);
    }
    assert forall|j: int|
        0 <= j < grown.len() && has_category(categories, (#[trigger] grown[j]).draft.category_id)
            implies exists|m: int| 0 <= m < v.len() && (#[trigger] v[m]).category
            == grown[j].draft.category_id by {
        assert(grown[j] == prefix[j]);
    }
}

/// The minutes of one occurrence, as its category counts them.
fn minutes_of(e: &EventOccurrence) -> (length: i64)
    requires
        occurrence_times_wf(*e),
    ensures
        length == span_minutes(*e),
        0 <= length < DAY_MINUTES,
{
    let a = e.draft.start_time.minutes_since_midnight() as i64;
    let b = e.draft.end_time.minutes_since_midnight() as i64;
    if b > a {
        b - a
    } else {
        0
    }
}

/// Counts, for each used stored category, the minutes its occurrences take.
fn category_minutes(events: &[EventOccurrence], categories: &[Category]) -> (v: Vec<CategoryMinutes>)
    requires
        forall|k: int| 0 <= k < events.len() ==> occurrence_times_wf(#[trigger] events@[k]),
        events.len() <= u32::MAX,
    ensures
        category_minutes_of(v@, events@, categories@),
{
    let mut v: Vec<CategoryMinutes> = Vec::new();
    let mut i: usize = 0;
    while i < events.len()
        invariant
            i <= events.len(),
            events.len() <= u32::MAX,
            forall|k: int| 0 <= k < events.len() ==> occurrence_times_wf(#[trigger] events@[k]),
            category_minutes_of(v@, events@.take(i as int), categories@),
        decreases events.len() - i,
    {
        let ghost prefix = events@.take(i as int);
        let e = &events[i];
        proof {
            assert(events@.take(i as int + 1) =~= prefix.push(*e));
            assert(occurrence_times_wf(events@[i as int]));
        }
        let c = e.draft.category_id;
        let length = minutes_of(e);
        let ghost before = v@;
        if has_category_id(categories, c) {
            proof {
                crate::repository::lemma_category_index_has(categories@, c);
                crate::repository::lemma_category_index_id(categories@, c);
            }
            let index = match find_category_index(categories, c) {
                Some(index) => index,
                None => return v,
            };
            let color = categories[index].color;
            let mut k: usize = 0;
            while k < v.len() && v[k].category != c
                invariant
                    k <= v.len(),
                    v@ == before,
                    forall|j: int| 0 <= j < k ==> (#[trigger] v@[j]).category != c,
                decreases v.len() - k,
            {
                k += 1;
            }
            if k < v.len() {
                proof {
                    let grown = prefix.push(*e);
                    assert forall|j: int| 0 <= j < grown.len() implies occurrence_times_wf(#[trigger] grown[j]) by {
                        if j < prefix.len() {
                            assert(grown[j] == events@[j]);
                        }
                    }
                    lemma_category_total_bounds(grown, c);
                    lemma_category_total_push(prefix, *e, c);
                }
                let entry = v[k];
                v.set(k, CategoryMinutes { category: c, color: entry.color, minutes: entry.minutes + length });
                proof {
                    lemma_step_existing(before, v@, prefix, *e, categories@, k as int);
                }
            } else {
                v.push(CategoryMinutes { category: c, color, minutes: length });
                proof {
                    lemma_step_new(before, v@, prefix, *e, categories@);
                }
            }
        } else {
            proof {
                lemma_step_unknown(v@, prefix, *e, categories@);
            }
        }
        i += 1;
    }
    assert(events@.take(events.len() as int) =~= events@);
    v
}

/// Summarizes a day's occurrences: how many there are, the minutes they
/// occupy together (their spans in span order, merged where they meet or
/// overlap), and the minutes each used stored category takes.
pub fn daily_summary(events: &[EventOccurrence], categories: &[Category]) -> (summary: DailySummary)
    requires
        forall|k: int| 0 <= k < events.len() ==> occurrence_times_wf(#[trigger] events@[k]),
        events.len() <= u32::MAX,
    ensures
        summary.blocks == events.len(),
        exists|sorted: Seq<(i32, i32)>|
            #![trigger spans_sorted(sorted)]
            spans_sorted(sorted) && sorted.to_multiset() == spans_of(events@).to_multiset()
                && summary.occupied_minutes == total_length(merged_spans(sorted)),
        category_minutes_of(summary.category_minutes@, events@, categories@),
{
    let spans = span_list(events);
    let sorted = sort_spans(&spans);
    let occupied = merged_total(&sorted);
    let per_category = category_minutes(events, categories);
    DailySummary { blocks: events.len(), occupied_minutes: occupied, category_minutes: per_category }
}

/// Whether some span covers minute `x`.
pub open spec fn covers(s: Seq<(i32, i32)>, x: int) -> bool
    decreases s.len(),
{
    if s.len() == 0 {
        false
    } else {
        covers(s.drop_last(), x) || (s.last().0 <= x < s.last().1)
    }
}

/// How many of the minutes before `n` some span covers.
pub open spec fn covered_count(s: Seq<(i32, i32)>, n: int) -> int
    decreases n,
{
    if n <= 0 {
        0
    } else {
        covered_count(s, n - 1) + if covers(s, n - 1) {
            1int
        } else {
            0int
        }
    }
}

/// How many of the minutes before `n` lie in `[a, b)`.
spec fn interval_count(a: int, b: int, n: int) -> int
    decreases n,
{
    if n <= 0 {
        0
    } else {
        interval_count(a, b, n - 1) + if a <= n - 1 < b {
            1int
        } else {
            0int
        }
    }
}

/// Spans within one day, each starting no later than it ends, and each
/// ending before the next one starts.
spec fn separated(m: Seq<(i32, i32)>) -> bool {
    &&& forall|k: int| 0 <= k < m.len() ==> 0 <= (#[trigger] m[k]).0 <= m[k].1 <= DAY_MINUTES
    &&& forall|k: int, l: int| 0 <= k < l < m.len() ==> (#[trigger] m[k]).1 < (#[trigger] m[l]).0
}

proof fn lemma_interval_count(a: int, b: int, n: int)
    requires
        0 <= a <= b,
        0 <= n,
    ensures
        interval_count(a, b, n) == if n <= a {
            0
        } else if n <= b {
            n - a
        } else {
            b - a
        },
    decreases n,
{
    if n > 0 {
        lemma_interval_count(a, b, n - 1);
    }
}

/// A minute that spans ending by `bound` cover lies before `bound`.
proof fn lemma_covers_below(s: Seq<(i32, i32)>, x: int, bound: int)
    requires
        forall|k: int| 0 <= k < s.len() ==> (#[trigger] s[k]).1 <= bound,
        covers(s, x),
    ensures
        x < bound,
    decreases s.len(),
{
    let d = s.drop_last();
    assert(s.last() == s[s.len() - 1]);
    if covers(d, x) {
        assert forall|k: int| 0 <= k < d.len() implies (#[trigger] d[k]).1 <= bound by {
            assert(d[k] == s[k]);
        }
        lemma_covers_below(d, x, bound);
    }
}

/// The covered minutes of separated spans add up to their lengths.
proof fn lemma_separated_count(m: Seq<(i32, i32)>, n: int)
    requires
        separated(m),
        0 <= n,
    ensures
        covered_count(m, n) == {
            let d = m.drop_last();
            if m.len() == 0 {
                0
            } else {
                covered_count(d, n) + interval_count(m.last().0 as int, m.last().1 as int, n)
            }
        },
    decreases n,
{
    if n > 0 {
        lemma_separated_count(m, n - 1);
    }
    if n > 0 && m.len() > 0 {
        let d = m.drop_last();
        let (a, b) = m.last();
        assert(m.last() == m[m.len() - 1]);
        if covers(d, n - 1) {
            assert forall|k: int| 0 <= k < d.len() implies (#[trigger] d[k]).1 <= a by {
                assert(d[k] == m[k]);
                assert(m[k].1 < m[m.len() - 1].0);
            }
            lemma_covers_below(d, n - 1, a as int);
        }
    }
}

/// The total length of separated spans is the number of minutes of the day
/// they cover.
proof fn lemma_separated_total(m: Seq<(i32, i32)>)
    requires
        separated(m),
    ensures
        total_length(m) == covered_count(m, DAY_MINUTES as int),
    decreases m.len(),
{
    lemma_separated_count(m, DAY_MINUTES as int);
    if m.len() > 0 {
        let d = m.drop_last();
        assert forall|k: int| 0 <= k < d.len() implies 0 <= (#[trigger] d[k]).0 <= d[k].1 <= DAY_MINUTES by {
            assert(d[k] == m[k]);
        }
        assert forall|k: int, l: int| 0 <= k < l < d.len() implies (#[trigger] d[k]).1 < (#[trigger] d[l]).0 by {
            assert(d[k] == m[k] && d[l] == m[l]);
        }
        lemma_separated_total(d);
        lemma_separated_count(m, DAY_MINUTES as int);
        assert(m.last() == m[m.len() - 1]);
        lemma_interval_count(m.last().0 as int, m.last().1 as int, DAY_MINUTES as int);
    }
}

/// Merging sorted, ordered spans gives separated spans that cover the same
/// minutes; the last merged span starts no later than the last span and
/// ends with the latest end.
proof fn lemma_merge_separates(s: Seq<(i32, i32)>)
    requires
        spans_sorted(s),
        forall|j: int| 0 <= j < s.len() ==> 0 <= (#[trigger] s[j]).0 <= s[j].1 <= DAY_MINUTES,
    ensures
        separated(merged_spans(s)),
        forall|x: int| covers(merged_spans(s), x) == covers(s, x),
        s.len() > 0 ==> merged_spans(s).len() > 0 && merged_spans(s).last().0 <= s.last().0
            && forall|j: int| 0 <= j < s.len() ==> (#[trigger] s[j]).1 <= merged_spans(s).last().1,
        s.len() == 0 ==> merged_spans(s).len() == 0,
    decreases s.len(),
{
    if s.len() > 0 {
        let p = s.drop_last();
        assert forall|i: int, j: int| 0 <= i < j < p.len() implies span_le(#[trigger] p[i], #[trigger] p[j]) by {
            assert(p[i] == s[i] && p[j] == s[j]);
        }
        assert forall|j: int| 0 <= j < p.len() implies 0 <= (#[trigger] p[j]).0 <= p[j].1 <= DAY_MINUTES by {
            assert(p[j] == s[j]);
        }
        lemma_merge_separates(p);
        let m = merged_spans(p);
        let x = s.last();
        assert(x == s[s.len() - 1]);
        let r = merged_spans(s);
        if p.len() > 0 {
            assert(p.last() == s[s.len() - 2]);
            assert(span_le(s[s.len() - 2], s[s.len() - 1]));
        }
        if m.len() > 0 && x.0 <= m.last().1 {
            let l = m.len() - 1;
            assert(m.last() == m[l]);
            assert(r =~= m.update(l, (m[l].0, if x.1 > m[l].1 { x.1 } else { m[l].1 })));
            assert forall|k: int| 0 <= k < r.len() implies 0 <= (#[trigger] r[k]).0 <= r[k].1 <= DAY_MINUTES by {
                if k < l {
                    assert(r[k] == m[k]);
                }
            }
            assert forall|k: int, j: int| 0 <= k < j < r.len() implies (#[trigger] r[k]).1 < (#[trigger] r[j]).0 by {
                assert(r[k] == m[k]);
                if j < l {
                    assert(r[j] == m[j]);
                }
            }
            assert(r.drop_last() =~= m.drop_last());
            let top: i32 = if x.1 > m[l].1 {
                x.1
            } else {
                m[l].1
            };
            assert(r.last() == (m[l].0, top));
            assert(m[l].0 <= x.0);
            assert forall|y: int| covers(r, y) == covers(s, y) by {
                assert(covers(m, y) == (covers(m.drop_last(), y) || (m.last().0 <= y < m.last().1)));
                assert(covers(r, y) == (covers(r.drop_last(), y) || (r.last().0 <= y < r.last().1)));
                assert(covers(s, y) == (covers(p, y) || (x.0 <= y < x.1)));
            }
            assert forall|j: int| 0 <= j < s.len() implies (#[trigger] s[j]).1 <= r.last().1 by {
                if j < p.len() {
                    assert(s[j] == p[j]);
                }
            }
        } else {
            assert(r =~= m.push(x));
            if m.len() > 0 {
                let l = m.len() - 1;
                assert(m.last() == m[l]);
                assert forall|k: int| 0 <= k < m.len() implies (#[trigger] m[k]).1 <= m[l].1 by {
                    if k < l {
                        assert(m[k].1 < m[l].0);
                    }
                }
            }
            assert forall|k: int| 0 <= k < r.len() implies 0 <= (#[trigger] r[k]).0 <= r[k].1 <= DAY_MINUTES by {
                if k < m.len() {
                    assert(r[k] == m[k]);
                }
            }
            assert forall|k: int, j: int| 0 <= k < j < r.len() implies (#[trigger] r[k]).1 < (#[trigger] r[j]).0 by {
                assert(r[k] == m[k]);
                if j < m.len() {
                    assert(r[j] == m[j]);
                }
            }
            assert(r.drop_last() =~= m);
            assert(r.last() == x);
            assert forall|y: int| covers(r, y) == covers(s, y) by {
                assert(covers(r, y) == (covers(r.drop_last(), y) || (r.last().0 <= y < r.last().1)));
                assert(covers(s, y) == (covers(p, y) || (x.0 <= y < x.1)));
            }
            assert forall|j: int| 0 <= j < s.len() implies (#[trigger] s[j]).1 <= r.last().1 by {
                if j < p.len() {
                    assert(s[j] == p[j]);
                }
            }
        }
    }
}

/// Spans that cover the same minutes cover equally many of them.
proof fn lemma_covered_count_ext(s: Seq<(i32, i32)>, t: Seq<(i32, i32)>, n: int)
    requires
        forall|x: int| covers(s, x) == covers(t, x),
    ensures
        covered_count(s, n) == covered_count(t, n),
    decreases n,
{
    if n > 0 {
        lemma_covered_count_ext(s, t, n - 1);
    }
}

/// A minute is covered exactly when some listed span holds it.
proof fn lemma_covers_contains(s: Seq<(i32, i32)>, x: int)
    ensures
        covers(s, x) <==> exists|y: (i32, i32)| #[trigger] s.contains(y) && y.0 <= x < y.1,
    decreases s.len(),
{
    if s.len() > 0 {
        let d = s.drop_last();
        lemma_covers_contains(d, x);
        assert(s.last() == s[s.len() - 1]);
        if covers(s, x) {
            if covers(d, x) {
                let y = choose|y: (i32, i32)| #[trigger] d.contains(y) && y.0 <= x < y.1;
                let j = choose|j: int| 0 <= j < d.len() && d[j] == y;
                assert(s[j] == y);
                assert(s.contains(y));
            } else {
                assert(s.contains(s.last()));
            }
        }
        if exists|y: (i32, i32)| #[trigger] s.contains(y) && y.0 <= x < y.1 {
            let y = choose|y: (i32, i32)| #[trigger] s.contains(y) && y.0 <= x < y.1;
            let j = choose|j: int| 0 <= j < s.len() && s[j] == y;
            if j < d.len() {
                assert(d[j] == y);
                assert(d.contains(y));
            }
        }
    }
}

/// When no occurrence ends before it starts, the minutes a day's summary
/// counts as occupied (the sorted spans merged, their lengths added) are
/// exactly the minutes of the day that some occurrence covers.
pub proof fn lemma_occupied_minutes_are_covered_minutes(
    events: Seq<EventOccurrence>,
    sorted: Seq<(i32, i32)>,
)
    requires
        forall|k: int| 0 <= k < events.len() ==> occurrence_times_wf(#[trigger] events[k]),
        forall|k: int|
            0 <= k < events.len() ==> (#[trigger] events[k]).draft.start_time.spec_minutes()
                <= events[k].draft.end_time.spec_minutes(),
        spans_sorted(sorted),
        sorted.to_multiset() == spans_of(events).to_multiset(),
    ensures
        total_length(merged_spans(sorted)) == covered_count(spans_of(events), DAY_MINUTES as int),
{
    broadcast use vstd::seq_lib::group_to_multiset_ensures;

    let spans = spans_of(events);
    assert forall|k: int| 0 <= k < spans.len() implies 0 <= (#[trigger] spans[k]).0 <= spans[k].1
        < DAY_MINUTES by {
        let e = events[k];
        assert(occurrence_times_wf(e));
        assert(e.draft.start_time.spec_minutes() < DAY_MINUTES) by (nonlinear_arith)
            requires
                e.draft.start_time.nanos < crate::time::NANOS_PER_DAY,
        ;
        assert(e.draft.end_time.spec_minutes() < DAY_MINUTES) by (nonlinear_arith)
            requires
                e.draft.end_time.nanos < crate::time::NANOS_PER_DAY,
        ;
    }
    assert forall|j: int| 0 <= j < sorted.len() implies 0 <= (#[trigger] sorted[j]).0 <= sorted[j].1
        <= DAY_MINUTES by {
        assert(sorted.contains(sorted[j]));
        assert(sorted.to_multiset().count(sorted[j]) > 0);
        assert(spans.contains(sorted[j]));
        let k = choose|k: int| 0 <= k < spans.len() && spans[k] == sorted[j];
    }
    lemma_merge_separates(sorted);
    lemma_separated_total(merged_spans(sorted));
    assert forall|x: int| covers(sorted, x) == covers(spans, x) by {
        lemma_covers_contains(sorted, x);
        lemma_covers_contains(spans, x);
        if covers(sorted, x) {
            let y = choose|y: (i32, i32)| #[trigger] sorted.contains(y) && y.0 <= x < y.1;
            assert(sorted.to_multiset().count(y) > 0);
            assert(spans.contains(y));
        }
        if covers(spans, x) {
            let y = choose|y: (i32, i32)| #[trigger] spans.contains(y) && y.0 <= x < y.1;
            assert(spans.to_multiset().count(y) > 0);
            assert(sorted.contains(y));
        }
    }
    assert forall|x: int| covers(merged_spans(sorted), x) == covers(spans, x) by {}
    lemma_covered_count_ext(merged_spans(sorted), spans, DAY_MINUTES as int);
}

} // verus!

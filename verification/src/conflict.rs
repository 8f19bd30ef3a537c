//! Conflict detection for standalone and recurring timetable items.
//!
//! Two occurrences conflict when they are different occurrences on the same
//! date whose end-exclusive time intervals overlap.
use vstd::prelude::*;

use crate::domain::{
    Event, EventId, EventOccurrence, OccurrenceId, RecurrenceException, RecurrenceExceptionKind,
    RecurrenceRule, RecurrenceSeries, RecurrenceSeriesId, has_bit, recurring_occurrence, standalone_occurrence,
};
use crate::recurrence::{
    exceptions_for_series, exceptions_of, expand_series_days, has_exception_on,
    is_series_occurrence, lemma_exceptions_of_all_belong, lemma_exceptions_of_belong,
    lemma_expansion_on_day, lemma_seq_add_contains, lemma_template_occurrence_date,
    modified_occurrence, series_expansion, template_occurrence,
};
use crate::time::{CivilDate, TimeOfDay, MAX_EPOCH_DAY, weekday_index_of_day};

verus! {

/// End-exclusive intervals `[ls, le)` and `[rs, re)` share a moment.
pub open spec fn times_overlap(ls: TimeOfDay, le: TimeOfDay, rs: TimeOfDay, re: TimeOfDay) -> bool {
    ls.nanos < re.nanos && rs.nanos < le.nanos
}

/// Two different occurrences on the same date whose intervals overlap.
pub open spec fn occurrences_overlap(a: EventOccurrence, b: EventOccurrence) -> bool {
    &&& a.id != b.id
    &&& a.draft.date == b.draft.date
    &&& times_overlap(a.draft.start_time, a.draft.end_time, b.draft.start_time, b.draft.end_time)
}

/// Details about an existing occurrence that blocks a proposed change.
#[derive(Debug, Clone, PartialEq, Eq)]
pub struct ScheduleConflict {
    pub blocking_occurrence: OccurrenceId,
    pub date: CivilDate,
    pub start_time: TimeOfDay,
    pub end_time: TimeOfDay,
    pub title: String,
}

/// The conflict description of a blocking occurrence.
pub open spec fn conflict_of(o: EventOccurrence) -> ScheduleConflict {
    ScheduleConflict {
        blocking_occurrence: o.id,
        date: o.draft.date,
        start_time: o.draft.start_time,
        end_time: o.draft.end_time,
        title: o.draft.title,
    }
}

impl ScheduleConflict {
    /// Creates a conflict description from an existing occurrence.
    pub fn from_occurrence(occurrence: &EventOccurrence) -> (conflict: ScheduleConflict)
        ensures
            conflict == conflict_of(*occurrence),
    {
        ScheduleConflict {
            blocking_occurrence: occurrence.id,
            date: occurrence.draft.date,
            start_time: occurrence.draft.start_time,
            end_time: occurrence.draft.end_time,
            title: occurrence.draft.title.clone(),
        }
    }

    /// The occurrence that blocks the proposed change.
    pub fn blocking_occurrence(&self) -> (id: OccurrenceId)
        ensures
            id == self.blocking_occurrence,
    {
        self.blocking_occurrence
    }

    /// The date on which the conflict occurs.
    pub fn date(&self) -> (date: CivilDate)
        ensures
            date == self.date,
    {
        self.date
    }

    /// The blocking occurrence's start time.
    pub fn start_time(&self) -> (time: TimeOfDay)
        ensures
            time == self.start_time,
    {
        self.start_time
    }

    /// The blocking occurrence's end time.
    pub fn end_time(&self) -> (time: TimeOfDay)
        ensures
            time == self.end_time,
    {
        self.end_time
    }

    /// The blocking occurrence's title.
    pub fn title(&self) -> (title: &str)
        ensures
            title@ == self.title@,
    {
        self.title.as_str()
    }
}

/// A pair of rendered occurrences that overlap in a visible range.
#[derive(Clone, Copy, Debug, PartialEq, Eq, Structural, Hash)]
pub struct OccurrenceConflict {
    pub first: OccurrenceId,
    pub second: OccurrenceId,
}

impl OccurrenceConflict {
    /// The first conflicting occurrence.
    pub fn first(&self) -> (id: OccurrenceId)
        ensures
            id == self.first,
    {
        self.first
    }

    /// The second conflicting occurrence.
    pub fn second(&self) -> (id: OccurrenceId)
        ensures
            id == self.second,
    {
        self.second
    }
}

/// Returns whether the end-exclusive intervals overlap.
fn intervals_overlap(ls: TimeOfDay, le: TimeOfDay, rs: TimeOfDay, re: TimeOfDay) -> (overlap: bool)
    ensures
        overlap == times_overlap(ls, le, rs, re),
{
    ls.nanos < re.nanos && rs.nanos < le.nanos
}

/// Returns whether two occurrences conflict.
fn overlapping_occurrences(candidate: &EventOccurrence, existing: &EventOccurrence) -> (overlap:
    bool)
    ensures
        overlap == occurrences_overlap(*candidate, *existing),
{
    if candidate.id == existing.id || candidate.draft.date != existing.draft.date {
        return false;
    }
    intervals_overlap(
        candidate.draft.start_time,
        candidate.draft.end_time,
        existing.draft.start_time,
        existing.draft.end_time,
    )
}

/// Returns the index of the first occurrence in `list` that conflicts with `candidate`.
fn first_overlap(candidate: &EventOccurrence, list: &[EventOccurrence]) -> (found: Option<usize>)
    ensures
        found matches Some(i) ==> i < list.len() && occurrences_overlap(*candidate, list@[i as int])
            && forall|j: int| 0 <= j < i ==> !occurrences_overlap(*candidate, #[trigger] list@[j]),
        found is None ==> forall|j: int|
            0 <= j < list.len() ==> !occurrences_overlap(*candidate, #[trigger] list@[j]),
        found matches Some(i) ==> first_some(overlap_hits(*candidate, list@)) == Some(list@[i as int]),
        found is None ==> first_some(overlap_hits(*candidate, list@)) is None,
{
    let mut i: usize = 0;
    while i < list.len()
        invariant
            i <= list.len(),
            forall|j: int| 0 <= j < i ==> !occurrences_overlap(*candidate, #[trigger] list@[j]),
        decreases list.len() - i,
    {
        if overlapping_occurrences(candidate, &list[i]) {
            proof {
                lemma_first_some_at(overlap_hits(*candidate, list@), i as int);
            }
            return Some(i);
        }
        i += 1;
    }
    proof {
        lemma_first_some_none(overlap_hits(*candidate, list@));
    }
    None
}

/// Returns whether any occurrence in `candidates` conflicts with `existing`.
fn overlapping_occurrences_with_any(
    candidates: &[EventOccurrence],
    existing: &EventOccurrence,
) -> (any: bool)
    ensures
        any == exists|j: int|
            0 <= j < candidates.len() && occurrences_overlap(#[trigger] candidates@[j], *existing),
{
    let mut i: usize = 0;
    while i < candidates.len()
        invariant
            i <= candidates.len(),
            forall|j: int|
                0 <= j < i ==> !occurrences_overlap(#[trigger] candidates@[j], *existing),
        decreases candidates.len() - i,
    {
        if overlapping_occurrences(&candidates[i], existing) {
            return true;
        }
        i += 1;
    }
    false
}

/// Standalone occurrences of `events` on epoch day `d`, skipping `ignored`.
pub open spec fn standalone_on(events: Seq<Event>, d: int, ignored: Option<EventId>) -> Seq<
    EventOccurrence,
>
    decreases events.len(),
{
    if events.len() == 0 {
        Seq::empty()
    } else {
        let prefix = standalone_on(events.drop_last(), d, ignored);
        let e = events.last();
        if ignored != Some(e.id) && e.draft.date.day() == d {
            prefix.push(standalone_occurrence(e))
        } else {
            prefix
        }
    }
}

/// The standalone occurrences of a day are exactly those of the events on
/// that day other than the ignored one: every such event is listed, and
/// nothing else is.
pub proof fn lemma_standalone_on_exact(events: Seq<Event>, d: int, ignored: Option<EventId>)
    ensures
        forall|i: int|
            0 <= i < events.len() && ignored != Some(events[i].id) && events[i].draft.date.day() == d
                ==> standalone_on(events, d, ignored).contains(#[trigger] standalone_occurrence(events[i])),
        forall|k: int|
            0 <= k < standalone_on(events, d, ignored).len() ==> exists|i: int|
                0 <= i < events.len() && ignored != Some(events[i].id) && events[i].draft.date.day() == d
                    && #[trigger] standalone_on(events, d, ignored)[k] == standalone_occurrence(events[i]),
    decreases events.len(),
{
    if events.len() > 0 {
        let init = events.drop_last();
        lemma_standalone_on_exact(init, d, ignored);
        let prefix = standalone_on(init, d, ignored);
        let all = standalone_on(events, d, ignored);
        assert forall|i: int|
            0 <= i < events.len() && ignored != Some(events[i].id) && events[i].draft.date.day() == d
                implies all.contains(#[trigger] standalone_occurrence(events[i])) by {
            if i < init.len() {
                assert(events[i] == init[i]);
                let k = choose|k: int| 0 <= k < prefix.len() && prefix[k] == standalone_occurrence(init[i]);
                assert(all[k] == prefix[k]);
            } else {
                assert(all[all.len() - 1] == standalone_occurrence(events[i]));
            }
        }
        assert forall|k: int| 0 <= k < all.len() implies exists|i: int|
            0 <= i < events.len() && ignored != Some(events[i].id) && events[i].draft.date.day() == d
                && #[trigger] all[k] == standalone_occurrence(events[i]) by {
            if k < prefix.len() {
                assert(all[k] == prefix[k]);
                let i = choose|i: int|
                    0 <= i < init.len() && ignored != Some(init[i].id) && init[i].draft.date.day() == d
                        && prefix[k] == standalone_occurrence(init[i]);
                assert(events[i] == init[i]);
            } else {
                assert(all[k] == standalone_occurrence(events[events.len() - 1]));
            }
        }
    }
}

/// Occurrences of every series in `series` on epoch day `d`.
pub open spec fn expansions_on(
    series: Seq<RecurrenceSeries>,
    exceptions: Seq<RecurrenceException>,
    d: int,
) -> Seq<EventOccurrence>
    decreases series.len(),
{
    if series.len() == 0 {
        Seq::empty()
    } else {
        let s = series.last();
        expansions_on(series.drop_last(), exceptions, d) + series_expansion(
            s,
            exceptions_of(exceptions, s.id),
            d,
            d + 1,
        )
    }
}

/// Every occurrence on epoch day `d`: standalone events other than `ignored`,
/// then (when the day has a successor) the occurrences of every series.
pub open spec fn occurrences_on(
    d: int,
    events: Seq<Event>,
    series: Seq<RecurrenceSeries>,
    exceptions: Seq<RecurrenceException>,
    ignored: Option<EventId>,
) -> Seq<EventOccurrence> {
    standalone_on(events, d, ignored) + if d < MAX_EPOCH_DAY {
        expansions_on(series, exceptions, d)
    } else {
        Seq::empty()
    }
}

/// Lists the occurrences on `date`.
fn occurrences_on_date(
    date: CivilDate,
    events: &[Event],
    series: &[RecurrenceSeries],
    exceptions: &[RecurrenceException],
    ignored_event: Option<EventId>,
) -> (occurrences: Vec<EventOccurrence>)
    ensures
        occurrences@ == occurrences_on(date.day(), events@, series@, exceptions@, ignored_event),
{
    let mut occurrences: Vec<EventOccurrence> = Vec::new();
    let mut i: usize = 0;
    while i < events.len()
        invariant
            i <= events.len(),
            occurrences@ == standalone_on(events@.take(i as int), date.day(), ignored_event),
        decreases events.len() - i,
    {
        assert(events@.take(i as int + 1).drop_last() =~= events@.take(i as int));
        let event = &events[i];
        if ignored_event != Some(event.id) && event.draft.date == date {
            occurrences.push(EventOccurrence::standalone(event));
        }
        i += 1;
    }
    assert(events@.take(events.len() as int) =~= events@);
    if date.epoch_day >= MAX_EPOCH_DAY {
        assert(occurrences@ + Seq::empty() =~= occurrences@);
        return occurrences;
    }
    let ghost standalone = occurrences@;
    let end = CivilDate { epoch_day: date.epoch_day + 1 };
    let mut k: usize = 0;
    while k < series.len()
        invariant
            k <= series.len(),
            date.day() < MAX_EPOCH_DAY,
            end.day() == date.day() + 1,
            occurrences@ == standalone + expansions_on(series@.take(k as int), exceptions@, date.day()),
        decreases series.len() - k,
    {
        assert(series@.take(k as int + 1).drop_last() =~= series@.take(k as int));
        let s = &series[k];
        let own = exceptions_for_series(exceptions, s.id);
        let mut expanded = expand_series_days(s, own.as_slice(), date, end);
        let ghost before = occurrences@;
        occurrences.append(&mut expanded);
        assert(occurrences@ =~= standalone + expansions_on(series@.take(k as int + 1), exceptions@, date.day())) by {
            assert(before == standalone + expansions_on(series@.take(k as int), exceptions@, date.day()));
        }
        k += 1;
    }
    assert(series@.take(series.len() as int) =~= series@);
    occurrences
}

/// Lists the occurrences of one series on `date`.
fn series_occurrences_on_date(
    date: CivilDate,
    series: &RecurrenceSeries,
    exceptions: &[RecurrenceException],
) -> (occurrences: Vec<EventOccurrence>)
    ensures
        occurrences@ == occurrences_on(date.day(), Seq::empty(), seq![*series], exceptions@, None),
{
    let empty_events: Vec<Event> = Vec::new();
    let mut one: Vec<RecurrenceSeries> = Vec::new();
    one.push(series.duplicate());
    assert(one@ =~= seq![*series]);
    assert(empty_events@ =~= Seq::<Event>::empty());
    occurrences_on_date(date, empty_events.as_slice(), one.as_slice(), exceptions, None)
}

/// Membership in the occurrences of one series on a day that has a successor.
proof fn lemma_single_series_on(
    d: int,
    series: RecurrenceSeries,
    exceptions: Seq<RecurrenceException>,
    o: EventOccurrence,
)
    requires
        i32::MIN <= d < MAX_EPOCH_DAY,
        forall|i: int| 0 <= i < exceptions.len() ==> #[trigger] exceptions[i].series_id == series.id,
    ensures
        occurrences_on(d, Seq::empty(), seq![series], exceptions, None).contains(o) <==> (
        o.draft.date.day() == d && is_series_occurrence(series, exceptions, o)),
{
    lemma_exceptions_of_all_belong(exceptions, series.id);
    let s1 = seq![series];
    assert(s1.drop_last() =~= Seq::<RecurrenceSeries>::empty());
    assert(s1.last() == series);
    assert(expansions_on(s1.drop_last(), exceptions, d) =~= Seq::<EventOccurrence>::empty());
    assert(expansions_on(s1, exceptions, d) =~= Seq::<EventOccurrence>::empty() + series_expansion(
        series,
        exceptions,
        d,
        d + 1,
    ));
    assert(standalone_on(Seq::<Event>::empty(), d, None) =~= Seq::<EventOccurrence>::empty());
    assert(occurrences_on(d, Seq::empty(), s1, exceptions, None) =~= series_expansion(
        series,
        exceptions,
        d,
        d + 1,
    ));
    lemma_expansion_on_day(series, exceptions, d, o);
}

/// Finds an overlap for a proposed standalone event: the first occurrence on
/// the event's date, other than the event itself, that overlaps it.
pub fn find_event_conflict(
    candidate: &Event,
    events: &[Event],
    series: &[RecurrenceSeries],
    exceptions: &[RecurrenceException],
) -> (conflict: Option<ScheduleConflict>)
    ensures
        ({
            let list = occurrences_on(
                candidate.draft.date.day(),
                events@,
                series@,
                exceptions@,
                Some(candidate.id),
            );
            let c = standalone_occurrence(*candidate);
            &&& conflict is Some <==> exists|i: int|
                0 <= i < list.len() && occurrences_overlap(c, #[trigger] list[i])
            &&& conflict matches Some(k) ==> exists|i: int|
                0 <= i < list.len() && occurrences_overlap(c, #[trigger] list[i]) && k == conflict_of(
                    list[i],
                ) && forall|j: int| 0 <= j < i ==> !occurrences_overlap(c, #[trigger] list[j])
        }),
        conflict is None ==> forall|i: int|
            0 <= i < events.len() && events@[i].id != candidate.id ==> !occurrences_overlap(
                standalone_occurrence(*candidate),
                #[trigger] standalone_occurrence(events@[i]),
            ),
{
    proof {
        lemma_standalone_on_exact(events@, candidate.draft.date.day(), Some(candidate.id));
    }
    let candidate_occurrence = EventOccurrence::standalone(candidate);
    let existing = occurrences_on_date(
        candidate.draft.date,
        events,
        series,
        exceptions,
        Some(candidate.id),
    );
    match first_overlap(&candidate_occurrence, existing.as_slice()) {
        Some(i) => Some(ScheduleConflict::from_occurrence(&existing[i])),
        None => {
            proof {
                let d = candidate.draft.date.day();
                let so = standalone_on(events@, d, Some(candidate.id));
                let rest = if d < MAX_EPOCH_DAY {
                    expansions_on(series@, exceptions@, d)
                } else {
                    Seq::empty()
                };
                assert(existing@ == so + rest);
                assert forall|i: int|
                    0 <= i < events.len() && events@[i].id != candidate.id implies !occurrences_overlap(
                    candidate_occurrence,
                    #[trigger] standalone_occurrence(events@[i]),
                ) by {
                    let o = standalone_occurrence(events@[i]);
                    if o.draft.date == candidate.draft.date {
                        assert(so.contains(o));
                        lemma_seq_add_contains(so, rest, o);
                        let j = choose|j: int| 0 <= j < existing@.len() && existing@[j] == o;
                        assert(!occurrences_overlap(candidate_occurrence, existing@[j]));
                    }
                }
            }
            None
        },
    }
}

/// Every conflicting pair `(occurrences[i], occurrences[k])` with `i < k < j`.
pub open spec fn conflict_row(occurrences: Seq<EventOccurrence>, i: int, j: int) -> Seq<
    OccurrenceConflict,
>
    decreases j - i,
{
    if j <= i + 1 {
        Seq::empty()
    } else {
        let prefix = conflict_row(occurrences, i, j - 1);
        if occurrences_overlap(occurrences[i], occurrences[j - 1]) {
            prefix.push(OccurrenceConflict { first: occurrences[i].id, second: occurrences[j - 1].id })
        } else {
            prefix
        }
    }
}

/// Every conflicting pair whose first index is below `n`, row by row.
pub open spec fn conflict_pairs(occurrences: Seq<EventOccurrence>, n: int) -> Seq<
    OccurrenceConflict,
>
    decreases n,
{
    if n <= 0 {
        Seq::empty()
    } else {
        conflict_pairs(occurrences, n - 1) + conflict_row(occurrences, n - 1, occurrences.len() as int)
    }
}

/// The pair that reports occurrences `i` and `k` as conflicting.
pub open spec fn pair_of(occurrences: Seq<EventOccurrence>, i: int, k: int) -> OccurrenceConflict {
    OccurrenceConflict { first: occurrences[i].id, second: occurrences[k].id }
}

/// Occurrence `i` conflicts with the later occurrence `k`.
pub open spec fn conflicting_at(occurrences: Seq<EventOccurrence>, i: int, k: int) -> bool {
    0 <= i < k < occurrences.len() && occurrences_overlap(occurrences[i], occurrences[k])
}

proof fn lemma_conflict_row(occurrences: Seq<EventOccurrence>, i: int, j: int)
    requires
        0 <= i,
        j <= occurrences.len(),
    ensures
        forall|k: int|
            #![trigger pair_of(occurrences, i, k)]
            conflicting_at(occurrences, i, k) && k < j ==> conflict_row(occurrences, i, j).contains(
                pair_of(occurrences, i, k),
            ),
        forall|m: int|
            #![trigger conflict_row(occurrences, i, j)[m]]
            0 <= m < conflict_row(occurrences, i, j).len() ==> exists|k: int|
                #![trigger pair_of(occurrences, i, k)]
                conflicting_at(occurrences, i, k) && k < j && conflict_row(occurrences, i, j)[m]
                    == pair_of(occurrences, i, k),
    decreases j - i,
{
    if j > i + 1 {
        lemma_conflict_row(occurrences, i, j - 1);
        let prefix = conflict_row(occurrences, i, j - 1);
        let row = conflict_row(occurrences, i, j);
        assert forall|k: int|
            #![trigger pair_of(occurrences, i, k)]
            conflicting_at(occurrences, i, k) && k < j implies row.contains(pair_of(occurrences, i, k)) by {
            if k < j - 1 {
                let m = choose|m: int| 0 <= m < prefix.len() && prefix[m] == pair_of(occurrences, i, k);
                assert(row[m] == prefix[m]);
            } else {
                assert(row[row.len() - 1] == pair_of(occurrences, i, k));
            }
        }
        assert forall|m: int| #![trigger row[m]] 0 <= m < row.len() implies exists|k: int|
            #![trigger pair_of(occurrences, i, k)]
            conflicting_at(occurrences, i, k) && k < j && row[m] == pair_of(occurrences, i, k) by {
            if m < prefix.len() {
                assert(row[m] == prefix[m]);
                let k = choose|k: int|
                    #![trigger pair_of(occurrences, i, k)]
                    conflicting_at(occurrences, i, k) && k < j - 1 && prefix[m] == pair_of(
                        occurrences,
                        i,
                        k,
                    );
                assert(conflicting_at(occurrences, i, k) && k < j && row[m] == pair_of(occurrences, i, k));
            } else {
                assert(row[m] == pair_of(occurrences, i, j - 1));
            }
        }
    }
}

/// The reported conflicts are exactly the overlapping pairs, each pair once
/// per pair of positions, the earlier occurrence first: every pair of
/// overlapping occurrences is reported, and every report is such a pair.
pub proof fn lemma_conflicts_are_overlapping_pairs(occurrences: Seq<EventOccurrence>, n: int)
    requires
        0 <= n <= occurrences.len(),
    ensures
        forall|i: int, k: int|
            #![trigger pair_of(occurrences, i, k)]
            conflicting_at(occurrences, i, k) && i < n ==> conflict_pairs(occurrences, n).contains(
                pair_of(occurrences, i, k),
            ),
        forall|m: int|
            #![trigger conflict_pairs(occurrences, n)[m]]
            0 <= m < conflict_pairs(occurrences, n).len() ==> exists|i: int, k: int|
                #![trigger pair_of(occurrences, i, k)]
                conflicting_at(occurrences, i, k) && i < n && conflict_pairs(occurrences, n)[m]
                    == pair_of(occurrences, i, k),
    decreases n,
{
    if n > 0 {
        lemma_conflicts_are_overlapping_pairs(occurrences, n - 1);
        lemma_conflict_row(occurrences, n - 1, occurrences.len() as int);
        let prefix = conflict_pairs(occurrences, n - 1);
        let row = conflict_row(occurrences, n - 1, occurrences.len() as int);
        let all = conflict_pairs(occurrences, n);
        assert(all == prefix + row);
        assert forall|i: int, k: int|
            #![trigger pair_of(occurrences, i, k)]
            conflicting_at(occurrences, i, k) && i < n implies all.contains(pair_of(occurrences, i, k)) by {
            if i < n - 1 {
                let m = choose|m: int| 0 <= m < prefix.len() && prefix[m] == pair_of(occurrences, i, k);
                assert(all[m] == prefix[m]);
            } else {
                let m = choose|m: int| 0 <= m < row.len() && row[m] == pair_of(occurrences, i, k);
                assert(all[prefix.len() + m] == row[m]);
            }
        }
        assert forall|m: int| #![trigger all[m]] 0 <= m < all.len() implies exists|i: int, k: int|
            #![trigger pair_of(occurrences, i, k)]
            conflicting_at(occurrences, i, k) && i < n && all[m] == pair_of(occurrences, i, k) by {
            if m < prefix.len() {
                assert(all[m] == prefix[m]);
                let (i, k) = choose|i: int, k: int|
                    #![trigger pair_of(occurrences, i, k)]
                    conflicting_at(occurrences, i, k) && i < n - 1 && prefix[m] == pair_of(
                        occurrences,
                        i,
                        k,
                    );
                assert(conflicting_at(occurrences, i, k) && i < n && all[m] == pair_of(occurrences, i, k));
            } else {
                assert(all[m] == row[m - prefix.len()]);
                let k = choose|k: int|
                    #![trigger pair_of(occurrences, n - 1, k)]
                    conflicting_at(occurrences, n - 1, k) && k < occurrences.len() && row[m
                        - prefix.len()] == pair_of(occurrences, n - 1, k);
                assert(conflicting_at(occurrences, n - 1, k) && n - 1 < n && all[m] == pair_of(
                    occurrences,
                    n - 1,
                    k,
                ));
            }
        }
    }
}

/// Back-to-back occurrences, one ending when the other starts, do not
/// overlap; overlap is symmetric.
pub proof fn lemma_adjacent_occurrences_do_not_overlap(a: EventOccurrence, b: EventOccurrence)
    ensures
        a.draft.end_time.nanos <= b.draft.start_time.nanos ==> !occurrences_overlap(a, b),
        occurrences_overlap(a, b) == occurrences_overlap(b, a),
{
}

/// Finds all overlap pairs in already-rendered occurrences, in input order.
pub fn find_occurrence_conflicts(occurrences: &[EventOccurrence]) -> (conflicts: Vec<
    OccurrenceConflict,
>)
    ensures
        conflicts@ == conflict_pairs(occurrences@, occurrences.len() as int),
{
    let mut conflicts: Vec<OccurrenceConflict> = Vec::new();
    let n = occurrences.len();
    let mut index: usize = 0;
    while index < n
        invariant
            n == occurrences.len(),
            index <= n,
            conflicts@ == conflict_pairs(occurrences@, index as int),
        decreases n - index,
    {
        let ghost before = conflicts@;
        let mut other: usize = index + 1;
        while other < n
            invariant
                n == occurrences.len(),
                index < n,
                index + 1 <= other <= n,
                conflicts@ == before + conflict_row(occurrences@, index as int, other as int),
            decreases n - other,
        {
            if overlapping_occurrences(&occurrences[index], &occurrences[other]) {
                conflicts.push(
                    OccurrenceConflict { first: occurrences[index].id, second: occurrences[other].id },
                );
            }
            proof {
                let row = conflict_row(occurrences@, index as int, other as int);
                if occurrences_overlap(occurrences@[index as int], occurrences@[other as int]) {
                    assert(before + row.push(
                        OccurrenceConflict {
                            first: occurrences@[index as int].id,
                            second: occurrences@[other as int].id,
                        },
                    ) =~= (before + row).push(
                        OccurrenceConflict {
                            first: occurrences@[index as int].id,
                            second: occurrences@[other as int].id,
                        },
                    ));
                }
            }
            other += 1;
        }
        index += 1;
    }
    conflicts
}


/// Whether the weekday bit of epoch day `d` is set in `mask`.
pub open spec fn mask_matches(mask: u8, d: int) -> bool {
    has_bit(mask, weekday_index_of_day(d) as u8)
}

/// Whether epoch day `d` is on or before the optional inclusive end.
pub open spec fn within_end(end: Option<CivilDate>, d: int) -> bool {
    match end {
        Some(e) => d <= e.day(),
        None => true,
    }
}

proof fn lemma_weekday_index_range(d: int)
    ensures
        0 <= weekday_index_of_day(d) < 7,
{
}

/// Days a multiple of seven apart fall on the same weekday.
proof fn lemma_weekday_period(x: int, y: int)
    requires
        (x - y) % 7 == 0,
    ensures
        weekday_index_of_day(x) == weekday_index_of_day(y),
{
    vstd::arithmetic::div_mod::lemma_fundamental_div_mod(x - y, 7);
    let q = (x - y) / 7;
    assert(x + 3 == 7 * q + (y + 3));
    vstd::arithmetic::div_mod::lemma_mod_multiples_vanish(q, y + 3, 7);
}

/// Any day at or after `start` shares its weekday with a day of the first week.
proof fn lemma_weekday_in_first_week(start: int, x: int)
    requires
        start <= x,
    ensures
        start <= start + (x - start) % 7 < start + 7,
        start + (x - start) % 7 <= x,
        weekday_index_of_day(start + (x - start) % 7) == weekday_index_of_day(x),
{
    let y = start + (x - start) % 7;
    vstd::arithmetic::div_mod::lemma_fundamental_div_mod(x - start, 7);
    let q = (x - start) / 7;
    assert(x - y == 7 * q);
    assert(q >= 0) by {
        vstd::arithmetic::div_mod::lemma_div_pos_is_pos(x - start, 7);
    }
    vstd::arithmetic::div_mod::lemma_mod_multiples_vanish(q, 0, 7);
    assert((x - y) % 7 == 0);
    lemma_weekday_period(x, y);
}

/// Bit `i` of `a & b` is set exactly when it is set in both.
proof fn lemma_and_bit(a: u8, b: u8, i: u8)
    requires
        i < 8,
    ensures
        has_bit(a & b, i) <==> (has_bit(a, i) && has_bit(b, i)),
{
    assert(((a & b) & (1u8 << i) != 0) <==> ((a & (1u8 << i) != 0) && (b & (1u8 << i) != 0)))
        by (bit_vector)
        requires
            i < 8,
    ;
}

/// Returns the weekday bits that a rule repeats on.
fn recurrence_mask(rule: RecurrenceRule) -> (mask: u8)
    ensures
        mask == match rule {
            RecurrenceRule::Daily => 0x7fu8,
            RecurrenceRule::Weekdays => 0x1fu8,
            RecurrenceRule::Weekly(days) => days.bits,
        },
        forall|i: int| 0 <= i < 7 ==> (#[trigger] has_bit(mask, i as u8) <==> rule.matches_index(i)),
{
    match rule {
        RecurrenceRule::Daily => {
            proof {
                assert forall|i: int| 0 <= i < 7 implies #[trigger] has_bit(0x7fu8, i as u8) by {
                    let ii = i as u8;
                    assert(0x7fu8 & (1u8 << ii) != 0) by (bit_vector)
                        requires
                            ii < 7,
                    ;
                }
            }
            0x7f
        },
        RecurrenceRule::Weekdays => {
            proof {
                assert forall|i: int| 0 <= i < 7 implies (#[trigger] has_bit(0x1fu8, i as u8) <==> i
                    < 5) by {
                    let ii = i as u8;
                    assert((0x1fu8 & (1u8 << ii) != 0) <==> ii < 5) by (bit_vector)
                        requires
                            ii < 7,
                    ;
                }
            }
            0x1f
        },
        RecurrenceRule::Weekly(days) => days.bits,
    }
}

/// Returns the day's bit in a weekday mask.
fn weekday_bit(day: crate::time::Weekday) -> (bit: u8)
    ensures
        bit == 1u8 << (day.index() as u8),
{
    1u8 << day.to_monday_zero_offset()
}

/// Returns the first date on or after `date`, and on or before `end`, whose
/// weekday is in `mask`, looking at most one week ahead.
fn next_matching_date(date: CivilDate, end: Option<CivilDate>, mask: u8) -> (found: Option<
    CivilDate,
>)
    ensures
        found matches Some(r) ==> date.day() <= r.day() && within_end(end, r.day())
            && mask_matches(mask, r.day()) && forall|x: int|
            date.day() <= x < r.day() ==> !#[trigger] mask_matches(mask, x),
        found matches Some(r) ==> r.day() <= MAX_EPOCH_DAY || r.day() == date.day(),
        found is None ==> forall|x: int|
            date.day() <= x <= MAX_EPOCH_DAY && within_end(end, x) ==> !#[trigger] mask_matches(
                mask,
                x,
            ),
{
    let mut current = date;
    let mut step: u8 = 0;
    while step < 7
        invariant
            step <= 7,
            current.day() == date.day() + step,
            step > 0 ==> current.day() <= MAX_EPOCH_DAY,
            forall|x: int| date.day() <= x < current.day() ==> !#[trigger] mask_matches(mask, x),
        decreases 7 - step,
    {
        if let Some(e) = end {
            if current.epoch_day > e.epoch_day {
                return None;
            }
        }
        let day = current.weekday();
        if mask & weekday_bit(day) != 0 {
            return Some(current);
        }
        match current.tomorrow() {
            Some(n) => current = n,
            None => return None,
        }
        step += 1;
    }
    proof {
        assert forall|x: int| date.day() <= x <= MAX_EPOCH_DAY && within_end(end, x) implies !#[trigger] mask_matches(mask, x) by {
            if x >= date.day() + 7 {
                lemma_weekday_in_first_week(date.day(), x);
                let y = date.day() + (x - date.day()) % 7;
                assert(!mask_matches(mask, y));
            }
        }
    }
    None
}

/// The later end of two optional inclusive end dates.
fn shared_end(left: Option<CivilDate>, right: Option<CivilDate>) -> (end: Option<CivilDate>)
    ensures
        forall|d: int| #[trigger] within_end(end, d) <==> (within_end(left, d) && within_end(right, d)),
{
    match (left, right) {
        (Some(l), Some(r)) => Some(l.earlier(r)),
        (Some(e), None) => Some(e),
        (None, Some(e)) => Some(e),
        (None, None) => None,
    }
}

/// The first day two series can share.
pub open spec fn shared_start(left: RecurrenceSeries, right: RecurrenceSeries) -> int {
    if left.template.date.day() < right.template.date.day() {
        right.template.date.day()
    } else {
        left.template.date.day()
    }
}

/// Returns the first date both series can repeat on under `mask`.
fn first_shared_date(left: &RecurrenceSeries, right: &RecurrenceSeries, mask: u8) -> (found: Option<
    CivilDate,
>)
    ensures
        found matches Some(r) ==> shared_start(*left, *right) <= r.day() && within_end(
            left.ends_on,
            r.day(),
        ) && within_end(right.ends_on, r.day()) && mask_matches(mask, r.day()) && forall|x: int|
            shared_start(*left, *right) <= x < r.day() ==> !#[trigger] mask_matches(mask, x),
        found matches Some(r) ==> r.day() <= MAX_EPOCH_DAY || r.day() == shared_start(*left, *right),
        found is None ==> forall|x: int|
            shared_start(*left, *right) <= x <= MAX_EPOCH_DAY && within_end(left.ends_on, x)
                && within_end(right.ends_on, x) ==> !#[trigger] mask_matches(mask, x),
{
    let start = left.template.date.later(right.template.date);
    let end = shared_end(left.ends_on, right.ends_on);
    let found = next_matching_date(start, end, mask);
    proof {
        if found is None {
            assert forall|x: int|
                shared_start(*left, *right) <= x <= MAX_EPOCH_DAY && within_end(left.ends_on, x)
                    && within_end(right.ends_on, x) implies !#[trigger] mask_matches(mask, x) by {
                assert(within_end(end, x));
            }
        } else {
            assert(within_end(end, found->0.day()));
        }
    }
    found
}

/// Returns the next date after `current` both series can repeat on under `mask`.
fn next_shared_date(
    current: CivilDate,
    left: &RecurrenceSeries,
    right: &RecurrenceSeries,
    mask: u8,
) -> (found: Option<CivilDate>)
    ensures
        found matches Some(r) ==> current.day() < r.day() && within_end(left.ends_on, r.day())
            && within_end(right.ends_on, r.day()) && mask_matches(mask, r.day()) && forall|x: int|
            current.day() < x < r.day() ==> !#[trigger] mask_matches(mask, x),
        found matches Some(r) ==> r.day() <= MAX_EPOCH_DAY,
        found is None ==> forall|x: int|
            current.day() < x <= MAX_EPOCH_DAY && within_end(left.ends_on, x) && within_end(
                right.ends_on,
                x,
            ) ==> !#[trigger] mask_matches(mask, x),
{
    let next = match current.tomorrow() {
        Some(n) => n,
        None => return None,
    };
    let end = shared_end(left.ends_on, right.ends_on);
    let found = next_matching_date(next, end, mask);
    proof {
        if found is None {
            assert forall|x: int|
                current.day() < x <= MAX_EPOCH_DAY && within_end(left.ends_on, x) && within_end(
                    right.ends_on,
                    x,
                ) implies !#[trigger] mask_matches(mask, x) by {
                assert(within_end(end, x));
            }
        } else {
            assert(within_end(end, found->0.day()));
        }
    }
    found
}

/// The first value present in `s`, in order.
pub open spec fn first_some<T>(s: Seq<Option<T>>) -> Option<T>
    decreases s.len(),
{
    if s.len() == 0 {
        None
    } else {
        match first_some(s.drop_last()) {
            Some(v) => Some(v),
            None => s.last(),
        }
    }
}

/// A value present in a prefix is the first value of the whole sequence.
proof fn lemma_first_some_prefix<T>(s: Seq<Option<T>>, k: int)
    requires
        0 <= k <= s.len(),
        first_some(s.take(k)) is Some,
    ensures
        first_some(s) == first_some(s.take(k)),
    decreases s.len() - k,
{
    if k == s.len() {
        assert(s.take(k) =~= s);
    } else {
        assert(s.drop_last().take(k) =~= s.take(k));
        lemma_first_some_prefix(s.drop_last(), k);
    }
}

/// The first value of a prefix one longer.
proof fn lemma_first_some_step<T>(s: Seq<Option<T>>, i: int)
    requires
        0 <= i < s.len(),
    ensures
        first_some(s.take(i + 1)) == match first_some(s.take(i)) {
            Some(v) => Some(v),
            None => s[i],
        },
{
    assert(s.take(i + 1).drop_last() =~= s.take(i));
}

/// A sequence with no value has no first value.
proof fn lemma_first_some_none<T>(s: Seq<Option<T>>)
    requires
        forall|i: int| 0 <= i < s.len() ==> s[i] is None,
    ensures
        first_some(s) is None,
    decreases s.len(),
{
    if s.len() > 0 {
        lemma_first_some_none(s.drop_last());
    }
}

/// The first value sits at the first index that holds one.
proof fn lemma_first_some_at<T>(s: Seq<Option<T>>, i: int)
    requires
        0 <= i < s.len(),
        s[i] is Some,
        forall|j: int| 0 <= j < i ==> s[j] is None,
    ensures
        first_some(s) == s[i],
{
    lemma_first_some_none(s.take(i));
    lemma_first_some_step(s, i);
    lemma_first_some_prefix(s, i + 1);
}

/// The occurrences of `list` that overlap `c`, in place.
pub open spec fn overlap_hits(c: EventOccurrence, list: Seq<EventOccurrence>) -> Seq<Option<EventOccurrence>> {
    Seq::new(
        list.len(),
        |j: int|
            if occurrences_overlap(c, list[j]) {
                Some(list[j])
            } else {
                None
            },
    )
}

/// The conflict with the first occurrence of `list` that overlaps `c`.
pub open spec fn first_overlap_conflict(c: EventOccurrence, list: Seq<EventOccurrence>) -> Option<
    ScheduleConflict,
> {
    match first_some(overlap_hits(c, list)) {
        Some(b) => Some(conflict_of(b)),
        None => None,
    }
}

/// The occurrences that one series shows on day `d`.
pub open spec fn series_day_list(
    d: int,
    series: RecurrenceSeries,
    exceptions: Seq<RecurrenceException>,
) -> Seq<EventOccurrence> {
    occurrences_on(d, Seq::empty(), seq![series], exceptions, None)
}

/// Exception `i` is the first one with original date `d`.
pub open spec fn first_exception_at(exceptions: Seq<RecurrenceException>, d: int, i: int) -> bool {
    &&& 0 <= i < exceptions.len()
    &&& exceptions[i].original_date.day() == d
    &&& forall|j: int| 0 <= j < i ==> #[trigger] exceptions[j].original_date.day() != d
}

/// The occurrence that `series` shows for its original date `d`, following
/// the first exception on that date: none when the series does not repeat
/// on `d` or the occurrence is cancelled.
pub open spec fn occurrence_on_original(
    series: RecurrenceSeries,
    exceptions: Seq<RecurrenceException>,
    d: int,
) -> Option<EventOccurrence> {
    if !series.contains_day(d) {
        None
    } else if has_exception_on(exceptions, d) {
        let i = choose|i: int| first_exception_at(exceptions, d, i);
        match exceptions[i].kind {
            RecurrenceExceptionKind::Cancelled => None,
            RecurrenceExceptionKind::Modified(draft) => Some(
                recurring_occurrence(series.id, exceptions[i].original_date, draft),
            ),
        }
    } else {
        Some(template_occurrence(series, d))
    }
}

/// Returns the occurrence of `series` originally on `date`: none when the
/// series does not repeat there, otherwise what the first exception keyed by
/// `date` says, or the template when no exception is keyed by it.
fn occurrence_for_original_date(
    series: &RecurrenceSeries,
    exceptions: &[RecurrenceException],
    date: CivilDate,
) -> (found: Option<EventOccurrence>)
    ensures
        found matches Some(o) ==> is_series_occurrence(*series, exceptions@, o) && o.id
            == (OccurrenceId::Recurring { series_id: series.id, original_date: date }),
        (series.contains_day(date.day()) && !has_exception_on(exceptions@, date.day())) ==> found
            == Some(template_occurrence(*series, date.day())),
        found == occurrence_on_original(*series, exceptions@, date.day()),
{
    if !series.contains_date(date) {
        return None;
    }
    let mut i: usize = 0;
    while i < exceptions.len()
        invariant
            i <= exceptions.len(),
            series.contains_day(date.day()),
            forall|j: int|
                0 <= j < i ==> #[trigger] exceptions@[j].original_date.day() != date.day(),
        decreases exceptions.len() - i,
    {
        if exceptions[i].original_date == date {
            proof {
                assert(first_exception_at(exceptions@, date.day(), i as int));
                assert(has_exception_on(exceptions@, date.day()));
                let c = choose|c: int| first_exception_at(exceptions@, date.day(), c);
                if c < i {
                    assert(exceptions@[c].original_date.day() != date.day());
                } else if c > i {
                    assert(exceptions@[i as int].original_date.day() != date.day());
                }
                assert(c == i);
                assert(exceptions@[i as int].original_date == date);
            }
            return match &exceptions[i].kind {
                RecurrenceExceptionKind::Cancelled => None,
                RecurrenceExceptionKind::Modified(draft) => {
                    let o = EventOccurrence::recurring(series.id, date, draft.duplicate());
                    assert(modified_occurrence(*series, exceptions@[i as int]) == Some(o));
                    Some(o)
                },
            };
        }
        i += 1;
    }
    let mut draft = series.template.duplicate();
    draft.date = date;
    let o = EventOccurrence::recurring(series.id, date, draft);
    proof {
        lemma_template_occurrence_date(*series, date.day());
        assert(o == template_occurrence(*series, date.day()));
    }
    Some(o)
}

/// `o` is an occurrence of `candidate`, `b` an occurrence of `existing`, and
/// the two conflict.
pub open spec fn pair_blocker(
    candidate: RecurrenceSeries,
    candidate_exceptions: Seq<RecurrenceException>,
    existing: RecurrenceSeries,
    existing_exceptions: Seq<RecurrenceException>,
    o: EventOccurrence,
    b: EventOccurrence,
) -> bool {
    &&& is_series_occurrence(candidate, candidate_exceptions, o)
    &&& is_series_occurrence(existing, existing_exceptions, b)
    &&& occurrences_overlap(o, b)
}

/// Both series repeat on day `x` and neither has an exception there.
pub open spec fn template_pair_day(
    candidate: RecurrenceSeries,
    candidate_exceptions: Seq<RecurrenceException>,
    existing: RecurrenceSeries,
    existing_exceptions: Seq<RecurrenceException>,
    x: int,
) -> bool {
    &&& candidate.contains_day(x)
    &&& existing.contains_day(x)
    &&& !has_exception_on(candidate_exceptions, x)
    &&& !has_exception_on(existing_exceptions, x)
    &&& occurrences_overlap(template_occurrence(candidate, x), template_occurrence(existing, x))
}

/// On day `x` both series show an occurrence for that original date, and
/// the two overlap.
pub open spec fn shared_hit(
    candidate: RecurrenceSeries,
    candidate_exceptions: Seq<RecurrenceException>,
    existing: RecurrenceSeries,
    existing_exceptions: Seq<RecurrenceException>,
    x: int,
) -> bool {
    match (
        occurrence_on_original(candidate, candidate_exceptions, x),
        occurrence_on_original(existing, existing_exceptions, x),
    ) {
        (Some(o), Some(b)) => occurrences_overlap(o, b),
        _ => false,
    }
}

/// Day `x` is the earliest day with a shared hit.
pub open spec fn first_shared_hit(
    candidate: RecurrenceSeries,
    candidate_exceptions: Seq<RecurrenceException>,
    existing: RecurrenceSeries,
    existing_exceptions: Seq<RecurrenceException>,
    x: int,
) -> bool {
    &&& shared_hit(candidate, candidate_exceptions, existing, existing_exceptions, x)
    &&& forall|y: int|
        y < x ==> !#[trigger] shared_hit(candidate, candidate_exceptions, existing, existing_exceptions, y)
}

/// The templates of the two series overlap in time of day.
pub open spec fn templates_overlap(candidate: RecurrenceSeries, existing: RecurrenceSeries) -> bool {
    times_overlap(
        candidate.template.start_time,
        candidate.template.end_time,
        existing.template.start_time,
        existing.template.end_time,
    )
}

/// Walks the dates both series repeat on, earliest first, and reports the
/// occurrence of `existing` on the first one where the two series'
/// occurrences overlap; nothing is walked when the templates' times of day
/// do not overlap.
fn walk_shared_dates(
    candidate: &RecurrenceSeries,
    candidate_exceptions: &[RecurrenceException],
    existing: &RecurrenceSeries,
    existing_exceptions: &[RecurrenceException],
) -> (conflict: Option<ScheduleConflict>)
    ensures
        conflict matches Some(k) ==> exists|o: EventOccurrence, b: EventOccurrence|
            #[trigger] pair_blocker(
                *candidate,
                candidate_exceptions@,
                *existing,
                existing_exceptions@,
                o,
                b,
            ) && k == conflict_of(b),
        conflict is None ==> forall|x: int|
            x <= MAX_EPOCH_DAY ==> !#[trigger] template_pair_day(
                *candidate,
                candidate_exceptions@,
                *existing,
                existing_exceptions@,
                x,
            ),
        !templates_overlap(*candidate, *existing) ==> conflict is None,
        templates_overlap(*candidate, *existing) ==> match conflict {
            Some(k) => exists|x: int|
                #[trigger] first_shared_hit(
                    *candidate,
                    candidate_exceptions@,
                    *existing,
                    existing_exceptions@,
                    x,
                ) && x <= MAX_EPOCH_DAY && k == conflict_of(occurrence_on_original(*existing, existing_exceptions@, x)->0),
            None => forall|x: int|
                x <= MAX_EPOCH_DAY ==> !#[trigger] shared_hit(
                    *candidate,
                    candidate_exceptions@,
                    *existing,
                    existing_exceptions@,
                    x,
                ),
        },
{
    let ghost cexs = candidate_exceptions@;
    let ghost eexs = existing_exceptions@;
    let candidate_mask = recurrence_mask(candidate.rule);
    let existing_mask = recurrence_mask(existing.rule);
    let shared_mask = candidate_mask & existing_mask;
    proof {
        assert forall|x: int| #[trigger]
            mask_matches(shared_mask, x) <==> (candidate.rule.matches_index(weekday_index_of_day(x))
                && existing.rule.matches_index(weekday_index_of_day(x))) by {
            lemma_weekday_index_range(x);
            let i = weekday_index_of_day(x);
            lemma_and_bit(candidate_mask, existing_mask, i as u8);
            assert(has_bit(candidate_mask, i as u8) <==> candidate.rule.matches_index(i));
            assert(has_bit(existing_mask, i as u8) <==> existing.rule.matches_index(i));
        }
        // Shared hits can only fall on shared dates.
        assert forall|x: int| #[trigger]
            shared_hit(*candidate, cexs, *existing, eexs, x) implies shared_start(
            *candidate,
            *existing,
        ) <= x && within_end(candidate.ends_on, x) && within_end(existing.ends_on, x)
            && mask_matches(shared_mask, x) by {}
        // Template pairs can only fall on shared dates.
        assert forall|x: int| #[trigger]
            template_pair_day(*candidate, cexs, *existing, eexs, x) implies shared_start(
            *candidate,
            *existing,
        ) <= x && within_end(candidate.ends_on, x) && within_end(existing.ends_on, x)
            && mask_matches(shared_mask, x) && times_overlap(
            candidate.template.start_time,
            candidate.template.end_time,
            existing.template.start_time,
            existing.template.end_time,
        ) by {}
    }
    if !intervals_overlap(
        candidate.template.start_time,
        candidate.template.end_time,
        existing.template.start_time,
        existing.template.end_time,
    ) {
        return None;
    }
    let mut date = match first_shared_date(candidate, existing, shared_mask) {
        Some(d) => d,
        None => return None,
    };
    if date.epoch_day > MAX_EPOCH_DAY {
        return None;
    }
    loop
        invariant
            shared_start(*candidate, *existing) <= date.day(),
            within_end(candidate.ends_on, date.day()),
            within_end(existing.ends_on, date.day()),
            mask_matches(shared_mask, date.day()),
            forall|x: int| #[trigger]
                mask_matches(shared_mask, x) <==> (candidate.rule.matches_index(
                    weekday_index_of_day(x),
                ) && existing.rule.matches_index(weekday_index_of_day(x))),
            forall|x: int|
                shared_start(*candidate, *existing) <= x < date.day() ==> !#[trigger] template_pair_day(
                    *candidate,
                    cexs,
                    *existing,
                    eexs,
                    x,
                ),
            forall|x: int| x < date.day() ==> !#[trigger] shared_hit(*candidate, cexs, *existing, eexs, x),
            forall|x: int| #[trigger]
                shared_hit(*candidate, cexs, *existing, eexs, x) ==> shared_start(*candidate, *existing)
                    <= x && within_end(candidate.ends_on, x) && within_end(existing.ends_on, x)
                    && mask_matches(shared_mask, x),
            templates_overlap(*candidate, *existing),
            date.day() <= MAX_EPOCH_DAY,
            cexs == candidate_exceptions@,
            eexs == existing_exceptions@,
        decreases i32::MAX - date.epoch_day,
    {
        let candidate_occurrence = occurrence_for_original_date(candidate, candidate_exceptions, date);
        let existing_occurrence = occurrence_for_original_date(existing, existing_exceptions, date);
        if let Some(c) = &candidate_occurrence {
            if let Some(e) = &existing_occurrence {
                if overlapping_occurrences(c, e) {
                    assert(pair_blocker(*candidate, cexs, *existing, eexs, *c, *e));
                    assert(first_shared_hit(*candidate, cexs, *existing, eexs, date.day()));
                    return Some(ScheduleConflict::from_occurrence(e));
                }
            }
        }
        assert(!template_pair_day(*candidate, cexs, *existing, eexs, date.day()));
        assert(!shared_hit(*candidate, cexs, *existing, eexs, date.day()));
        let next = next_shared_date(date, candidate, existing, shared_mask);
        match next {
            Some(n) => {
                assert forall|x: int|
                    shared_start(*candidate, *existing) <= x < n.day() implies !#[trigger] template_pair_day(
                        *candidate,
                        cexs,
                        *existing,
                        eexs,
                        x,
                    ) by {
                    if x > date.day() {
                        assert(!mask_matches(shared_mask, x));
                    }
                }
                assert forall|x: int| x < n.day() implies !#[trigger] shared_hit(
                    *candidate,
                    cexs,
                    *existing,
                    eexs,
                    x,
                ) by {
                    if x > date.day() && shared_hit(*candidate, cexs, *existing, eexs, x) {
                        assert(mask_matches(shared_mask, x));
                    }
                }
                date = n;
            },
            None => {
                assert forall|x: int| x <= MAX_EPOCH_DAY implies !#[trigger] template_pair_day(
                    *candidate,
                    cexs,
                    *existing,
                    eexs,
                    x,
                ) by {
                    if x > date.day() && template_pair_day(*candidate, cexs, *existing, eexs, x) {
                        assert(mask_matches(shared_mask, x));
                    }
                }
                assert forall|x: int| x <= MAX_EPOCH_DAY implies !#[trigger] shared_hit(
                    *candidate,
                    cexs,
                    *existing,
                    eexs,
                    x,
                ) by {
                    if x > date.day() && shared_hit(*candidate, cexs, *existing, eexs, x) {
                        assert(mask_matches(shared_mask, x));
                    }
                }
                return None;
            },
        }
    }
}


/// The occurrence that `exception` gives `candidate`, when it is before the
/// last representable day, overlaps no occurrence of `existing`.
pub open spec fn modified_clear(
    candidate: RecurrenceSeries,
    exception: RecurrenceException,
    existing: RecurrenceSeries,
    existing_exceptions: Seq<RecurrenceException>,
) -> bool {
    match modified_occurrence(candidate, exception) {
        Some(o) => o.draft.date.day() < MAX_EPOCH_DAY ==> forall|b: EventOccurrence|
            #[trigger] is_series_occurrence(existing, existing_exceptions, b)
                ==> !occurrences_overlap(o, b),
        None => true,
    }
}

/// The occurrence that `exception` gives `existing`, when it is before the
/// last representable day, overlaps no occurrence of `candidate`.
pub open spec fn existing_modified_clear(
    candidate: RecurrenceSeries,
    candidate_exceptions: Seq<RecurrenceException>,
    existing: RecurrenceSeries,
    exception: RecurrenceException,
) -> bool {
    match modified_occurrence(existing, exception) {
        Some(b) => b.draft.date.day() < MAX_EPOCH_DAY ==> forall|o: EventOccurrence|
            #[trigger] is_series_occurrence(candidate, candidate_exceptions, o)
                ==> !occurrences_overlap(o, b),
        None => true,
    }
}

/// What the walk over shared dates reports: the occurrence of `existing`
/// on the earliest day (up to the last representable one) where the two
/// series' occurrences overlap, provided their templates' times overlap.
pub open spec fn walked_conflict(
    candidate: RecurrenceSeries,
    candidate_exceptions: Seq<RecurrenceException>,
    existing: RecurrenceSeries,
    existing_exceptions: Seq<RecurrenceException>,
) -> Option<ScheduleConflict> {
    if templates_overlap(candidate, existing) && exists|x: int|
        x <= MAX_EPOCH_DAY && #[trigger] first_shared_hit(
            candidate,
            candidate_exceptions,
            existing,
            existing_exceptions,
            x,
        ) {
        let x = choose|x: int|
            x <= MAX_EPOCH_DAY && #[trigger] first_shared_hit(
                candidate,
                candidate_exceptions,
                existing,
                existing_exceptions,
                x,
            );
        Some(conflict_of(occurrence_on_original(existing, existing_exceptions, x)->0))
    } else {
        None
    }
}

/// What a modified exception `e` of `candidate` runs into: the first
/// occurrence of `existing` on its new date that overlaps it.
pub open spec fn candidate_exception_hit(
    candidate: RecurrenceSeries,
    e: RecurrenceException,
    existing: RecurrenceSeries,
    existing_exceptions: Seq<RecurrenceException>,
) -> Option<ScheduleConflict> {
    match modified_occurrence(candidate, e) {
        Some(c) => first_overlap_conflict(
            c,
            series_day_list(c.draft.date.day(), existing, existing_exceptions),
        ),
        None => None,
    }
}

/// What a modified exception `e` of `existing` runs into: itself, when some
/// occurrence of `candidate` on its date overlaps it.
pub open spec fn existing_exception_hit(
    candidate: RecurrenceSeries,
    candidate_exceptions: Seq<RecurrenceException>,
    existing: RecurrenceSeries,
    e: RecurrenceException,
) -> Option<ScheduleConflict> {
    match modified_occurrence(existing, e) {
        Some(b) => {
            let list = series_day_list(b.draft.date.day(), candidate, candidate_exceptions);
            if exists|k: int| 0 <= k < list.len() && occurrences_overlap(#[trigger] list[k], b) {
                Some(conflict_of(b))
            } else {
                None
            }
        },
        None => None,
    }
}

/// The conflict reported between two series: the walk over shared dates
/// first, then the candidate's modified exceptions in order, then those of
/// `existing` in order.
pub open spec fn pair_conflict(
    candidate: RecurrenceSeries,
    candidate_exceptions: Seq<RecurrenceException>,
    existing: RecurrenceSeries,
    existing_exceptions: Seq<RecurrenceException>,
) -> Option<ScheduleConflict> {
    match walked_conflict(candidate, candidate_exceptions, existing, existing_exceptions) {
        Some(k) => Some(k),
        None => match first_some(
            Seq::new(
                candidate_exceptions.len(),
                |i: int|
                    candidate_exception_hit(
                        candidate,
                        candidate_exceptions[i],
                        existing,
                        existing_exceptions,
                    ),
            ),
        ) {
            Some(k) => Some(k),
            None => first_some(
                Seq::new(
                    existing_exceptions.len(),
                    |j: int|
                        existing_exception_hit(
                            candidate,
                            candidate_exceptions,
                            existing,
                            existing_exceptions[j],
                        ),
                ),
            ),
        },
    }
}

/// Finds an occurrence of `existing` that overlaps an occurrence of
/// `candidate`, in the order that `pair_conflict` gives.
#[verifier::rlimit(40)]
fn find_series_pair_conflict(
    candidate: &RecurrenceSeries,
    candidate_exceptions: &[RecurrenceException],
    existing: &RecurrenceSeries,
    existing_exceptions: &[RecurrenceException],
) -> (conflict: Option<ScheduleConflict>)
    requires
        forall|i: int|
            0 <= i < candidate_exceptions.len() ==> #[trigger] candidate_exceptions@[i].series_id
                == candidate.id,
        forall|i: int|
            0 <= i < existing_exceptions.len() ==> #[trigger] existing_exceptions@[i].series_id
                == existing.id,
    ensures
        conflict matches Some(k) ==> exists|o: EventOccurrence, b: EventOccurrence|
            #[trigger] pair_blocker(
                *candidate,
                candidate_exceptions@,
                *existing,
                existing_exceptions@,
                o,
                b,
            ) && k == conflict_of(b),
        conflict is None ==> forall|o: EventOccurrence, b: EventOccurrence|
            #[trigger] pair_blocker(
                *candidate,
                candidate_exceptions@,
                *existing,
                existing_exceptions@,
                o,
                b,
            ) ==> o.draft.date.day() >= MAX_EPOCH_DAY,
        conflict == pair_conflict(*candidate, candidate_exceptions@, *existing, existing_exceptions@),
{
    let ghost cexs = candidate_exceptions@;
    let ghost eexs = existing_exceptions@;
    let ghost chits = Seq::new(
        cexs.len(),
        |i: int| candidate_exception_hit(*candidate, cexs[i], *existing, eexs),
    );
    let ghost ehits = Seq::new(
        eexs.len(),
        |j: int| existing_exception_hit(*candidate, cexs, *existing, eexs[j]),
    );
    let walked = walk_shared_dates(candidate, candidate_exceptions, existing, existing_exceptions);
    proof {
        if templates_overlap(*candidate, *existing) {
            match walked {
                Some(ref k) => {
                    let x = choose|x: int|
                        #[trigger] first_shared_hit(*candidate, cexs, *existing, eexs, x)
                            && x <= MAX_EPOCH_DAY && *k == conflict_of(
                            occurrence_on_original(*existing, eexs, x)->0,
                        );
                    assert(x <= MAX_EPOCH_DAY && first_shared_hit(*candidate, cexs, *existing, eexs, x));
                    let y = choose|y: int|
                        y <= MAX_EPOCH_DAY && #[trigger] first_shared_hit(
                            *candidate,
                            cexs,
                            *existing,
                            eexs,
                            y,
                        );
                    if y < x {
                        assert(!shared_hit(*candidate, cexs, *existing, eexs, y));
                    } else if x < y {
                        assert(!shared_hit(*candidate, cexs, *existing, eexs, x));
                    }
                    assert(walked_conflict(*candidate, cexs, *existing, eexs) == Some(*k));
                },
                None => {
                    if exists|x: int|
                        x <= MAX_EPOCH_DAY && #[trigger] first_shared_hit(
                            *candidate,
                            cexs,
                            *existing,
                            eexs,
                            x,
                        ) {
                        let x = choose|x: int|
                            x <= MAX_EPOCH_DAY && #[trigger] first_shared_hit(
                                *candidate,
                                cexs,
                                *existing,
                                eexs,
                                x,
                            );
                        assert(!shared_hit(*candidate, cexs, *existing, eexs, x));
                    }
                },
            }
        }
    }
    if walked.is_some() {
        return walked;
    }
    assert(walked_conflict(*candidate, cexs, *existing, eexs) is None);
    // A modified exception can move an occurrence outside its base pattern.
    let mut i: usize = 0;
    while i < candidate_exceptions.len()
        invariant
            i <= candidate_exceptions.len(),
            cexs == candidate_exceptions@,
            eexs == existing_exceptions@,
            forall|j: int|
                0 <= j < eexs.len() ==> #[trigger] eexs[j].series_id == existing.id,
            forall|k: int|
                0 <= k < i ==> #[trigger] modified_clear(*candidate, cexs[k], *existing, eexs),
            walked_conflict(*candidate, cexs, *existing, eexs) is None,
            chits == Seq::new(
                cexs.len(),
                |i: int| candidate_exception_hit(*candidate, cexs[i], *existing, eexs),
            ),
            forall|k: int| 0 <= k < i ==> (#[trigger] chits[k]) is None,
        decreases candidate_exceptions.len() - i,
    {
        if let RecurrenceExceptionKind::Modified(draft) = &candidate_exceptions[i].kind {
            let c = EventOccurrence::recurring(
                candidate.id,
                candidate_exceptions[i].original_date,
                draft.duplicate(),
            );
            assert(modified_occurrence(*candidate, cexs[i as int]) == Some(c));
            let list = series_occurrences_on_date(c.draft.date, existing, existing_exceptions);
            match first_overlap(&c, list.as_slice()) {
                Some(j) => {
                    proof {
                        let b = list@[j as int];
                        let d = c.draft.date.day();
                        if d >= MAX_EPOCH_DAY {
                            assert(list@ =~= Seq::<EventOccurrence>::empty());
                        }
                        lemma_single_series_on(d, *existing, eexs, b);
                        assert(list@.contains(b));
                        assert(pair_blocker(*candidate, cexs, *existing, eexs, c, b));
                    }
                    proof {
                        assert(chits[i as int] == Some(conflict_of(list@[j as int])));
                        lemma_first_some_at(chits, i as int);
                    }
                    return Some(ScheduleConflict::from_occurrence(&list[j]));
                },
                None => {
                    proof {
                        assert(chits[i as int] is None);
                        let d = c.draft.date.day();
                        if d < MAX_EPOCH_DAY {
                            assert forall|b: EventOccurrence| #[trigger]
                                is_series_occurrence(*existing, eexs, b) implies !occurrences_overlap(
                                c,
                                b,
                            ) by {
                                if occurrences_overlap(c, b) {
                                    lemma_single_series_on(d, *existing, eexs, b);
                                    let j = choose|j: int| 0 <= j < list@.len() && list@[j] == b;
                                    assert(!occurrences_overlap(c, list@[j]));
                                }
                            }
                        }
                        assert(modified_clear(*candidate, cexs[i as int], *existing, eexs));
                    }
                },
            }
        }
        proof {
            assert(chits[i as int] is None);
        }
        i += 1;
    }
    proof {
        lemma_first_some_none(chits);
    }
    let mut j: usize = 0;
    while j < existing_exceptions.len()
        invariant
            j <= existing_exceptions.len(),
            cexs == candidate_exceptions@,
            eexs == existing_exceptions@,
            forall|i: int|
                0 <= i < cexs.len() ==> #[trigger] cexs[i].series_id == candidate.id,
            forall|k: int|
                0 <= k < j ==> #[trigger] existing_modified_clear(*candidate, cexs, *existing, eexs[k]),
            walked_conflict(*candidate, cexs, *existing, eexs) is None,
            first_some(chits) is None,
            chits == Seq::new(
                cexs.len(),
                |i: int| candidate_exception_hit(*candidate, cexs[i], *existing, eexs),
            ),
            ehits == Seq::new(
                eexs.len(),
                |j: int| existing_exception_hit(*candidate, cexs, *existing, eexs[j]),
            ),
            forall|k: int| 0 <= k < j ==> (#[trigger] ehits[k]) is None,
        decreases existing_exceptions.len() - j,
    {
        if let RecurrenceExceptionKind::Modified(draft) = &existing_exceptions[j].kind {
            let b = EventOccurrence::recurring(
                existing.id,
                existing_exceptions[j].original_date,
                draft.duplicate(),
            );
            assert(modified_occurrence(*existing, eexs[j as int]) == Some(b));
            let list = series_occurrences_on_date(b.draft.date, candidate, candidate_exceptions);
            if overlapping_occurrences_with_any(list.as_slice(), &b) {
                proof {
                    let k = choose|k: int| 0 <= k < list@.len() && occurrences_overlap(#[trigger] list@[k], b);
                    let o = list@[k];
                    let d = b.draft.date.day();
                    if d >= MAX_EPOCH_DAY {
                        assert(list@ =~= Seq::<EventOccurrence>::empty());
                    }
                    lemma_single_series_on(d, *candidate, cexs, o);
                    assert(list@.contains(o));
                    assert(pair_blocker(*candidate, cexs, *existing, eexs, o, b));
                    assert(list@ == series_day_list(b.draft.date.day(), *candidate, cexs));
                    assert(modified_occurrence(*existing, eexs[j as int]) == Some(b));
                    assert(exists|k: int| 0 <= k < list@.len() && occurrences_overlap(#[trigger] list@[k], b));
                    assert(existing_exception_hit(*candidate, cexs, *existing, eexs[j as int]) == Some(conflict_of(b)));
                    assert(ehits[j as int] == Some(conflict_of(b)));
                    lemma_first_some_at(ehits, j as int);
                }
                return Some(ScheduleConflict::from_occurrence(&b));
            }
            assert(ehits[j as int] is None);
            proof {
                let d = b.draft.date.day();
                if d < MAX_EPOCH_DAY {
                    assert forall|o: EventOccurrence| #[trigger]
                        is_series_occurrence(*candidate, cexs, o) implies !occurrences_overlap(o, b) by {
                        if occurrences_overlap(o, b) {
                            lemma_single_series_on(d, *candidate, cexs, o);
                            let k = choose|k: int| 0 <= k < list@.len() && list@[k] == o;
                            assert(!occurrences_overlap(list@[k], b));
                        }
                    }
                }
                assert(existing_modified_clear(*candidate, cexs, *existing, eexs[j as int]));
            }
        }
        assert(ehits[j as int] is None);
        j += 1;
    }
    proof {
        lemma_first_some_none(ehits);
        assert forall|o: EventOccurrence, b: EventOccurrence| #[trigger]
            pair_blocker(*candidate, cexs, *existing, eexs, o, b) implies o.draft.date.day()
            >= MAX_EPOCH_DAY by {
            if o.draft.date.day() < MAX_EPOCH_DAY {
                if exists|i: int| 0 <= i < cexs.len() && #[trigger] modified_occurrence(*candidate, cexs[i]) == Some(o) {
                    let i = choose|i: int| 0 <= i < cexs.len() && #[trigger] modified_occurrence(*candidate, cexs[i]) == Some(o);
                    assert(modified_clear(*candidate, cexs[i], *existing, eexs));
                } else if exists|k: int| 0 <= k < eexs.len() && #[trigger] modified_occurrence(*existing, eexs[k]) == Some(b) {
                    let k = choose|k: int| 0 <= k < eexs.len() && #[trigger] modified_occurrence(*existing, eexs[k]) == Some(b);
                    assert(existing_modified_clear(*candidate, cexs, *existing, eexs[k]));
                } else {
                    let x = o.draft.date.day();
                    assert(b.draft.date.day() == x);
                    assert(template_pair_day(*candidate, cexs, *existing, eexs, x));
                }
            }
        }
    }
    None
}


/// `o` is the occurrence of one of `candidate`'s modified exceptions and `b`
/// another occurrence of `candidate` that it overlaps.
pub open spec fn self_blocker(
    candidate: RecurrenceSeries,
    exceptions: Seq<RecurrenceException>,
    o: EventOccurrence,
    b: EventOccurrence,
) -> bool {
    &&& exists|i: int|
        0 <= i < exceptions.len() && #[trigger] modified_occurrence(candidate, exceptions[i]) == Some(
            o,
        )
    &&& is_series_occurrence(candidate, exceptions, b)
    &&& occurrences_overlap(o, b)
}

/// Finds an occurrence of `candidate` that a modified exception of the same
/// series overlaps.
/// The conflict reported inside one series: the first of its modified
/// exceptions, in order, that overlaps another of its occurrences on its
/// new date.
pub open spec fn self_conflict(
    candidate: RecurrenceSeries,
    exceptions: Seq<RecurrenceException>,
) -> Option<ScheduleConflict> {
    first_some(
        Seq::new(
            exceptions.len(),
            |i: int| candidate_exception_hit(candidate, exceptions[i], candidate, exceptions),
        ),
    )
}

#[verifier::rlimit(40)]
fn find_series_self_conflict(
    candidate: &RecurrenceSeries,
    exceptions: &[RecurrenceException],
) -> (conflict: Option<ScheduleConflict>)
    requires
        forall|i: int| 0 <= i < exceptions.len() ==> #[trigger] exceptions@[i].series_id == candidate.id,
    ensures
        conflict matches Some(k) ==> exists|o: EventOccurrence, b: EventOccurrence|
            #[trigger] self_blocker(*candidate, exceptions@, o, b) && k == conflict_of(b),
        conflict is None ==> forall|o: EventOccurrence, b: EventOccurrence|
            #[trigger] self_blocker(*candidate, exceptions@, o, b) ==> o.draft.date.day()
                >= MAX_EPOCH_DAY,
        conflict == self_conflict(*candidate, exceptions@),
{
    let ghost exs = exceptions@;
    let ghost hits = Seq::new(
        exs.len(),
        |i: int| candidate_exception_hit(*candidate, exs[i], *candidate, exs),
    );
    let mut i: usize = 0;
    while i < exceptions.len()
        invariant
            i <= exceptions.len(),
            exs == exceptions@,
            forall|j: int| 0 <= j < exs.len() ==> #[trigger] exs[j].series_id == candidate.id,
            forall|k: int| 0 <= k < i ==> #[trigger] modified_clear(*candidate, exs[k], *candidate, exs),
            hits == Seq::new(
                exs.len(),
                |i: int| candidate_exception_hit(*candidate, exs[i], *candidate, exs),
            ),
            forall|k: int| 0 <= k < i ==> (#[trigger] hits[k]) is None,
        decreases exceptions.len() - i,
    {
        if let RecurrenceExceptionKind::Modified(draft) = &exceptions[i].kind {
            let c = EventOccurrence::recurring(
                candidate.id,
                exceptions[i].original_date,
                draft.duplicate(),
            );
            assert(modified_occurrence(*candidate, exs[i as int]) == Some(c));
            let own = series_occurrences_on_date(c.draft.date, candidate, exceptions);
            match first_overlap(&c, own.as_slice()) {
                Some(j) => {
                    proof {
                        let b = own@[j as int];
                        let d = c.draft.date.day();
                        if d >= MAX_EPOCH_DAY {
                            assert(own@ =~= Seq::<EventOccurrence>::empty());
                        }
                        lemma_single_series_on(d, *candidate, exs, b);
                        assert(own@.contains(b));
                        assert(self_blocker(*candidate, exs, c, b));
                    }
                    proof {
                        assert(hits[i as int] == Some(conflict_of(own@[j as int])));
                        lemma_first_some_at(hits, i as int);
                    }
                    return Some(ScheduleConflict::from_occurrence(&own[j]));
                },
                None => {
                    proof {
                        let d = c.draft.date.day();
                        if d < MAX_EPOCH_DAY {
                            assert forall|b: EventOccurrence| #[trigger]
                                is_series_occurrence(*candidate, exs, b) implies !occurrences_overlap(
                                c,
                                b,
                            ) by {
                                if occurrences_overlap(c, b) {
                                    lemma_single_series_on(d, *candidate, exs, b);
                                    let j = choose|j: int| 0 <= j < own@.len() && own@[j] == b;
                                    assert(!occurrences_overlap(c, own@[j]));
                                }
                            }
                        }
                        assert(modified_clear(*candidate, exs[i as int], *candidate, exs));
                        assert(hits[i as int] is None);
                    }
                },
            }
        }
        assert(hits[i as int] is None);
        i += 1;
    }
    proof {
        lemma_first_some_none(hits);
        assert forall|o: EventOccurrence, b: EventOccurrence| #[trigger]
            self_blocker(*candidate, exs, o, b) implies o.draft.date.day() >= MAX_EPOCH_DAY by {
            let i = choose|i: int|
                0 <= i < exs.len() && #[trigger] modified_occurrence(*candidate, exs[i]) == Some(o);
            assert(modified_clear(*candidate, exs[i], *candidate, exs));
        }
    }
    None
}

/// `b` is an occurrence already on the calendar that blocks occurrence `o`
/// of the candidate series: a standalone event, an occurrence of another
/// series, or (when `o` comes from a modified exception) another occurrence
/// of the candidate itself.
pub open spec fn series_blocker(
    candidate: RecurrenceSeries,
    candidate_exceptions: Seq<RecurrenceException>,
    events: Seq<Event>,
    series: Seq<RecurrenceSeries>,
    exceptions: Seq<RecurrenceException>,
    o: EventOccurrence,
    b: EventOccurrence,
) -> bool {
    ||| (exists|i: int| 0 <= i < events.len() && b == #[trigger] standalone_occurrence(events[i]))
        && is_series_occurrence(candidate, candidate_exceptions, o) && occurrences_overlap(o, b)
    ||| exists|k: int|
        0 <= k < series.len() && series[k].id != candidate.id && #[trigger] pair_blocker(
            candidate,
            candidate_exceptions,
            series[k],
            exceptions_of(exceptions, series[k].id),
            o,
            b,
        )
    ||| self_blocker(candidate, candidate_exceptions, o, b)
}

/// What standalone event `e` runs into: itself, when an occurrence of the
/// candidate on its date overlaps it.
pub open spec fn event_hit(
    candidate: RecurrenceSeries,
    candidate_exceptions: Seq<RecurrenceException>,
    e: Event,
) -> Option<ScheduleConflict> {
    let b = standalone_occurrence(e);
    let list = series_day_list(e.draft.date.day(), candidate, candidate_exceptions);
    if exists|j: int| 0 <= j < list.len() && occurrences_overlap(#[trigger] list[j], b) {
        Some(conflict_of(b))
    } else {
        None
    }
}

/// What stored series `s` runs into, skipping the candidate's own.
pub open spec fn other_series_hit(
    candidate: RecurrenceSeries,
    candidate_exceptions: Seq<RecurrenceException>,
    s: RecurrenceSeries,
    exceptions: Seq<RecurrenceException>,
) -> Option<ScheduleConflict> {
    if s.id != candidate.id {
        pair_conflict(candidate, candidate_exceptions, s, exceptions_of(exceptions, s.id))
    } else {
        None
    }
}

/// The conflict reported for a proposed series: standalone events in
/// order, then the other stored series in order, then the series itself.
pub open spec fn series_conflict(
    candidate: RecurrenceSeries,
    candidate_exceptions: Seq<RecurrenceException>,
    events: Seq<Event>,
    series: Seq<RecurrenceSeries>,
    exceptions: Seq<RecurrenceException>,
) -> Option<ScheduleConflict> {
    match first_some(
        Seq::new(events.len(), |i: int| event_hit(candidate, candidate_exceptions, events[i])),
    ) {
        Some(k) => Some(k),
        None => match first_some(
            Seq::new(
                series.len(),
                |m: int| other_series_hit(candidate, candidate_exceptions, series[m], exceptions),
            ),
        ) {
            Some(k) => Some(k),
            None => self_conflict(candidate, candidate_exceptions),
        },
    }
}

/// Finds an overlap for a proposed recurring series: the first standalone
/// event, occurrence of another series, or other occurrence of the series
/// itself that overlaps one of the candidate's occurrences.
///
/// Every reported conflict is genuine. When none is reported, no occurrence
/// of the candidate before 9999-12-31 is blocked.
pub fn find_series_conflict(
    candidate: &RecurrenceSeries,
    candidate_exceptions: &[RecurrenceException],
    events: &[Event],
    series: &[RecurrenceSeries],
    exceptions: &[RecurrenceException],
) -> (conflict: Option<ScheduleConflict>)
    requires
        forall|i: int|
            0 <= i < candidate_exceptions.len() ==> #[trigger] candidate_exceptions@[i].series_id
                == candidate.id,
    ensures
        conflict matches Some(k) ==> exists|o: EventOccurrence, b: EventOccurrence|
            #[trigger] series_blocker(
                *candidate,
                candidate_exceptions@,
                events@,
                series@,
                exceptions@,
                o,
                b,
            ) && k == conflict_of(b),
        conflict is None ==> forall|o: EventOccurrence, b: EventOccurrence|
            #[trigger] series_blocker(
                *candidate,
                candidate_exceptions@,
                events@,
                series@,
                exceptions@,
                o,
                b,
            ) ==> o.draft.date.day() >= MAX_EPOCH_DAY,
        conflict == series_conflict(*candidate, candidate_exceptions@, events@, series@, exceptions@),
{
    let ghost cexs = candidate_exceptions@;
    let ghost ehits = Seq::new(events@.len(), |i: int| event_hit(*candidate, cexs, events@[i]));
    let ghost shits = Seq::new(
        series@.len(),
        |m: int| other_series_hit(*candidate, cexs, series@[m], exceptions@),
    );
    let mut i: usize = 0;
    while i < events.len()
        invariant
            i <= events.len(),
            cexs == candidate_exceptions@,
            forall|j: int| 0 <= j < cexs.len() ==> #[trigger] cexs[j].series_id == candidate.id,
            forall|k: int, o: EventOccurrence|
                0 <= k < i && #[trigger] is_series_occurrence(*candidate, cexs, o)
                    && o.draft.date.day() < MAX_EPOCH_DAY ==> !occurrences_overlap(
                    o,
                    #[trigger] standalone_occurrence(events@[k]),
                ),
            ehits == Seq::new(events@.len(), |i: int| event_hit(*candidate, cexs, events@[i])),
            forall|k: int| 0 <= k < i ==> (#[trigger] ehits[k]) is None,
        decreases events.len() - i,
    {
        let existing = EventOccurrence::standalone(&events[i]);
        let list = series_occurrences_on_date(events[i].draft.date, candidate, candidate_exceptions);
        if overlapping_occurrences_with_any(list.as_slice(), &existing) {
            proof {
                let k = choose|k: int| 0 <= k < list@.len() && occurrences_overlap(#[trigger] list@[k], existing);
                let o = list@[k];
                let d = existing.draft.date.day();
                if d >= MAX_EPOCH_DAY {
                    assert(list@ =~= Seq::<EventOccurrence>::empty());
                }
                lemma_single_series_on(d, *candidate, cexs, o);
                assert(list@.contains(o));
                assert(existing == standalone_occurrence(events@[i as int]));
                assert(series_blocker(*candidate, cexs, events@, series@, exceptions@, o, existing));
                assert(list@ == series_day_list(events@[i as int].draft.date.day(), *candidate, cexs));
                assert(ehits[i as int] == Some(conflict_of(existing)));
                lemma_first_some_at(ehits, i as int);
            }
            return Some(ScheduleConflict::from_occurrence(&existing));
        }
        assert(list@ == series_day_list(events@[i as int].draft.date.day(), *candidate, cexs));
        assert(ehits[i as int] is None);
        proof {
            assert forall|k: int, o: EventOccurrence|
                0 <= k < i + 1 && #[trigger] is_series_occurrence(*candidate, cexs, o)
                    && o.draft.date.day() < MAX_EPOCH_DAY implies !occurrences_overlap(
                    o,
                    #[trigger] standalone_occurrence(events@[k]),
                ) by {
                if k == i && occurrences_overlap(o, existing) {
                    lemma_single_series_on(existing.draft.date.day(), *candidate, cexs, o);
                    let j = choose|j: int| 0 <= j < list@.len() && list@[j] == o;
                    assert(!occurrences_overlap(list@[j], existing));
                }
            }
        }
        i += 1;
    }
    proof {
        lemma_first_some_none(ehits);
    }
    let mut k: usize = 0;
    while k < series.len()
        invariant
            k <= series.len(),
            cexs == candidate_exceptions@,
            forall|j: int| 0 <= j < cexs.len() ==> #[trigger] cexs[j].series_id == candidate.id,
            forall|m: int, o: EventOccurrence, b: EventOccurrence|
                0 <= m < k && series@[m].id != candidate.id && #[trigger] pair_blocker(
                    *candidate,
                    cexs,
                    series@[m],
                    exceptions_of(exceptions@, series@[m].id),
                    o,
                    b,
                ) ==> o.draft.date.day() >= MAX_EPOCH_DAY,
            first_some(ehits) is None,
            ehits == Seq::new(events@.len(), |i: int| event_hit(*candidate, cexs, events@[i])),
            shits == Seq::new(
                series@.len(),
                |m: int| other_series_hit(*candidate, cexs, series@[m], exceptions@),
            ),
            forall|m: int| 0 <= m < k ==> (#[trigger] shits[m]) is None,
        decreases series.len() - k,
    {
        let existing_series = &series[k];
        if existing_series.id != candidate.id {
            let existing_exceptions = exceptions_for_series(exceptions, existing_series.id);
            proof {
                lemma_exceptions_of_belong(exceptions@, existing_series.id);
            }
            let found = find_series_pair_conflict(
                candidate,
                candidate_exceptions,
                existing_series,
                existing_exceptions.as_slice(),
            );
            if found.is_some() {
                proof {
                    let kk = found->0;
                    let (o, b) = choose|o: EventOccurrence, b: EventOccurrence|
                        #[trigger] pair_blocker(
                            *candidate,
                            cexs,
                            *existing_series,
                            existing_exceptions@,
                            o,
                            b,
                        ) && kk == conflict_of(b);
                    assert(series_blocker(*candidate, cexs, events@, series@, exceptions@, o, b));
                    assert(shits[k as int] == found);
                    lemma_first_some_at(shits, k as int);
                }
                return found;
            }
            assert(shits[k as int] is None);
        }
        assert(shits[k as int] is None);
        k += 1;
    }
    proof {
        lemma_first_some_none(shits);
    }
    let own = find_series_self_conflict(candidate, candidate_exceptions);
    proof {
        if own is Some {
            let kk = own->0;
            let (o, b) = choose|o: EventOccurrence, b: EventOccurrence|
                #[trigger] self_blocker(*candidate, cexs, o, b) && kk == conflict_of(b);
            assert(series_blocker(*candidate, cexs, events@, series@, exceptions@, o, b));
        } else {
            assert forall|o: EventOccurrence, b: EventOccurrence| #[trigger]
                series_blocker(*candidate, cexs, events@, series@, exceptions@, o, b) implies o.draft.date.day()
                >= MAX_EPOCH_DAY by {
                if o.draft.date.day() < MAX_EPOCH_DAY {
                    if exists|i: int| 0 <= i < events@.len() && b == #[trigger] standalone_occurrence(events@[i]) {
                        let i = choose|i: int| 0 <= i < events@.len() && b == #[trigger] standalone_occurrence(events@[i]);
                        if is_series_occurrence(*candidate, cexs, o) {
                            assert(!occurrences_overlap(o, standalone_occurrence(events@[i])));
                        }
                    }
                    if exists|m: int|
                        0 <= m < series@.len() && series@[m].id != candidate.id && #[trigger] pair_blocker(
                            *candidate,
                            cexs,
                            series@[m],
                            exceptions_of(exceptions@, series@[m].id),
                            o,
                            b,
                        ) {
                        let m = choose|m: int|
                            0 <= m < series@.len() && series@[m].id != candidate.id && #[trigger] pair_blocker(
                                *candidate,
                                cexs,
                                series@[m],
                                exceptions_of(exceptions@, series@[m].id),
                                o,
                                b,
                            );
                        assert(pair_blocker(*candidate, cexs, series@[m], exceptions_of(exceptions@, series@[m].id), o, b));
                    }
                    assert(!self_blocker(*candidate, cexs, o, b));
                }
            }
        }
    }
    own
}


/// The other exceptions of the candidate's series: same series, different
/// original date.
pub open spec fn sibling_exceptions(
    exceptions: Seq<RecurrenceException>,
    candidate: RecurrenceException,
) -> Seq<RecurrenceException>
    decreases exceptions.len(),
{
    if exceptions.len() == 0 {
        Seq::empty()
    } else {
        let prefix = sibling_exceptions(exceptions.drop_last(), candidate);
        let e = exceptions.last();
        if e.series_id == candidate.series_id && e.original_date != candidate.original_date {
            prefix.push(e)
        } else {
            prefix
        }
    }
}

proof fn lemma_sibling_exceptions_belong(
    exceptions: Seq<RecurrenceException>,
    candidate: RecurrenceException,
)
    ensures
        forall|i: int|
            0 <= i < sibling_exceptions(exceptions, candidate).len() ==> #[trigger] sibling_exceptions(
                exceptions,
                candidate,
            )[i].series_id == candidate.series_id,
    decreases exceptions.len(),
{
    if exceptions.len() > 0 {
        lemma_sibling_exceptions_belong(exceptions.drop_last(), candidate);
    }
}

fn sibling_exceptions_of(
    exceptions: &[RecurrenceException],
    candidate: &RecurrenceException,
) -> (kept: Vec<RecurrenceException>)
    ensures
        kept@ == sibling_exceptions(exceptions@, *candidate),
{
    let mut kept: Vec<RecurrenceException> = Vec::new();
    let mut i: usize = 0;
    while i < exceptions.len()
        invariant
            i <= exceptions.len(),
            kept@ == sibling_exceptions(exceptions@.take(i as int), *candidate),
        decreases exceptions.len() - i,
    {
        assert(exceptions@.take(i as int + 1).drop_last() =~= exceptions@.take(i as int));
        let e = &exceptions[i];
        if e.series_id == candidate.series_id && e.original_date != candidate.original_date {
            kept.push(e.duplicate());
        }
        i += 1;
    }
    assert(exceptions@.take(exceptions.len() as int) =~= exceptions@);
    kept
}

/// `b` is an occurrence already on the calendar that overlaps the modified
/// occurrence `c`: a standalone event, an occurrence of another series, or an
/// occurrence of the owning series under its other exceptions.
pub open spec fn exception_blocker(
    candidate: RecurrenceException,
    series: RecurrenceSeries,
    events: Seq<Event>,
    series_list: Seq<RecurrenceSeries>,
    exceptions: Seq<RecurrenceException>,
    c: EventOccurrence,
    b: EventOccurrence,
) -> bool {
    &&& occurrences_overlap(c, b)
    &&& {
        ||| exists|i: int| 0 <= i < events.len() && b == #[trigger] standalone_occurrence(events[i])
        ||| exists|k: int|
            0 <= k < series_list.len() && series_list[k].id != candidate.series_id
                && #[trigger] is_series_occurrence(
                series_list[k],
                exceptions_of(exceptions, series_list[k].id),
                b,
            )
        ||| is_series_occurrence(series, sibling_exceptions(exceptions, candidate), b)
    }
}

/// What modified occurrence `c` runs into on a standalone event `e`.
pub open spec fn standalone_hit(c: EventOccurrence, e: Event) -> Option<ScheduleConflict> {
    if occurrences_overlap(c, standalone_occurrence(e)) {
        Some(conflict_of(standalone_occurrence(e)))
    } else {
        None
    }
}

/// What modified occurrence `c` of series `owner` runs into on stored
/// series `s`, skipping the owner itself.
pub open spec fn exception_series_hit(
    c: EventOccurrence,
    owner: RecurrenceSeriesId,
    s: RecurrenceSeries,
    exceptions: Seq<RecurrenceException>,
) -> Option<ScheduleConflict> {
    if s.id != owner {
        first_overlap_conflict(c, series_day_list(c.draft.date.day(), s, exceptions_of(exceptions, s.id)))
    } else {
        None
    }
}

/// The conflict reported for a proposed exception: none for a
/// cancellation; otherwise standalone events in order, then the other
/// stored series in order, then the series' own other occurrences.
pub open spec fn exception_conflict(
    candidate: RecurrenceException,
    series: RecurrenceSeries,
    events: Seq<Event>,
    series_list: Seq<RecurrenceSeries>,
    exceptions: Seq<RecurrenceException>,
) -> Option<ScheduleConflict> {
    match modified_occurrence(series, candidate) {
        None => None,
        Some(c) => match first_some(Seq::new(events.len(), |i: int| standalone_hit(c, events[i]))) {
            Some(k) => Some(k),
            None => match first_some(
                Seq::new(
                    series_list.len(),
                    |m: int| exception_series_hit(c, candidate.series_id, series_list[m], exceptions),
                ),
            ) {
                Some(k) => Some(k),
                None => first_overlap_conflict(
                    c,
                    series_day_list(
                        c.draft.date.day(),
                        series,
                        sibling_exceptions(exceptions, candidate),
                    ),
                ),
            },
        },
    }
}

/// Finds an overlap for a proposed recurring exception. A cancellation never
/// conflicts; a modification conflicts with a standalone event, an occurrence
/// of another series, or another occurrence of its own series.
///
/// Every reported conflict is genuine. When none is reported, nothing blocks
/// the modified occurrence unless it falls on 9999-12-31.
pub fn find_exception_conflict(
    candidate: &RecurrenceException,
    series: &RecurrenceSeries,
    events: &[Event],
    series_list: &[RecurrenceSeries],
    exceptions: &[RecurrenceException],
) -> (conflict: Option<ScheduleConflict>)
    requires
        series.id == candidate.series_id,
    ensures
        candidate.kind is Cancelled ==> conflict is None,
        conflict matches Some(k) ==> exists|c: EventOccurrence, b: EventOccurrence|
            modified_occurrence(*series, *candidate) == Some(c) && #[trigger] exception_blocker(
                *candidate,
                *series,
                events@,
                series_list@,
                exceptions@,
                c,
                b,
            ) && k == conflict_of(b),
        conflict is None ==> forall|c: EventOccurrence, b: EventOccurrence|
            modified_occurrence(*series, *candidate) == Some(c) && #[trigger] exception_blocker(
                *candidate,
                *series,
                events@,
                series_list@,
                exceptions@,
                c,
                b,
            ) ==> c.draft.date.day() >= MAX_EPOCH_DAY,
        conflict == exception_conflict(*candidate, *series, events@, series_list@, exceptions@),
{
    let draft = match &candidate.kind {
        RecurrenceExceptionKind::Modified(draft) => draft,
        RecurrenceExceptionKind::Cancelled => return None,
    };
    let c = EventOccurrence::recurring(candidate.series_id, candidate.original_date, draft.duplicate());
    assert(modified_occurrence(*series, *candidate) == Some(c));
    let ghost ehits = Seq::new(events@.len(), |i: int| standalone_hit(c, events@[i]));
    let ghost shits = Seq::new(
        series_list@.len(),
        |m: int| exception_series_hit(c, candidate.series_id, series_list@[m], exceptions@),
    );
    let d = c.draft.date;
    let mut i: usize = 0;
    while i < events.len()
        invariant
            i <= events.len(),
            modified_occurrence(*series, *candidate) == Some(c),
            candidate.kind is Modified,
            forall|k: int| 0 <= k < i ==> !occurrences_overlap(c, #[trigger] standalone_occurrence(events@[k])),
            ehits == Seq::new(events@.len(), |i: int| standalone_hit(c, events@[i])),
            forall|k: int| 0 <= k < i ==> (#[trigger] ehits[k]) is None,
        decreases events.len() - i,
    {
        let existing = EventOccurrence::standalone(&events[i]);
        if overlapping_occurrences(&c, &existing) {
            assert(exception_blocker(*candidate, *series, events@, series_list@, exceptions@, c, existing));
            proof {
                assert(ehits[i as int] == Some(conflict_of(existing)));
                lemma_first_some_at(ehits, i as int);
            }
            return Some(ScheduleConflict::from_occurrence(&existing));
        }
        assert(ehits[i as int] is None);
        i += 1;
    }
    proof {
        lemma_first_some_none(ehits);
    }
    let mut k: usize = 0;
    while k < series_list.len()
        invariant
            k <= series_list.len(),
            d == c.draft.date,
            modified_occurrence(*series, *candidate) == Some(c),
            candidate.kind is Modified,
            forall|m: int, b: EventOccurrence|
                0 <= m < k && series_list@[m].id != candidate.series_id && #[trigger] is_series_occurrence(
                    series_list@[m],
                    exceptions_of(exceptions@, series_list@[m].id),
                    b,
                ) && d.day() < MAX_EPOCH_DAY ==> !occurrences_overlap(c, b),
            first_some(ehits) is None,
            ehits == Seq::new(events@.len(), |i: int| standalone_hit(c, events@[i])),
            shits == Seq::new(
                series_list@.len(),
                |m: int| exception_series_hit(c, candidate.series_id, series_list@[m], exceptions@),
            ),
            forall|m: int| 0 <= m < k ==> (#[trigger] shits[m]) is None,
        decreases series_list.len() - k,
    {
        let existing_series = &series_list[k];
        if existing_series.id != candidate.series_id {
            let existing_exceptions = exceptions_for_series(exceptions, existing_series.id);
            proof {
                lemma_exceptions_of_belong(exceptions@, existing_series.id);
            }
            let list = series_occurrences_on_date(d, existing_series, existing_exceptions.as_slice());
            let ghost eexs = existing_exceptions@;
            match first_overlap(&c, list.as_slice()) {
                Some(j) => {
                    proof {
                        let b = list@[j as int];
                        if d.day() >= MAX_EPOCH_DAY {
                            assert(list@ =~= Seq::<EventOccurrence>::empty());
                        }
                        lemma_single_series_on(d.day(), *existing_series, eexs, b);
                        assert(list@.contains(b));
                        assert(exception_blocker(*candidate, *series, events@, series_list@, exceptions@, c, b));
                        assert(shits[k as int] == Some(conflict_of(b)));
                        lemma_first_some_at(shits, k as int);
                    }
                    return Some(ScheduleConflict::from_occurrence(&list[j]));
                },
                None => {
                    proof {
                        assert(shits[k as int] is None);
                        assert forall|b: EventOccurrence| #[trigger]
                            is_series_occurrence(*existing_series, eexs, b) && d.day() < MAX_EPOCH_DAY
                            implies !occurrences_overlap(c, b) by {
                            if occurrences_overlap(c, b) {
                                lemma_single_series_on(d.day(), *existing_series, eexs, b);
                                let j = choose|j: int| 0 <= j < list@.len() && list@[j] == b;
                                assert(!occurrences_overlap(c, list@[j]));
                            }
                        }
                    }
                },
            }
        }
        assert(shits[k as int] is None);
        k += 1;
    }
    let own_exceptions = sibling_exceptions_of(exceptions, candidate);
    proof {
        lemma_sibling_exceptions_belong(exceptions@, *candidate);
        lemma_first_some_none(shits);
    }
    let own = series_occurrences_on_date(d, series, own_exceptions.as_slice());
    let ghost sexs = own_exceptions@;
    match first_overlap(&c, own.as_slice()) {
        Some(j) => {
            proof {
                let b = own@[j as int];
                if d.day() >= MAX_EPOCH_DAY {
                    assert(own@ =~= Seq::<EventOccurrence>::empty());
                }
                lemma_single_series_on(d.day(), *series, sexs, b);
                assert(own@.contains(b));
                assert(exception_blocker(*candidate, *series, events@, series_list@, exceptions@, c, b));
            }
            Some(ScheduleConflict::from_occurrence(&own[j]))
        },
        None => {
            proof {
                assert forall|cc: EventOccurrence, b: EventOccurrence|
                    modified_occurrence(*series, *candidate) == Some(cc) && #[trigger] exception_blocker(
                        *candidate,
                        *series,
                        events@,
                        series_list@,
                        exceptions@,
                        cc,
                        b,
                    ) implies cc.draft.date.day() >= MAX_EPOCH_DAY by {
                    assert(cc == c);
                    if d.day() < MAX_EPOCH_DAY {
                        if exists|i: int| 0 <= i < events@.len() && b == #[trigger] standalone_occurrence(events@[i]) {
                            let i = choose|i: int| 0 <= i < events@.len() && b == #[trigger] standalone_occurrence(events@[i]);
                            assert(!occurrences_overlap(c, standalone_occurrence(events@[i])));
                        }
                        if exists|m: int|
                            0 <= m < series_list@.len() && series_list@[m].id != candidate.series_id
                                && #[trigger] is_series_occurrence(
                                series_list@[m],
                                exceptions_of(exceptions@, series_list@[m].id),
                                b,
                            ) {
                            let m = choose|m: int|
                                0 <= m < series_list@.len() && series_list@[m].id != candidate.series_id
                                    && #[trigger] is_series_occurrence(
                                    series_list@[m],
                                    exceptions_of(exceptions@, series_list@[m].id),
                                    b,
                                );
                            assert(!occurrences_overlap(c, b));
                        }
                        if is_series_occurrence(*series, sexs, b) && occurrences_overlap(c, b) {
                            lemma_single_series_on(d.day(), *series, sexs, b);
                            let j = choose|j: int| 0 <= j < own@.len() && own@[j] == b;
                            assert(!occurrences_overlap(c, own@[j]));
                        }
                    }
                }
            }
            None
        },
    }
}

} // verus!

//! What the calendar shows for a selected date: the day and week surfaces
//! with their laid-out events, the day's summary, and which occurrences
//! conflict.
use vstd::prelude::*;

use crate::categories::{category_is_visible, category_visible};
use crate::conflict::{OccurrenceConflict, conflict_pairs, find_occurrence_conflicts};
use crate::domain::{
    CalendarError, Category, DateRange, EventDraft, EventOccurrence, OccurrenceId,
    RecurrenceException, RecurrenceExceptionKind, RecurrenceSeries, Event,
};
use crate::layout::{LayoutError, PositionedEvent, layout_events, occurrence_times_wf, plane_layout};
use crate::recurrence::{
    exceptions_of, modified_occurrence, modified_occurrences, series_expansion,
    template_occurrence, template_occurrences,
};
use crate::repository::copy_categories;
use crate::store::{
    PersistenceSnapshot, expansions_in_range, occurrences_sorted, standalone_in_range,
};
use crate::time::{CivilDate, MAX_EPOCH_DAY, MIN_EPOCH_DAY};
use crate::view::{
    CalendarViewMode, CategoryFilter, event_matches_filter, filter_passes, rolling_week_range,
};

verus! {

/// Minimum occupancy of the calendar plane's layout: fifteen minutes, in
/// nanoseconds.
pub const DEFAULT_MINIMUM_OCCUPANCY: u64 = 900_000_000_000;

/// Whether a draft's times lie within one day.
pub open spec fn draft_times_wf(d: EventDraft) -> bool {
    d.start_time.wf() && d.end_time.wf()
}

/// Whether a modified exception's times lie within one day.
pub open spec fn exception_times_wf(e: RecurrenceException) -> bool {
    match e.kind {
        RecurrenceExceptionKind::Modified(d) => draft_times_wf(d),
        RecurrenceExceptionKind::Cancelled => true,
    }
}

/// Whether every stored time lies within one day.
pub open spec fn snapshot_times_wf(data: PersistenceSnapshot) -> bool {
    &&& forall|i: int| 0 <= i < data.events@.len() ==> draft_times_wf(#[trigger] data.events@[i].draft)
    &&& forall|i: int|
        0 <= i < data.recurrence_series@.len() ==> draft_times_wf(
            #[trigger] data.recurrence_series@[i].template,
        )
    &&& forall|i: int|
        0 <= i < data.recurrence_exceptions@.len() ==> exception_times_wf(
            #[trigger] data.recurrence_exceptions@[i],
        )
}

/// Checks that every stored time lies within one day.
pub fn snapshot_times_valid(data: &PersistenceSnapshot) -> (valid: bool)
    ensures
        valid == snapshot_times_wf(*data),
{
    let mut i: usize = 0;
    while i < data.events.len()
        invariant
            i <= data.events.len(),
            forall|k: int| 0 <= k < i ==> draft_times_wf(#[trigger] data.events@[k].draft),
        decreases data.events.len() - i,
    {
        let d = &data.events[i].draft;
        if !(d.start_time.is_valid() && d.end_time.is_valid()) {
            return false;
        }
        i += 1;
    }
    let mut j: usize = 0;
    while j < data.recurrence_series.len()
        invariant
            j <= data.recurrence_series.len(),
            forall|k: int| 0 <= k < data.events@.len() ==> draft_times_wf(#[trigger] data.events@[k].draft),
            forall|k: int|
                0 <= k < j ==> draft_times_wf(#[trigger] data.recurrence_series@[k].template),
        decreases data.recurrence_series.len() - j,
    {
        let d = &data.recurrence_series[j].template;
        if !(d.start_time.is_valid() && d.end_time.is_valid()) {
            return false;
        }
        j += 1;
    }
    let mut m: usize = 0;
    while m < data.recurrence_exceptions.len()
        invariant
            m <= data.recurrence_exceptions.len(),
            forall|k: int| 0 <= k < data.events@.len() ==> draft_times_wf(#[trigger] data.events@[k].draft),
            forall|k: int|
                0 <= k < data.recurrence_series@.len() ==> draft_times_wf(
                    #[trigger] data.recurrence_series@[k].template,
                ),
            forall|k: int|
                0 <= k < m ==> exception_times_wf(#[trigger] data.recurrence_exceptions@[k]),
        decreases data.recurrence_exceptions.len() - m,
    {
        if let RecurrenceExceptionKind::Modified(d) = &data.recurrence_exceptions[m].kind {
            if !(d.start_time.is_valid() && d.end_time.is_valid()) {
                return false;
            }
        }
        m += 1;
    }
    true
}

/// Whether every occurrence's times lie within one day.
pub open spec fn all_times_wf(s: Seq<EventOccurrence>) -> bool {
    forall|k: int| 0 <= k < s.len() ==> occurrence_times_wf(#[trigger] s[k])
}

proof fn lemma_concat_wf(a: Seq<EventOccurrence>, b: Seq<EventOccurrence>)
    requires
        all_times_wf(a),
        all_times_wf(b),
    ensures
        all_times_wf(a + b),
{
    assert forall|k: int| 0 <= k < (a + b).len() implies occurrence_times_wf(#[trigger] (a + b)[k]) by {
        if k < a.len() {
            assert((a + b)[k] == a[k]);
        } else {
            assert((a + b)[k] == b[k - a.len()]);
        }
    }
}

proof fn lemma_standalone_wf(events: Seq<Event>, range: DateRange)
    requires
        forall|i: int| 0 <= i < events.len() ==> draft_times_wf(#[trigger] events[i].draft),
    ensures
        all_times_wf(standalone_in_range(events, range)),
    decreases events.len(),
{
    if events.len() > 0 {
        let init = events.drop_last();
        assert forall|i: int| 0 <= i < init.len() implies draft_times_wf(#[trigger] init[i].draft) by {
            assert(init[i] == events[i]);
        }
        lemma_standalone_wf(init, range);
        assert(draft_times_wf(events[events.len() - 1].draft));
    }
}

proof fn lemma_exceptions_of_wf(exceptions: Seq<RecurrenceException>, id: crate::domain::RecurrenceSeriesId)
    requires
        forall|i: int| 0 <= i < exceptions.len() ==> exception_times_wf(#[trigger] exceptions[i]),
    ensures
        forall|i: int|
            0 <= i < exceptions_of(exceptions, id).len() ==> exception_times_wf(
                #[trigger] exceptions_of(exceptions, id)[i],
            ),
    decreases exceptions.len(),
{
    if exceptions.len() > 0 {
        let init = exceptions.drop_last();
        assert forall|i: int| 0 <= i < init.len() implies exception_times_wf(#[trigger] init[i]) by {
            assert(init[i] == exceptions[i]);
        }
        lemma_exceptions_of_wf(init, id);
        assert(exception_times_wf(exceptions[exceptions.len() - 1]));
        let prefix = exceptions_of(init, id);
        let kept = exceptions_of(exceptions, id);
        assert forall|i: int| 0 <= i < kept.len() implies exception_times_wf(#[trigger] kept[i]) by {
            if i < prefix.len() {
                assert(kept[i] == prefix[i]);
            } else {
                assert(kept[i] == exceptions.last());
            }
        }
    }
}

proof fn lemma_template_wf(
    series: RecurrenceSeries,
    exceptions: Seq<RecurrenceException>,
    start: int,
    end: int,
)
    requires
        draft_times_wf(series.template),
    ensures
        all_times_wf(template_occurrences(series, exceptions, start, end)),
    decreases end - start,
{
    if end > start {
        lemma_template_wf(series, exceptions, start, end - 1);
    }
}

proof fn lemma_modified_wf(
    series: RecurrenceSeries,
    exceptions: Seq<RecurrenceException>,
    start: int,
    end: int,
)
    requires
        forall|i: int| 0 <= i < exceptions.len() ==> exception_times_wf(#[trigger] exceptions[i]),
    ensures
        all_times_wf(modified_occurrences(series, exceptions, start, end)),
    decreases exceptions.len(),
{
    if exceptions.len() > 0 {
        let init = exceptions.drop_last();
        assert forall|i: int| 0 <= i < init.len() implies exception_times_wf(#[trigger] init[i]) by {
            assert(init[i] == exceptions[i]);
        }
        lemma_modified_wf(series, init, start, end);
        assert(exception_times_wf(exceptions[exceptions.len() - 1]));
    }
}

proof fn lemma_expansions_wf(
    series: Seq<RecurrenceSeries>,
    exceptions: Seq<RecurrenceException>,
    start: int,
    end: int,
)
    requires
        forall|i: int| 0 <= i < series.len() ==> draft_times_wf(#[trigger] series[i].template),
        forall|i: int| 0 <= i < exceptions.len() ==> exception_times_wf(#[trigger] exceptions[i]),
    ensures
        all_times_wf(expansions_in_range(series, exceptions, start, end)),
    decreases series.len(),
{
    if series.len() > 0 {
        let init = series.drop_last();
        assert forall|i: int| 0 <= i < init.len() implies draft_times_wf(#[trigger] init[i].template) by {
            assert(init[i] == series[i]);
        }
        lemma_expansions_wf(init, exceptions, start, end);
        let s = series.last();
        assert(draft_times_wf(series[series.len() - 1].template));
        lemma_exceptions_of_wf(exceptions, s.id);
        lemma_template_wf(s, exceptions_of(exceptions, s.id), start, end);
        lemma_modified_wf(s, exceptions_of(exceptions, s.id), start, end);
        lemma_concat_wf(
            template_occurrences(s, exceptions_of(exceptions, s.id), start, end),
            modified_occurrences(s, exceptions_of(exceptions, s.id), start, end),
        );
        lemma_concat_wf(
            expansions_in_range(init, exceptions, start, end),
            series_expansion(s, exceptions_of(exceptions, s.id), start, end),
        );
    }
}

/// The occurrences whose category is stored and shown, in order.
pub open spec fn visible_occurrences(occurrences: Seq<EventOccurrence>, categories: Seq<Category>) -> Seq<
    EventOccurrence,
>
    decreases occurrences.len(),
{
    if occurrences.len() == 0 {
        Seq::empty()
    } else {
        let rest = visible_occurrences(occurrences.drop_last(), categories);
        if category_visible(categories, occurrences.last().draft.category_id) {
            rest.push(occurrences.last())
        } else {
            rest
        }
    }
}

/// The occurrences on `date`, in order.
pub open spec fn occurrences_of_date(occurrences: Seq<EventOccurrence>, date: CivilDate) -> Seq<
    EventOccurrence,
>
    decreases occurrences.len(),
{
    if occurrences.len() == 0 {
        Seq::empty()
    } else {
        let rest = occurrences_of_date(occurrences.drop_last(), date);
        if occurrences.last().draft.date == date {
            rest.push(occurrences.last())
        } else {
            rest
        }
    }
}

/// The occurrences that pass a category filter, in order.
pub open spec fn occurrences_passing(occurrences: Seq<EventOccurrence>, filter: CategoryFilter) -> Seq<
    EventOccurrence,
>
    decreases occurrences.len(),
{
    if occurrences.len() == 0 {
        Seq::empty()
    } else {
        let rest = occurrences_passing(occurrences.drop_last(), filter);
        if filter_passes(occurrences.last(), filter) {
            rest.push(occurrences.last())
        } else {
            rest
        }
    }
}

/// The identities named by conflict pairs, pair by pair.
pub open spec fn conflict_identities(pairs: Seq<OccurrenceConflict>) -> Seq<OccurrenceId>
    decreases pairs.len(),
{
    if pairs.len() == 0 {
        Seq::empty()
    } else {
        conflict_identities(pairs.drop_last()) + seq![pairs.last().first, pairs.last().second]
    }
}

proof fn lemma_filters_wf(occurrences: Seq<EventOccurrence>, categories: Seq<Category>, date: CivilDate, filter: CategoryFilter)
    requires
        all_times_wf(occurrences),
    ensures
        all_times_wf(visible_occurrences(occurrences, categories)),
        all_times_wf(occurrences_of_date(occurrences, date)),
        all_times_wf(occurrences_passing(occurrences, filter)),
    decreases occurrences.len(),
{
    if occurrences.len() > 0 {
        let init = occurrences.drop_last();
        assert forall|k: int| 0 <= k < init.len() implies occurrence_times_wf(#[trigger] init[k]) by {
            assert(init[k] == occurrences[k]);
        }
        lemma_filters_wf(init, categories, date, filter);
        assert(occurrence_times_wf(occurrences[occurrences.len() - 1]));
    }
}

fn keep_visible(occurrences: &[EventOccurrence], categories: &[Category]) -> (kept: Vec<EventOccurrence>)
    ensures
        kept@ == visible_occurrences(occurrences@, categories@),
{
    let mut kept: Vec<EventOccurrence> = Vec::new();
    let mut i: usize = 0;
    while i < occurrences.len()
        invariant
            i <= occurrences.len(),
            kept@ == visible_occurrences(occurrences@.take(i as int), categories@),
        decreases occurrences.len() - i,
    {
        assert(occurrences@.take(i as int + 1).drop_last() =~= occurrences@.take(i as int));
        if category_is_visible(categories, occurrences[i].draft.category_id) {
            kept.push(occurrences[i].duplicate());
        }
        i += 1;
    }
    assert(occurrences@.take(occurrences.len() as int) =~= occurrences@);
    kept
}

fn keep_date(occurrences: &[EventOccurrence], date: CivilDate) -> (kept: Vec<EventOccurrence>)
    ensures
        kept@ == occurrences_of_date(occurrences@, date),
{
    let mut kept: Vec<EventOccurrence> = Vec::new();
    let mut i: usize = 0;
    while i < occurrences.len()
        invariant
            i <= occurrences.len(),
            kept@ == occurrences_of_date(occurrences@.take(i as int), date),
        decreases occurrences.len() - i,
    {
        assert(occurrences@.take(i as int + 1).drop_last() =~= occurrences@.take(i as int));
        if occurrences[i].draft.date == date {
            kept.push(occurrences[i].duplicate());
        }
        i += 1;
    }
    assert(occurrences@.take(occurrences.len() as int) =~= occurrences@);
    kept
}

fn keep_passing(occurrences: &[EventOccurrence], filter: CategoryFilter) -> (kept: Vec<EventOccurrence>)
    ensures
        kept@ == occurrences_passing(occurrences@, filter),
{
    let mut kept: Vec<EventOccurrence> = Vec::new();
    let mut i: usize = 0;
    while i < occurrences.len()
        invariant
            i <= occurrences.len(),
            kept@ == occurrences_passing(occurrences@.take(i as int), filter),
        decreases occurrences.len() - i,
    {
        assert(occurrences@.take(i as int + 1).drop_last() =~= occurrences@.take(i as int));
        if event_matches_filter(&occurrences[i], filter) {
            kept.push(occurrences[i].duplicate());
        }
        i += 1;
    }
    assert(occurrences@.take(occurrences.len() as int) =~= occurrences@);
    kept
}

fn pair_identities(pairs: &[OccurrenceConflict]) -> (ids: Vec<OccurrenceId>)
    ensures
        ids@ == conflict_identities(pairs@),
{
    let mut ids: Vec<OccurrenceId> = Vec::new();
    let mut i: usize = 0;
    while i < pairs.len()
        invariant
            i <= pairs.len(),
            ids@ == conflict_identities(pairs@.take(i as int)),
        decreases pairs.len() - i,
    {
        assert(pairs@.take(i as int + 1).drop_last() =~= pairs@.take(i as int));
        let ghost before = ids@;
        ids.push(pairs[i].first);
        ids.push(pairs[i].second);
        assert(ids@ =~= before + seq![pairs@[i as int].first, pairs@[i as int].second]);
        i += 1;
    }
    assert(pairs@.take(pairs.len() as int) =~= pairs@);
    ids
}

/// One calendar surface: its date range, its occurrences and their layout.
pub struct SurfaceSnapshot {
    pub range: DateRange,
    pub events: Vec<EventOccurrence>,
    pub positions: Vec<PositionedEvent>,
}

/// Everything the calendar shows for the selected date.
pub struct WorkspaceSnapshot {
    pub day: SurfaceSnapshot,
    pub week: SurfaceSnapshot,
    pub categories: Vec<Category>,
    pub summary_events: Vec<EventOccurrence>,
    pub conflict_ids: Vec<OccurrenceId>,
}

impl WorkspaceSnapshot {
    /// The surface of a view mode.
    pub fn surface(&self, mode: CalendarViewMode) -> (surface: &SurfaceSnapshot)
        ensures
            *surface == match mode {
                CalendarViewMode::Day => self.day,
                CalendarViewMode::Week => self.week,
            },
    {
        match mode {
            CalendarViewMode::Day => &self.day,
            CalendarViewMode::Week => &self.week,
        }
    }
}

/// Why the calendar could not be shown.
#[derive(Clone, Copy, Debug, PartialEq, Eq, Structural)]
pub enum WorkspaceError {
    Calendar(CalendarError),
    Layout(LayoutError),
}

/// The rolling week range that starts on `buffer_start`: twenty-one days.
pub open spec fn rolling_range_of(buffer_start: CivilDate) -> DateRange {
    DateRange { start: buffer_start, end: CivilDate { epoch_day: (buffer_start.day() + 21) as i32 } }
}

/// How many occurrences the stored data has in `range`, before any
/// category or filter is applied.
pub open spec fn candidate_count(data: PersistenceSnapshot, range: DateRange) -> int {
    (standalone_in_range(data.events@, range).len() + expansions_in_range(
        data.recurrence_series@,
        data.recurrence_exceptions@,
        range.start.day(),
        range.end.day(),
    ).len()) as int
}

proof fn lemma_filters_shorten(
    occurrences: Seq<EventOccurrence>,
    categories: Seq<Category>,
    date: CivilDate,
    filter: CategoryFilter,
)
    ensures
        visible_occurrences(occurrences, categories).len() <= occurrences.len(),
        occurrences_of_date(occurrences, date).len() <= occurrences.len(),
        occurrences_passing(occurrences, filter).len() <= occurrences.len(),
    decreases occurrences.len(),
{
    if occurrences.len() > 0 {
        lemma_filters_shorten(occurrences.drop_last(), categories, date, filter);
    }
}

/// Builds what the calendar shows for `selected` with the rolling week
/// buffer starting on `buffer_start`:
/// - the week surface covers the rolling week range (the buffer start and
///   the twenty-one days after it) and holds its occurrences (in occurrence
///   order) whose category is shown and passes `filter`; the day surface
///   holds those of them on `selected`;
/// - the summary holds the shown occurrences on `selected`, whatever the
///   filter;
/// - the conflict identities name every overlapping pair of shown
///   occurrences of the week surface;
/// - both surfaces are laid out with a fifteen-minute minimum occupancy.
///
/// It succeeds whenever both ranges exist and the rolling range holds no
/// more than 65,535 stored occurrences.
pub fn build_workspace(
    data: &PersistenceSnapshot,
    selected: CivilDate,
    buffer_start: CivilDate,
    filter: CategoryFilter,
) -> (result: Result<WorkspaceSnapshot, WorkspaceError>)
    requires
        snapshot_times_wf(*data),
    ensures
        ({
            let ranges_ok = selected.day() < MAX_EPOCH_DAY && MIN_EPOCH_DAY <= buffer_start.day() + 21
                <= MAX_EPOCH_DAY;
            let count = candidate_count(*data, rolling_range_of(buffer_start));
            &&& !ranges_ok ==> result == Err::<WorkspaceSnapshot, WorkspaceError>(
                WorkspaceError::Calendar(CalendarError::DateArithmetic),
            )
            &&& ranges_ok && count <= u16::MAX ==> result is Ok
            &&& result matches Err(e) ==> (!ranges_ok && e == WorkspaceError::Calendar(
                CalendarError::DateArithmetic,
            )) || (ranges_ok && count > u16::MAX && e == WorkspaceError::Layout(
                LayoutError::TooManyLanes,
            ))
            &&& result matches Ok(w) ==> {
                &&& ranges_ok
                &&& w.day.range.start == selected && w.day.range.end.day() == selected.day() + 1
                &&& w.week.range == rolling_range_of(buffer_start)
                &&& w.categories@ == data.categories@
                &&& exists|all: Seq<EventOccurrence>|
                    #![trigger visible_occurrences(all, data.categories@)]
                    occurrences_sorted(all) && all.to_multiset() == (standalone_in_range(
                        data.events@,
                        w.week.range,
                    ) + expansions_in_range(
                        data.recurrence_series@,
                        data.recurrence_exceptions@,
                        w.week.range.start.day(),
                        w.week.range.end.day(),
                    )).to_multiset() && {
                        let shown = visible_occurrences(all, data.categories@);
                        &&& w.summary_events@ == occurrences_of_date(shown, selected)
                        &&& w.week.events@ == occurrences_passing(shown, filter)
                        &&& w.day.events@ == occurrences_of_date(w.week.events@, selected)
                        &&& w.conflict_ids@ == conflict_identities(
                            conflict_pairs(shown, shown.len() as int),
                        )
                    }
                &&& plane_layout(
                    w.week.events@,
                    w.week.range,
                    DEFAULT_MINIMUM_OCCUPANCY as int,
                    w.week.positions@,
                )
                &&& plane_layout(
                    w.day.events@,
                    w.day.range,
                    DEFAULT_MINIMUM_OCCUPANCY as int,
                    w.day.positions@,
                )
            }
        }),
{
    let day_range = match DateRange::day(selected) {
        Ok(range) => range,
        Err(e) => return Err(WorkspaceError::Calendar(e)),
    };
    let week_range = match rolling_week_range(buffer_start) {
        Ok(range) => range,
        Err(e) => return Err(WorkspaceError::Calendar(e)),
    };
    assert(week_range == rolling_range_of(buffer_start));
    let categories = copy_categories(data.categories.as_slice());
    let all = data.occurrences(week_range);
    proof {
        broadcast use vstd::seq_lib::group_to_multiset_ensures;

        lemma_standalone_wf(data.events@, week_range);
        lemma_expansions_wf(
            data.recurrence_series@,
            data.recurrence_exceptions@,
            week_range.start.day(),
            week_range.end.day(),
        );
        let source = standalone_in_range(data.events@, week_range) + expansions_in_range(
            data.recurrence_series@,
            data.recurrence_exceptions@,
            week_range.start.day(),
            week_range.end.day(),
        );
        lemma_concat_wf(
            standalone_in_range(data.events@, week_range),
            expansions_in_range(
                data.recurrence_series@,
                data.recurrence_exceptions@,
                week_range.start.day(),
                week_range.end.day(),
            ),
        );
        assert forall|k: int| 0 <= k < all@.len() implies occurrence_times_wf(#[trigger] all@[k]) by {
            assert(all@.to_multiset().count(all@[k]) > 0);
            assert(source.contains(all@[k]));
            let m = choose|m: int| 0 <= m < source.len() && source[m] == all@[k];
            assert(occurrence_times_wf(source[m]));
        }
    }
    let shown = keep_visible(all.as_slice(), data.categories.as_slice());
    let summary_events = keep_date(shown.as_slice(), selected);
    let pairs = find_occurrence_conflicts(shown.as_slice());
    let conflict_ids = pair_identities(pairs.as_slice());
    let week_events = keep_passing(shown.as_slice(), filter);
    let day_events = keep_date(week_events.as_slice(), selected);
    proof {
        lemma_filters_wf(all@, data.categories@, selected, filter);
        lemma_filters_wf(shown@, data.categories@, selected, filter);
        lemma_filters_wf(week_events@, data.categories@, selected, filter);
        lemma_filters_shorten(all@, data.categories@, selected, filter);
        lemma_filters_shorten(shown@, data.categories@, selected, filter);
        lemma_filters_shorten(week_events@, data.categories@, selected, filter);
        assert(all@.len() == candidate_count(*data, week_range)) by {
            let source = standalone_in_range(data.events@, week_range) + expansions_in_range(
                data.recurrence_series@,
                data.recurrence_exceptions@,
                week_range.start.day(),
                week_range.end.day(),
            );
            vstd::seq_lib::to_multiset_len(all@);
            vstd::seq_lib::to_multiset_len(source);
        }
    }
    let week_positions = match layout_events(week_events.as_slice(), week_range, DEFAULT_MINIMUM_OCCUPANCY) {
        Ok(p) => p,
        Err(e) => return Err(WorkspaceError::Layout(e)),
    };
    let day_positions = match layout_events(day_events.as_slice(), day_range, DEFAULT_MINIMUM_OCCUPANCY) {
        Ok(p) => p,
        Err(e) => return Err(WorkspaceError::Layout(e)),
    };
    let w = WorkspaceSnapshot {
        day: SurfaceSnapshot { range: day_range, events: day_events, positions: day_positions },
        week: SurfaceSnapshot { range: week_range, events: week_events, positions: week_positions },
        categories,
        summary_events,
        conflict_ids,
    };
    proof {
        assert(visible_occurrences(all@, data.categories@) == shown@);
    }
    Ok(w)
}

} // verus!

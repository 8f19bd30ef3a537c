//! Expansion of recurring series into dated occurrences.
//!
//! A series yields its template on every date it repeats on that has no
//! exception, and every modified exception yields its replacement draft on the
//! draft's own date. Cancelled exceptions yield nothing.
use vstd::prelude::*;

use crate::domain::{
    EventDraft, EventOccurrence, RecurrenceException, RecurrenceExceptionKind, RecurrenceSeries,
    RecurrenceSeriesId, recurring_occurrence,
};
use crate::time::{CivilDate, MAX_EPOCH_DAY, MIN_EPOCH_DAY};

verus! {

/// Whether some exception in `exceptions` is keyed by epoch day `d`.
pub open spec fn has_exception_on(exceptions: Seq<RecurrenceException>, d: int) -> bool {
    exists|i: int| 0 <= i < exceptions.len() && #[trigger] exceptions[i].original_date.day() == d
}

/// The exceptions that belong to series `id`, in their original order.
pub open spec fn exceptions_of(
    exceptions: Seq<RecurrenceException>,
    id: RecurrenceSeriesId,
) -> Seq<RecurrenceException>
    decreases exceptions.len(),
{
    if exceptions.len() == 0 {
        Seq::empty()
    } else {
        let prefix = exceptions_of(exceptions.drop_last(), id);
        if exceptions.last().series_id == id {
            prefix.push(exceptions.last())
        } else {
            prefix
        }
    }
}

/// The template occurrence of `series` on epoch day `d`.
pub open spec fn template_occurrence(series: RecurrenceSeries, d: int) -> EventOccurrence {
    let date = CivilDate { epoch_day: d as i32 };
    recurring_occurrence(series.id, date, EventDraft { date, ..series.template })
}

/// The occurrence that exception `exception` puts on the calendar, if any.
pub open spec fn modified_occurrence(
    series: RecurrenceSeries,
    exception: RecurrenceException,
) -> Option<EventOccurrence> {
    match exception.kind {
        RecurrenceExceptionKind::Modified(draft) => Some(
            recurring_occurrence(series.id, exception.original_date, draft),
        ),
        RecurrenceExceptionKind::Cancelled => None,
    }
}

/// Template occurrences on the days `start..end` that carry no exception.
pub open spec fn template_occurrences(
    series: RecurrenceSeries,
    exceptions: Seq<RecurrenceException>,
    start: int,
    end: int,
) -> Seq<EventOccurrence>
    decreases end - start,
{
    if end <= start {
        Seq::empty()
    } else {
        let prefix = template_occurrences(series, exceptions, start, end - 1);
        if series.contains_day(end - 1) && !has_exception_on(exceptions, end - 1) {
            prefix.push(template_occurrence(series, end - 1))
        } else {
            prefix
        }
    }
}

/// Occurrences of modified exceptions whose drafts fall on `start..end`.
pub open spec fn modified_occurrences(
    series: RecurrenceSeries,
    exceptions: Seq<RecurrenceException>,
    start: int,
    end: int,
) -> Seq<EventOccurrence>
    decreases exceptions.len(),
{
    if exceptions.len() == 0 {
        Seq::empty()
    } else {
        let prefix = modified_occurrences(series, exceptions.drop_last(), start, end);
        match modified_occurrence(series, exceptions.last()) {
            Some(o) => if start <= o.draft.date.day() < end {
                prefix.push(o)
            } else {
                prefix
            },
            None => prefix,
        }
    }
}

/// Every occurrence of `series` on the days `start..end`.
pub open spec fn series_expansion(
    series: RecurrenceSeries,
    exceptions: Seq<RecurrenceException>,
    start: int,
    end: int,
) -> Seq<EventOccurrence> {
    template_occurrences(series, exceptions, start, end) + modified_occurrences(
        series,
        exceptions,
        start,
        end,
    )
}

/// Whether `o` is an occurrence of `series` under `exceptions`: a template
/// occurrence on a day the series repeats on and no exception names, or the
/// occurrence of a modified exception.
pub open spec fn is_series_occurrence(
    series: RecurrenceSeries,
    exceptions: Seq<RecurrenceException>,
    o: EventOccurrence,
) -> bool {
    ||| (series.contains_day(o.draft.date.day()) && !has_exception_on(
        exceptions,
        o.draft.date.day(),
    ) && o == template_occurrence(series, o.draft.date.day()))
    ||| exists|i: int|
        0 <= i < exceptions.len() && #[trigger] modified_occurrence(series, exceptions[i]) == Some(
            o,
        )
}

/// The template occurrence on day `d` carries the date `d`.
pub proof fn lemma_template_occurrence_date(series: RecurrenceSeries, d: int)
    requires
        i32::MIN <= d <= i32::MAX,
    ensures
        template_occurrence(series, d).draft.date.day() == d,
{
}

/// Membership in the template part of an expansion.
pub proof fn lemma_template_occurrences_member(
    series: RecurrenceSeries,
    exceptions: Seq<RecurrenceException>,
    start: int,
    end: int,
    o: EventOccurrence,
)
    requires
        i32::MIN <= start,
        end <= i32::MAX + 1,
    ensures
        template_occurrences(series, exceptions, start, end).contains(o) <==> (start
            <= o.draft.date.day() < end && series.contains_day(o.draft.date.day())
            && !has_exception_on(exceptions, o.draft.date.day()) && o == template_occurrence(
            series,
            o.draft.date.day(),
        )),
    decreases end - start,
{
    if end > start {
        lemma_template_occurrences_member(series, exceptions, start, end - 1, o);
        let prefix = template_occurrences(series, exceptions, start, end - 1);
        let t = template_occurrence(series, end - 1);
        lemma_template_occurrence_date(series, end - 1);
        if series.contains_day(end - 1) && !has_exception_on(exceptions, end - 1) {
            assert(prefix.push(t).contains(o) <==> (prefix.contains(o) || o == t)) by {
                if prefix.push(t).contains(o) {
                    let k = choose|k: int| 0 <= k < prefix.push(t).len() && prefix.push(t)[k] == o;
                    if k < prefix.len() {
                        assert(prefix[k] == o);
                    }
                }
                if prefix.contains(o) {
                    let k = choose|k: int| 0 <= k < prefix.len() && prefix[k] == o;
                    assert(prefix.push(t)[k] == o);
                }
                if o == t {
                    assert(prefix.push(t)[prefix.len() as int] == o);
                }
            }
        }
    }
}

/// Membership in the modified part of an expansion.
pub proof fn lemma_modified_occurrences_member(
    series: RecurrenceSeries,
    exceptions: Seq<RecurrenceException>,
    start: int,
    end: int,
    o: EventOccurrence,
)
    ensures
        modified_occurrences(series, exceptions, start, end).contains(o) <==> (start
            <= o.draft.date.day() < end && exists|i: int|
            0 <= i < exceptions.len() && #[trigger] modified_occurrence(series, exceptions[i])
                == Some(o)),
    decreases exceptions.len(),
{
    if exceptions.len() > 0 {
        let init = exceptions.drop_last();
        lemma_modified_occurrences_member(series, init, start, end, o);
        let prefix = modified_occurrences(series, init, start, end);
        let last = exceptions.last();
        let n = exceptions.len() - 1;
        assert forall|i: int| 0 <= i < init.len() implies #[trigger] init[i] == exceptions[i] by {}
        if exists|i: int|
            0 <= i < exceptions.len() && #[trigger] modified_occurrence(series, exceptions[i])
                == Some(o) {
            let i = choose|i: int|
                0 <= i < exceptions.len() && #[trigger] modified_occurrence(series, exceptions[i])
                    == Some(o);
            if i < n {
                assert(modified_occurrence(series, init[i]) == Some(o));
            }
        }
        if exists|i: int|
            0 <= i < init.len() && #[trigger] modified_occurrence(series, init[i]) == Some(o) {
            let i = choose|i: int|
                0 <= i < init.len() && #[trigger] modified_occurrence(series, init[i]) == Some(o);
            assert(modified_occurrence(series, exceptions[i]) == Some(o));
        }
        match modified_occurrence(series, last) {
            Some(m) => {
                if start <= m.draft.date.day() < end {
                    assert(prefix.push(m).contains(o) <==> (prefix.contains(o) || o == m)) by {
                        if prefix.push(m).contains(o) {
                            let k = choose|k: int|
                                0 <= k < prefix.push(m).len() && prefix.push(m)[k] == o;
                            if k < prefix.len() {
                                assert(prefix[k] == o);
                            }
                        }
                        if prefix.contains(o) {
                            let k = choose|k: int| 0 <= k < prefix.len() && prefix[k] == o;
                            assert(prefix.push(m)[k] == o);
                        }
                        if o == m {
                            assert(prefix.push(m)[prefix.len() as int] == o);
                        }
                    }
                }
                if o == m {
                    assert(modified_occurrence(series, exceptions[n]) == Some(o));
                }
            },
            None => {},
        }
    }
}

/// The expansion of a series over one day holds exactly its occurrences on
/// that day.
pub proof fn lemma_expansion_on_day(
    series: RecurrenceSeries,
    exceptions: Seq<RecurrenceException>,
    d: int,
    o: EventOccurrence,
)
    requires
        i32::MIN <= d < MAX_EPOCH_DAY,
    ensures
        series_expansion(series, exceptions, d, d + 1).contains(o) <==> (o.draft.date.day() == d
            && is_series_occurrence(series, exceptions, o)),
{
    let t = template_occurrences(series, exceptions, d, d + 1);
    let m = modified_occurrences(series, exceptions, d, d + 1);
    lemma_template_occurrences_member(series, exceptions, d, d + 1, o);
    lemma_modified_occurrences_member(series, exceptions, d, d + 1, o);
    lemma_seq_add_contains(t, m, o);
    if exists|i: int|
        0 <= i < exceptions.len() && #[trigger] modified_occurrence(series, exceptions[i]) == Some(
            o,
        ) {
        let i = choose|i: int|
            0 <= i < exceptions.len() && #[trigger] modified_occurrence(series, exceptions[i])
                == Some(o);
        assert(modified_occurrence(series, exceptions[i]) == Some(o));
    }
}

/// Membership in a concatenation.
pub proof fn lemma_seq_add_contains<A>(a: Seq<A>, b: Seq<A>, x: A)
    ensures
        (a + b).contains(x) <==> (a.contains(x) || b.contains(x)),
{
    if (a + b).contains(x) {
        let k = choose|k: int| 0 <= k < (a + b).len() && (a + b)[k] == x;
        if k < a.len() {
            assert(a[k] == x);
        } else {
            assert(b[k - a.len()] == x);
        }
    }
    if a.contains(x) {
        let k = choose|k: int| 0 <= k < a.len() && a[k] == x;
        assert((a + b)[k] == x);
    }
    if b.contains(x) {
        let k = choose|k: int| 0 <= k < b.len() && b[k] == x;
        assert((a + b)[k + a.len()] == x);
    }
}

/// Filtering twice by the same series changes nothing.
pub proof fn lemma_exceptions_of_all_belong(
    exceptions: Seq<RecurrenceException>,
    id: RecurrenceSeriesId,
)
    requires
        forall|i: int| 0 <= i < exceptions.len() ==> #[trigger] exceptions[i].series_id == id,
    ensures
        exceptions_of(exceptions, id) == exceptions,
    decreases exceptions.len(),
{
    if exceptions.len() > 0 {
        let init = exceptions.drop_last();
        assert forall|i: int| 0 <= i < init.len() implies #[trigger] init[i].series_id == id by {
            assert(init[i] == exceptions[i]);
        }
        lemma_exceptions_of_all_belong(init, id);
        assert(exceptions.last().series_id == id);
        assert(init.push(exceptions.last()) =~= exceptions);
    }
}

/// Every exception kept by the filter belongs to the series.
pub proof fn lemma_exceptions_of_belong(exceptions: Seq<RecurrenceException>, id: RecurrenceSeriesId)
    ensures
        forall|i: int|
            0 <= i < exceptions_of(exceptions, id).len() ==> #[trigger] exceptions_of(
                exceptions,
                id,
            )[i].series_id == id,
    decreases exceptions.len(),
{
    if exceptions.len() > 0 {
        lemma_exceptions_of_belong(exceptions.drop_last(), id);
    }
}

/// Returns whether some exception is keyed by `date`.
pub fn has_exception(exceptions: &[RecurrenceException], date: CivilDate) -> (found: bool)
    ensures
        found == has_exception_on(exceptions@, date.day()),
{
    let mut i: usize = 0;
    while i < exceptions.len()
        invariant
            i <= exceptions.len(),
            forall|j: int| 0 <= j < i ==> #[trigger] exceptions@[j].original_date.day() != date.day(),
        decreases exceptions.len() - i,
    {
        if exceptions[i].original_date.epoch_day == date.epoch_day {
            assert(exceptions@[i as int].original_date.day() == date.day());
            return true;
        }
        i += 1;
    }
    false
}

/// Copies the exceptions that belong to series `id`, keeping their order.
pub fn exceptions_for_series(
    exceptions: &[RecurrenceException],
    id: RecurrenceSeriesId,
) -> (kept: Vec<RecurrenceException>)
    ensures
        kept@ == exceptions_of(exceptions@, id),
{
    let mut kept: Vec<RecurrenceException> = Vec::new();
    let mut i: usize = 0;
    while i < exceptions.len()
        invariant
            i <= exceptions.len(),
            kept@ == exceptions_of(exceptions@.take(i as int), id),
        decreases exceptions.len() - i,
    {
        assert(exceptions@.take(i as int + 1).drop_last() =~= exceptions@.take(i as int));
        if exceptions[i].series_id == id {
            kept.push(exceptions[i].duplicate());
        }
        i += 1;
    }
    assert(exceptions@.take(exceptions.len() as int) =~= exceptions@);
    kept
}

/// Lists every occurrence of `series` whose date falls in `start..end`:
/// template occurrences on repeating days without exceptions, in date order,
/// followed by the occurrences of modified exceptions in exception order.
pub fn expand_series_days(
    series: &RecurrenceSeries,
    exceptions: &[RecurrenceException],
    start: CivilDate,
    end: CivilDate,
) -> (occurrences: Vec<EventOccurrence>)
    ensures
        occurrences@ == series_expansion(*series, exceptions@, start.day(), end.day()),
{
    let mut occurrences: Vec<EventOccurrence> = Vec::new();
    let mut current: i32 = start.epoch_day;
    while current < end.epoch_day
        invariant
            start.day() <= current,
            current <= end.day() || current == start.day(),
            occurrences@ == template_occurrences(*series, exceptions@, start.day(), current as int),
        decreases end.day() - current,
    {
        let date = CivilDate { epoch_day: current };
        if series.contains_date(date) && !has_exception(exceptions, date) {
            let mut draft = series.template.duplicate();
            draft.date = date;
            occurrences.push(EventOccurrence::recurring(series.id, date, draft));
        }
        current += 1;
    }
    proof {
        if end.day() <= start.day() {
            assert(template_occurrences(*series, exceptions@, start.day(), end.day())
                =~= Seq::empty());
            assert(template_occurrences(*series, exceptions@, start.day(), start.day())
                =~= Seq::empty());
        }
    }
    let ghost templates = occurrences@;
    let mut i: usize = 0;
    while i < exceptions.len()
        invariant
            i <= exceptions.len(),
            occurrences@ == templates + modified_occurrences(
                *series,
                exceptions@.take(i as int),
                start.day(),
                end.day(),
            ),
        decreases exceptions.len() - i,
    {
        assert(exceptions@.take(i as int + 1).drop_last() =~= exceptions@.take(i as int));
        assert(exceptions@.take(i as int + 1).last() == exceptions@[i as int]);
        match &exceptions[i].kind {
            RecurrenceExceptionKind::Modified(draft) => {
                if start.epoch_day <= draft.date.epoch_day && draft.date.epoch_day < end.epoch_day {
                    let o = EventOccurrence::recurring(
                        series.id,
                        exceptions[i].original_date,
                        draft.duplicate(),
                    );
                    occurrences.push(o);
                }
            },
            RecurrenceExceptionKind::Cancelled => {},
        }
        i += 1;
    }
    assert(exceptions@.take(exceptions.len() as int) =~= exceptions@);
    occurrences
}

} // verus!

//! An in-memory timetable store that keeps its entities consistent: every
//! item refers to a stored category, category names are unique, the last
//! category stays, and a new or revised item never overlaps an occurrence
//! already on the calendar.
use vstd::prelude::*;

use crate::categories::{events_using, exceptions_using, has_category, has_category_id, series_using, category_usage};
use crate::conflict::{
    ScheduleConflict, conflict_of, exception_blocker, find_event_conflict,
    find_exception_conflict, find_series_conflict, occurrences_on, occurrences_overlap,
    series_blocker,
};
use crate::domain::{
    Category, CategoryId, DateRange, Event, EventId, EventOccurrence, OccurrenceId,
    RecurrenceException, RecurrenceExceptionKind, RecurrenceSeries, RecurrenceSeriesId, Settings,
    standalone_occurrence, trim_text, trimmed_text, is_default_settings,
};
use crate::recurrence::{exceptions_for_series, exceptions_of, modified_occurrence};
use crate::store::{
    AppPreferences, PersistenceSnapshot, is_default_app_preferences, find_event_index, find_exception_index, find_series_index,
    first_event_index, first_exception_index, first_series_index,
};
use crate::time::{CivilDate, MAX_EPOCH_DAY};

verus! {

/// Why the store refused a request.
#[derive(Debug)]
pub enum RepositoryError {
    /// An event with the same identifier is stored.
    EventExists,
    /// No event with the identifier is stored.
    EventNotFound,
    /// A category with the same identifier is stored.
    CategoryExists,
    /// No category with the identifier is stored.
    CategoryNotFound,
    /// The item refers to a category that is not stored.
    UnknownCategory,
    /// Another category has the same name, ignoring case and surrounding
    /// whitespace.
    DuplicateCategoryName,
    /// Events, series or modified occurrences still use the category.
    CategoryInUse,
    /// The category is the only one stored.
    LastCategory,
    /// A series with the same identifier is stored.
    SeriesExists,
    /// No series with the identifier is stored.
    SeriesNotFound,
    /// The item overlaps an occurrence already on the calendar.
    ScheduleConflict(ScheduleConflict),
}

/// What `str::to_lowercase` makes of a text.
pub uninterp spec fn lowercased_text(text: Seq<char>) -> Seq<char>;

/// Calls `str::to_lowercase`. The contract names the result and states
/// nothing more of it.
#[verifier::external_body]
pub(crate) fn lowercase_text(text: &str) -> (lower: String)
    ensures
        lower@ == lowercased_text(text@),
{
    text.to_lowercase()
}

/// The key under which category names must be unique: the name without
/// surrounding whitespace, in lower case.
pub open spec fn name_key(name: Seq<char>) -> Seq<char> {
    lowercased_text(trimmed_text(name))
}

/// Returns the uniqueness key of a category name.
pub fn category_name_key(name: &str) -> (key: String)
    ensures
        key@ == name_key(name@),
{
    lowercase_text(trim_text(name))
}

/// Some category other than `except` has a name with key `key`.
pub open spec fn name_taken(categories: Seq<Category>, key: Seq<char>, except: Option<CategoryId>) -> bool {
    exists|i: int|
        0 <= i < categories.len() && except != Some((#[trigger] categories[i]).id) && name_key(
            categories[i].name@,
        ) == key
}

fn name_is_taken(categories: &[Category], key: &String, except: Option<CategoryId>) -> (taken: bool)
    ensures
        taken == name_taken(categories@, key@, except),
{
    let mut i: usize = 0;
    while i < categories.len()
        invariant
            i <= categories.len(),
            forall|k: int|
                0 <= k < i ==> !(except != Some((#[trigger] categories@[k]).id) && name_key(
                    categories@[k].name@,
                ) == key@),
        decreases categories.len() - i,
    {
        if except != Some(categories[i].id) {
            let other = category_name_key(categories[i].name.as_str());
            if other == *key {
                return true;
            }
        }
        i += 1;
    }
    false
}

/// Index of the first category with identifier `id`.
pub open spec fn first_category_index(categories: Seq<Category>, id: CategoryId) -> Option<int>
    decreases categories.len(),
{
    if categories.len() == 0 {
        None
    } else if categories[0].id == id {
        Some(0)
    } else {
        match first_category_index(categories.drop_first(), id) {
            Some(k) => Some(k + 1),
            None => None,
        }
    }
}

proof fn lemma_first_category_index(categories: Seq<Category>, id: CategoryId, i: int)
    requires
        0 <= i <= categories.len(),
        forall|j: int| 0 <= j < i ==> #[trigger] categories[j].id != id,
        i < categories.len() ==> categories[i].id == id,
    ensures
        first_category_index(categories, id) == if i < categories.len() {
            Some(i)
        } else {
            None::<int>
        },
    decreases categories.len(),
{
    if categories.len() > 0 && i > 0 {
        let rest = categories.drop_first();
        assert forall|j: int| 0 <= j < i - 1 implies #[trigger] rest[j].id != id by {
            assert(rest[j] == categories[j + 1]);
        }
        lemma_first_category_index(rest, id, i - 1);
        assert(categories[0].id != id);
    }
}

/// Returns the index of the first category with identifier `id`.
pub fn find_category_index(categories: &[Category], id: CategoryId) -> (index: Option<usize>)
    ensures
        match index {
            Some(i) => first_category_index(categories@, id) == Some(i as int) && i < categories.len(),
            None => first_category_index(categories@, id) is None,
        },
{
    let mut i: usize = 0;
    while i < categories.len()
        invariant
            i <= categories.len(),
            forall|j: int| 0 <= j < i ==> #[trigger] categories@[j].id != id,
        decreases categories.len() - i,
    {
        if categories[i].id == id {
            proof {
                lemma_first_category_index(categories@, id, i as int);
            }
            return Some(i);
        }
        i += 1;
    }
    proof {
        lemma_first_category_index(categories@, id, i as int);
    }
    None
}

/// A stored category exists exactly when the first-index search finds one.
pub(crate) proof fn lemma_category_index_has(categories: Seq<Category>, id: CategoryId)
    ensures
        first_category_index(categories, id) is Some <==> has_category(categories, id),
    decreases categories.len(),
{
    if categories.len() > 0 {
        lemma_category_index_has(categories.drop_first(), id);
        if has_category(categories, id) && categories[0].id != id {
            let i = choose|i: int| 0 <= i < categories.len() && #[trigger] categories[i].id == id;
            assert(categories.drop_first()[i - 1].id == id);
        }
        if has_category(categories.drop_first(), id) {
            let i = choose|i: int|
                0 <= i < categories.drop_first().len() && #[trigger] categories.drop_first()[i].id == id;
            assert(categories[i + 1].id == id);
        }
    }
}

/// The first-index search for a category finds one with that identifier.
pub(crate) proof fn lemma_category_index_id(categories: Seq<Category>, id: CategoryId)
    ensures
        first_category_index(categories, id) matches Some(k) ==> 0 <= k < categories.len()
            && categories[k].id == id,
    decreases categories.len(),
{
    if categories.len() > 0 {
        lemma_category_index_id(categories.drop_first(), id);
    }
}

/// The first-index search for a series finds one with that identifier.
pub proof fn lemma_series_index_id(series: Seq<RecurrenceSeries>, id: RecurrenceSeriesId)
    ensures
        first_series_index(series, id) matches Some(k) ==> 0 <= k < series.len() && series[k].id
            == id,
    decreases series.len(),
{
    if series.len() > 0 {
        lemma_series_index_id(series.drop_first(), id);
    }
}

/// Copies a list of events.
pub fn copy_events(events: &[Event]) -> (copy: Vec<Event>)
    ensures
        copy@ == events@,
{
    let mut copy: Vec<Event> = Vec::new();
    let mut i: usize = 0;
    while i < events.len()
        invariant
            i <= events.len(),
            copy@ =~= events@.take(i as int),
        decreases events.len() - i,
    {
        copy.push(events[i].duplicate());
        i += 1;
    }
    copy
}

/// Copies a list of categories.
pub fn copy_categories(categories: &[Category]) -> (copy: Vec<Category>)
    ensures
        copy@ == categories@,
{
    let mut copy: Vec<Category> = Vec::new();
    let mut i: usize = 0;
    while i < categories.len()
        invariant
            i <= categories.len(),
            copy@ =~= categories@.take(i as int),
        decreases categories.len() - i,
    {
        copy.push(categories[i].duplicate());
        i += 1;
    }
    copy
}

/// Copies a list of series.
pub fn copy_series(series: &[RecurrenceSeries]) -> (copy: Vec<RecurrenceSeries>)
    ensures
        copy@ == series@,
{
    let mut copy: Vec<RecurrenceSeries> = Vec::new();
    let mut i: usize = 0;
    while i < series.len()
        invariant
            i <= series.len(),
            copy@ =~= series@.take(i as int),
        decreases series.len() - i,
    {
        copy.push(series[i].duplicate());
        i += 1;
    }
    copy
}

/// Copies a list of exceptions.
pub fn copy_exceptions(exceptions: &[RecurrenceException]) -> (copy: Vec<RecurrenceException>)
    ensures
        copy@ == exceptions@,
{
    let mut copy: Vec<RecurrenceException> = Vec::new();
    let mut i: usize = 0;
    while i < exceptions.len()
        invariant
            i <= exceptions.len(),
            copy@ =~= exceptions@.take(i as int),
        decreases exceptions.len() - i,
    {
        copy.push(exceptions[i].duplicate());
        i += 1;
    }
    copy
}

/// Two snapshots hold the same data.
pub open spec fn same_data(a: PersistenceSnapshot, b: PersistenceSnapshot) -> bool {
    &&& a.settings == b.settings
    &&& a.preferences == b.preferences
    &&& a.categories@ == b.categories@
    &&& a.events@ == b.events@
    &&& a.recurrence_series@ == b.recurrence_series@
    &&& a.recurrence_exceptions@ == b.recurrence_exceptions@
}

/// Copies a snapshot.
pub fn copy_snapshot(snapshot: &PersistenceSnapshot) -> (copy: PersistenceSnapshot)
    ensures
        same_data(copy, *snapshot),
{
    PersistenceSnapshot {
        settings: snapshot.settings.duplicate(),
        preferences: snapshot.preferences.duplicate(),
        categories: copy_categories(snapshot.categories.as_slice()),
        events: copy_events(snapshot.events.as_slice()),
        recurrence_series: copy_series(snapshot.recurrence_series.as_slice()),
        recurrence_exceptions: copy_exceptions(snapshot.recurrence_exceptions.as_slice()),
    }
}

/// Every event and series refers to a stored category, and every exception
/// to a stored series.
pub open spec fn references_resolve(data: PersistenceSnapshot) -> bool {
    &&& forall|i: int|
        0 <= i < data.events@.len() ==> has_category(
            data.categories@,
            (#[trigger] data.events@[i]).draft.category_id,
        )
    &&& forall|i: int|
        0 <= i < data.recurrence_series@.len() ==> has_category(
            data.categories@,
            (#[trigger] data.recurrence_series@[i]).template.category_id,
        )
    &&& forall|i: int|
        0 <= i < data.recurrence_exceptions@.len() ==> first_series_index(
            data.recurrence_series@,
            (#[trigger] data.recurrence_exceptions@[i]).series_id,
        ) is Some
}

/// Some occurrence on the event's date, other than the event itself,
/// overlaps it.
pub open spec fn event_blocked(candidate: Event, data: PersistenceSnapshot) -> bool {
    let list = occurrences_on(
        candidate.draft.date.day(),
        data.events@,
        data.recurrence_series@,
        data.recurrence_exceptions@,
        Some(candidate.id),
    );
    exists|i: int|
        0 <= i < list.len() && occurrences_overlap(standalone_occurrence(candidate), #[trigger] list[i])
}

/// `k` describes the first occurrence on the event's date that overlaps it.
pub open spec fn first_event_blocker(
    candidate: Event,
    data: PersistenceSnapshot,
    k: ScheduleConflict,
) -> bool {
    let list = occurrences_on(
        candidate.draft.date.day(),
        data.events@,
        data.recurrence_series@,
        data.recurrence_exceptions@,
        Some(candidate.id),
    );
    let c = standalone_occurrence(candidate);
    exists|i: int|
        0 <= i < list.len() && occurrences_overlap(c, #[trigger] list[i]) && k == conflict_of(list[i])
            && forall|j: int| 0 <= j < i ==> !occurrences_overlap(c, #[trigger] list[j])
}

/// Some occurrence on the calendar blocks an occurrence of the series before
/// the last representable day.
pub open spec fn series_blocked(candidate: RecurrenceSeries, data: PersistenceSnapshot) -> bool {
    exists|o: EventOccurrence, b: EventOccurrence|
        #[trigger] series_blocker(
            candidate,
            exceptions_of(data.recurrence_exceptions@, candidate.id),
            data.events@,
            data.recurrence_series@,
            data.recurrence_exceptions@,
            o,
            b,
        ) && o.draft.date.day() < MAX_EPOCH_DAY
}

/// Some occurrence on the calendar blocks some occurrence of the series.
pub open spec fn series_touched(candidate: RecurrenceSeries, data: PersistenceSnapshot) -> bool {
    exists|o: EventOccurrence, b: EventOccurrence|
        #[trigger] series_blocker(
            candidate,
            exceptions_of(data.recurrence_exceptions@, candidate.id),
            data.events@,
            data.recurrence_series@,
            data.recurrence_exceptions@,
            o,
            b,
        )
}

/// `k` describes an occurrence on the calendar that blocks the series.
pub open spec fn series_blocker_found(
    candidate: RecurrenceSeries,
    data: PersistenceSnapshot,
    k: ScheduleConflict,
) -> bool {
    exists|o: EventOccurrence, b: EventOccurrence|
        #[trigger] series_blocker(
            candidate,
            exceptions_of(data.recurrence_exceptions@, candidate.id),
            data.events@,
            data.recurrence_series@,
            data.recurrence_exceptions@,
            o,
            b,
        ) && k == conflict_of(b)
}

/// Some occurrence on the calendar blocks the occurrence that the exception
/// shows, before the last representable day.
pub open spec fn exception_blocked(
    candidate: RecurrenceException,
    series: RecurrenceSeries,
    data: PersistenceSnapshot,
) -> bool {
    exists|c: EventOccurrence, b: EventOccurrence|
        modified_occurrence(series, candidate) == Some(c) && #[trigger] exception_blocker(
            candidate,
            series,
            data.events@,
            data.recurrence_series@,
            data.recurrence_exceptions@,
            c,
            b,
        ) && c.draft.date.day() < MAX_EPOCH_DAY
}

/// Some occurrence on the calendar blocks the occurrence that the exception
/// shows.
pub open spec fn exception_touched(
    candidate: RecurrenceException,
    series: RecurrenceSeries,
    data: PersistenceSnapshot,
) -> bool {
    exists|c: EventOccurrence, b: EventOccurrence|
        modified_occurrence(series, candidate) == Some(c) && #[trigger] exception_blocker(
            candidate,
            series,
            data.events@,
            data.recurrence_series@,
            data.recurrence_exceptions@,
            c,
            b,
        )
}

/// `k` describes an occurrence on the calendar that blocks the exception.
pub open spec fn exception_blocker_found(
    candidate: RecurrenceException,
    series: RecurrenceSeries,
    data: PersistenceSnapshot,
    k: ScheduleConflict,
) -> bool {
    exists|c: EventOccurrence, b: EventOccurrence|
        modified_occurrence(series, candidate) == Some(c) && #[trigger] exception_blocker(
            candidate,
            series,
            data.events@,
            data.recurrence_series@,
            data.recurrence_exceptions@,
            c,
            b,
        ) && k == conflict_of(b)
}

/// The exceptions that do not belong to series `id`, in order.
pub open spec fn exceptions_without(exceptions: Seq<RecurrenceException>, id: RecurrenceSeriesId) -> Seq<
    RecurrenceException,
>
    decreases exceptions.len(),
{
    if exceptions.len() == 0 {
        Seq::empty()
    } else {
        let rest = exceptions_without(exceptions.drop_last(), id);
        if exceptions.last().series_id == id {
            rest
        } else {
            rest.push(exceptions.last())
        }
    }
}

fn drop_series_exceptions(exceptions: &[RecurrenceException], id: RecurrenceSeriesId) -> (kept: Vec<
    RecurrenceException,
>)
    ensures
        kept@ == exceptions_without(exceptions@, id),
{
    let mut kept: Vec<RecurrenceException> = Vec::new();
    let mut i: usize = 0;
    while i < exceptions.len()
        invariant
            i <= exceptions.len(),
            kept@ == exceptions_without(exceptions@.take(i as int), id),
        decreases exceptions.len() - i,
    {
        assert(exceptions@.take(i as int + 1).drop_last() =~= exceptions@.take(i as int));
        if exceptions[i].series_id != id {
            kept.push(exceptions[i].duplicate());
        }
        i += 1;
    }
    assert(exceptions@.take(exceptions.len() as int) =~= exceptions@);
    kept
}

/// A category stays stored when one is added, when one is replaced by a
/// category with the same identifier, and when another one is removed.
proof fn lemma_category_kept(before: Seq<Category>, after: Seq<Category>, id: CategoryId, k: int, c: Category)
    requires
        has_category(before, id),
        after == before.push(c) || (0 <= k < before.len() && c.id == before[k].id && after
            == before.update(k, c)) || (0 <= k < before.len() && before[k].id != id && after
            == before.remove(k)),
    ensures
        has_category(after, id),
{
    let i = choose|i: int| 0 <= i < before.len() && #[trigger] before[i].id == id;
    if after == before.push(c) {
        assert(after[i] == before[i]);
    } else if 0 <= k < before.len() && c.id == before[k].id && after == before.update(k, c) {
        assert(after[i].id == id);
    } else if i < k {
        assert(after[i] == before[i]);
    } else {
        assert(after[i - 1] == before[i]);
    }
}

/// First-index search finds a series exactly when one has the identifier.
proof fn lemma_series_index_exists(series: Seq<RecurrenceSeries>, id: RecurrenceSeriesId)
    ensures
        first_series_index(series, id) is Some <==> exists|j: int|
            0 <= j < series.len() && #[trigger] series[j].id == id,
    decreases series.len(),
{
    if series.len() > 0 {
        let rest = series.drop_first();
        lemma_series_index_exists(rest, id);
        if exists|j: int| 0 <= j < series.len() && #[trigger] series[j].id == id {
            if series[0].id != id {
                let j = choose|j: int| 0 <= j < series.len() && #[trigger] series[j].id == id;
                assert(rest[j - 1].id == id);
            }
        }
        if first_series_index(series, id) is Some && series[0].id != id {
            let j = choose|j: int| 0 <= j < rest.len() && #[trigger] rest[j].id == id;
            assert(series[j + 1].id == id);
        }
    }
}

/// A series stays stored when one is added, when one is replaced by a
/// series with the same identifier, and when another one is removed.
proof fn lemma_series_kept(
    before: Seq<RecurrenceSeries>,
    after: Seq<RecurrenceSeries>,
    id: RecurrenceSeriesId,
    k: int,
    s: RecurrenceSeries,
)
    requires
        first_series_index(before, id) is Some,
        after == before.push(s) || (0 <= k < before.len() && s.id == before[k].id && after
            == before.update(k, s)) || (0 <= k < before.len() && before[k].id != id && after
            == before.remove(k)),
    ensures
        first_series_index(after, id) is Some,
{
    lemma_series_index_exists(before, id);
    lemma_series_index_exists(after, id);
    let i = choose|i: int| 0 <= i < before.len() && #[trigger] before[i].id == id;
    if after == before.push(s) {
        assert(after[i] == before[i]);
    } else if 0 <= k < before.len() && s.id == before[k].id && after == before.update(k, s) {
        assert(after[i].id == id);
    } else if i < k {
        assert(after[i] == before[i]);
    } else {
        assert(after[i - 1] == before[i]);
    }
}

/// Dropping a series' exceptions keeps only exceptions of other series,
/// each one a stored exception.
proof fn lemma_exceptions_without(exceptions: Seq<RecurrenceException>, id: RecurrenceSeriesId)
    ensures
        forall|i: int|
            0 <= i < exceptions_without(exceptions, id).len() ==> (#[trigger] exceptions_without(
                exceptions,
                id,
            )[i]).series_id != id && exceptions.contains(exceptions_without(exceptions, id)[i]),
    decreases exceptions.len(),
{
    if exceptions.len() > 0 {
        let prefix = exceptions.drop_last();
        lemma_exceptions_without(prefix, id);
        let rest = exceptions_without(prefix, id);
        assert forall|i: int| 0 <= i < rest.len() implies exceptions.contains(#[trigger] rest[i]) by {
            let j = choose|j: int| 0 <= j < prefix.len() && prefix[j] == rest[i];
            assert(exceptions[j] == prefix[j]);
        }
        assert(exceptions[exceptions.len() - 1] == exceptions.last());
    }
}

/// Exceptions that all refer to stored series keep doing so when the list
/// of exceptions shrinks to a part of it.
proof fn lemma_exceptions_resolve(
    series: Seq<RecurrenceSeries>,
    before: Seq<RecurrenceException>,
    after: Seq<RecurrenceException>,
)
    requires
        forall|i: int|
            0 <= i < before.len() ==> first_series_index(series, (#[trigger] before[i]).series_id)
                is Some,
        forall|i: int| 0 <= i < after.len() ==> before.contains(#[trigger] after[i]),
    ensures
        forall|i: int|
            0 <= i < after.len() ==> first_series_index(series, (#[trigger] after[i]).series_id)
                is Some,
{
    assert forall|i: int| 0 <= i < after.len() implies first_series_index(
        series,
        (#[trigger] after[i]).series_id,
    ) is Some by {
        let j = choose|j: int| 0 <= j < before.len() && before[j] == after[i];
        assert(first_series_index(series, before[j].series_id) is Some);
    }
}

/// Events that all refer to stored categories keep doing so when one with a
/// stored category is added or replaces another, or when one is removed.
proof fn lemma_events_resolve(
    categories: Seq<Category>,
    before: Seq<Event>,
    after: Seq<Event>,
    k: int,
    e: Event,
)
    requires
        forall|i: int|
            0 <= i < before.len() ==> has_category(categories, (#[trigger] before[i]).draft.category_id),
        has_category(categories, e.draft.category_id),
        after == before.push(e) || (0 <= k < before.len() && after == before.update(k, e)) || (0 <= k
            < before.len() && after == before.remove(k)),
    ensures
        forall|i: int|
            0 <= i < after.len() ==> has_category(categories, (#[trigger] after[i]).draft.category_id),
{
    assert forall|i: int| 0 <= i < after.len() implies has_category(
        categories,
        (#[trigger] after[i]).draft.category_id,
    ) by {
        if after == before.push(e) {
            if i < before.len() {
                assert(after[i] == before[i]);
            }
        } else if 0 <= k < before.len() && after == before.update(k, e) {
            if i != k {
                assert(after[i] == before[i]);
            }
        } else if i < k {
            assert(after[i] == before[i]);
        } else {
            assert(after[i] == before[i + 1]);
        }
    }
}

/// Series that all refer to stored categories keep doing so when one with a
/// stored category is added or replaces another, or when one is removed.
proof fn lemma_templates_resolve(
    categories: Seq<Category>,
    before: Seq<RecurrenceSeries>,
    after: Seq<RecurrenceSeries>,
    k: int,
    s: RecurrenceSeries,
)
    requires
        forall|i: int|
            0 <= i < before.len() ==> has_category(
                categories,
                (#[trigger] before[i]).template.category_id,
            ),
        has_category(categories, s.template.category_id),
        after == before.push(s) || (0 <= k < before.len() && after == before.update(k, s)) || (0 <= k
            < before.len() && after == before.remove(k)),
    ensures
        forall|i: int|
            0 <= i < after.len() ==> has_category(categories, (#[trigger] after[i]).template.category_id),
{
    assert forall|i: int| 0 <= i < after.len() implies has_category(
        categories,
        (#[trigger] after[i]).template.category_id,
    ) by {
        if after == before.push(s) {
            if i < before.len() {
                assert(after[i] == before[i]);
            }
        } else if 0 <= k < before.len() && after == before.update(k, s) {
            if i != k {
                assert(after[i] == before[i]);
            }
        } else if i < k {
            assert(after[i] == before[i]);
        } else {
            assert(after[i] == before[i + 1]);
        }
    }
}

/// Exceptions that all refer to stored series keep doing so when a series
/// is added or replaced by one with the same identifier.
proof fn lemma_exceptions_follow_series(
    before: Seq<RecurrenceSeries>,
    after: Seq<RecurrenceSeries>,
    exceptions: Seq<RecurrenceException>,
    k: int,
    s: RecurrenceSeries,
)
    requires
        forall|i: int|
            0 <= i < exceptions.len() ==> first_series_index(
                before,
                (#[trigger] exceptions[i]).series_id,
            ) is Some,
        after == before.push(s) || (0 <= k < before.len() && s.id == before[k].id && after
            == before.update(k, s)),
    ensures
        forall|i: int|
            0 <= i < exceptions.len() ==> first_series_index(
                after,
                (#[trigger] exceptions[i]).series_id,
            ) is Some,
{
    assert forall|i: int| 0 <= i < exceptions.len() implies first_series_index(
        after,
        (#[trigger] exceptions[i]).series_id,
    ) is Some by {
        lemma_series_kept(before, after, exceptions[i].series_id, k, s);
    }
}

/// References stay resolved when a category is added, replaced by one with
/// the same identifier, or removed while no event or series uses it.
proof fn lemma_category_change_resolves(
    before: PersistenceSnapshot,
    after: PersistenceSnapshot,
    k: int,
    c: Category,
)
    requires
        references_resolve(before),
        after.events == before.events,
        after.recurrence_series == before.recurrence_series,
        after.recurrence_exceptions == before.recurrence_exceptions,
        after.categories@ == before.categories@.push(c) || (0 <= k < before.categories@.len() && c.id
            == before.categories@[k].id && after.categories@ == before.categories@.update(k, c)) || (0
            <= k < before.categories@.len() && after.categories@ == before.categories@.remove(k)
            && events_using(before.events@, before.categories@[k].id) == 0 && series_using(
            before.recurrence_series@,
            before.categories@[k].id,
        ) == 0),
    ensures
        references_resolve(after),
{
    let removing = !(after.categories@ == before.categories@.push(c)) && !(0 <= k
        < before.categories@.len() && c.id == before.categories@[k].id && after.categories@
        == before.categories@.update(k, c));
    if removing {
        crate::categories::lemma_events_using_zero(before.events@, before.categories@[k].id);
        crate::categories::lemma_series_using_zero(before.recurrence_series@, before.categories@[k].id);
    }
    assert forall|i: int| 0 <= i < after.events@.len() implies has_category(
        after.categories@,
        (#[trigger] after.events@[i]).draft.category_id,
    ) by {
        lemma_category_kept(
            before.categories@,
            after.categories@,
            before.events@[i].draft.category_id,
            k,
            c,
        );
    }
    assert forall|i: int| 0 <= i < after.recurrence_series@.len() implies has_category(
        after.categories@,
        (#[trigger] after.recurrence_series@[i]).template.category_id,
    ) by {
        lemma_category_kept(
            before.categories@,
            after.categories@,
            before.recurrence_series@[i].template.category_id,
            k,
            c,
        );
    }
}

/// No stored event has an identifier that first-index search misses.
proof fn lemma_event_index_none(events: Seq<Event>, id: EventId)
    ensures
        first_event_index(events, id) is None ==> forall|j: int|
            0 <= j < events.len() ==> #[trigger] events[j].id != id,
    decreases events.len(),
{
    if events.len() > 0 {
        lemma_event_index_none(events.drop_first(), id);
        assert forall|j: int| 1 <= j < events.len() implies events[j] == events.drop_first()[j - 1] by {}
    }
}

/// Deleting an event right after creating it gives the event back and
/// leaves the stored events as they were.
pub proof fn lemma_delete_undoes_create_event(events: Seq<Event>, event: Event)
    requires
        first_event_index(events, event.id) is None,
    ensures
        first_event_index(events.push(event), event.id) == Some(events.len() as int),
        events.push(event)[events.len() as int] == event,
        events.push(event).remove(events.len() as int) == events,
{
    lemma_event_index_none(events, event.id);
    let grown = events.push(event);
    assert forall|j: int| 0 <= j < events.len() implies #[trigger] grown[j].id != event.id by {
        assert(grown[j] == events[j]);
    }
    crate::store::lemma_first_event_index(grown, event.id, events.len() as int);
    assert(grown.remove(events.len() as int) =~= events);
}

/// Deleting a series right after creating it gives the series back and
/// leaves the stored series and exceptions as they were, when every
/// exception refers to a stored series.
pub proof fn lemma_delete_undoes_create_series(
    series: Seq<RecurrenceSeries>,
    exceptions: Seq<RecurrenceException>,
    added: RecurrenceSeries,
)
    requires
        first_series_index(series, added.id) is None,
        forall|i: int|
            0 <= i < exceptions.len() ==> first_series_index(series, (#[trigger] exceptions[i]).series_id)
                is Some,
    ensures
        first_series_index(series.push(added), added.id) == Some(series.len() as int),
        series.push(added)[series.len() as int] == added,
        series.push(added).remove(series.len() as int) == series,
        exceptions_without(exceptions, added.id) == exceptions,
{
    lemma_series_index_exists(series, added.id);
    let grown = series.push(added);
    assert forall|j: int| 0 <= j < series.len() implies #[trigger] grown[j].id != added.id by {
        assert(grown[j] == series[j]);
    }
    crate::store::lemma_first_series_index(grown, added.id, series.len() as int);
    assert(grown.remove(series.len() as int) =~= series);
    assert forall|i: int| 0 <= i < exceptions.len() implies (#[trigger] exceptions[i]).series_id != added.id by {
        if exceptions[i].series_id == added.id {
            assert(first_series_index(series, exceptions[i].series_id) is Some);
        }
    }
    lemma_exceptions_without_other(exceptions, added.id);
}

/// Deleting a category right after creating it gives the category back and
/// leaves the stored categories as they were.
pub proof fn lemma_delete_undoes_create_category(categories: Seq<Category>, category: Category)
    requires
        first_category_index(categories, category.id) is None,
    ensures
        first_category_index(categories.push(category), category.id) == Some(categories.len() as int),
        categories.push(category)[categories.len() as int] == category,
        categories.push(category).remove(categories.len() as int) == categories,
{
    lemma_category_index_has(categories, category.id);
    let grown = categories.push(category);
    assert forall|j: int| 0 <= j < categories.len() implies #[trigger] grown[j].id != category.id by {
        assert(grown[j] == categories[j]);
    }
    lemma_first_category_index(grown, category.id, categories.len() as int);
    assert(grown.remove(categories.len() as int) =~= categories);
}

/// Dropping the exceptions of a series that none of them belongs to keeps
/// them all.
proof fn lemma_exceptions_without_other(exceptions: Seq<RecurrenceException>, id: RecurrenceSeriesId)
    requires
        forall|i: int| 0 <= i < exceptions.len() ==> (#[trigger] exceptions[i]).series_id != id,
    ensures
        exceptions_without(exceptions, id) == exceptions,
    decreases exceptions.len(),
{
    if exceptions.len() > 0 {
        let prefix = exceptions.drop_last();
        assert forall|i: int| 0 <= i < prefix.len() implies (#[trigger] prefix[i]).series_id != id by {
            assert(prefix[i] == exceptions[i]);
        }
        lemma_exceptions_without_other(prefix, id);
        assert(exceptions.last() == exceptions[exceptions.len() - 1]);
        assert(prefix.push(exceptions.last()) =~= exceptions);
    }
}

/// A timetable held in memory.
pub struct InMemoryRepository {
    pub data: PersistenceSnapshot,
}

impl InMemoryRepository {
    /// An empty store with `settings` and the default preferences.
    pub fn new(settings: Settings) -> (repository: InMemoryRepository)
        ensures
            repository.data.settings == settings,
            is_default_app_preferences(repository.data.preferences),
            repository.data.categories@.len() == 0,
            repository.data.events@.len() == 0,
            repository.data.recurrence_series@.len() == 0,
            repository.data.recurrence_exceptions@.len() == 0,
            references_resolve(repository.data),
    {
        InMemoryRepository {
            data: PersistenceSnapshot {
                settings,
                preferences: AppPreferences::default_preferences(),
                categories: Vec::new(),
                events: Vec::new(),
                recurrence_series: Vec::new(),
                recurrence_exceptions: Vec::new(),
            },
        }
    }

    /// An empty store with the default settings and preferences.
    pub fn with_defaults() -> (repository: InMemoryRepository)
        ensures
            is_default_settings(repository.data.settings),
            is_default_app_preferences(repository.data.preferences),
            repository.data.categories@.len() == 0,
            repository.data.events@.len() == 0,
            repository.data.recurrence_series@.len() == 0,
            repository.data.recurrence_exceptions@.len() == 0,
            references_resolve(repository.data),
    {
        InMemoryRepository::new(Settings::default_settings())
    }

    /// A store holding a copy of `snapshot`, which may hold overlapping
    /// items but must have its references resolved.
    pub fn from_snapshot(snapshot: &PersistenceSnapshot) -> (result: Result<
        InMemoryRepository,
        RepositoryError,
    >)
        ensures
            result is Ok <==> references_resolve(*snapshot),
            result matches Ok(r) ==> same_data(r.data, *snapshot),
            result matches Err(e) ==> e is UnknownCategory || e is SeriesNotFound,
    {
        let cats = snapshot.categories.as_slice();
        let mut i: usize = 0;
        while i < snapshot.events.len()
            invariant
                i <= snapshot.events.len(),
                cats@ == snapshot.categories@,
                forall|k: int|
                    0 <= k < i ==> has_category(
                        snapshot.categories@,
                        (#[trigger] snapshot.events@[k]).draft.category_id,
                    ),
            decreases snapshot.events.len() - i,
        {
            if !has_category_id(cats, snapshot.events[i].draft.category_id) {
                return Err(RepositoryError::UnknownCategory);
            }
            i += 1;
        }
        let mut k: usize = 0;
        while k < snapshot.recurrence_series.len()
            invariant
                k <= snapshot.recurrence_series.len(),
                cats@ == snapshot.categories@,
                forall|m: int|
                    0 <= m < k ==> has_category(
                        snapshot.categories@,
                        (#[trigger] snapshot.recurrence_series@[m]).template.category_id,
                    ),
            decreases snapshot.recurrence_series.len() - k,
        {
            if !has_category_id(cats, snapshot.recurrence_series[k].template.category_id) {
                return Err(RepositoryError::UnknownCategory);
            }
            k += 1;
        }
        let mut j: usize = 0;
        while j < snapshot.recurrence_exceptions.len()
            invariant
                j <= snapshot.recurrence_exceptions.len(),
                forall|m: int|
                    0 <= m < j ==> first_series_index(
                        snapshot.recurrence_series@,
                        (#[trigger] snapshot.recurrence_exceptions@[m]).series_id,
                    ) is Some,
            decreases snapshot.recurrence_exceptions.len() - j,
        {
            if find_series_index(
                snapshot.recurrence_series.as_slice(),
                snapshot.recurrence_exceptions[j].series_id,
            ).is_none() {
                return Err(RepositoryError::SeriesNotFound);
            }
            j += 1;
        }
        Ok(InMemoryRepository { data: copy_snapshot(snapshot) })
    }

    /// A copy of everything stored.
    pub fn snapshot(&self) -> (result: Result<PersistenceSnapshot, RepositoryError>)
        ensures
            result matches Ok(s) && same_data(s, self.data),
    {
        Ok(copy_snapshot(&self.data))
    }

    /// Looks up one event.
    pub fn event(&self, id: EventId) -> (result: Result<Option<Event>, RepositoryError>)
        ensures
            result matches Ok(found) && found == match first_event_index(self.data.events@, id) {
                Some(i) => Some(self.data.events@[i]),
                None => None,
            },
    {
        match find_event_index(self.data.events.as_slice(), id) {
            Some(i) => Ok(Some(self.data.events[i].duplicate())),
            None => Ok(None),
        }
    }

    /// Lists the events whose dates fall in `range`, in stored order.
    pub fn events(&self, range: DateRange) -> (result: Result<Vec<Event>, RepositoryError>)
        ensures
            result matches Ok(v) && v@ == crate::store::events_in_range(self.data.events@, range),
    {
        Ok(self.data.events_in(range))
    }

    /// Lists the standalone and recurring occurrences in `range`, in
    /// occurrence order.
    pub fn occurrences(&self, range: DateRange) -> (result: Result<Vec<EventOccurrence>, RepositoryError>)
        ensures
            result matches Ok(v) && crate::store::occurrences_sorted(v@) && v@.to_multiset() == (
            crate::store::standalone_in_range(self.data.events@, range) + crate::store::expansions_in_range(
                self.data.recurrence_series@,
                self.data.recurrence_exceptions@,
                range.start.day(),
                range.end.day(),
            )).to_multiset(),
    {
        Ok(self.data.occurrences(range))
    }

    /// Looks up one standalone or recurring occurrence.
    pub fn occurrence(&self, id: OccurrenceId) -> (result: Result<Option<EventOccurrence>, RepositoryError>)
        ensures
            result matches Ok(found) && found == crate::store::lookup_occurrence(
                self.data.events@,
                self.data.recurrence_series@,
                self.data.recurrence_exceptions@,
                id,
            ),
    {
        Ok(self.data.occurrence(id))
    }

    /// Stores a new event. It must have a new identifier, a stored category,
    /// and overlap nothing on its date.
    pub fn create_event(&mut self, event: Event) -> (result: Result<(), RepositoryError>)
        ensures
            first_event_index(old(self).data.events@, event.id) is Some ==> (result matches Err(RepositoryError::EventExists)),
            first_event_index(old(self).data.events@, event.id) is None && !has_category(
                old(self).data.categories@,
                event.draft.category_id,
            ) ==> (result matches Err(RepositoryError::UnknownCategory)),
            first_event_index(old(self).data.events@, event.id) is None && has_category(
                old(self).data.categories@,
                event.draft.category_id,
            ) ==> (result is Ok <==> !event_blocked(event, old(self).data)),
            result matches Err(e) ==> (e matches RepositoryError::ScheduleConflict(k)
                ==> first_event_blocker(event, old(self).data, k)),
            result is Err ==> *final(self) == *old(self),
            result is Ok ==> final(self).data.events@ == old(self).data.events@.push(event)
                && final(self).data.categories == old(self).data.categories
                && final(self).data.recurrence_series == old(self).data.recurrence_series
                && final(self).data.recurrence_exceptions == old(self).data.recurrence_exceptions
                && final(self).data.settings == old(self).data.settings
                && final(self).data.preferences == old(self).data.preferences,
            result is Ok ==> forall|i: int|
                0 <= i < old(self).data.events@.len() && old(self).data.events@[i].id != event.id
                    ==> !occurrences_overlap(
                    standalone_occurrence(event),
                    #[trigger] standalone_occurrence(old(self).data.events@[i]),
                ),
            references_resolve(old(self).data) ==> references_resolve(final(self).data),
    {
        if find_event_index(self.data.events.as_slice(), event.id).is_some() {
            return Err(RepositoryError::EventExists);
        }
        if !has_category_id(self.data.categories.as_slice(), event.draft.category_id) {
            return Err(RepositoryError::UnknownCategory);
        }
        match find_event_conflict(
            &event,
            self.data.events.as_slice(),
            self.data.recurrence_series.as_slice(),
            self.data.recurrence_exceptions.as_slice(),
        ) {
            Some(k) => Err(RepositoryError::ScheduleConflict(k)),
            None => {
                let ghost before = self.data;
                let ghost e = event;
                self.data.events.push(event);
                proof {
                    if references_resolve(before) {
                        lemma_events_resolve(before.categories@, before.events@, self.data.events@, 0, e);
                    }
                }
                Ok(())
            },
        }
    }

    /// Replaces a stored event. It must keep a stored category and overlap
    /// nothing on its date but itself.
    pub fn update_event(&mut self, event: Event) -> (result: Result<(), RepositoryError>)
        ensures
            first_event_index(old(self).data.events@, event.id) is None ==> (result matches Err(RepositoryError::EventNotFound)),
            first_event_index(old(self).data.events@, event.id) is Some && !has_category(
                old(self).data.categories@,
                event.draft.category_id,
            ) ==> (result matches Err(RepositoryError::UnknownCategory)),
            first_event_index(old(self).data.events@, event.id) is Some && has_category(
                old(self).data.categories@,
                event.draft.category_id,
            ) ==> (result is Ok <==> !event_blocked(event, old(self).data)),
            result matches Err(e) ==> (e matches RepositoryError::ScheduleConflict(k)
                ==> first_event_blocker(event, old(self).data, k)),
            result is Err ==> *final(self) == *old(self),
            result is Ok ==> final(self).data.events@ == old(self).data.events@.update(
                first_event_index(old(self).data.events@, event.id)->0,
                event,
            ) && final(self).data.categories == old(self).data.categories
                && final(self).data.recurrence_series == old(self).data.recurrence_series
                && final(self).data.recurrence_exceptions == old(self).data.recurrence_exceptions
                && final(self).data.settings == old(self).data.settings
                && final(self).data.preferences == old(self).data.preferences,
            result is Ok ==> forall|i: int|
                0 <= i < old(self).data.events@.len() && old(self).data.events@[i].id != event.id
                    ==> !occurrences_overlap(
                    standalone_occurrence(event),
                    #[trigger] standalone_occurrence(old(self).data.events@[i]),
                ),
            references_resolve(old(self).data) ==> references_resolve(final(self).data),
    {
        let index = match find_event_index(self.data.events.as_slice(), event.id) {
            Some(i) => i,
            None => return Err(RepositoryError::EventNotFound),
        };
        if !has_category_id(self.data.categories.as_slice(), event.draft.category_id) {
            return Err(RepositoryError::UnknownCategory);
        }
        match find_event_conflict(
            &event,
            self.data.events.as_slice(),
            self.data.recurrence_series.as_slice(),
            self.data.recurrence_exceptions.as_slice(),
        ) {
            Some(k) => Err(RepositoryError::ScheduleConflict(k)),
            None => {
                let ghost before = self.data;
                let ghost e = event;
                self.data.events.set(index, event);
                proof {
                    if references_resolve(before) {
                        lemma_events_resolve(
                            before.categories@,
                            before.events@,
                            self.data.events@,
                            index as int,
                            e,
                        );
                    }
                }
                Ok(())
            },
        }
    }

    /// Removes a stored event and returns it.
    pub fn delete_event(&mut self, id: EventId) -> (result: Result<Event, RepositoryError>)
        ensures
            first_event_index(old(self).data.events@, id) is None ==> (result matches Err(RepositoryError::EventNotFound)) && *final(self) == *old(self),
            first_event_index(old(self).data.events@, id) matches Some(i) ==> result matches Ok(e)
                && e == old(self).data.events@[i] && final(self).data.events@ == old(
                self,
            ).data.events@.remove(i) && final(self).data.categories == old(self).data.categories
                && final(self).data.recurrence_series == old(self).data.recurrence_series
                && final(self).data.recurrence_exceptions == old(self).data.recurrence_exceptions
                && final(self).data.settings == old(self).data.settings
                && final(self).data.preferences == old(self).data.preferences,
            references_resolve(old(self).data) ==> references_resolve(final(self).data),
    {
        match find_event_index(self.data.events.as_slice(), id) {
            Some(i) => {
                let ghost before = self.data;
                let removed = self.data.events.remove(i);
                proof {
                    if references_resolve(before) {
                        lemma_events_resolve(
                            before.categories@,
                            before.events@,
                            self.data.events@,
                            i as int,
                            before.events@[i as int],
                        );
                    }
                }
                Ok(removed)
            },
            None => Err(RepositoryError::EventNotFound),
        }
    }

    /// Lists the stored categories.
    pub fn categories(&self) -> (result: Result<Vec<Category>, RepositoryError>)
        ensures
            result matches Ok(v) && v@ == self.data.categories@,
    {
        Ok(copy_categories(self.data.categories.as_slice()))
    }

    /// Looks up one category.
    pub fn category(&self, id: CategoryId) -> (result: Result<Option<Category>, RepositoryError>)
        ensures
            result matches Ok(found) && found == match first_category_index(
                self.data.categories@,
                id,
            ) {
                Some(i) => Some(self.data.categories@[i]),
                None => None,
            },
    {
        match find_category_index(self.data.categories.as_slice(), id) {
            Some(i) => Ok(Some(self.data.categories[i].duplicate())),
            None => Ok(None),
        }
    }

    /// Stores a new category with a new identifier and a name that no stored
    /// category has, ignoring case and surrounding whitespace.
    pub fn create_category(&mut self, category: Category) -> (result: Result<(), RepositoryError>)
        ensures
            first_category_index(old(self).data.categories@, category.id) is Some ==> (result matches Err(RepositoryError::CategoryExists)),
            first_category_index(old(self).data.categories@, category.id) is None && name_taken(
                old(self).data.categories@,
                name_key(category.name@),
                None,
            ) ==> (result matches Err(RepositoryError::DuplicateCategoryName)),
            first_category_index(old(self).data.categories@, category.id) is None && !name_taken(
                old(self).data.categories@,
                name_key(category.name@),
                None,
            ) ==> result is Ok,
            result is Err ==> *final(self) == *old(self),
            result is Ok ==> final(self).data.categories@ == old(self).data.categories@.push(
                category,
            ) && final(self).data.events == old(self).data.events
                && final(self).data.recurrence_series == old(self).data.recurrence_series
                && final(self).data.recurrence_exceptions == old(self).data.recurrence_exceptions
                && final(self).data.settings == old(self).data.settings
                && final(self).data.preferences == old(self).data.preferences,
            references_resolve(old(self).data) ==> references_resolve(final(self).data),
    {
        if find_category_index(self.data.categories.as_slice(), category.id).is_some() {
            return Err(RepositoryError::CategoryExists);
        }
        let key = category_name_key(category.name.as_str());
        if name_is_taken(self.data.categories.as_slice(), &key, None) {
            return Err(RepositoryError::DuplicateCategoryName);
        }
        let ghost before = self.data;
        let ghost c = category;
        self.data.categories.push(category);
        proof {
            if references_resolve(before) {
                lemma_category_change_resolves(before, self.data, 0, c);
            }
        }
        Ok(())
    }

    /// Replaces a stored category; its name must differ from every other
    /// category's, ignoring case and surrounding whitespace.
    pub fn update_category(&mut self, category: Category) -> (result: Result<(), RepositoryError>)
        ensures
            first_category_index(old(self).data.categories@, category.id) is None ==> (result matches Err(RepositoryError::CategoryNotFound)),
            first_category_index(old(self).data.categories@, category.id) is Some && name_taken(
                old(self).data.categories@,
                name_key(category.name@),
                Some(category.id),
            ) ==> (result matches Err(RepositoryError::DuplicateCategoryName)),
            first_category_index(old(self).data.categories@, category.id) is Some && !name_taken(
                old(self).data.categories@,
                name_key(category.name@),
                Some(category.id),
            ) ==> result is Ok,
            result is Err ==> *final(self) == *old(self),
            result is Ok ==> final(self).data.categories@ == old(self).data.categories@.update(
                first_category_index(old(self).data.categories@, category.id)->0,
                category,
            ) && final(self).data.events == old(self).data.events
                && final(self).data.recurrence_series == old(self).data.recurrence_series
                && final(self).data.recurrence_exceptions == old(self).data.recurrence_exceptions
                && final(self).data.settings == old(self).data.settings
                && final(self).data.preferences == old(self).data.preferences,
            references_resolve(old(self).data) ==> references_resolve(final(self).data),
    {
        let index = match find_category_index(self.data.categories.as_slice(), category.id) {
            Some(i) => i,
            None => return Err(RepositoryError::CategoryNotFound),
        };
        let key = category_name_key(category.name.as_str());
        if name_is_taken(self.data.categories.as_slice(), &key, Some(category.id)) {
            return Err(RepositoryError::DuplicateCategoryName);
        }
        let ghost before = self.data;
        let ghost c = category;
        proof {
            lemma_category_index_id(before.categories@, c.id);
        }
        self.data.categories.set(index, category);
        proof {
            if references_resolve(before) {
                lemma_category_change_resolves(before, self.data, index as int, c);
            }
        }
        Ok(())
    }

    /// Removes a stored category that nothing uses and that is not the last
    /// one, and returns it.
    pub fn delete_category(&mut self, id: CategoryId) -> (result: Result<Category, RepositoryError>)
        ensures
            ({
                let before = old(self).data;
                let used = events_using(before.events@, id) + series_using(
                    before.recurrence_series@,
                    id,
                ) + exceptions_using(before.recurrence_exceptions@, id) > 0;
                &&& first_category_index(before.categories@, id) is None ==> (result matches Err(RepositoryError::CategoryNotFound))
                &&& first_category_index(before.categories@, id) is Some && used ==> (result matches Err(RepositoryError::CategoryInUse))
                &&& first_category_index(before.categories@, id) is Some && !used
                    && before.categories@.len() == 1 ==> (result matches Err(RepositoryError::LastCategory))
                &&& result is Err ==> *final(self) == *old(self)
                &&& first_category_index(before.categories@, id) is Some && !used
                    && before.categories@.len() != 1 ==> (result matches Ok(c) && c
                    == before.categories@[first_category_index(before.categories@, id)->0]
                    && final(self).data.categories@ == before.categories@.remove(
                    first_category_index(before.categories@, id)->0,
                ) && final(self).data.events == before.events
                    && final(self).data.recurrence_series == before.recurrence_series
                    && final(self).data.recurrence_exceptions == before.recurrence_exceptions
                    && final(self).data.settings == before.settings
                    && final(self).data.preferences == before.preferences)
            }),
            references_resolve(old(self).data) ==> references_resolve(final(self).data),
    {
        let index = match find_category_index(self.data.categories.as_slice(), id) {
            Some(i) => i,
            None => return Err(RepositoryError::CategoryNotFound),
        };
        let usage = category_usage(&self.data, id);
        if usage.events > 0 || usage.series > 0 || usage.exceptions > 0 {
            return Err(RepositoryError::CategoryInUse);
        }
        if self.data.categories.len() == 1 {
            return Err(RepositoryError::LastCategory);
        }
        let ghost before = self.data;
        proof {
            lemma_category_index_id(before.categories@, id);
        }
        let removed = self.data.categories.remove(index);
        proof {
            if references_resolve(before) {
                lemma_category_change_resolves(before, self.data, index as int, removed);
            }
        }
        Ok(removed)
    }

    /// Lists the stored series.
    pub fn recurrence_series(&self) -> (result: Result<Vec<RecurrenceSeries>, RepositoryError>)
        ensures
            result matches Ok(v) && v@ == self.data.recurrence_series@,
    {
        Ok(copy_series(self.data.recurrence_series.as_slice()))
    }

    /// Looks up one series.
    pub fn series(&self, id: RecurrenceSeriesId) -> (result: Result<Option<RecurrenceSeries>, RepositoryError>)
        ensures
            result matches Ok(found) && found == match first_series_index(
                self.data.recurrence_series@,
                id,
            ) {
                Some(i) => Some(self.data.recurrence_series@[i]),
                None => None,
            },
    {
        match find_series_index(self.data.recurrence_series.as_slice(), id) {
            Some(i) => Ok(Some(self.data.recurrence_series[i].duplicate())),
            None => Ok(None),
        }
    }

    /// Lists the stored exceptions.
    pub fn recurrence_exceptions(&self) -> (result: Result<Vec<RecurrenceException>, RepositoryError>)
        ensures
            result matches Ok(v) && v@ == self.data.recurrence_exceptions@,
    {
        Ok(copy_exceptions(self.data.recurrence_exceptions.as_slice()))
    }

    /// Stores a new series with a new identifier and a stored category whose
    /// occurrences overlap nothing on the calendar.
    pub fn create_series(&mut self, series: RecurrenceSeries) -> (result: Result<(), RepositoryError>)
        ensures
            ({
                let before = old(self).data;
                let fresh = first_series_index(before.recurrence_series@, series.id) is None;
                let known = has_category(before.categories@, series.template.category_id);
                &&& !fresh ==> (result matches Err(RepositoryError::SeriesExists))
                &&& fresh && !known ==> (result matches Err(RepositoryError::UnknownCategory))
                &&& fresh && known && series_blocked(series, before) ==> result is Err
                &&& fresh && known && !series_touched(series, before) ==> result is Ok
                &&& result matches Err(e) ==> (e matches RepositoryError::ScheduleConflict(k)
                    ==> series_blocker_found(series, before, k))
                &&& result is Ok ==> fresh && known && !series_blocked(series, before)
                &&& result is Err ==> *final(self) == *old(self)
                &&& result is Ok ==> final(self).data.recurrence_series@
                    == before.recurrence_series@.push(series) && final(self).data.events
                    == before.events && final(self).data.categories == before.categories
                    && final(self).data.recurrence_exceptions == before.recurrence_exceptions
                    && final(self).data.settings == before.settings && final(self).data.preferences
                    == before.preferences
            }),
            references_resolve(old(self).data) ==> references_resolve(final(self).data),
    {
        if find_series_index(self.data.recurrence_series.as_slice(), series.id).is_some() {
            return Err(RepositoryError::SeriesExists);
        }
        if !has_category_id(self.data.categories.as_slice(), series.template.category_id) {
            return Err(RepositoryError::UnknownCategory);
        }
        let own = exceptions_for_series(self.data.recurrence_exceptions.as_slice(), series.id);
        proof {
            crate::recurrence::lemma_exceptions_of_belong(self.data.recurrence_exceptions@, series.id);
        }
        match find_series_conflict(
            &series,
            own.as_slice(),
            self.data.events.as_slice(),
            self.data.recurrence_series.as_slice(),
            self.data.recurrence_exceptions.as_slice(),
        ) {
            Some(k) => Err(RepositoryError::ScheduleConflict(k)),
            None => {
                let ghost before = self.data;
                let ghost added = series;
                self.data.recurrence_series.push(series);
                proof {
                    if references_resolve(before) {
                        lemma_templates_resolve(
                            before.categories@,
                            before.recurrence_series@,
                            self.data.recurrence_series@,
                            0,
                            added,
                        );
                        lemma_exceptions_follow_series(
                            before.recurrence_series@,
                            self.data.recurrence_series@,
                            before.recurrence_exceptions@,
                            0,
                            added,
                        );
                    }
                }
                Ok(())
            },
        }
    }

    /// Replaces a stored series; it must keep a stored category and its
    /// occurrences must overlap nothing on the calendar but itself.
    pub fn update_series(&mut self, series: RecurrenceSeries) -> (result: Result<(), RepositoryError>)
        ensures
            ({
                let before = old(self).data;
                let index = first_series_index(before.recurrence_series@, series.id);
                let known = has_category(before.categories@, series.template.category_id);
                &&& index is None ==> (result matches Err(RepositoryError::SeriesNotFound))
                &&& index is Some && !known ==> (result matches Err(RepositoryError::UnknownCategory))
                &&& index is Some && known && series_blocked(series, before) ==> result is Err
                &&& index is Some && known && !series_touched(series, before) ==> result is Ok
                &&& result matches Err(e) ==> (e matches RepositoryError::ScheduleConflict(k)
                    ==> series_blocker_found(series, before, k))
                &&& result is Ok ==> index is Some && known && !series_blocked(series, before)
                &&& result is Err ==> *final(self) == *old(self)
                &&& result is Ok ==> final(self).data.recurrence_series@
                    == before.recurrence_series@.update(index->0, series) && final(self).data.events
                    == before.events && final(self).data.categories == before.categories
                    && final(self).data.recurrence_exceptions == before.recurrence_exceptions
                    && final(self).data.settings == before.settings && final(self).data.preferences
                    == before.preferences
            }),
            references_resolve(old(self).data) ==> references_resolve(final(self).data),
    {
        let index = match find_series_index(self.data.recurrence_series.as_slice(), series.id) {
            Some(i) => i,
            None => return Err(RepositoryError::SeriesNotFound),
        };
        if !has_category_id(self.data.categories.as_slice(), series.template.category_id) {
            return Err(RepositoryError::UnknownCategory);
        }
        let own = exceptions_for_series(self.data.recurrence_exceptions.as_slice(), series.id);
        proof {
            crate::recurrence::lemma_exceptions_of_belong(self.data.recurrence_exceptions@, series.id);
        }
        match find_series_conflict(
            &series,
            own.as_slice(),
            self.data.events.as_slice(),
            self.data.recurrence_series.as_slice(),
            self.data.recurrence_exceptions.as_slice(),
        ) {
            Some(k) => Err(RepositoryError::ScheduleConflict(k)),
            None => {
                let ghost before = self.data;
                let ghost revised = series;
                proof {
                    lemma_series_index_id(before.recurrence_series@, revised.id);
                }
                self.data.recurrence_series.set(index, series);
                proof {
                    if references_resolve(before) {
                        lemma_templates_resolve(
                            before.categories@,
                            before.recurrence_series@,
                            self.data.recurrence_series@,
                            index as int,
                            revised,
                        );
                        lemma_exceptions_follow_series(
                            before.recurrence_series@,
                            self.data.recurrence_series@,
                            before.recurrence_exceptions@,
                            index as int,
                            revised,
                        );
                    }
                }
                Ok(())
            },
        }
    }

    /// Removes a stored series together with its exceptions, and returns it.
    pub fn delete_series(&mut self, id: RecurrenceSeriesId) -> (result: Result<RecurrenceSeries, RepositoryError>)
        ensures
            first_series_index(old(self).data.recurrence_series@, id) is None ==> (result matches Err(RepositoryError::SeriesNotFound)) && *final(self) == *old(self),
            first_series_index(old(self).data.recurrence_series@, id) matches Some(i) ==> result matches Ok(
                s,
            ) && s == old(self).data.recurrence_series@[i] && final(self).data.recurrence_series@
                == old(self).data.recurrence_series@.remove(i)
                && final(self).data.recurrence_exceptions@ == exceptions_without(
                old(self).data.recurrence_exceptions@,
                id,
            ) && final(self).data.events == old(self).data.events && final(self).data.categories
                == old(self).data.categories && final(self).data.settings == old(self).data.settings
                && final(self).data.preferences == old(self).data.preferences,
            references_resolve(old(self).data) ==> references_resolve(final(self).data),
    {
        match find_series_index(self.data.recurrence_series.as_slice(), id) {
            Some(i) => {
                let ghost before = self.data;
                proof {
                    lemma_series_index_id(before.recurrence_series@, id);
                }
                let removed = self.data.recurrence_series.remove(i);
                self.data.recurrence_exceptions = drop_series_exceptions(
                    self.data.recurrence_exceptions.as_slice(),
                    id,
                );
                proof {
                    if references_resolve(before) {
                        lemma_templates_resolve(
                            before.categories@,
                            before.recurrence_series@,
                            self.data.recurrence_series@,
                            i as int,
                            removed,
                        );
                        let kept = self.data.recurrence_exceptions@;
                        lemma_exceptions_without(before.recurrence_exceptions@, id);
                        lemma_exceptions_resolve(
                            before.recurrence_series@,
                            before.recurrence_exceptions@,
                            kept,
                        );
                        assert forall|j: int| 0 <= j < kept.len() implies first_series_index(
                            self.data.recurrence_series@,
                            (#[trigger] kept[j]).series_id,
                        ) is Some by {
                            lemma_series_kept(
                                before.recurrence_series@,
                                self.data.recurrence_series@,
                                kept[j].series_id,
                                i as int,
                                removed,
                            );
                        }
                    }
                }
                Ok(removed)
            },
            None => Err(RepositoryError::SeriesNotFound),
        }
    }

    /// Stores an exception of a stored series, replacing the one on the same
    /// original date. A modification needs a stored category and must overlap
    /// nothing on the calendar.
    pub fn upsert_exception(&mut self, exception: RecurrenceException) -> (result: Result<
        (),
        RepositoryError,
    >)
        ensures
            ({
                let before = old(self).data;
                let index = first_series_index(before.recurrence_series@, exception.series_id);
                let known = match exception.kind {
                    RecurrenceExceptionKind::Modified(d) => has_category(
                        before.categories@,
                        d.category_id,
                    ),
                    RecurrenceExceptionKind::Cancelled => true,
                };
                &&& index is None ==> (result matches Err(RepositoryError::SeriesNotFound))
                &&& index is Some && !known ==> (result matches Err(RepositoryError::UnknownCategory))
                &&& index is Some && known && exception_blocked(
                    exception,
                    before.recurrence_series@[index->0],
                    before,
                ) ==> result is Err
                &&& index is Some && known && !exception_touched(
                    exception,
                    before.recurrence_series@[index->0],
                    before,
                ) ==> result is Ok
                &&& result matches Err(e) ==> (e matches RepositoryError::ScheduleConflict(c)
                    ==> exception_blocker_found(
                    exception,
                    before.recurrence_series@[index->0],
                    before,
                    c,
                ))
                &&& result is Err ==> *final(self) == *old(self)
                &&& result matches Err(e) ==> (e is SeriesNotFound <==> index is None)
                &&& result matches Err(e) ==> (e is SeriesNotFound || e is UnknownCategory
                    || e is ScheduleConflict)
                &&& result is Ok ==> final(self).data.recurrence_exceptions@ == match first_exception_index(
                    before.recurrence_exceptions@,
                    exception.series_id,
                    exception.original_date,
                ) {
                    Some(j) => before.recurrence_exceptions@.update(j, exception),
                    None => before.recurrence_exceptions@.push(exception),
                } && final(self).data.events == before.events && final(self).data.categories
                    == before.categories && final(self).data.recurrence_series
                    == before.recurrence_series && final(self).data.settings == before.settings
                    && final(self).data.preferences == before.preferences
            }),
            references_resolve(old(self).data) ==> references_resolve(final(self).data),
    {
        let k = match find_series_index(self.data.recurrence_series.as_slice(), exception.series_id) {
            Some(k) => k,
            None => return Err(RepositoryError::SeriesNotFound),
        };
        let known = match &exception.kind {
            RecurrenceExceptionKind::Modified(d) => has_category_id(
                self.data.categories.as_slice(),
                d.category_id,
            ),
            RecurrenceExceptionKind::Cancelled => true,
        };
        if !known {
            return Err(RepositoryError::UnknownCategory);
        }
        proof {
            lemma_series_index_id(self.data.recurrence_series@, exception.series_id);
        }
        match find_exception_conflict(
            &exception,
            &self.data.recurrence_series[k],
            self.data.events.as_slice(),
            self.data.recurrence_series.as_slice(),
            self.data.recurrence_exceptions.as_slice(),
        ) {
            Some(c) => Err(RepositoryError::ScheduleConflict(c)),
            None => {
                let ghost before = self.data;
                let ghost x = exception;
                match find_exception_index(
                    self.data.recurrence_exceptions.as_slice(),
                    exception.series_id,
                    exception.original_date,
                ) {
                    Some(j) => self.data.recurrence_exceptions.set(j, exception),
                    None => self.data.recurrence_exceptions.push(exception),
                }
                proof {
                    if references_resolve(before) {
                        let after = self.data.recurrence_exceptions@;
                        assert forall|i: int| 0 <= i < after.len() implies first_series_index(
                            self.data.recurrence_series@,
                            (#[trigger] after[i]).series_id,
                        ) is Some by {
                            if after[i] != x {
                                assert(before.recurrence_exceptions@.contains(after[i]));
                            }
                        }
                    }
                }
                Ok(())
            },
        }
    }

    /// Removes the exception of series `series_id` on `original_date` and
    /// returns it, if one is stored.
    pub fn delete_exception(&mut self, series_id: RecurrenceSeriesId, original_date: CivilDate) -> (result:
        Result<Option<RecurrenceException>, RepositoryError>)
        ensures
            first_exception_index(old(self).data.recurrence_exceptions@, series_id, original_date)
                is None ==> (result matches Ok(None) && *final(self) == *old(self)),
            first_exception_index(old(self).data.recurrence_exceptions@, series_id, original_date) matches Some(
                j,
            ) ==> result matches Ok(Some(e)) && e == old(self).data.recurrence_exceptions@[j]
                && final(self).data.recurrence_exceptions@ == old(
                self,
            ).data.recurrence_exceptions@.remove(j) && final(self).data.events == old(
                self,
            ).data.events && final(self).data.categories == old(self).data.categories
                && final(self).data.recurrence_series == old(self).data.recurrence_series
                && final(self).data.settings == old(self).data.settings
                && final(self).data.preferences == old(self).data.preferences,
            references_resolve(old(self).data) ==> references_resolve(final(self).data),
    {
        match find_exception_index(
            self.data.recurrence_exceptions.as_slice(),
            series_id,
            original_date,
        ) {
            Some(j) => {
                let ghost before = self.data;
                let removed = self.data.recurrence_exceptions.remove(j);
                proof {
                    if references_resolve(before) {
                        let after = self.data.recurrence_exceptions@;
                        assert forall|i: int| 0 <= i < after.len() implies before.recurrence_exceptions@.contains(
                            #[trigger] after[i],
                        ) by {
                            if i < j {
                                assert(after[i] == before.recurrence_exceptions@[i]);
                            } else {
                                assert(after[i] == before.recurrence_exceptions@[i + 1]);
                            }
                        }
                        lemma_exceptions_resolve(
                            before.recurrence_series@,
                            before.recurrence_exceptions@,
                            after,
                        );
                    }
                }
                Ok(Some(removed))
            },
            None => Ok(None),
        }
    }

    /// The stored settings.
    pub fn settings(&self) -> (result: Result<Settings, RepositoryError>)
        ensures
            result matches Ok(s) && s == self.data.settings,
    {
        Ok(self.data.settings.duplicate())
    }

    /// Replaces the stored settings.
    pub fn replace_settings(&mut self, settings: Settings) -> (result: Result<(), RepositoryError>)
        ensures
            result is Ok,
            *final(self) == (InMemoryRepository {
                data: PersistenceSnapshot { settings, ..old(self).data },
            }),
    {
        self.data.settings = settings;
        Ok(())
    }

    /// The stored startup preferences.
    pub fn preferences(&self) -> (result: Result<AppPreferences, RepositoryError>)
        ensures
            result matches Ok(p) && p == self.data.preferences,
    {
        Ok(self.data.preferences.duplicate())
    }

    /// Replaces the stored startup preferences.
    pub fn replace_preferences(&mut self, preferences: AppPreferences) -> (result: Result<
        (),
        RepositoryError,
    >)
        ensures
            result is Ok,
            *final(self) == (InMemoryRepository {
                data: PersistenceSnapshot { preferences, ..old(self).data },
            }),
    {
        self.data.preferences = preferences;
        Ok(())
    }
}

} // verus!

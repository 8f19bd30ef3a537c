//! Changes that span several stored items and succeed or fail as a whole:
//! deleting a selection of occurrences, and deleting or editing a recurring
//! series from one occurrence on.
use vstd::prelude::*;

use crate::domain::{
    EventDraft, EventOccurrence, OccurrenceId, RecurrenceException, RecurrenceExceptionKind, RecurrenceRule,
    RecurrenceSeries, RecurrenceSeriesId, ValidationError, series_values_valid,
};
use crate::categories::has_category;
use crate::conflict::{exception_blocker, series_blocker};
use crate::domain::{Category, Event};
use crate::editor::{FormDraft, draft_to_domain, form_event};
use crate::recurrence::{exceptions_of, modified_occurrence};
use crate::repository::{
    InMemoryRepository, RepositoryError, copy_exceptions, copy_snapshot, exceptions_without,
    lemma_series_index_id, same_data,
};
use crate::store::{
    PersistenceSnapshot, find_series_index, first_event_index, first_exception_index,
    first_series_index, lemma_first_series_index, lookup_occurrence,
};
use crate::text::{decimal_chars, decimal_text};
use crate::time::{CivilDate, MIN_EPOCH_DAY, Timestamp};

verus! {

/// The exceptions after storing `x`: it replaces the first exception with
/// its series and original date, or is added at the end.
pub open spec fn upserted(exceptions: Seq<RecurrenceException>, x: RecurrenceException) -> Seq<
    RecurrenceException,
> {
    match first_exception_index(exceptions, x.series_id, x.original_date) {
        Some(j) => exceptions.update(j, x),
        None => exceptions.push(x),
    }
}

/// The cancellation of a recurring occurrence.
pub open spec fn cancellation(id: OccurrenceId) -> RecurrenceException {
    match id {
        OccurrenceId::Recurring { series_id, original_date } => RecurrenceException {
            series_id,
            original_date,
            kind: RecurrenceExceptionKind::Cancelled,
            updated_at: None,
        },
        OccurrenceId::Standalone(_) => arbitrary(),
    }
}

/// `b` is `a` with occurrence `id` deleted: a standalone event loses its
/// first stored event with that identifier; a recurring occurrence gets a
/// stored cancellation. Nothing else changes.
pub open spec fn deletion_step(a: PersistenceSnapshot, b: PersistenceSnapshot, id: OccurrenceId) -> bool {
    &&& b.settings == a.settings
    &&& b.preferences == a.preferences
    &&& b.categories@ == a.categories@
    &&& b.recurrence_series@ == a.recurrence_series@
    &&& match id {
        OccurrenceId::Standalone(e) => {
            &&& first_event_index(a.events@, e) is Some
            &&& b.events@ == a.events@.remove(first_event_index(a.events@, e)->0)
            &&& b.recurrence_exceptions@ == a.recurrence_exceptions@
        },
        OccurrenceId::Recurring { .. } => {
            &&& b.events@ == a.events@
            &&& b.recurrence_exceptions@ == upserted(a.recurrence_exceptions@, cancellation(id))
        },
    }
}

/// Whether every selected identity names an occurrence in the data.
pub open spec fn all_available(data: PersistenceSnapshot, selected: Seq<OccurrenceId>) -> bool {
    forall|k: int|
        0 <= k < selected.len() ==> lookup_occurrence(
            data.events@,
            data.recurrence_series@,
            data.recurrence_exceptions@,
            #[trigger] selected[k],
        ) is Some
}

/// `states` are the data before each deletion of `selected`, in turn, and
/// after the last one.
pub open spec fn deletes_in_turn(states: Seq<PersistenceSnapshot>, selected: Seq<OccurrenceId>) -> bool {
    &&& states.len() == selected.len() + 1
    &&& forall|k: int|
        0 <= k < selected.len() ==> #[trigger] deletion_step(states[k], states[k + 1], selected[k])
}

/// A deletion step leads from equal data to equal data.
proof fn lemma_deletion_step_unique(
    a1: PersistenceSnapshot,
    b1: PersistenceSnapshot,
    a2: PersistenceSnapshot,
    b2: PersistenceSnapshot,
    id: OccurrenceId,
)
    requires
        same_data(a1, a2),
        deletion_step(a1, b1, id),
        deletion_step(a2, b2, id),
    ensures
        same_data(b1, b2),
{
}

/// Why a selection could not be deleted.
#[derive(Debug)]
pub enum BulkDeleteError {
    /// A selected occurrence is no longer on the calendar.
    Unavailable,
    /// The store refused one of the deletions.
    Repository(RepositoryError),
}

/// The message shown for a refused bulk deletion.
pub open spec fn bulk_error_text(error: BulkDeleteError) -> Seq<char> {
    match error {
        BulkDeleteError::Unavailable => "One or more selected events are no longer available."@,
        BulkDeleteError::Repository(_) => "The selected events could not be deleted."@,
    }
}

impl BulkDeleteError {
    /// The message shown to the user.
    pub fn message(&self) -> (text: String)
        ensures
            text@ == bulk_error_text(*self),
    {
        match self {
            BulkDeleteError::Unavailable => String::from_str("One or more selected events are no longer available."),
            BulkDeleteError::Repository(_) => String::from_str("The selected events could not be deleted."),
        }
    }
}

/// Deletes the selected occurrences, in order, or nothing at all: standalone
/// events are removed and recurring occurrences cancelled. It succeeds
/// exactly when every selected occurrence is on the calendar and each
/// standalone event is still stored when its turn comes.
pub fn delete_occurrences(repository: &mut InMemoryRepository, selected: &[OccurrenceId]) -> (result:
    Result<(), BulkDeleteError>)
    ensures
        !all_available(old(repository).data, selected@) ==> (result matches Err(
            BulkDeleteError::Unavailable,
        ) && *final(repository) == *old(repository)),
        result is Err ==> same_data(final(repository).data, old(repository).data),
        result is Ok ==> all_available(old(repository).data, selected@) && exists|
            states: Seq<PersistenceSnapshot>,
        |
            #![trigger deletes_in_turn(states, selected@)]
            deletes_in_turn(states, selected@) && same_data(states[0], old(repository).data)
                && same_data(states[selected@.len() as int], final(repository).data),
        all_available(old(repository).data, selected@) && (exists|states: Seq<PersistenceSnapshot>|
            #![trigger deletes_in_turn(states, selected@)]
            deletes_in_turn(states, selected@) && same_data(states[0], old(repository).data))
            ==> result is Ok,
{
    let mut i: usize = 0;
    while i < selected.len()
        invariant
            i <= selected.len(),
            forall|k: int|
                0 <= k < i ==> lookup_occurrence(
                    repository.data.events@,
                    repository.data.recurrence_series@,
                    repository.data.recurrence_exceptions@,
                    #[trigger] selected@[k],
                ) is Some,
        decreases selected.len() - i,
    {
        if repository.data.occurrence(selected[i]).is_none() {
            return Err(BulkDeleteError::Unavailable);
        }
        i += 1;
    }
    let backup = copy_snapshot(&repository.data);
    let ghost start = repository.data;
    let ghost possible = exists|states: Seq<PersistenceSnapshot>|
        #![trigger deletes_in_turn(states, selected@)]
        deletes_in_turn(states, selected@) && same_data(states[0], start);
    let ghost witness = choose|states: Seq<PersistenceSnapshot>|
        #![trigger deletes_in_turn(states, selected@)]
        deletes_in_turn(states, selected@) && same_data(states[0], start);
    let ghost mut states: Seq<PersistenceSnapshot> = seq![repository.data];
    let mut k: usize = 0;
    while k < selected.len()
        invariant
            k <= selected.len(),
            same_data(backup, start),
            start == old(repository).data,
            all_available(start, selected@),
            repository.data.recurrence_series@ == start.recurrence_series@,
            states.len() == k + 1,
            states[0] == start,
            states[k as int] == repository.data,
            forall|m: int| 0 <= m < k ==> #[trigger] deletion_step(states[m], states[m + 1], selected@[m]),
            possible == exists|states: Seq<PersistenceSnapshot>|
                #![trigger deletes_in_turn(states, selected@)]
                deletes_in_turn(states, selected@) && same_data(states[0], start),
            possible ==> deletes_in_turn(witness, selected@) && same_data(witness[0], start)
                && same_data(witness[k as int], repository.data),
        decreases selected.len() - k,
    {
        let id = selected[k];
        let ghost before = repository.data;
        proof {
            if possible {
                assert(deletion_step(witness[k as int], witness[k as int + 1], selected@[k as int]));
            }
            assert(lookup_occurrence(
                start.events@,
                start.recurrence_series@,
                start.recurrence_exceptions@,
                selected@[k as int],
            ) is Some);
        }
        let outcome = match id {
            OccurrenceId::Standalone(event_id) => match repository.delete_event(event_id) {
                Ok(_) => Ok(()),
                Err(e) => {
                    proof {
                        if possible {
                            assert(witness[k as int].events@ == before.events@);
                        }
                    }
                    Err(e)
                },
            },
            OccurrenceId::Recurring { series_id, original_date } => {
                let cancellation = RecurrenceException::cancelled(series_id, original_date);
                proof {
                    assert(first_series_index(before.recurrence_series@, series_id) is Some);
                    assert(crate::recurrence::modified_occurrence(
                        before.recurrence_series@[first_series_index(before.recurrence_series@, series_id)->0],
                        cancellation,
                    ) is None);
                }
                repository.upsert_exception(cancellation)
            },
        };
        match outcome {
            Ok(()) => {},
            Err(e) => {
                proof {
                    assert(!possible);
                }
                repository.data = backup;
                return Err(BulkDeleteError::Repository(e));
            },
        }
        proof {
            assert(deletion_step(before, repository.data, id));
            if possible {
                lemma_deletion_step_unique(
                    witness[k as int],
                    witness[k as int + 1],
                    before,
                    repository.data,
                    id,
                );
            }
            states = states.push(repository.data);
            assert forall|m: int| 0 <= m < k + 1 implies #[trigger] deletion_step(
                states[m],
                states[m + 1],
                selected@[m],
            ) by {
                if m < k {
                    assert(states[m] == states.drop_last()[m]);
                    assert(states[m + 1] == states.drop_last()[m + 1]);
                }
            }
        }
        k += 1;
    }
    proof {
        assert(same_data(states[0], start));
        assert(deletes_in_turn(states, selected@));
    }
    Ok(())
}

/// The number of standalone identities among a selection.
pub open spec fn standalone_count(selected: Seq<OccurrenceId>) -> nat
    decreases selected.len(),
{
    if selected.len() == 0 {
        0
    } else {
        standalone_count(selected.drop_last()) + if selected.last() is Standalone {
            1nat
        } else {
            0nat
        }
    }
}

/// The texts of the confirmation that deleting a selection asks for.
pub struct BulkDeletePrompt {
    pub title: String,
    pub description: String,
    pub confirm: String,
    pub cancel: String,
}

/// The description of the confirmation, by how many of the `count` selected
/// occurrences are recurring.
pub open spec fn bulk_description(count: nat, recurring: nat) -> Seq<char> {
    if recurring == 0 {
        "Delete "@ + decimal_chars(count) + " events? This can be undone during this session."@
    } else if recurring == count {
        "Delete "@ + decimal_chars(count)
            + " recurring occurrences? Only the selected dates will be cancelled; the rest of each series will remain. This can be undone during this session."@
    } else {
        "Delete "@ + decimal_chars(count) + " events, including "@ + decimal_chars(recurring)
            + " recurring occurrences? Selected recurring dates will be cancelled; the rest of each series will remain. This can be undone during this session."@
    }
}

/// Builds the confirmation for deleting a selection.
pub fn bulk_delete_prompt(selected: &[OccurrenceId]) -> (prompt: BulkDeletePrompt)
    ensures
        ({
            let count = selected@.len();
            let recurring = (count - standalone_count(selected@)) as nat;
            &&& prompt.title@ == "Delete "@ + decimal_chars(count) + " events?"@
            &&& prompt.confirm@ == "Delete "@ + decimal_chars(count) + " events"@
            &&& prompt.cancel@ == "Keep events"@
            &&& prompt.description@ == bulk_description(count, recurring)
        }),
{
    let mut standalone: usize = 0;
    let mut i: usize = 0;
    while i < selected.len()
        invariant
            i <= selected.len(),
            standalone == standalone_count(selected@.take(i as int)),
            standalone <= i,
        decreases selected.len() - i,
    {
        assert(selected@.take(i as int + 1).drop_last() =~= selected@.take(i as int));
        if let OccurrenceId::Standalone(_) = selected[i] {
            standalone += 1;
        }
        i += 1;
    }
    assert(selected@.take(selected.len() as int) =~= selected@);
    let count = selected.len();
    let recurring = count - standalone;
    let count_text = decimal_text(count as u64);
    let mut title = String::from_str("Delete ");
    title.append(count_text.as_str());
    title.append(" events?");
    let mut confirm = String::from_str("Delete ");
    confirm.append(count_text.as_str());
    confirm.append(" events");
    let mut description = String::from_str("Delete ");
    description.append(count_text.as_str());
    if recurring == 0 {
        description.append(" events? This can be undone during this session.");
    } else if recurring == count {
        description.append(
            " recurring occurrences? Only the selected dates will be cancelled; the rest of each series will remain. This can be undone during this session.",
        );
    } else {
        description.append(" events, including ");
        let recurring_text = decimal_text(recurring as u64);
        description.append(recurring_text.as_str());
        description.append(
            " recurring occurrences? Selected recurring dates will be cancelled; the rest of each series will remain. This can be undone during this session.",
        );
    }
    BulkDeletePrompt { title, description, confirm, cancel: String::from_str("Keep events") }
}

/// Which occurrences an edit or deletion of a recurring occurrence covers.
#[derive(Clone, Copy, Debug, PartialEq, Eq, Structural, Hash)]
pub enum RecurrenceScope {
    /// Only the chosen occurrence.
    This,
    /// The chosen occurrence and every later one.
    Following,
}

/// Why a recurring edit or deletion was refused; nothing was changed.
#[derive(Debug)]
pub enum RecurringEditError {
    /// The series is no longer stored.
    SeriesMissing,
    /// The revised values are not valid.
    Invalid(ValidationError),
    /// The day before the chosen occurrence cannot be represented.
    DateArithmetic,
    /// The store refused a change.
    Repository(RepositoryError),
    /// The system clock could not be read as a timestamp.
    ClockUnavailable,
}

/// The message shown for a refused recurring change.
pub open spec fn recurring_error_text(error: RecurringEditError) -> Seq<char> {
    match error {
        RecurringEditError::SeriesMissing => "That recurring series is no longer available."@,
        RecurringEditError::Invalid(_) => "The event details are not valid."@,
        RecurringEditError::DateArithmetic => "The series cannot end before its first date."@,
        RecurringEditError::Repository(_) => "The recurring change could not be saved."@,
        RecurringEditError::ClockUnavailable => "The system clock could not be read."@,
    }
}

impl RecurringEditError {
    /// The message shown to the user.
    pub fn message(&self) -> (text: String)
        ensures
            text@ == recurring_error_text(*self),
    {
        match self {
            RecurringEditError::SeriesMissing => String::from_str("That recurring series is no longer available."),
            RecurringEditError::Invalid(_) => String::from_str("The event details are not valid."),
            RecurringEditError::DateArithmetic => String::from_str("The series cannot end before its first date."),
            RecurringEditError::Repository(_) => String::from_str("The recurring change could not be saved."),
            RecurringEditError::ClockUnavailable => String::from_str("The system clock could not be read."),
        }
    }
}

/// The exceptions of series `id` on or after `from`, in stored order.
pub open spec fn following_exceptions(
    exceptions: Seq<RecurrenceException>,
    id: RecurrenceSeriesId,
    from: CivilDate,
) -> Seq<RecurrenceException>
    decreases exceptions.len(),
{
    if exceptions.len() == 0 {
        Seq::empty()
    } else {
        let rest = following_exceptions(exceptions.drop_last(), id, from);
        let e = exceptions.last();
        if e.series_id == id && e.original_date.day() >= from.day() {
            rest.push(e)
        } else {
            rest
        }
    }
}

fn following_exceptions_of(
    exceptions: &[RecurrenceException],
    id: RecurrenceSeriesId,
    from: CivilDate,
) -> (kept: Vec<RecurrenceException>)
    ensures
        kept@ == following_exceptions(exceptions@, id, from),
{
    let mut kept: Vec<RecurrenceException> = Vec::new();
    let mut i: usize = 0;
    while i < exceptions.len()
        invariant
            i <= exceptions.len(),
            kept@ == following_exceptions(exceptions@.take(i as int), id, from),
        decreases exceptions.len() - i,
    {
        assert(exceptions@.take(i as int + 1).drop_last() =~= exceptions@.take(i as int));
        if exceptions[i].series_id == id && exceptions[i].original_date.epoch_day >= from.epoch_day {
            kept.push(exceptions[i].duplicate());
        }
        i += 1;
    }
    assert(exceptions@.take(exceptions.len() as int) =~= exceptions@);
    kept
}

/// The exceptions without the first one of series `id` on `date`.
pub open spec fn without_exception(
    exceptions: Seq<RecurrenceException>,
    id: RecurrenceSeriesId,
    date: CivilDate,
) -> Seq<RecurrenceException> {
    match first_exception_index(exceptions, id, date) {
        Some(j) => exceptions.remove(j),
        None => exceptions,
    }
}

/// An exception moved to series `target`: a cancellation stays one, a
/// modification keeps its draft and is stamped with `timestamp`.
pub open spec fn moved_exception(
    e: RecurrenceException,
    target: RecurrenceSeriesId,
    timestamp: Timestamp,
) -> RecurrenceException {
    match e.kind {
        RecurrenceExceptionKind::Cancelled => RecurrenceException {
            series_id: target,
            original_date: e.original_date,
            kind: RecurrenceExceptionKind::Cancelled,
            updated_at: None,
        },
        RecurrenceExceptionKind::Modified(d) => RecurrenceException {
            series_id: target,
            original_date: e.original_date,
            kind: RecurrenceExceptionKind::Modified(d),
            updated_at: Some(timestamp),
        },
    }
}

/// The stored exceptions after the exceptions `moving` of series `from`
/// are taken off it one by one; each one whose date `target` repeats on is
/// stored again on `target`.
pub open spec fn rehomed_exceptions(
    all: Seq<RecurrenceException>,
    moving: Seq<RecurrenceException>,
    from: RecurrenceSeriesId,
    target: Option<RecurrenceSeries>,
    timestamp: Timestamp,
) -> Seq<RecurrenceException>
    decreases moving.len(),
{
    if moving.len() == 0 {
        all
    } else {
        let prev = rehomed_exceptions(all, moving.drop_last(), from, target, timestamp);
        let e = moving.last();
        let removed = without_exception(prev, from, e.original_date);
        match target {
            Some(t) => if t.contains_day(e.original_date.day()) {
                upserted(removed, moved_exception(e, t.id, timestamp))
            } else {
                removed
            },
            None => removed,
        }
    }
}

/// Some occurrence on the calendar blocks the occurrence that `candidate`
/// shows on series `series`, with `exceptions` stored.
pub open spec fn rehomed_exception_blocked(
    candidate: RecurrenceException,
    series: RecurrenceSeries,
    events: Seq<Event>,
    all_series: Seq<RecurrenceSeries>,
    exceptions: Seq<RecurrenceException>,
) -> bool {
    exists|c: EventOccurrence, b: EventOccurrence|
        modified_occurrence(series, candidate) == Some(c) && #[trigger] exception_blocker(
            candidate,
            series,
            events,
            all_series,
            exceptions,
            c,
            b,
        )
}

/// Some occurrence on the calendar blocks some occurrence of `candidate`,
/// with `events`, `all_series` and `exceptions` stored.
pub open spec fn series_touched_in(
    candidate: RecurrenceSeries,
    events: Seq<Event>,
    all_series: Seq<RecurrenceSeries>,
    exceptions: Seq<RecurrenceException>,
) -> bool {
    exists|o: EventOccurrence, b: EventOccurrence|
        #[trigger] series_blocker(
            candidate,
            exceptions_of(exceptions, candidate.id),
            events,
            all_series,
            exceptions,
            o,
            b,
        )
}

/// Moving exception `e` off series `from` onto `t` cannot be refused: `t`
/// does not repeat on its date, it is a cancellation, or it is a valid
/// modification in a known category that nothing on the calendar blocks
/// once `e` is taken off `from` (with `prev` the exceptions stored before).
pub open spec fn rehoming_step_clear(
    prev: Seq<RecurrenceException>,
    e: RecurrenceException,
    from: RecurrenceSeriesId,
    t: RecurrenceSeries,
    timestamp: Timestamp,
    events: Seq<Event>,
    categories: Seq<Category>,
    all_series: Seq<RecurrenceSeries>,
) -> bool {
    t.contains_day(e.original_date.day()) ==> match e.kind {
        RecurrenceExceptionKind::Cancelled => true,
        RecurrenceExceptionKind::Modified(d) => d.is_valid() && has_category(categories, d.category_id)
            && !rehomed_exception_blocked(
            moved_exception(e, t.id, timestamp),
            t,
            events,
            all_series,
            without_exception(prev, from, e.original_date),
        ),
    }
}

/// No step of moving the exceptions `moving` off series `from` onto
/// `target` can be refused; with no target nothing is stored again.
pub open spec fn rehoming_clear(
    all: Seq<RecurrenceException>,
    moving: Seq<RecurrenceException>,
    from: RecurrenceSeriesId,
    target: Option<RecurrenceSeries>,
    timestamp: Timestamp,
    events: Seq<Event>,
    categories: Seq<Category>,
    all_series: Seq<RecurrenceSeries>,
) -> bool {
    match target {
        None => true,
        Some(t) => forall|j: int|
            0 <= j < moving.len() ==> #[trigger] rehoming_step_clear(
                rehomed_exceptions(all, moving.take(j), from, target, timestamp),
                moving[j],
                from,
                t,
                timestamp,
                events,
                categories,
                all_series,
            ),
    }
}

/// Takes the exceptions `moving` off series `from`, storing each again on
/// `target` when the target repeats on its date.
fn rehome_exceptions(
    repository: &mut InMemoryRepository,
    moving: &[RecurrenceException],
    from: RecurrenceSeriesId,
    target: Option<&RecurrenceSeries>,
    timestamp: Timestamp,
) -> (result: Result<(), RecurringEditError>)
    requires
        target matches Some(t) ==> first_series_index(old(repository).data.recurrence_series@, t.id)
            matches Some(k) && old(repository).data.recurrence_series@[k] == *t,
    ensures
        result is Ok ==> final(repository).data.recurrence_exceptions@ == rehomed_exceptions(
            old(repository).data.recurrence_exceptions@,
            moving@,
            from,
            match target {
                Some(t) => Some(*t),
                None => None,
            },
            timestamp,
        ) && final(repository).data.events == old(repository).data.events
            && final(repository).data.categories == old(repository).data.categories
            && final(repository).data.recurrence_series == old(repository).data.recurrence_series
            && final(repository).data.settings == old(repository).data.settings
            && final(repository).data.preferences == old(repository).data.preferences,
        rehoming_clear(
            old(repository).data.recurrence_exceptions@,
            moving@,
            from,
            match target {
                Some(t) => Some(*t),
                None => None,
            },
            timestamp,
            old(repository).data.events@,
            old(repository).data.categories@,
            old(repository).data.recurrence_series@,
        ) ==> result is Ok,
        result matches Err(e) ==> (e is Invalid || (e matches RecurringEditError::Repository(r) && (
            r is UnknownCategory || r is ScheduleConflict))),
{
    let ghost t_opt: Option<RecurrenceSeries> = match target {
        Some(t) => Some(*t),
        None => None,
    };
    let ghost start = repository.data;
    let ghost clear = rehoming_clear(
        start.recurrence_exceptions@,
        moving@,
        from,
        t_opt,
        timestamp,
        start.events@,
        start.categories@,
        start.recurrence_series@,
    );
    let mut i: usize = 0;
    while i < moving.len()
        invariant
            i <= moving.len(),
            t_opt == match target {
                Some(t) => Some(*t),
                None => None::<RecurrenceSeries>,
            },
            target matches Some(t) ==> first_series_index(repository.data.recurrence_series@, t.id)
                matches Some(k) && repository.data.recurrence_series@[k] == *t,
            repository.data.recurrence_exceptions@ == rehomed_exceptions(
                start.recurrence_exceptions@,
                moving@.take(i as int),
                from,
                t_opt,
                timestamp,
            ),
            repository.data.events == start.events,
            repository.data.categories == start.categories,
            repository.data.recurrence_series == start.recurrence_series,
            repository.data.settings == start.settings,
            repository.data.preferences == start.preferences,
            start == old(repository).data,
            clear == rehoming_clear(
                start.recurrence_exceptions@,
                moving@,
                from,
                t_opt,
                timestamp,
                start.events@,
                start.categories@,
                start.recurrence_series@,
            ),
        decreases moving.len() - i,
    {
        let e = &moving[i];
        let ghost prev = repository.data.recurrence_exceptions@;
        proof {
            assert(moving@.take(i as int + 1).drop_last() =~= moving@.take(i as int));
            assert(moving@.take(i as int + 1).last() == moving@[i as int]);
            if clear {
                if let Some(t) = t_opt {
                    assert(rehoming_step_clear(
                        rehomed_exceptions(
                            start.recurrence_exceptions@,
                            moving@.take(i as int),
                            from,
                            t_opt,
                            timestamp,
                        ),
                        moving@[i as int],
                        from,
                        t,
                        timestamp,
                        start.events@,
                        start.categories@,
                        start.recurrence_series@,
                    ));
                }
            }
        }
        let _ = repository.delete_exception(from, e.original_date);
        assert(repository.data.recurrence_exceptions@ == without_exception(prev, from, e.original_date));
        match target {
            Some(t) => {
                if t.contains_date(e.original_date) {
                    let replacement = match &e.kind {
                        RecurrenceExceptionKind::Cancelled => RecurrenceException::cancelled(
                            t.id,
                            e.original_date,
                        ),
                        RecurrenceExceptionKind::Modified(d) => match RecurrenceException::modified(
                            t.id,
                            e.original_date,
                            d.duplicate(),
                            timestamp,
                        ) {
                            Ok(x) => x,
                            Err(v) => return Err(RecurringEditError::Invalid(v)),
                        },
                    };
                    proof {
                        lemma_series_index_id(repository.data.recurrence_series@, t.id);
                    }
                    match repository.upsert_exception(replacement) {
                        Ok(()) => {},
                        Err(r) => return Err(RecurringEditError::Repository(r)),
                    }
                }
            },
            None => {},
        }
        i += 1;
    }
    proof {
        assert(moving@.take(moving@.len() as int) =~= moving@);
    }
    Ok(())
}

/// The series after its occurrences from `original_date` on are cut off:
/// it ends the day before, or earlier if it already did, stamped with
/// `timestamp`.
pub open spec fn truncated_series(
    series: RecurrenceSeries,
    original_date: CivilDate,
    timestamp: Timestamp,
) -> RecurrenceSeries {
    let end = CivilDate { epoch_day: (original_date.day() - 1) as i32 };
    let ends_on = match series.ends_on {
        Some(existing) => if existing.day() < end.day() {
            existing
        } else {
            end
        },
        None => end,
    };
    RecurrenceSeries { ends_on: Some(ends_on), updated_at: timestamp, ..series }
}

/// Ends `series` before `original_date`, following the stored series.
fn truncate(series: &mut RecurrenceSeries, original_date: CivilDate, timestamp: Timestamp) -> (result:
    Result<(), RecurringEditError>)
    ensures
        original_date.day() <= MIN_EPOCH_DAY ==> result matches Err(
            RecurringEditError::DateArithmetic,
        ),
        result is Ok ==> original_date.day() > MIN_EPOCH_DAY && *final(series) == truncated_series(
            *old(series),
            original_date,
            timestamp,
        ),
        original_date.day() > MIN_EPOCH_DAY ==> (result is Ok <==> series_values_valid(
            old(series).template,
            old(series).rule,
            truncated_series(*old(series), original_date, timestamp).ends_on,
        )),
        result matches Err(e) ==> (e is DateArithmetic || e is Invalid),
{
    let end = match original_date.yesterday() {
        Some(end) => end,
        None => return Err(RecurringEditError::DateArithmetic),
    };
    let ends_on = match series.ends_on {
        Some(existing) => if existing.epoch_day < end.epoch_day {
            existing
        } else {
            end
        },
        None => end,
    };
    let template = series.template.duplicate();
    let rule = series.rule;
    match series.revise(template, rule, Some(ends_on), timestamp) {
        Ok(()) => Ok(()),
        Err(v) => Err(RecurringEditError::Invalid(v)),
    }
}

/// What deleting a recurring occurrence does to the data, stamped with
/// `timestamp`: with `This`, a cancellation is stored; with `Following`,
/// the series is deleted when the occurrence is its first, and otherwise ends
/// the day before, losing its exceptions from that date on. A refusal
/// changes nothing.
pub open spec fn deletion_outcome(
    before: PersistenceSnapshot,
    after: PersistenceSnapshot,
    ok: bool,
    missing: bool,
    series_id: RecurrenceSeriesId,
    original_date: CivilDate,
    scope: RecurrenceScope,
    timestamp: Timestamp,
) -> bool {
    let index = first_series_index(before.recurrence_series@, series_id);
    &&& !ok ==> same_data(after, before)
    &&& scope == RecurrenceScope::This ==> (ok <==> index is Some) && (ok
        ==> after.recurrence_exceptions@ == upserted(
        before.recurrence_exceptions@,
        cancellation(OccurrenceId::Recurring { series_id, original_date }),
    ) && after.events == before.events && after.categories == before.categories
        && after.recurrence_series == before.recurrence_series)
    &&& scope == RecurrenceScope::Following && index is None ==> !ok && missing
    &&& scope == RecurrenceScope::Following && index is Some && original_date
        == before.recurrence_series@[index->0].template.date ==> (ok
        && after.recurrence_series@ == before.recurrence_series@.remove(index->0)
        && after.recurrence_exceptions@ == exceptions_without(
        before.recurrence_exceptions@,
        series_id,
    ) && after.events == before.events && after.categories == before.categories)
    &&& scope == RecurrenceScope::Following && index is Some && original_date
        != before.recurrence_series@[index->0].template.date ==> {
        let s = before.recurrence_series@[index->0];
        let t = truncated_series(s, original_date, timestamp);
        original_date.day() > MIN_EPOCH_DAY && series_values_valid(s.template, s.rule, t.ends_on)
            && has_category(before.categories@, s.template.category_id) && !series_touched_in(
            t,
            before.events@,
            before.recurrence_series@,
            before.recurrence_exceptions@,
        ) ==> ok
    }
    &&& scope == RecurrenceScope::Following && index is Some && original_date
        != before.recurrence_series@[index->0].template.date && ok ==> (
    after.recurrence_series@ == before.recurrence_series@.update(
        index->0,
        truncated_series(before.recurrence_series@[index->0], original_date, timestamp),
    ) && after.recurrence_exceptions@ == rehomed_exceptions(
        before.recurrence_exceptions@,
        following_exceptions(before.recurrence_exceptions@, series_id, original_date),
        series_id,
        None,
        timestamp,
    ) && after.events == before.events && after.categories == before.categories)
}

/// Deletes a recurring occurrence (`This`: a cancellation is stored) or it
/// and every later one (`Following`: the series is deleted when the
/// occurrence is its first, and otherwise ends the day before, losing its
/// exceptions from that date on), or changes nothing.
pub fn delete_recurring_at(
    repository: &mut InMemoryRepository,
    series_id: RecurrenceSeriesId,
    original_date: CivilDate,
    scope: RecurrenceScope,
    timestamp: Timestamp,
) -> (result: Result<(), RecurringEditError>)
    ensures
        !(result matches Err(RecurringEditError::ClockUnavailable)),
        deletion_outcome(
            old(repository).data,
            final(repository).data,
            result is Ok,
            series_missing(result),
            series_id,
            original_date,
            scope,
            timestamp,
        ),
{
    let backup = copy_snapshot(&repository.data);
    match scope {
        RecurrenceScope::This => {
            match repository.upsert_exception(RecurrenceException::cancelled(series_id, original_date)) {
                Ok(()) => Ok(()),
                Err(e) => {
                    repository.data = backup;
                    Err(RecurringEditError::Repository(e))
                },
            }
        },
        RecurrenceScope::Following => {
            let k = match find_series_index(repository.data.recurrence_series.as_slice(), series_id) {
                Some(k) => k,
                None => return Err(RecurringEditError::SeriesMissing),
            };
            proof {
                lemma_series_index_id(repository.data.recurrence_series@, series_id);
            }
            let mut series = repository.data.recurrence_series[k].duplicate();
            if original_date == series.template.date {
                match repository.delete_series(series_id) {
                    Ok(_) => Ok(()),
                    Err(e) => {
                        repository.data = backup;
                        Err(RecurringEditError::Repository(e))
                    },
                }
            } else {
                match truncate(&mut series, original_date, timestamp) {
                    Ok(()) => {},
                    Err(e) => return Err(e),
                }
                let moving = following_exceptions_of(
                    repository.data.recurrence_exceptions.as_slice(),
                    series_id,
                    original_date,
                );
                match repository.update_series(series) {
                    Ok(()) => {},
                    Err(e) => {
                        repository.data = backup;
                        return Err(RecurringEditError::Repository(e));
                    },
                }
                match rehome_exceptions(repository, moving.as_slice(), series_id, None, timestamp) {
                    Ok(()) => Ok(()),
                    Err(e) => {
                        repository.data = backup;
                        Err(e)
                    },
                }
            }
        },
    }
}

/// The series value that an edit of all following occurrences starts from:
/// the series repeats on the form's draft with the form's rule (or its own
/// when the form sets none) and end date.
pub open spec fn revised_series(
    series: RecurrenceSeries,
    draft: EventDraft,
    rule: RecurrenceRule,
    ends_on: Option<CivilDate>,
    timestamp: Timestamp,
) -> RecurrenceSeries {
    RecurrenceSeries { template: draft, rule, ends_on, updated_at: timestamp, ..series }
}

/// Whether exception `x` lies outside what a cut of series `from` at
/// `cutoff` moves: it belongs to another series, or comes before the cut,
/// and it does not sit on or after the cut in the series that receives the
/// moved exceptions.
pub open spec fn outside_cut(
    x: RecurrenceException,
    from: RecurrenceSeriesId,
    cutoff: CivilDate,
    target: Option<RecurrenceSeries>,
) -> bool {
    &&& x.series_id == from ==> x.original_date.day() < cutoff.day()
    &&& (target matches Some(t) && x.series_id == t.id) ==> x.original_date.day() < cutoff.day()
}

/// Every exception that a cut moves belongs to the cut series, on or after
/// the cut.
proof fn lemma_following_exceptions(exceptions: Seq<RecurrenceException>, id: RecurrenceSeriesId, from: CivilDate)
    ensures
        forall|i: int|
            0 <= i < following_exceptions(exceptions, id, from).len() ==> (#[trigger] following_exceptions(
                exceptions,
                id,
                from,
            )[i]).series_id == id && following_exceptions(exceptions, id, from)[i].original_date.day()
                >= from.day(),
    decreases exceptions.len(),
{
    if exceptions.len() > 0 {
        lemma_following_exceptions(exceptions.drop_last(), id, from);
    }
}

proof fn lemma_rehoming_keeps_outside(
    all: Seq<RecurrenceException>,
    moving: Seq<RecurrenceException>,
    from: RecurrenceSeriesId,
    cutoff: CivilDate,
    target: Option<RecurrenceSeries>,
    timestamp: Timestamp,
    x: RecurrenceException,
)
    requires
        forall|i: int|
            0 <= i < moving.len() ==> (#[trigger] moving[i]).series_id == from
                && moving[i].original_date.day() >= cutoff.day(),
        all.contains(x),
        outside_cut(x, from, cutoff, target),
    ensures
        rehomed_exceptions(all, moving, from, target, timestamp).contains(x),
    decreases moving.len(),
{
    if moving.len() > 0 {
        let rest = moving.drop_last();
        assert forall|i: int| 0 <= i < rest.len() implies (#[trigger] rest[i]).series_id == from
            && rest[i].original_date.day() >= cutoff.day() by {
            assert(rest[i] == moving[i]);
        }
        lemma_rehoming_keeps_outside(all, rest, from, cutoff, target, timestamp, x);
        let prev = rehomed_exceptions(all, rest, from, target, timestamp);
        let e = moving.last();
        assert(e == moving[moving.len() - 1]);
        let k = choose|k: int| 0 <= k < prev.len() && prev[k] == x;
        crate::store::lemma_exception_index_found(prev, from, e.original_date);
        let removed = without_exception(prev, from, e.original_date);
        let r = match first_exception_index(prev, from, e.original_date) {
            Some(j) => {
                assert(prev[j] != x);
                if k < j {
                    assert(removed[k] == x);
                    k
                } else {
                    assert(removed[k - 1] == x);
                    k - 1
                }
            },
            None => k,
        };
        assert(removed[r] == x);
        match target {
            Some(t) => {
                if t.contains_day(e.original_date.day()) {
                    let m = moved_exception(e, t.id, timestamp);
                    crate::store::lemma_exception_index_found(removed, t.id, e.original_date);
                    match first_exception_index(removed, t.id, e.original_date) {
                        Some(j) => {
                            assert(removed[j] != x);
                            assert(removed.update(j, m)[r] == x);
                        },
                        None => {
                            assert(removed.push(m)[r] == x);
                        },
                    }
                }
            },
            None => {},
        }
    }
}

/// Cutting a series at a date keeps its history before the date and every
/// exception of another series, except those on or after the date in the
/// series that takes over the moved exceptions.
pub proof fn lemma_cut_keeps_earlier_history(
    all: Seq<RecurrenceException>,
    from: RecurrenceSeriesId,
    cutoff: CivilDate,
    target: Option<RecurrenceSeries>,
    timestamp: Timestamp,
)
    ensures
        forall|x: RecurrenceException|
            #![trigger all.contains(x)]
            all.contains(x) && outside_cut(x, from, cutoff, target) ==> rehomed_exceptions(
                all,
                following_exceptions(all, from, cutoff),
                from,
                target,
                timestamp,
            ).contains(x),
{
    lemma_following_exceptions(all, from, cutoff);
    assert forall|x: RecurrenceException|
        #![trigger all.contains(x)]
        all.contains(x) && outside_cut(x, from, cutoff, target) implies rehomed_exceptions(
            all,
            following_exceptions(all, from, cutoff),
            from,
            target,
            timestamp,
        ).contains(x) by {
        lemma_rehoming_keeps_outside(
            all,
            following_exceptions(all, from, cutoff),
            from,
            cutoff,
            target,
            timestamp,
            x,
        );
    }
}

/// Reads the clock: `std::time::SystemTime::now`, converted by `jiff`'s
/// fallible `Timestamp::try_from`, which refuses a reading outside its
/// range. Every `jiff` timestamp is in its one-sign form and range; nothing
/// else is claimed of the reading, which depends on the machine.
#[verifier::external_body]
fn current_timestamp() -> (now: Option<Timestamp>)
    ensures
        now matches Some(t) ==> t.wf(),
{
    match jiff::Timestamp::try_from(std::time::SystemTime::now()) {
        Ok(now) => Some(Timestamp { second: now.as_second(), nanosecond: now.subsec_nanosecond() }),
        Err(_) => None,
    }
}

/// Deletes a recurring occurrence, or it and every later one, stamping a
/// shortened series with the current time; when the clock cannot be read,
/// nothing changes.
pub fn delete_recurring(
    repository: &mut InMemoryRepository,
    series_id: RecurrenceSeriesId,
    original_date: CivilDate,
    scope: RecurrenceScope,
) -> (result: Result<(), RecurringEditError>)
    ensures
        result matches Err(RecurringEditError::ClockUnavailable) ==> *final(repository) == *old(
            repository,
        ),
        !(result matches Err(RecurringEditError::ClockUnavailable)) ==> exists|timestamp: Timestamp|
            #[trigger] deletion_outcome(
                old(repository).data,
                final(repository).data,
                result is Ok,
                series_missing(result),
                series_id,
                original_date,
                scope,
                timestamp,
            ),
{
    let now = match current_timestamp() {
        Some(now) => now,
        None => return Err(RecurringEditError::ClockUnavailable),
    };
    delete_recurring_at(repository, series_id, original_date, scope, now)
}

/// What first-index search finds in a list of series.
proof fn lemma_series_index_facts(series: Seq<RecurrenceSeries>, id: RecurrenceSeriesId)
    ensures
        first_series_index(series, id) matches Some(k) ==> 0 <= k < series.len() && series[k].id
            == id && forall|j: int| 0 <= j < k ==> #[trigger] series[j].id != id,
        first_series_index(series, id) is None ==> forall|j: int|
            0 <= j < series.len() ==> #[trigger] series[j].id != id,
    decreases series.len(),
{
    if series.len() > 0 {
        lemma_series_index_facts(series.drop_first(), id);
        assert forall|j: int| 1 <= j < series.len() implies series[j] == series.drop_first()[j - 1] by {}
    }
}

/// Replacing the series found first by one with the same identifier keeps
/// it first.
proof fn lemma_series_index_update(series: Seq<RecurrenceSeries>, k: int, x: RecurrenceSeries)
    requires
        first_series_index(series, x.id) == Some(k),
    ensures
        first_series_index(series.update(k, x), x.id) == Some(k),
{
    lemma_series_index_facts(series, x.id);
    let u = series.update(k, x);
    assert forall|j: int| 0 <= j < k implies #[trigger] u[j].id != x.id by {
        assert(u[j] == series[j]);
    }
    lemma_first_series_index(u, x.id, k);
}

/// A series added under a new identifier is found at the end.
proof fn lemma_series_index_push(series: Seq<RecurrenceSeries>, x: RecurrenceSeries)
    requires
        first_series_index(series, x.id) is None,
    ensures
        first_series_index(series.push(x), x.id) == Some(series.len() as int),
{
    lemma_series_index_facts(series, x.id);
    let u = series.push(x);
    assert forall|j: int| 0 <= j < series.len() implies #[trigger] u[j].id != x.id by {
        assert(u[j] == series[j]);
    }
    lemma_first_series_index(u, x.id, series.len() as int);
}

/// What editing a recurring occurrence does to the data, stamped with
/// `timestamp`; `result` is the occurrence to select afterwards:
/// - `This` stores a modification of the occurrence;
/// - `Following` from the series' first occurrence revises the series;
/// - `Following` from a later occurrence ends the series the day before and
///   adds a series `successor_id` with the form's values;
/// - exceptions from that date on move to the revised or new series when it
///   repeats on their dates and are dropped otherwise.
/// A refusal changes nothing.
pub open spec fn edit_outcome(
    before: PersistenceSnapshot,
    after: PersistenceSnapshot,
    result: Option<OccurrenceId>,
    missing: bool,
    invalid: bool,
    series_id: RecurrenceSeriesId,
    original_date: CivilDate,
    draft: FormDraft,
    scope: RecurrenceScope,
    timestamp: Timestamp,
    successor_id: RecurrenceSeriesId,
) -> bool {
    let index = first_series_index(before.recurrence_series@, series_id);
    let event = form_event(draft);
    let ok = result is Some;
    &&& !ok ==> same_data(after, before)
    &&& index is None ==> !ok && missing
    &&& scope == RecurrenceScope::This && index is Some ==> {
        &&& !event.is_valid() ==> !ok && invalid
        &&& event.is_valid() && has_category(before.categories@, event.category_id)
            && !rehomed_exception_blocked(
            RecurrenceException {
                series_id,
                original_date,
                kind: RecurrenceExceptionKind::Modified(event),
                updated_at: Some(timestamp),
            },
            before.recurrence_series@[index->0],
            before.events@,
            before.recurrence_series@,
            before.recurrence_exceptions@,
        ) ==> ok
        &&& ok ==> result == Some(OccurrenceId::Recurring { series_id, original_date })
            && after.recurrence_exceptions@ == upserted(
            before.recurrence_exceptions@,
            RecurrenceException {
                series_id,
                original_date,
                kind: RecurrenceExceptionKind::Modified(event),
                updated_at: Some(timestamp),
            },
        ) && after.events == before.events && after.categories == before.categories
            && after.recurrence_series == before.recurrence_series
    }
    &&& scope == RecurrenceScope::Following && index is Some ==> {
        let s = before.recurrence_series@[index->0];
        let rule = match draft.recurrence {
            Some(r) => r,
            None => s.rule,
        };
        let moving = following_exceptions(before.recurrence_exceptions@, series_id, original_date);
        if original_date == s.template.date {
            let revised = revised_series(s, event, rule, draft.ends_on, timestamp);
            &&& !series_values_valid(event, rule, draft.ends_on) ==> !ok && invalid
            &&& series_values_valid(event, rule, draft.ends_on) && has_category(
                before.categories@,
                event.category_id,
            ) && !series_touched_in(
                revised,
                before.events@,
                before.recurrence_series@,
                before.recurrence_exceptions@,
            ) && rehoming_clear(
                before.recurrence_exceptions@,
                moving,
                series_id,
                Some(revised),
                timestamp,
                before.events@,
                before.categories@,
                before.recurrence_series@.update(index->0, revised),
            ) ==> ok
            &&& ok ==> result == Some(OccurrenceId::Recurring { series_id, original_date: draft.date })
                && after.recurrence_series@ == before.recurrence_series@.update(index->0, revised)
                && after.recurrence_exceptions@ == rehomed_exceptions(
                before.recurrence_exceptions@,
                moving,
                series_id,
                Some(revised),
                timestamp,
            ) && after.events == before.events && after.categories == before.categories
        } else {
            let successor = RecurrenceSeries {
                id: successor_id,
                template: event,
                rule,
                ends_on: draft.ends_on,
                created_at: timestamp,
                updated_at: timestamp,
            };
            let truncated = truncated_series(s, original_date, timestamp);
            let kept = before.recurrence_series@.update(index->0, truncated);
            &&& original_date.day() > MIN_EPOCH_DAY && series_values_valid(
                s.template,
                s.rule,
                truncated.ends_on,
            ) && has_category(before.categories@, s.template.category_id) && !series_touched_in(
                truncated,
                before.events@,
                before.recurrence_series@,
                before.recurrence_exceptions@,
            ) && series_values_valid(event, rule, draft.ends_on) && first_series_index(
                kept,
                successor_id,
            ) is None && has_category(before.categories@, event.category_id) && !series_touched_in(
                successor,
                before.events@,
                kept,
                before.recurrence_exceptions@,
            ) && rehoming_clear(
                before.recurrence_exceptions@,
                moving,
                series_id,
                Some(successor),
                timestamp,
                before.events@,
                before.categories@,
                kept.push(successor),
            ) ==> ok
            &&& ok ==> result == Some(
                OccurrenceId::Recurring { series_id: successor_id, original_date: draft.date },
            ) && after.recurrence_series@ == before.recurrence_series@.update(
                index->0,
                truncated_series(s, original_date, timestamp),
            ).push(successor) && after.recurrence_exceptions@ == rehomed_exceptions(
                before.recurrence_exceptions@,
                moving,
                series_id,
                Some(successor),
                timestamp,
            ) && after.events == before.events && after.categories == before.categories
        }
    }
}

/// Whether a recurring change was refused for a missing series.
pub open spec fn series_missing<T>(result: Result<T, RecurringEditError>) -> bool {
    result matches Err(RecurringEditError::SeriesMissing)
}

/// Whether a recurring change was refused for invalid values.
pub open spec fn values_invalid<T>(result: Result<T, RecurringEditError>) -> bool {
    result matches Err(RecurringEditError::Invalid(_))
}

/// The result of an edit as an optional occurrence.
pub open spec fn edit_result(result: Result<OccurrenceId, RecurringEditError>) -> Option<OccurrenceId> {
    match result {
        Ok(id) => Some(id),
        Err(_) => None,
    }
}

/// Edits a recurring occurrence, or it and every later one, from the
/// event form; a later split creates the series `successor_id`.
pub fn apply_recurring_edit_with(
    repository: &mut InMemoryRepository,
    series_id: RecurrenceSeriesId,
    original_date: CivilDate,
    draft: &FormDraft,
    scope: RecurrenceScope,
    timestamp: Timestamp,
    successor_id: RecurrenceSeriesId,
) -> (result: Result<OccurrenceId, RecurringEditError>)
    requires
        draft.category_id is Some,
    ensures
        !(result matches Err(RecurringEditError::ClockUnavailable)),
        edit_outcome(
            old(repository).data,
            final(repository).data,
            edit_result(result),
            series_missing(result),
            values_invalid(result),
            series_id,
            original_date,
            *draft,
            scope,
            timestamp,
            successor_id,
        ),
{
    let backup = copy_snapshot(&repository.data);
    let k = match find_series_index(repository.data.recurrence_series.as_slice(), series_id) {
        Some(k) => k,
        None => return Err(RecurringEditError::SeriesMissing),
    };
    proof {
        lemma_series_index_id(repository.data.recurrence_series@, series_id);
    }
    let series = repository.data.recurrence_series[k].duplicate();
    let event = draft_to_domain(draft);
    match scope {
        RecurrenceScope::This => {
            let exception = match RecurrenceException::modified(series_id, original_date, event, timestamp) {
                Ok(x) => x,
                Err(v) => return Err(RecurringEditError::Invalid(v)),
            };
            match repository.upsert_exception(exception) {
                Ok(()) => Ok(OccurrenceId::Recurring { series_id, original_date }),
                Err(e) => {
                    repository.data = backup;
                    Err(RecurringEditError::Repository(e))
                },
            }
        },
        RecurrenceScope::Following => {
            let rule = match draft.recurrence {
                Some(r) => r,
                None => series.rule,
            };
            let ends_on = draft.ends_on;
            let moving = following_exceptions_of(
                repository.data.recurrence_exceptions.as_slice(),
                series_id,
                original_date,
            );
            if original_date == series.template.date {
                let mut revised = series;
                match revised.revise(event, rule, ends_on, timestamp) {
                    Ok(()) => {},
                    Err(v) => return Err(RecurringEditError::Invalid(v)),
                }
                let selected_date = revised.template.date;
                let target = revised.duplicate();
                let ghost before_series = repository.data.recurrence_series@;
                match repository.update_series(revised) {
                    Ok(()) => {},
                    Err(e) => {
                        repository.data = backup;
                        return Err(RecurringEditError::Repository(e));
                    },
                }
                proof {
                    lemma_series_index_update(before_series, k as int, target);
                }
                match rehome_exceptions(repository, moving.as_slice(), series_id, Some(&target), timestamp) {
                    Ok(()) => Ok(OccurrenceId::Recurring { series_id, original_date: selected_date }),
                    Err(e) => {
                        repository.data = backup;
                        Err(e)
                    },
                }
            } else {
                let mut predecessor = series;
                match truncate(&mut predecessor, original_date, timestamp) {
                    Ok(()) => {},
                    Err(e) => return Err(e),
                }
                match repository.update_series(predecessor) {
                    Ok(()) => {},
                    Err(e) => {
                        repository.data = backup;
                        return Err(RecurringEditError::Repository(e));
                    },
                }
                let successor = match RecurrenceSeries::new(successor_id, event, rule, ends_on, timestamp) {
                    Ok(s) => s,
                    Err(v) => {
                        repository.data = backup;
                        return Err(RecurringEditError::Invalid(v));
                    },
                };
                let target = successor.duplicate();
                let ghost before_series = repository.data.recurrence_series@;
                match repository.create_series(successor) {
                    Ok(()) => {},
                    Err(e) => {
                        repository.data = backup;
                        return Err(RecurringEditError::Repository(e));
                    },
                }
                proof {
                    lemma_series_index_push(before_series, target);
                }
                match rehome_exceptions(repository, moving.as_slice(), series_id, Some(&target), timestamp) {
                    Ok(()) => Ok(OccurrenceId::Recurring { series_id: successor_id, original_date: draft.date }),
                    Err(e) => {
                        repository.data = backup;
                        Err(e)
                    },
                }
            }
        },
    }
}

/// The identifier that a version 4 UUID built from the 128 bits `random`
/// carries: the version nibble set to 4 and the variant bits to `10`.
pub open spec fn v4_value(random: u128) -> u128 {
    (random & 0xFFFF_FFFF_FFFF_0FFF_3FFF_FFFF_FFFF_FFFFu128) | 0x0000_0000_0000_4000_8000_0000_0000_0000u128
}

/// Builds a series identifier with `uuid::Builder::from_random_bytes` from
/// the big-endian bytes of `random`: the builder sets the version and the
/// variant bits and keeps the others.
#[verifier::external_body]
fn series_id_from_random(random: u128) -> (id: RecurrenceSeriesId)
    ensures
        id.value == v4_value(random),
{
    RecurrenceSeriesId { value: uuid::Builder::from_random_bytes(random.to_be_bytes()).into_uuid().as_u128() }
}

/// Edits a recurring occurrence, or it and every later one, from the event
/// form, stamped with the current time; a later split creates a series with
/// the version 4 identifier built from the random bits `random`. When the
/// clock cannot be read, nothing changes.
pub fn apply_recurring_edit(
    repository: &mut InMemoryRepository,
    series_id: RecurrenceSeriesId,
    original_date: CivilDate,
    draft: &FormDraft,
    scope: RecurrenceScope,
    random: u128,
) -> (result: Result<OccurrenceId, RecurringEditError>)
    requires
        draft.category_id is Some,
    ensures
        result matches Err(RecurringEditError::ClockUnavailable) ==> *final(repository) == *old(
            repository,
        ),
        !(result matches Err(RecurringEditError::ClockUnavailable)) ==> exists|timestamp: Timestamp|
            #[trigger] edit_outcome(
                old(repository).data,
                final(repository).data,
                edit_result(result),
                series_missing(result),
                values_invalid(result),
                series_id,
                original_date,
                *draft,
                scope,
                timestamp,
                RecurrenceSeriesId { value: v4_value(random) },
            ),
{
    let now = match current_timestamp() {
        Some(now) => now,
        None => return Err(RecurringEditError::ClockUnavailable),
    };
    let successor_id = series_id_from_random(random);
    assert(successor_id == RecurrenceSeriesId { value: v4_value(random) });
    apply_recurring_edit_with(repository, series_id, original_date, draft, scope, now, successor_id)
}

} // verus!

//! Category bookkeeping: how many stored items use a category, which colour
//! a new category gets, and the snapshot left after deleting a category.
use vstd::prelude::*;

use crate::domain::{
    Category, CategoryColor, CategoryId, Event, EventDraft, RecurrenceException,
    RecurrenceExceptionKind, RecurrenceSeries, Settings, ValidationError, all_category_colors,
    series_values_valid,
};
use crate::store::{AppPreferences, PersistenceSnapshot};

verus! {

/// Whether an exception replaces its occurrence with a draft in `category`.
pub open spec fn exception_uses(exception: RecurrenceException, category: CategoryId) -> bool {
    match exception.kind {
        RecurrenceExceptionKind::Modified(draft) => draft.category_id == category,
        RecurrenceExceptionKind::Cancelled => false,
    }
}

/// Number of events in `category`.
pub open spec fn events_using(events: Seq<Event>, category: CategoryId) -> nat
    decreases events.len(),
{
    if events.len() == 0 {
        0
    } else {
        events_using(events.drop_last(), category) + if events.last().draft.category_id
            == category {
            1nat
        } else {
            0nat
        }
    }
}

/// Number of series whose template is in `category`.
pub open spec fn series_using(series: Seq<RecurrenceSeries>, category: CategoryId) -> nat
    decreases series.len(),
{
    if series.len() == 0 {
        0
    } else {
        series_using(series.drop_last(), category) + if series.last().template.category_id
            == category {
            1nat
        } else {
            0nat
        }
    }
}

/// Number of modified exceptions whose draft is in `category`.
pub open spec fn exceptions_using(exceptions: Seq<RecurrenceException>, category: CategoryId) -> nat
    decreases exceptions.len(),
{
    if exceptions.len() == 0 {
        0
    } else {
        exceptions_using(exceptions.drop_last(), category) + if exception_uses(
            exceptions.last(),
            category,
        ) {
            1nat
        } else {
            0nat
        }
    }
}

/// Number of visible categories.
pub open spec fn visible_count(categories: Seq<Category>) -> nat
    decreases categories.len(),
{
    if categories.len() == 0 {
        0
    } else {
        visible_count(categories.drop_last()) + if categories.last().visible {
            1nat
        } else {
            0nat
        }
    }
}

/// How many stored items reference one category.
#[derive(Clone, Copy, Debug, PartialEq, Eq, Structural, Default)]
pub struct CategoryUsage {
    pub events: usize,
    pub series: usize,
    pub exceptions: usize,
}

impl CategoryUsage {
    /// Total number of references.
    pub open spec fn total(self) -> int {
        self.events + self.series + self.exceptions
    }

    /// Returns the total number of references.
    pub fn references(self) -> (n: usize)
        requires
            self.total() <= usize::MAX,
        ensures
            n == self.total(),
    {
        self.events + self.series + self.exceptions
    }
}

/// Returns whether an exception replaces its occurrence with a draft in `category`.
pub fn exception_uses_category(exception: &RecurrenceException, category: CategoryId) -> (uses:
    bool)
    ensures
        uses == exception_uses(*exception, category),
{
    match &exception.kind {
        RecurrenceExceptionKind::Modified(draft) => draft.category_id == category,
        RecurrenceExceptionKind::Cancelled => false,
    }
}

/// Counts the events, series and modified exceptions that use `category`.
pub fn category_usage(snapshot: &PersistenceSnapshot, category: CategoryId) -> (usage:
    CategoryUsage)
    ensures
        usage.events == events_using(snapshot.events@, category),
        usage.series == series_using(snapshot.recurrence_series@, category),
        usage.exceptions == exceptions_using(snapshot.recurrence_exceptions@, category),
{
    let mut events: usize = 0;
    let mut i: usize = 0;
    while i < snapshot.events.len()
        invariant
            i <= snapshot.events.len(),
            events == events_using(snapshot.events@.take(i as int), category),
            events <= i,
        decreases snapshot.events.len() - i,
    {
        assert(snapshot.events@.take(i as int + 1).drop_last() =~= snapshot.events@.take(i as int));
        if snapshot.events[i].draft.category_id == category {
            events += 1;
        }
        i += 1;
    }
    assert(snapshot.events@.take(snapshot.events.len() as int) =~= snapshot.events@);
    let mut series: usize = 0;
    let mut k: usize = 0;
    while k < snapshot.recurrence_series.len()
        invariant
            k <= snapshot.recurrence_series.len(),
            series == series_using(snapshot.recurrence_series@.take(k as int), category),
            series <= k,
        decreases snapshot.recurrence_series.len() - k,
    {
        assert(snapshot.recurrence_series@.take(k as int + 1).drop_last()
            =~= snapshot.recurrence_series@.take(k as int));
        if snapshot.recurrence_series[k].template.category_id == category {
            series += 1;
        }
        k += 1;
    }
    assert(snapshot.recurrence_series@.take(snapshot.recurrence_series.len() as int)
        =~= snapshot.recurrence_series@);
    let mut exceptions: usize = 0;
    let mut j: usize = 0;
    while j < snapshot.recurrence_exceptions.len()
        invariant
            j <= snapshot.recurrence_exceptions.len(),
            exceptions == exceptions_using(snapshot.recurrence_exceptions@.take(j as int), category),
            exceptions <= j,
        decreases snapshot.recurrence_exceptions.len() - j,
    {
        assert(snapshot.recurrence_exceptions@.take(j as int + 1).drop_last()
            =~= snapshot.recurrence_exceptions@.take(j as int));
        if exception_uses_category(&snapshot.recurrence_exceptions[j], category) {
            exceptions += 1;
        }
        j += 1;
    }
    assert(snapshot.recurrence_exceptions@.take(snapshot.recurrence_exceptions.len() as int)
        =~= snapshot.recurrence_exceptions@);
    CategoryUsage { events, series, exceptions }
}

/// Number of categories in `categories` with colour `color`.
pub open spec fn color_uses(categories: Seq<Category>, color: CategoryColor) -> nat
    decreases categories.len(),
{
    if categories.len() == 0 {
        0
    } else {
        color_uses(categories.drop_last(), color) + if categories.last().color == color {
            1nat
        } else {
            0nat
        }
    }
}

fn count_color(categories: &[Category], color: CategoryColor) -> (n: usize)
    ensures
        n == color_uses(categories@, color),
{
    let mut n: usize = 0;
    let mut i: usize = 0;
    while i < categories.len()
        invariant
            i <= categories.len(),
            n == color_uses(categories@.take(i as int), color),
            n <= i,
        decreases categories.len() - i,
    {
        assert(categories@.take(i as int + 1).drop_last() =~= categories@.take(i as int));
        if categories[i].color == color {
            n += 1;
        }
        i += 1;
    }
    assert(categories@.take(categories.len() as int) =~= categories@);
    n
}

/// Returns the least used colour, preferring the earliest in palette order
/// among equally used colours.
pub fn next_category_color(categories: &[Category]) -> (color: CategoryColor)
    ensures
        exists|i: int|
            0 <= i < all_category_colors().len() && all_category_colors()[i] == color && (forall|
                j: int,
            |
                0 <= j < all_category_colors().len() ==> color_uses(categories@, color)
                    <= color_uses(categories@, #[trigger] all_category_colors()[j])) && (forall|
                j: int,
            |
                0 <= j < i ==> color_uses(categories@, color) < color_uses(
                    categories@,
                    #[trigger] all_category_colors()[j],
                )),
{
    let palette = CategoryColor::all();
    let mut best: usize = 0;
    let mut best_uses = count_color(categories, palette[0]);
    let mut i: usize = 1;
    while i < palette.len()
        invariant
            palette@ == all_category_colors(),
            1 <= i <= palette.len(),
            best < i,
            best_uses == color_uses(categories@, palette@[best as int]),
            forall|j: int| 0 <= j < i ==> best_uses <= color_uses(categories@, #[trigger] palette@[j]),
            forall|j: int| 0 <= j < best ==> best_uses < color_uses(categories@, #[trigger] palette@[j]),
        decreases palette.len() - i,
    {
        let uses = count_color(categories, palette[i]);
        if uses < best_uses {
            best = i;
            best_uses = uses;
        }
        i += 1;
    }
    palette[best]
}

/// Why a category could not be deleted.
#[derive(Clone, Copy, Debug, PartialEq, Eq, Structural)]
pub enum CategoryRemovalError {
    /// The category is not stored.
    CategoryMissing,
    /// It is the only category.
    LastCategory,
    /// The category is in use or is the only visible one, and no replacement was named.
    ReplacementRequired,
    /// The replacement named is the category itself.
    DifferentReplacementRequired,
    /// The replacement is not stored.
    ReplacementMissing,
    /// A rewritten item failed validation.
    InvalidEntity(ValidationError),
}

/// The message shown for a refused category deletion.
pub open spec fn removal_error_text(error: CategoryRemovalError) -> Seq<char> {
    match error {
        CategoryRemovalError::CategoryMissing => "That category is no longer available."@,
        CategoryRemovalError::LastCategory => "Keep at least one category."@,
        CategoryRemovalError::ReplacementRequired => "Choose a replacement category first."@,
        CategoryRemovalError::DifferentReplacementRequired => "Choose a different replacement category."@,
        CategoryRemovalError::ReplacementMissing => "The replacement category is no longer available."@,
        CategoryRemovalError::InvalidEntity(_) => "A reassigned item is no longer valid."@,
    }
}

impl CategoryRemovalError {
    /// The message shown to the user.
    pub fn message(&self) -> (text: String)
        ensures
            text@ == removal_error_text(*self),
    {
        match self {
            CategoryRemovalError::CategoryMissing => String::from_str("That category is no longer available."),
            CategoryRemovalError::LastCategory => String::from_str("Keep at least one category."),
            CategoryRemovalError::ReplacementRequired => String::from_str("Choose a replacement category first."),
            CategoryRemovalError::DifferentReplacementRequired => String::from_str(
                "Choose a different replacement category.",
            ),
            CategoryRemovalError::ReplacementMissing => String::from_str(
                "The replacement category is no longer available.",
            ),
            CategoryRemovalError::InvalidEntity(_) => String::from_str("A reassigned item is no longer valid."),
        }
    }
}

/// Whether a category with identifier `id` is stored.
pub open spec fn has_category(categories: Seq<Category>, id: CategoryId) -> bool {
    exists|i: int| 0 <= i < categories.len() && #[trigger] categories[i].id == id
}

/// An event moved from `source` to `replacement`, stamped with `timestamp`.
pub open spec fn rehomed_event(
    event: Event,
    source: CategoryId,
    replacement: CategoryId,
    timestamp: crate::time::Timestamp,
) -> Event {
    if event.draft.category_id == source {
        Event {
            draft: EventDraft { category_id: replacement, ..event.draft },
            updated_at: timestamp,
            ..event
        }
    } else {
        event
    }
}

/// A series moved from `source` to `replacement`, stamped with `timestamp`.
pub open spec fn rehomed_series(
    series: RecurrenceSeries,
    source: CategoryId,
    replacement: CategoryId,
    timestamp: crate::time::Timestamp,
) -> RecurrenceSeries {
    if series.template.category_id == source {
        RecurrenceSeries {
            template: EventDraft { category_id: replacement, ..series.template },
            updated_at: timestamp,
            ..series
        }
    } else {
        series
    }
}

/// An exception moved from `source` to `replacement`, stamped with `timestamp`.
pub open spec fn rehomed_exception(
    exception: RecurrenceException,
    source: CategoryId,
    replacement: CategoryId,
    timestamp: crate::time::Timestamp,
) -> RecurrenceException {
    match exception.kind {
        RecurrenceExceptionKind::Modified(draft) => if draft.category_id == source {
            RecurrenceException {
                series_id: exception.series_id,
                original_date: exception.original_date,
                kind: RecurrenceExceptionKind::Modified(
                    EventDraft { category_id: replacement, ..draft },
                ),
                updated_at: Some(timestamp),
            }
        } else {
            exception
        },
        RecurrenceExceptionKind::Cancelled => exception,
    }
}

/// Every item that moves to the replacement stays valid.
pub open spec fn rehoming_valid(snapshot: PersistenceSnapshot, source: CategoryId) -> bool {
    &&& forall|i: int|
        0 <= i < snapshot.events@.len() && #[trigger] snapshot.events@[i].draft.category_id
            == source ==> snapshot.events@[i].draft.is_valid()
    &&& forall|i: int|
        0 <= i < snapshot.recurrence_series@.len()
            && #[trigger] snapshot.recurrence_series@[i].template.category_id == source
            ==> series_values_valid(
            snapshot.recurrence_series@[i].template,
            snapshot.recurrence_series@[i].rule,
            snapshot.recurrence_series@[i].ends_on,
        )
    &&& forall|i: int|
        0 <= i < snapshot.recurrence_exceptions@.len() && #[trigger] exception_uses(
            snapshot.recurrence_exceptions@[i],
            source,
        ) ==> (snapshot.recurrence_exceptions@[i].kind matches RecurrenceExceptionKind::Modified(
            d,
        ) && d.is_valid())
}

/// The categories with the first one named `id` made visible.
pub open spec fn reveal_first(categories: Seq<Category>, id: CategoryId) -> Seq<Category>
    decreases categories.len(),
{
    if categories.len() == 0 {
        categories
    } else if categories[0].id == id {
        categories.update(0, Category { visible: true, ..categories[0] })
    } else {
        seq![categories[0]] + reveal_first(categories.drop_first(), id)
    }
}

/// The categories other than `id`, in order.
pub open spec fn without_category(categories: Seq<Category>, id: CategoryId) -> Seq<Category>
    decreases categories.len(),
{
    if categories.len() == 0 {
        categories
    } else {
        let prefix = without_category(categories.drop_last(), id);
        if categories.last().id == id {
            prefix
        } else {
            prefix.push(categories.last())
        }
    }
}

/// Whether the first category named `id` is visible.
pub open spec fn category_visible(categories: Seq<Category>, id: CategoryId) -> bool
    decreases categories.len(),
{
    if categories.len() == 0 {
        false
    } else if categories[0].id == id {
        categories[0].visible
    } else {
        category_visible(categories.drop_first(), id)
    }
}

/// The outcome of deleting `source`, optionally moving its items to
/// `replacement`.
pub open spec fn removal_outcome(
    before: PersistenceSnapshot,
    source: CategoryId,
    replacement: Option<CategoryId>,
) -> Result<(), CategoryRemovalError> {
    let cats = before.categories@;
    let usage = events_using(before.events@, source) + series_using(
        before.recurrence_series@,
        source,
    ) + exceptions_using(before.recurrence_exceptions@, source);
    let sole_visible = category_visible(cats, source) && visible_count(cats) == 1;
    let needs = usage > 0 || sole_visible;
    if !has_category(cats, source) {
        Err(CategoryRemovalError::CategoryMissing)
    } else if cats.len() == 1 {
        Err(CategoryRemovalError::LastCategory)
    } else if needs && replacement is None {
        Err(CategoryRemovalError::ReplacementRequired)
    } else if needs && replacement == Some(source) {
        Err(CategoryRemovalError::DifferentReplacementRequired)
    } else {
        match replacement {
            Some(r) => if r == source {
                Ok(())
            } else if !has_category(cats, r) {
                Err(CategoryRemovalError::ReplacementMissing)
            } else if !rehoming_valid(before, source) {
                Err(CategoryRemovalError::InvalidEntity(ValidationError::InvalidTimeRange))
            } else {
                Ok(())
            },
            None => Ok(()),
        }
    }
}


/// Whether deleting `source` makes the visible categories empty unless the
/// replacement is shown.
pub open spec fn sole_visible(categories: Seq<Category>, source: CategoryId) -> bool {
    category_visible(categories, source) && visible_count(categories) == 1
}

/// The replacement that items actually move to: none when it is the deleted
/// category itself.
pub open spec fn effective_replacement(source: CategoryId, replacement: Option<CategoryId>) -> Option<
    CategoryId,
> {
    match replacement {
        Some(r) => if r == source {
            None
        } else {
            Some(r)
        },
        None => None,
    }
}

pub(crate) fn has_category_id(categories: &[Category], id: CategoryId) -> (found: bool)
    ensures
        found == has_category(categories@, id),
{
    let mut i: usize = 0;
    while i < categories.len()
        invariant
            i <= categories.len(),
            forall|j: int| 0 <= j < i ==> #[trigger] categories@[j].id != id,
        decreases categories.len() - i,
    {
        if categories[i].id == id {
            return true;
        }
        i += 1;
    }
    false
}

proof fn lemma_category_visible(categories: Seq<Category>, id: CategoryId, i: int)
    requires
        0 <= i <= categories.len(),
        forall|j: int| 0 <= j < i ==> #[trigger] categories[j].id != id,
    ensures
        category_visible(categories, id) == if i < categories.len() {
            category_visible(categories.subrange(i, categories.len() as int), id)
        } else {
            false
        },
    decreases i,
{
    if i > 0 {
        let rest = categories.drop_first();
        assert forall|j: int| 0 <= j < i - 1 implies #[trigger] rest[j].id != id by {
            assert(rest[j] == categories[j + 1]);
        }
        lemma_category_visible(rest, id, i - 1);
        assert(categories[0].id != id);
        if i < categories.len() {
            assert(rest.subrange(i - 1, rest.len() as int) =~= categories.subrange(i, categories.len() as int));
        }
    } else if categories.len() > 0 {
        assert(categories.subrange(0, categories.len() as int) =~= categories);
    }
}

pub(crate) fn category_is_visible(categories: &[Category], id: CategoryId) -> (visible: bool)
    ensures
        visible == category_visible(categories@, id),
{
    let mut i: usize = 0;
    while i < categories.len()
        invariant
            i <= categories.len(),
            forall|j: int| 0 <= j < i ==> #[trigger] categories@[j].id != id,
        decreases categories.len() - i,
    {
        if categories[i].id == id {
            proof {
                lemma_category_visible(categories@, id, i as int);
                let rest = categories@.subrange(i as int, categories@.len() as int);
                assert(rest[0] == categories@[i as int]);
            }
            return categories[i].visible;
        }
        i += 1;
    }
    proof {
        lemma_category_visible(categories@, id, i as int);
    }
    false
}

fn count_visible(categories: &[Category]) -> (n: usize)
    ensures
        n == visible_count(categories@),
{
    let mut n: usize = 0;
    let mut i: usize = 0;
    while i < categories.len()
        invariant
            i <= categories.len(),
            n == visible_count(categories@.take(i as int)),
            n <= i,
        decreases categories.len() - i,
    {
        assert(categories@.take(i as int + 1).drop_last() =~= categories@.take(i as int));
        if categories[i].visible {
            n += 1;
        }
        i += 1;
    }
    assert(categories@.take(categories.len() as int) =~= categories@);
    n
}

fn rehome_events(
    events: &[Event],
    source: CategoryId,
    replacement: CategoryId,
    timestamp: crate::time::Timestamp,
) -> (result: Result<Vec<Event>, ValidationError>)
    ensures
        result is Ok <==> forall|i: int|
            0 <= i < events.len() && #[trigger] events@[i].draft.category_id == source
                ==> events@[i].draft.is_valid(),
        result matches Ok(v) ==> v@.len() == events@.len() && forall|i: int|
            0 <= i < events.len() ==> #[trigger] v@[i] == rehomed_event(
                events@[i],
                source,
                replacement,
                timestamp,
            ),
{
    let mut out: Vec<Event> = Vec::new();
    let mut i: usize = 0;
    while i < events.len()
        invariant
            i <= events.len(),
            out@.len() == i,
            forall|k: int|
                0 <= k < i ==> #[trigger] out@[k] == rehomed_event(events@[k], source, replacement, timestamp),
            forall|k: int|
                0 <= k < i && #[trigger] events@[k].draft.category_id == source
                    ==> events@[k].draft.is_valid(),
        decreases events.len() - i,
    {
        let mut event = events[i].duplicate();
        if event.draft.category_id == source {
            let mut draft = event.draft();
            draft.category_id = replacement;
            match event.revise(draft, timestamp) {
                Ok(()) => {},
                Err(e) => {
                    return Err(e);
                },
            }
        }
        out.push(event);
        i += 1;
    }
    Ok(out)
}

fn rehome_series(
    series: &[RecurrenceSeries],
    source: CategoryId,
    replacement: CategoryId,
    timestamp: crate::time::Timestamp,
) -> (result: Result<Vec<RecurrenceSeries>, ValidationError>)
    ensures
        result is Ok <==> forall|i: int|
            0 <= i < series.len() && #[trigger] series@[i].template.category_id == source
                ==> series_values_valid(series@[i].template, series@[i].rule, series@[i].ends_on),
        result matches Ok(v) ==> v@.len() == series@.len() && forall|i: int|
            0 <= i < series.len() ==> #[trigger] v@[i] == rehomed_series(
                series@[i],
                source,
                replacement,
                timestamp,
            ),
{
    let mut out: Vec<RecurrenceSeries> = Vec::new();
    let mut i: usize = 0;
    while i < series.len()
        invariant
            i <= series.len(),
            out@.len() == i,
            forall|k: int|
                0 <= k < i ==> #[trigger] out@[k] == rehomed_series(series@[k], source, replacement, timestamp),
            forall|k: int|
                0 <= k < i && #[trigger] series@[k].template.category_id == source
                    ==> series_values_valid(series@[k].template, series@[k].rule, series@[k].ends_on),
        decreases series.len() - i,
    {
        let mut item = series[i].duplicate();
        if item.template.category_id == source {
            let mut template = item.template.duplicate();
            template.category_id = replacement;
            let rule = item.rule;
            let ends_on = item.ends_on;
            match item.revise(template, rule, ends_on, timestamp) {
                Ok(()) => {},
                Err(e) => {
                    return Err(e);
                },
            }
        }
        out.push(item);
        i += 1;
    }
    Ok(out)
}

fn rehome_exceptions(
    exceptions: &[RecurrenceException],
    source: CategoryId,
    replacement: CategoryId,
    timestamp: crate::time::Timestamp,
) -> (result: Result<Vec<RecurrenceException>, ValidationError>)
    ensures
        result is Ok <==> forall|i: int|
            0 <= i < exceptions.len() && #[trigger] exception_uses(exceptions@[i], source) ==> (
            exceptions@[i].kind matches RecurrenceExceptionKind::Modified(d) && d.is_valid()),
        result matches Ok(v) ==> v@.len() == exceptions@.len() && forall|i: int|
            0 <= i < exceptions.len() ==> #[trigger] v@[i] == rehomed_exception(
                exceptions@[i],
                source,
                replacement,
                timestamp,
            ),
{
    let mut out: Vec<RecurrenceException> = Vec::new();
    let mut i: usize = 0;
    while i < exceptions.len()
        invariant
            i <= exceptions.len(),
            out@.len() == i,
            forall|k: int|
                0 <= k < i ==> #[trigger] out@[k] == rehomed_exception(
                    exceptions@[k],
                    source,
                    replacement,
                    timestamp,
                ),
            forall|k: int|
                0 <= k < i && #[trigger] exception_uses(exceptions@[k], source) ==> (
                exceptions@[k].kind matches RecurrenceExceptionKind::Modified(d) && d.is_valid()),
        decreases exceptions.len() - i,
    {
        let exception = &exceptions[i];
        let item = match &exception.kind {
            RecurrenceExceptionKind::Modified(draft) => {
                if draft.category_id == source {
                    let mut moved = draft.duplicate();
                    moved.category_id = replacement;
                    assert(moved.is_valid() == draft.is_valid());
                    match RecurrenceException::modified(
                        exception.series_id,
                        exception.original_date,
                        moved,
                        timestamp,
                    ) {
                        Ok(e) => e,
                        Err(e) => {
                            assert(exception_uses(exceptions@[i as int], source));
                            assert(!(exceptions@[i as int].kind matches RecurrenceExceptionKind::Modified(d) && d.is_valid()));
                            return Err(e);
                        },
                    }
                } else {
                    exception.duplicate()
                }
            },
            RecurrenceExceptionKind::Cancelled => exception.duplicate(),
        };
        out.push(item);
        i += 1;
    }
    Ok(out)
}

fn reveal_first_category(categories: &[Category], id: CategoryId) -> (revealed: Vec<Category>)
    ensures
        revealed@ == reveal_first(categories@, id),
    decreases categories.len(),
{
    let mut out: Vec<Category> = Vec::new();
    let mut i: usize = 0;
    let mut done = false;
    while i < categories.len()
        invariant
            i <= categories.len(),
            out@.len() == i,
            done ==> reveal_first(categories@, id) =~= out@ + categories@.subrange(i as int, categories.len() as int),
            !done ==> out@ =~= categories@.take(i as int) && forall|j: int| 0 <= j < i ==> #[trigger] categories@[j].id != id,
        decreases categories.len() - i,
    {
        let mut c = categories[i].duplicate();
        if !done && c.id == id {
            proof {
                lemma_reveal_first_at(categories@, id, i as int);
            }
            c.set_visible(true);
            done = true;
            out.push(c);
            proof {
                assert(reveal_first(categories@, id) =~= out@ + categories@.subrange(i as int + 1, categories.len() as int));
            }
        } else {
            out.push(c);
            proof {
                if done {
                    assert(out@ + categories@.subrange(i as int + 1, categories.len() as int)
                        =~= (out@.drop_last()) + categories@.subrange(i as int, categories.len() as int));
                }
            }
        }
        i += 1;
    }
    proof {
        if !done {
            lemma_reveal_first_absent(categories@, id);
            assert(categories@.take(categories.len() as int) =~= categories@);
        } else {
            assert(categories@.subrange(categories.len() as int, categories.len() as int) =~= Seq::<Category>::empty());
            assert(out@ + Seq::<Category>::empty() =~= out@);
        }
    }
    out
}

proof fn lemma_reveal_first_at(categories: Seq<Category>, id: CategoryId, i: int)
    requires
        0 <= i < categories.len(),
        categories[i].id == id,
        forall|j: int| 0 <= j < i ==> #[trigger] categories[j].id != id,
    ensures
        reveal_first(categories, id) =~= categories.take(i).push(
            Category { visible: true, ..categories[i] },
        ) + categories.subrange(i + 1, categories.len() as int),
    decreases i,
{
    if i > 0 {
        let rest = categories.drop_first();
        assert forall|j: int| 0 <= j < i - 1 implies #[trigger] rest[j].id != id by {
            assert(rest[j] == categories[j + 1]);
        }
        lemma_reveal_first_at(rest, id, i - 1);
        assert(categories[0].id != id);
    }
}

proof fn lemma_reveal_first_absent(categories: Seq<Category>, id: CategoryId)
    requires
        forall|j: int| 0 <= j < categories.len() ==> #[trigger] categories[j].id != id,
    ensures
        reveal_first(categories, id) == categories,
    decreases categories.len(),
{
    if categories.len() > 0 {
        let rest = categories.drop_first();
        assert forall|j: int| 0 <= j < rest.len() implies #[trigger] rest[j].id != id by {
            assert(rest[j] == categories[j + 1]);
        }
        lemma_reveal_first_absent(rest, id);
        assert(categories[0].id != id);
        assert(seq![categories[0]] + rest =~= categories);
    }
}

fn categories_without(categories: &[Category], id: CategoryId) -> (kept: Vec<Category>)
    ensures
        kept@ == without_category(categories@, id),
{
    let mut kept: Vec<Category> = Vec::new();
    let mut i: usize = 0;
    while i < categories.len()
        invariant
            i <= categories.len(),
            kept@ == without_category(categories@.take(i as int), id),
        decreases categories.len() - i,
    {
        assert(categories@.take(i as int + 1).drop_last() =~= categories@.take(i as int));
        if categories[i].id != id {
            kept.push(categories[i].duplicate());
        }
        i += 1;
    }
    assert(categories@.take(categories.len() as int) =~= categories@);
    kept
}


/// `after` is `before` with category `source` deleted, its items moved to
/// the effective replacement and stamped with `timestamp`: the replacement
/// is shown when `source` was the only visible category, and a category
/// filter on `source` is cleared.
pub open spec fn removal_result(
    before: PersistenceSnapshot,
    after: PersistenceSnapshot,
    source: CategoryId,
    replacement: Option<CategoryId>,
    timestamp: crate::time::Timestamp,
) -> bool {
    let cats = before.categories@;
    let r = effective_replacement(source, replacement);
    &&& after.settings == before.settings
    &&& after.preferences == (AppPreferences {
        category_filter: if before.preferences.category_filter == Some(source) {
            None
        } else {
            before.preferences.category_filter
        },
        ..before.preferences
    })
    &&& after.categories@ == without_category(
        if r is Some && sole_visible(cats, source) {
            reveal_first(cats, r->0)
        } else {
            cats
        },
        source,
    )
    &&& after.events@.len() == before.events@.len()
    &&& after.recurrence_series@.len() == before.recurrence_series@.len()
    &&& after.recurrence_exceptions@.len() == before.recurrence_exceptions@.len()
    &&& forall|i: int|
        0 <= i < before.events@.len() ==> #[trigger] after.events@[i] == match r {
            Some(to) => rehomed_event(before.events@[i], source, to, timestamp),
            None => before.events@[i],
        }
    &&& forall|i: int|
        0 <= i < before.recurrence_series@.len() ==> #[trigger] after.recurrence_series@[i]
            == match r {
            Some(to) => rehomed_series(before.recurrence_series@[i], source, to, timestamp),
            None => before.recurrence_series@[i],
        }
    &&& forall|i: int|
        0 <= i < before.recurrence_exceptions@.len()
            ==> #[trigger] after.recurrence_exceptions@[i] == match r {
            Some(to) => rehomed_exception(
                before.recurrence_exceptions@[i],
                source,
                to,
                timestamp,
            ),
            None => before.recurrence_exceptions@[i],
        }
}

/// Builds the snapshot left after deleting category `source`.
///
/// When the category is used by any event, series or modified exception, or
/// is the only visible category, a different, stored replacement is required;
/// every item in `source` then moves to it (stamped with `timestamp`), and the
/// replacement becomes visible if `source` was the only visible category. The
/// category is removed and a startup filter on it is cleared.
pub fn remove_category_from_snapshot(
    before: &PersistenceSnapshot,
    source: CategoryId,
    replacement: Option<CategoryId>,
    timestamp: crate::time::Timestamp,
) -> (result: Result<PersistenceSnapshot, CategoryRemovalError>)
    ensures
        result is Ok <==> removal_outcome(*before, source, replacement) is Ok,
        result matches Err(e) ==> (removal_outcome(*before, source, replacement) matches Err(f) && (
        e == f || (e is InvalidEntity && f is InvalidEntity))),
        result matches Ok(after) ==> removal_result(*before, after, source, replacement, timestamp),
{
    let cats = before.categories.as_slice();
    if !has_category_id(cats, source) {
        return Err(CategoryRemovalError::CategoryMissing);
    }
    if cats.len() == 1 {
        return Err(CategoryRemovalError::LastCategory);
    }
    let usage = category_usage(before, source);
    let in_use = usage.events > 0 || usage.series > 0 || usage.exceptions > 0;
    let sole = category_is_visible(cats, source) && count_visible(cats) == 1;
    let needs = in_use || sole;
    if needs && replacement.is_none() {
        return Err(CategoryRemovalError::ReplacementRequired);
    }
    let effective = match replacement {
        Some(r) => if r == source {
            None
        } else {
            Some(r)
        },
        None => None,
    };
    if needs && effective.is_none() {
        return Err(CategoryRemovalError::DifferentReplacementRequired);
    }
    let (events, series, exceptions, categories) = match effective {
        Some(r) => {
            if !has_category_id(cats, r) {
                return Err(CategoryRemovalError::ReplacementMissing);
            }
            let events = match rehome_events(before.events.as_slice(), source, r, timestamp) {
                Ok(v) => v,
                Err(e) => return Err(CategoryRemovalError::InvalidEntity(e)),
            };
            let series = match rehome_series(before.recurrence_series.as_slice(), source, r, timestamp) {
                Ok(v) => v,
                Err(e) => return Err(CategoryRemovalError::InvalidEntity(e)),
            };
            let exceptions = match rehome_exceptions(
                before.recurrence_exceptions.as_slice(),
                source,
                r,
                timestamp,
            ) {
                Ok(v) => v,
                Err(e) => return Err(CategoryRemovalError::InvalidEntity(e)),
            };
            let categories = if sole {
                let revealed = reveal_first_category(cats, r);
                categories_without(revealed.as_slice(), source)
            } else {
                categories_without(cats, source)
            };
            (events, series, exceptions, categories)
        },
        None => {
            let mut events: Vec<Event> = Vec::new();
            let mut i: usize = 0;
            while i < before.events.len()
                invariant
                    i <= before.events.len(),
                    events@ =~= before.events@.take(i as int),
                decreases before.events.len() - i,
            {
                events.push(before.events[i].duplicate());
                i += 1;
            }
            let mut series: Vec<RecurrenceSeries> = Vec::new();
            let mut k: usize = 0;
            while k < before.recurrence_series.len()
                invariant
                    k <= before.recurrence_series.len(),
                    series@ =~= before.recurrence_series@.take(k as int),
                decreases before.recurrence_series.len() - k,
            {
                series.push(before.recurrence_series[k].duplicate());
                k += 1;
            }
            let mut exceptions: Vec<RecurrenceException> = Vec::new();
            let mut j: usize = 0;
            while j < before.recurrence_exceptions.len()
                invariant
                    j <= before.recurrence_exceptions.len(),
                    exceptions@ =~= before.recurrence_exceptions@.take(j as int),
                decreases before.recurrence_exceptions.len() - j,
            {
                exceptions.push(before.recurrence_exceptions[j].duplicate());
                j += 1;
            }
            (events, series, exceptions, categories_without(cats, source))
        },
    };
    let mut preferences = before.preferences.duplicate();
    if preferences.category_filter == Some(source) {
        preferences.category_filter = None;
    }
    Ok(PersistenceSnapshot {
        settings: before.settings.duplicate(),
        preferences,
        categories,
        events,
        recurrence_series: series,
        recurrence_exceptions: exceptions,
    })
}

/// An event list counts no uses of a category exactly when no event in it
/// has that category.
pub(crate) proof fn lemma_events_using_zero(events: Seq<Event>, id: CategoryId)
    ensures
        events_using(events, id) == 0 <==> forall|i: int|
            0 <= i < events.len() ==> #[trigger] events[i].draft.category_id != id,
    decreases events.len(),
{
    if events.len() > 0 {
        let prefix = events.drop_last();
        lemma_events_using_zero(prefix, id);
        assert(events.last() == events[events.len() - 1]);
        if events_using(events, id) == 0 {
            assert forall|i: int| 0 <= i < events.len() implies #[trigger] events[i].draft.category_id != id by {
                if i < prefix.len() {
                    assert(prefix[i] == events[i]);
                }
            }
        }
        if forall|i: int| 0 <= i < events.len() ==> #[trigger] events[i].draft.category_id != id {
            assert forall|i: int| 0 <= i < prefix.len() implies #[trigger] prefix[i].draft.category_id
                != id by {
                assert(prefix[i] == events[i]);
            }
        }
    }
}

/// A series list counts no uses of a category exactly when no series in it
/// has that category.
pub(crate) proof fn lemma_series_using_zero(series: Seq<RecurrenceSeries>, id: CategoryId)
    ensures
        series_using(series, id) == 0 <==> forall|i: int|
            0 <= i < series.len() ==> #[trigger] series[i].template.category_id != id,
    decreases series.len(),
{
    if series.len() > 0 {
        let prefix = series.drop_last();
        lemma_series_using_zero(prefix, id);
        assert(series.last() == series[series.len() - 1]);
        if series_using(series, id) == 0 {
            assert forall|i: int| 0 <= i < series.len() implies #[trigger] series[i].template.category_id != id by {
                if i < prefix.len() {
                    assert(prefix[i] == series[i]);
                }
            }
        }
        if forall|i: int| 0 <= i < series.len() ==> #[trigger] series[i].template.category_id != id {
            assert forall|i: int| 0 <= i < prefix.len() implies #[trigger] prefix[i].template.category_id
                != id by {
                assert(prefix[i] == series[i]);
            }
        }
    }
}

/// An exception list counts no uses of a category exactly when no exception
/// in it uses that category.
proof fn lemma_exceptions_using_zero(exceptions: Seq<RecurrenceException>, id: CategoryId)
    ensures
        exceptions_using(exceptions, id) == 0 <==> forall|i: int|
            0 <= i < exceptions.len() ==> !exception_uses(#[trigger] exceptions[i], id),
    decreases exceptions.len(),
{
    if exceptions.len() > 0 {
        let prefix = exceptions.drop_last();
        lemma_exceptions_using_zero(prefix, id);
        assert(exceptions.last() == exceptions[exceptions.len() - 1]);
        if exceptions_using(exceptions, id) == 0 {
            assert forall|i: int| 0 <= i < exceptions.len() implies !exception_uses(#[trigger] exceptions[i], id) by {
                if i < prefix.len() {
                    assert(prefix[i] == exceptions[i]);
                }
            }
        }
        if forall|i: int| 0 <= i < exceptions.len() ==> !exception_uses(#[trigger] exceptions[i], id) {
            assert forall|i: int| 0 <= i < prefix.len() implies !exception_uses(#[trigger] prefix[i], id) by {
                assert(prefix[i] == exceptions[i]);
            }
        }
    }
}

/// Showing a category keeps every identifier in place.
proof fn lemma_reveal_first_ids(categories: Seq<Category>, id: CategoryId)
    ensures
        reveal_first(categories, id).len() == categories.len(),
        forall|i: int|
            0 <= i < categories.len() ==> (#[trigger] reveal_first(categories, id)[i]).id
                == categories[i].id,
    decreases categories.len(),
{
    if categories.len() > 0 && categories[0].id != id {
        let rest = categories.drop_first();
        lemma_reveal_first_ids(rest, id);
        let r = reveal_first(categories, id);
        assert forall|i: int| 0 <= i < categories.len() implies (#[trigger] r[i]).id == categories[i].id by {
            if i > 0 {
                assert(r[i] == reveal_first(rest, id)[i - 1]);
                assert(rest[i - 1] == categories[i]);
            }
        }
    }
}

/// The categories left without `id` hold none named `id`, and every other
/// category.
proof fn lemma_without_category(categories: Seq<Category>, id: CategoryId, other: CategoryId)
    ensures
        !has_category(without_category(categories, id), id),
        other != id && has_category(categories, other) ==> has_category(
            without_category(categories, id),
            other,
        ),
    decreases categories.len(),
{
    if categories.len() > 0 {
        let prefix = categories.drop_last();
        lemma_without_category(prefix, id, other);
        let kept = without_category(prefix, id);
        let last = categories.last();
        if other != id && has_category(categories, other) {
            let j = choose|j: int| 0 <= j < categories.len() && #[trigger] categories[j].id == other;
            if j < prefix.len() {
                assert(prefix[j].id == other);
                let m = choose|m: int| 0 <= m < kept.len() && #[trigger] kept[m].id == other;
                if last.id != id {
                    assert(kept.push(last)[m].id == other);
                }
            } else {
                assert(last.id == other);
                assert(kept.push(last)[kept.len() as int].id == other);
            }
        }
        if last.id != id {
            let grown = kept.push(last);
            assert forall|m: int| 0 <= m < grown.len() implies #[trigger] grown[m].id != id by {
                if m < kept.len() {
                    assert(grown[m] == kept[m]);
                }
            }
        }
    }
}

/// Series lists with the same identifiers in the same places are searched
/// alike.
proof fn lemma_series_index_same_ids(a: Seq<RecurrenceSeries>, b: Seq<RecurrenceSeries>, id: crate::domain::RecurrenceSeriesId)
    requires
        a.len() == b.len(),
        forall|i: int| 0 <= i < a.len() ==> (#[trigger] a[i]).id == b[i].id,
    ensures
        crate::store::first_series_index(a, id) == crate::store::first_series_index(b, id),
    decreases a.len(),
{
    if a.len() > 0 {
        let (ra, rb) = (a.drop_first(), b.drop_first());
        assert forall|i: int| 0 <= i < ra.len() implies (#[trigger] ra[i]).id == rb[i].id by {
            assert(ra[i] == a[i + 1]);
            assert(rb[i] == b[i + 1]);
        }
        lemma_series_index_same_ids(ra, rb, id);
        assert(a[0].id == b[0].id);
    }
}

/// After a category is deleted nothing uses it and it is no longer stored;
/// when every reference resolved before, every reference resolves after.
pub proof fn lemma_removed_category_is_unused(
    before: PersistenceSnapshot,
    after: PersistenceSnapshot,
    source: CategoryId,
    replacement: Option<CategoryId>,
    timestamp: crate::time::Timestamp,
)
    requires
        removal_outcome(before, source, replacement) is Ok,
        removal_result(before, after, source, replacement, timestamp),
    ensures
        events_using(after.events@, source) == 0,
        series_using(after.recurrence_series@, source) == 0,
        exceptions_using(after.recurrence_exceptions@, source) == 0,
        !has_category(after.categories@, source),
        crate::repository::references_resolve(before) ==> crate::repository::references_resolve(
            after,
        ),
{
    let cats = before.categories@;
    let r = effective_replacement(source, replacement);
    let shown = if r is Some && sole_visible(cats, source) {
        reveal_first(cats, r->0)
    } else {
        cats
    };
    if r is None {
        lemma_events_using_zero(before.events@, source);
        lemma_series_using_zero(before.recurrence_series@, source);
        lemma_exceptions_using_zero(before.recurrence_exceptions@, source);
    }
    assert forall|i: int| 0 <= i < after.events@.len() implies #[trigger] after.events@[i].draft.category_id
        != source by {
        assert(after.events@[i] == match r {
            Some(to) => rehomed_event(before.events@[i], source, to, timestamp),
            None => before.events@[i],
        });
    }
    assert forall|i: int| 0 <= i < after.recurrence_series@.len() implies #[trigger] after.recurrence_series@[i].template.category_id
        != source by {
        assert(after.recurrence_series@[i] == match r {
            Some(to) => rehomed_series(before.recurrence_series@[i], source, to, timestamp),
            None => before.recurrence_series@[i],
        });
    }
    assert forall|i: int| 0 <= i < after.recurrence_exceptions@.len() implies !exception_uses(
        #[trigger] after.recurrence_exceptions@[i],
        source,
    ) by {
        assert(after.recurrence_exceptions@[i] == match r {
            Some(to) => rehomed_exception(before.recurrence_exceptions@[i], source, to, timestamp),
            None => before.recurrence_exceptions@[i],
        });
    }
    lemma_events_using_zero(after.events@, source);
    lemma_series_using_zero(after.recurrence_series@, source);
    lemma_exceptions_using_zero(after.recurrence_exceptions@, source);
    lemma_without_category(shown, source, source);
    if r is Some {
        lemma_reveal_first_ids(cats, r->0);
    }
    if crate::repository::references_resolve(before) {
        assert forall|c: CategoryId| c != source && has_category(cats, c) implies has_category(
            after.categories@,
            c,
        ) by {
            if shown != cats {
                let j = choose|j: int| 0 <= j < cats.len() && #[trigger] cats[j].id == c;
                assert(shown[j].id == c);
            }
            lemma_without_category(shown, source, c);
        }
        assert forall|i: int| 0 <= i < after.events@.len() implies has_category(
            after.categories@,
            (#[trigger] after.events@[i]).draft.category_id,
        ) by {
            assert(has_category(cats, before.events@[i].draft.category_id));
            assert(after.events@[i] == match r {
                Some(to) => rehomed_event(before.events@[i], source, to, timestamp),
                None => before.events@[i],
            });
        }
        assert forall|i: int| 0 <= i < after.recurrence_series@.len() implies has_category(
            after.categories@,
            (#[trigger] after.recurrence_series@[i]).template.category_id,
        ) by {
            assert(has_category(cats, before.recurrence_series@[i].template.category_id));
            assert(after.recurrence_series@[i] == match r {
                Some(to) => rehomed_series(before.recurrence_series@[i], source, to, timestamp),
                None => before.recurrence_series@[i],
            });
        }
        assert forall|i: int| 0 <= i < after.recurrence_series@.len() implies (#[trigger] after.recurrence_series@[i]).id
            == before.recurrence_series@[i].id by {
            assert(after.recurrence_series@[i] == match r {
                Some(to) => rehomed_series(before.recurrence_series@[i], source, to, timestamp),
                None => before.recurrence_series@[i],
            });
        }
        assert forall|i: int| 0 <= i < after.recurrence_exceptions@.len() implies crate::store::first_series_index(
            after.recurrence_series@,
            (#[trigger] after.recurrence_exceptions@[i]).series_id,
        ) is Some by {
            assert(after.recurrence_exceptions@[i] == match r {
                Some(to) => rehomed_exception(before.recurrence_exceptions@[i], source, to, timestamp),
                None => before.recurrence_exceptions@[i],
            });
            assert(after.recurrence_exceptions@[i].series_id == before.recurrence_exceptions@[i].series_id);
            lemma_series_index_same_ids(
                after.recurrence_series@,
                before.recurrence_series@,
                before.recurrence_exceptions@[i].series_id,
            );
        }
    }
}

/// Why a category could not be changed.
#[derive(Debug)]
pub enum CategoryEditError {
    /// The category is not stored.
    Missing,
    /// Hiding it would leave no category visible.
    LastVisible,
    /// The new values are not valid.
    Invalid(ValidationError),
    /// The store refused the change.
    Repository(crate::repository::RepositoryError),
}

/// Whether hiding category `id` would leave no category visible.
pub open spec fn hides_last_visible(categories: Seq<Category>, id: CategoryId, visible: bool) -> bool {
    !visible && category_visible(categories, id) && visible_count(categories) == 1
}

/// `after` is `before` with the category at `k` given a name, colour and
/// visibility; nothing else changes.
pub open spec fn category_revised(
    before: PersistenceSnapshot,
    after: PersistenceSnapshot,
    k: int,
    name: Seq<char>,
    color: CategoryColor,
    visible: bool,
) -> bool {
    &&& after.categories@.len() == before.categories@.len()
    &&& after.categories@[k].id == before.categories@[k].id
    &&& after.categories@[k].name@ == name
    &&& after.categories@[k].color == color
    &&& after.categories@[k].visible == visible
    &&& forall|j: int|
        0 <= j < before.categories@.len() && j != k ==> #[trigger] after.categories@[j]
            == before.categories@[j]
    &&& after.events == before.events
    &&& after.recurrence_series == before.recurrence_series
    &&& after.recurrence_exceptions == before.recurrence_exceptions
    &&& after.settings == before.settings
    &&& after.preferences == before.preferences
}

/// Renames, recolours and shows or hides a stored category. Hiding the only
/// visible category is refused, and so are a blank name and a name that
/// another category has, ignoring case and surrounding whitespace.
pub fn revise_category(
    repository: &mut crate::repository::InMemoryRepository,
    id: CategoryId,
    name: &str,
    color: CategoryColor,
    visible: bool,
) -> (result: Result<(), CategoryEditError>)
    ensures
        ({
            let cats = old(repository).data.categories@;
            let index = crate::repository::first_category_index(cats, id);
            let taken = crate::repository::name_taken(
                cats,
                crate::repository::name_key(name@),
                Some(id),
            );
            &&& index is None ==> (result matches Err(CategoryEditError::Missing))
            &&& index is Some && hides_last_visible(cats, id, visible) ==> (result matches Err(
                CategoryEditError::LastVisible,
            ))
            &&& index is Some && !hides_last_visible(cats, id, visible) && crate::domain::blank_text(
                name@,
            ) ==> (result matches Err(CategoryEditError::Invalid(ValidationError::EmptyCategoryName)))
            &&& index is Some && !hides_last_visible(cats, id, visible) && !crate::domain::blank_text(
                name@,
            ) && taken ==> (result matches Err(
                CategoryEditError::Repository(crate::repository::RepositoryError::DuplicateCategoryName),
            ))
            &&& index is Some && !hides_last_visible(cats, id, visible) && !crate::domain::blank_text(
                name@,
            ) && !taken ==> result is Ok
            &&& result is Err ==> *final(repository) == *old(repository)
            &&& result is Ok ==> category_revised(
                old(repository).data,
                final(repository).data,
                index->0,
                name@,
                color,
                visible,
            )
        }),
{
    let cats = repository.data.categories.as_slice();
    let index = match crate::repository::find_category_index(cats, id) {
        Some(i) => i,
        None => return Err(CategoryEditError::Missing),
    };
    proof {
        crate::repository::lemma_category_index_id(cats@, id);
    }
    if !visible && category_is_visible(cats, id) && count_visible(cats) == 1 {
        return Err(CategoryEditError::LastVisible);
    }
    let mut category = repository.data.categories[index].duplicate();
    match category.revise(name, color, visible) {
        Ok(()) => {},
        Err(e) => return Err(CategoryEditError::Invalid(e)),
    }
    match repository.update_category(category) {
        Ok(()) => Ok(()),
        Err(e) => Err(CategoryEditError::Repository(e)),
    }
}

/// Shows or hides a stored category's events; hiding the only visible
/// category is refused.
pub fn set_category_visibility(
    repository: &mut crate::repository::InMemoryRepository,
    id: CategoryId,
    visible: bool,
) -> (result: Result<(), CategoryEditError>)
    ensures
        ({
            let cats = old(repository).data.categories@;
            let index = crate::repository::first_category_index(cats, id);
            &&& index is None ==> (result matches Err(CategoryEditError::Missing))
            &&& index is Some && hides_last_visible(cats, id, visible) ==> (result matches Err(
                CategoryEditError::LastVisible,
            ))
            &&& index is Some && !hides_last_visible(cats, id, visible) ==> (result is Ok
                <==> !crate::repository::name_taken(
                cats,
                crate::repository::name_key(cats[index->0].name@),
                Some(id),
            ))
            &&& result is Err ==> *final(repository) == *old(repository)
            &&& result is Ok ==> category_revised(
                old(repository).data,
                final(repository).data,
                index->0,
                cats[index->0].name@,
                cats[index->0].color,
                visible,
            )
        }),
{
    let cats = repository.data.categories.as_slice();
    let index = match crate::repository::find_category_index(cats, id) {
        Some(i) => i,
        None => return Err(CategoryEditError::Missing),
    };
    proof {
        crate::repository::lemma_category_index_id(cats@, id);
    }
    if !visible && category_is_visible(cats, id) && count_visible(cats) == 1 {
        return Err(CategoryEditError::LastVisible);
    }
    let mut category = repository.data.categories[index].duplicate();
    category.set_visible(visible);
    match repository.update_category(category) {
        Ok(()) => Ok(()),
        Err(e) => Err(CategoryEditError::Repository(e)),
    }
}

} // verus!

//! Persisted application state: preferences, the complete snapshot of stored
//! entities, and the queries that read occurrences out of a snapshot.
use vstd::prelude::*;

use crate::domain::{
    Category, CategoryId, DateRange, Event, EventId, EventOccurrence, OccurrenceId,
    RecurrenceException, RecurrenceExceptionKind, RecurrenceSeries, Settings,
    recurring_occurrence, standalone_occurrence,
};
use crate::recurrence::{
    exceptions_for_series, exceptions_of, expand_series_days, lemma_modified_occurrences_member,
    lemma_seq_add_contains, lemma_template_occurrences_member, modified_occurrences, series_expansion,
    template_occurrences,
};

verus! {

/// Appearance mode selected for the Cadence window.
#[derive(Clone, Copy, Debug, PartialEq, Eq, Structural, Hash)]
pub enum AppearanceMode {
    /// Follow the operating system appearance.
    System,
    /// Always use the configured light theme.
    Light,
    /// Always use the configured dark theme.
    Dark,
}

/// Persisted theme and typography preferences.
#[derive(Clone, Debug, PartialEq, Eq)]
pub struct AppearancePreferences {
    /// Whether the active mode follows the system or is explicitly selected.
    pub mode: AppearanceMode,
    /// Theme applied whenever the active mode is light.
    pub light_theme: String,
    /// Theme applied whenever the active mode is dark.
    pub dark_theme: String,
    /// Installed font family used for application text.
    pub font_family: String,
    /// Base application font size in logical pixels.
    pub font_size: u16,
}

/// The supported application font-size presets.
pub open spec fn font_size_presets() -> Seq<u16> {
    seq![14u16, 16u16, 18u16]
}

impl AppearancePreferences {
    /// The supported application font-size presets.
    pub fn font_sizes() -> (sizes: Vec<u16>)
        ensures
            sizes@ == font_size_presets(),
    {
        let v = vec![14u16, 16u16, 18u16];
        assert(v@ =~= font_size_presets());
        v
    }

    /// Follows the system, with the default themes, the system font and a
    /// sixteen-pixel font size.
    pub fn default_preferences() -> (p: AppearancePreferences)
        ensures
            p.mode == AppearanceMode::System,
            p.light_theme@ == default_light_theme_name(),
            p.dark_theme@ == default_dark_theme_name(),
            p.font_family@ == default_font_family_name(),
            p.font_size == 16,
    {
        AppearancePreferences {
            mode: AppearanceMode::System,
            light_theme: default_light_theme(),
            dark_theme: default_dark_theme(),
            font_family: default_font_family(),
            font_size: default_font_size(),
        }
    }

    /// An identical copy.
    pub fn duplicate(&self) -> (copy: AppearancePreferences)
        ensures
            copy == *self,
    {
        AppearancePreferences {
            mode: self.mode,
            light_theme: self.light_theme.clone(),
            dark_theme: self.dark_theme.clone(),
            font_family: self.font_family.clone(),
            font_size: self.font_size,
        }
    }
}

/// The name of the default light theme.
pub open spec fn default_light_theme_name() -> Seq<char> {
    seq!['D', 'e', 'f', 'a', 'u', 'l', 't', ' ', 'L', 'i', 'g', 'h', 't']
}

/// The name of the default dark theme.
pub open spec fn default_dark_theme_name() -> Seq<char> {
    seq!['D', 'e', 'f', 'a', 'u', 'l', 't', ' ', 'D', 'a', 'r', 'k']
}

/// The name of the system user-interface font.
pub open spec fn default_font_family_name() -> Seq<char> {
    seq!['.', 'S', 'y', 's', 't', 'e', 'm', 'U', 'I', 'F', 'o', 'n', 't']
}

/// The name of the default light theme.
pub fn default_light_theme() -> (name: String)
    ensures
        name@ == default_light_theme_name(),
{
    let s = String::from_str("Default Light");
    proof {
        reveal_strlit("Default Light");
    }
    s
}

/// The name of the default dark theme.
pub fn default_dark_theme() -> (name: String)
    ensures
        name@ == default_dark_theme_name(),
{
    let s = String::from_str("Default Dark");
    proof {
        reveal_strlit("Default Dark");
    }
    s
}

/// The name of the system user-interface font.
pub fn default_font_family() -> (name: String)
    ensures
        name@ == default_font_family_name(),
{
    let s = String::from_str(".SystemUIFont");
    proof {
        reveal_strlit(".SystemUIFont");
    }
    s
}

/// The default font size.
pub fn default_font_size() -> (size: u16)
    ensures
        size == 16,
{
    16
}

/// Serializable calendar view preference.
#[derive(Clone, Copy, Debug, PartialEq, Eq, Structural, Hash)]
pub enum CalendarViewModePreference {
    /// Focused one-day view.
    Day,
    /// Seven-day view.
    Week,
}

/// Preferences restored when Cadence starts.
#[derive(Clone, Debug, PartialEq, Eq)]
pub struct AppPreferences {
    /// Calendar surface selected at the previous shutdown.
    pub view_mode: CalendarViewModePreference,
    /// Category selected at the previous shutdown, or `None` for all categories.
    pub category_filter: Option<CategoryId>,
    /// Whether desktop reminders may be delivered while Cadence is running.
    pub notifications_enabled: bool,
    /// Whether non-essential interface animation is reduced.
    pub reduce_motion: bool,
    /// Appearance and typography selected by the user.
    pub appearance: AppearancePreferences,
}

/// The default startup preferences: the week view, every category, no
/// notifications, full motion and the default appearance.
pub open spec fn is_default_app_preferences(p: AppPreferences) -> bool {
    &&& p.view_mode == CalendarViewModePreference::Week
    &&& p.category_filter is None
    &&& !p.notifications_enabled
    &&& !p.reduce_motion
    &&& p.appearance.mode == AppearanceMode::System
    &&& p.appearance.light_theme@ == default_light_theme_name()
    &&& p.appearance.dark_theme@ == default_dark_theme_name()
    &&& p.appearance.font_family@ == default_font_family_name()
    &&& p.appearance.font_size == 16
}

impl AppPreferences {
    /// The week view, every category, no notifications, full motion and the
    /// default appearance.
    pub fn default_preferences() -> (p: AppPreferences)
        ensures
            is_default_app_preferences(p),
            p.view_mode == CalendarViewModePreference::Week,
            p.category_filter is None,
            !p.notifications_enabled,
            !p.reduce_motion,
            p.appearance.mode == AppearanceMode::System,
            p.appearance.light_theme@ == default_light_theme_name(),
            p.appearance.dark_theme@ == default_dark_theme_name(),
            p.appearance.font_family@ == default_font_family_name(),
            p.appearance.font_size == 16,
    {
        AppPreferences {
            view_mode: CalendarViewModePreference::Week,
            category_filter: None,
            notifications_enabled: false,
            reduce_motion: false,
            appearance: AppearancePreferences::default_preferences(),
        }
    }

    /// An identical copy.
    pub fn duplicate(&self) -> (copy: AppPreferences)
        ensures
            copy == *self,
    {
        AppPreferences {
            view_mode: self.view_mode,
            category_filter: self.category_filter,
            notifications_enabled: self.notifications_enabled,
            reduce_motion: self.reduce_motion,
            appearance: self.appearance.duplicate(),
        }
    }
}

/// Complete persisted application state used by the worker and backup format.
#[derive(Debug, Clone, PartialEq, Eq)]
pub struct PersistenceSnapshot {
    /// Calendar settings.
    pub settings: Settings,
    /// Startup mode and category filter.
    pub preferences: AppPreferences,
    /// Stored categories.
    pub categories: Vec<Category>,
    /// Stored events.
    pub events: Vec<Event>,
    /// Stored recurring series.
    pub recurrence_series: Vec<RecurrenceSeries>,
    /// Stored recurring occurrence exceptions.
    pub recurrence_exceptions: Vec<RecurrenceException>,
}

/// The order key of an occurrence: date, start, end, then identity, the
/// identity ordering standalone events (by identifier) before recurring
/// occurrences (by series, then original date).
pub open spec fn occurrence_key_lt(a: EventOccurrence, b: EventOccurrence) -> bool {
    let (ad, bd) = (a.draft.date.day(), b.draft.date.day());
    let (as_, bs) = (a.draft.start_time.nanos as int, b.draft.start_time.nanos as int);
    let (ae, be) = (a.draft.end_time.nanos as int, b.draft.end_time.nanos as int);
    if ad != bd {
        ad < bd
    } else if as_ != bs {
        as_ < bs
    } else if ae != be {
        ae < be
    } else {
        occurrence_id_lt(a.id, b.id)
    }
}

/// Identity order: standalone before recurring, then by the fields in order.
pub open spec fn occurrence_id_lt(a: OccurrenceId, b: OccurrenceId) -> bool {
    match (a, b) {
        (OccurrenceId::Standalone(x), OccurrenceId::Standalone(y)) => x.value < y.value,
        (OccurrenceId::Standalone(_), OccurrenceId::Recurring { .. }) => true,
        (OccurrenceId::Recurring { .. }, OccurrenceId::Standalone(_)) => false,
        (
            OccurrenceId::Recurring { series_id: s1, original_date: d1 },
            OccurrenceId::Recurring { series_id: s2, original_date: d2 },
        ) => s1.value < s2.value || (s1.value == s2.value && d1.day() < d2.day()),
    }
}

/// Whether `a` is ordered no later than `b`.
pub open spec fn occurrence_key_le(a: EventOccurrence, b: EventOccurrence) -> bool {
    !occurrence_key_lt(b, a)
}

/// Whether a sequence of occurrences is in key order.
pub open spec fn occurrences_sorted(s: Seq<EventOccurrence>) -> bool {
    forall|i: int, j: int| 0 <= i < j < s.len() ==> occurrence_key_le(#[trigger] s[i], #[trigger] s[j])
}

proof fn lemma_key_order(a: EventOccurrence, b: EventOccurrence, c: EventOccurrence)
    ensures
        occurrence_key_lt(a, b) ==> !occurrence_key_lt(b, a),
        !occurrence_key_lt(a, b) && !occurrence_key_lt(b, a) ==> a.draft.date == b.draft.date
            && a.draft.start_time == b.draft.start_time && a.draft.end_time == b.draft.end_time
            && a.id == b.id,
        occurrence_key_le(a, b) && occurrence_key_le(b, c) ==> occurrence_key_le(a, c),
        occurrence_key_lt(a, b) && occurrence_key_le(b, c) ==> occurrence_key_lt(a, c),
{
}

/// Returns whether identity `a` comes strictly before identity `b`.
pub fn occurrence_id_less(a: OccurrenceId, b: OccurrenceId) -> (less: bool)
    ensures
        less == occurrence_id_lt(a, b),
{
    match (a, b) {
        (OccurrenceId::Standalone(x), OccurrenceId::Standalone(y)) => x.value < y.value,
        (OccurrenceId::Standalone(_), OccurrenceId::Recurring { .. }) => true,
        (OccurrenceId::Recurring { .. }, OccurrenceId::Standalone(_)) => false,
        (
            OccurrenceId::Recurring { series_id: s1, original_date: d1 },
            OccurrenceId::Recurring { series_id: s2, original_date: d2 },
        ) => s1.value < s2.value || (s1.value == s2.value && d1.epoch_day < d2.epoch_day),
    }
}

/// Returns whether `a` comes strictly before `b` in occurrence order.
pub fn occurrence_key_less(a: &EventOccurrence, b: &EventOccurrence) -> (less: bool)
    ensures
        less == occurrence_key_lt(*a, *b),
{
    if a.draft.date.epoch_day != b.draft.date.epoch_day {
        a.draft.date.epoch_day < b.draft.date.epoch_day
    } else if a.draft.start_time.nanos != b.draft.start_time.nanos {
        a.draft.start_time.nanos < b.draft.start_time.nanos
    } else if a.draft.end_time.nanos != b.draft.end_time.nanos {
        a.draft.end_time.nanos < b.draft.end_time.nanos
    } else {
        occurrence_id_less(a.id, b.id)
    }
}

/// Sorts occurrences by date, start, end and identity, keeping the relative
/// order of occurrences with equal keys.
pub fn sort_occurrences(items: Vec<EventOccurrence>) -> (sorted: Vec<EventOccurrence>)
    ensures
        occurrences_sorted(sorted@),
        sorted@.to_multiset() == items@.to_multiset(),
        sorted@.len() == items@.len(),
{
    broadcast use vstd::seq_lib::group_to_multiset_ensures, vstd::multiset::group_multiset_axioms;

    let mut sorted: Vec<EventOccurrence> = Vec::new();
    let mut remaining = items;
    let ghost original = remaining@;
    // Move the items into a vector that yields them in order from its end.
    let mut reversed: Vec<EventOccurrence> = Vec::new();
    while remaining.len() > 0
        invariant
            remaining@ + reversed@.reverse() == original,
        decreases remaining.len(),
    {
        let ghost before_r = remaining@;
        let ghost before_v = reversed@;
        let x = remaining.pop().unwrap();
        reversed.push(x);
        proof {
            assert(before_r =~= remaining@.push(x));
            assert(reversed@.reverse() =~= seq![x] + before_v.reverse());
            assert(remaining@ + reversed@.reverse() =~= before_r + before_v.reverse());
        }
    }
    assert(reversed@.reverse() =~= original);
    proof {
        reversed@.lemma_reverse_to_multiset();
    }
    let ghost all = reversed@;
    while reversed.len() > 0
        invariant
            occurrences_sorted(sorted@),
            sorted@.to_multiset().add(reversed@.to_multiset()) == all.to_multiset(),
            sorted@.len() + reversed@.len() == all.len(),
        decreases reversed.len(),
    {
        let ghost before_r = reversed@;
        let ghost before_s = sorted@;
        let x = reversed.pop().unwrap();
        proof {
            assert(before_r =~= reversed@.push(x));
            vstd::seq_lib::to_multiset_build(reversed@, x);
        }
        // Find the first position whose element is strictly after `x`.
        let mut p: usize = 0;
        while p < sorted.len() && !occurrence_key_less(&x, &sorted[p])
            invariant
                p <= sorted.len(),
                sorted@ == before_s,
                forall|j: int| 0 <= j < p ==> occurrence_key_le(#[trigger] sorted@[j], x),
            decreases sorted.len() - p,
        {
            proof {
                lemma_key_order(sorted@[p as int], x, x);
            }
            p += 1;
        }
        proof {
            assert forall|j: int| p <= j < sorted@.len() implies occurrence_key_lt(x, #[trigger] sorted@[j]) by {
                lemma_key_order(x, sorted@[p as int], sorted@[j]);
            }
            vstd::seq_lib::to_multiset_insert(before_s, p as int, x);
        }
        sorted.insert(p, x);
        proof {
            let s = sorted@;
            assert(s =~= before_s.insert(p as int, x));
            assert forall|i: int, j: int| 0 <= i < j < s.len() implies occurrence_key_le(#[trigger] s[i], #[trigger] s[j]) by {
                if i < p && j == p {
                    assert(s[i] == before_s[i]);
                } else if i == p && j > p {
                    assert(s[j] == before_s[j - 1]);
                    lemma_key_order(s[j], x, x);
                } else if j < p {
                    assert(s[i] == before_s[i] && s[j] == before_s[j]);
                } else if i < p && j > p {
                    assert(s[i] == before_s[i] && s[j] == before_s[j - 1]);
                } else {
                    assert(s[i] == before_s[i - 1] && s[j] == before_s[j - 1]);
                }
            }
            assert(sorted@.to_multiset().add(reversed@.to_multiset()) =~= all.to_multiset());
        }
    }
    proof {
        assert(reversed@ =~= Seq::<EventOccurrence>::empty());
        assert(reversed@.to_multiset() =~= vstd::multiset::Multiset::empty());
        assert(sorted@.to_multiset() =~= all.to_multiset());
        vstd::seq_lib::to_multiset_len(sorted@);
        vstd::seq_lib::to_multiset_len(all);
    }
    sorted
}


/// The events whose dates fall in `range`, in stored order.
pub open spec fn events_in_range(events: Seq<Event>, range: DateRange) -> Seq<Event>
    decreases events.len(),
{
    if events.len() == 0 {
        Seq::empty()
    } else {
        let prefix = events_in_range(events.drop_last(), range);
        if range.holds(events.last().draft.date.day()) {
            prefix.push(events.last())
        } else {
            prefix
        }
    }
}

/// The events of a range inside another are the events of the outer range
/// that fall in the inner one: a day's events are the week's events on that
/// day, in the same order.
pub proof fn lemma_events_of_inner_range(events: Seq<Event>, outer: DateRange, inner: DateRange)
    requires
        outer.start.day() <= inner.start.day(),
        inner.end.day() <= outer.end.day(),
    ensures
        events_in_range(events_in_range(events, outer), inner) == events_in_range(events, inner),
    decreases events.len(),
{
    if events.len() > 0 {
        lemma_events_of_inner_range(events.drop_last(), outer, inner);
        let prefix = events_in_range(events.drop_last(), outer);
        if outer.holds(events.last().draft.date.day()) {
            let grown = prefix.push(events.last());
            assert(grown.drop_last() =~= prefix);
            assert(grown.last() == events.last());
        }
    }
}

/// The occurrences of every series whose dates fall in `start..end`, series
/// by series.
pub open spec fn expansions_in_range(
    series: Seq<RecurrenceSeries>,
    exceptions: Seq<RecurrenceException>,
    start: int,
    end: int,
) -> Seq<EventOccurrence>
    decreases series.len(),
{
    if series.len() == 0 {
        Seq::empty()
    } else {
        let s = series.last();
        expansions_in_range(series.drop_last(), exceptions, start, end) + series_expansion(
            s,
            exceptions_of(exceptions, s.id),
            start,
            end,
        )
    }
}

/// The standalone occurrences of the events in `range`.
pub open spec fn standalone_in_range(events: Seq<Event>, range: DateRange) -> Seq<EventOccurrence>
    decreases events.len(),
{
    if events.len() == 0 {
        Seq::empty()
    } else {
        let prefix = standalone_in_range(events.drop_last(), range);
        if range.holds(events.last().draft.date.day()) {
            prefix.push(standalone_occurrence(events.last()))
        } else {
            prefix
        }
    }
}

/// The standalone occurrences of a range are exactly those of the events
/// dated on or after its start and before its exclusive end, each listed
/// once in stored order.
pub proof fn lemma_standalone_in_range_exact(events: Seq<Event>, range: DateRange)
    ensures
        forall|k: int|
            0 <= k < standalone_in_range(events, range).len() ==> range.start.day()
                <= (#[trigger] standalone_in_range(events, range)[k]).draft.date.day()
                < range.end.day(),
        forall|k: int|
            0 <= k < standalone_in_range(events, range).len() ==> exists|i: int|
                0 <= i < events.len() && #[trigger] standalone_in_range(events, range)[k]
                    == standalone_occurrence(events[i]),
        forall|i: int|
            0 <= i < events.len() && range.start.day() <= events[i].draft.date.day()
                < range.end.day() ==> standalone_in_range(events, range).contains(
                #[trigger] standalone_occurrence(events[i]),
            ),
        standalone_in_range(events, range).len() <= events.len(),
    decreases events.len(),
{
    if events.len() > 0 {
        let init = events.drop_last();
        lemma_standalone_in_range_exact(init, range);
        let prefix = standalone_in_range(init, range);
        let all = standalone_in_range(events, range);
        let e = events.last();
        assert forall|k: int| 0 <= k < all.len() implies exists|i: int|
            0 <= i < events.len() && #[trigger] all[k] == standalone_occurrence(events[i]) by {
            if k < prefix.len() {
                assert(all[k] == prefix[k]);
                let i = choose|i: int| 0 <= i < init.len() && prefix[k] == standalone_occurrence(init[i]);
                assert(events[i] == init[i]);
            } else {
                assert(all[k] == standalone_occurrence(events[events.len() - 1]));
            }
        }
        assert forall|k: int| 0 <= k < all.len() implies range.start.day()
            <= (#[trigger] all[k]).draft.date.day() < range.end.day() by {
            if k < prefix.len() {
                assert(all[k] == prefix[k]);
            }
        }
        assert forall|i: int|
            0 <= i < events.len() && range.start.day() <= events[i].draft.date.day()
                < range.end.day() implies all.contains(#[trigger] standalone_occurrence(events[i])) by {
            if i < init.len() {
                assert(events[i] == init[i]);
                assert(prefix.contains(standalone_occurrence(init[i])));
                let k = choose|k: int| 0 <= k < prefix.len() && prefix[k] == standalone_occurrence(init[i]);
                assert(all[k] == prefix[k]);
            } else {
                assert(all[all.len() - 1] == standalone_occurrence(e));
            }
        }
    }
}

/// Every occurrence that the series give for days `start..end` lies on one
/// of those days.
pub proof fn lemma_expansions_in_range_dates(
    series: Seq<RecurrenceSeries>,
    exceptions: Seq<RecurrenceException>,
    start: int,
    end: int,
    o: EventOccurrence,
)
    requires
        i32::MIN <= start,
        end <= i32::MAX + 1,
        expansions_in_range(series, exceptions, start, end).contains(o),
    ensures
        start <= o.draft.date.day() < end,
    decreases series.len(),
{
    if series.len() > 0 {
        let s = series.last();
        let own = exceptions_of(exceptions, s.id);
        let prefix = expansions_in_range(series.drop_last(), exceptions, start, end);
        let mine = series_expansion(s, own, start, end);
        lemma_seq_add_contains(prefix, mine, o);
        if prefix.contains(o) {
            lemma_expansions_in_range_dates(series.drop_last(), exceptions, start, end, o);
        } else {
            lemma_seq_add_contains(
                template_occurrences(s, own, start, end),
                modified_occurrences(s, own, start, end),
                o,
            );
            lemma_template_occurrences_member(s, own, start, end, o);
            lemma_modified_occurrences_member(s, own, start, end, o);
        }
    }
}

/// Index of the first event with identifier `id`.
pub open spec fn first_event_index(events: Seq<Event>, id: EventId) -> Option<int>
    decreases events.len(),
{
    if events.len() == 0 {
        None
    } else if events[0].id == id {
        Some(0)
    } else {
        match first_event_index(events.drop_first(), id) {
            Some(k) => Some(k + 1),
            None => None,
        }
    }
}

/// Index of the first series with identifier `id`.
pub open spec fn first_series_index(
    series: Seq<RecurrenceSeries>,
    id: crate::domain::RecurrenceSeriesId,
) -> Option<int>
    decreases series.len(),
{
    if series.len() == 0 {
        None
    } else if series[0].id == id {
        Some(0)
    } else {
        match first_series_index(series.drop_first(), id) {
            Some(k) => Some(k + 1),
            None => None,
        }
    }
}

/// Index of the first exception of series `id` keyed by `date`.
pub open spec fn first_exception_index(
    exceptions: Seq<RecurrenceException>,
    id: crate::domain::RecurrenceSeriesId,
    date: crate::time::CivilDate,
) -> Option<int>
    decreases exceptions.len(),
{
    if exceptions.len() == 0 {
        None
    } else if exceptions[0].series_id == id && exceptions[0].original_date == date {
        Some(0)
    } else {
        match first_exception_index(exceptions.drop_first(), id, date) {
            Some(k) => Some(k + 1),
            None => None,
        }
    }
}

pub(crate) proof fn lemma_first_event_index(events: Seq<Event>, id: EventId, i: int)
    requires
        0 <= i <= events.len(),
        forall|j: int| 0 <= j < i ==> #[trigger] events[j].id != id,
        i < events.len() ==> events[i].id == id,
    ensures
        first_event_index(events, id) == if i < events.len() {
            Some(i)
        } else {
            None::<int>
        },
    decreases events.len(),
{
    if events.len() > 0 && i > 0 {
        let rest = events.drop_first();
        assert forall|j: int| 0 <= j < i - 1 implies #[trigger] rest[j].id != id by {
            assert(rest[j] == events[j + 1]);
        }
        lemma_first_event_index(rest, id, i - 1);
        assert(events[0].id != id);
    }
}

pub proof fn lemma_first_series_index(
    series: Seq<RecurrenceSeries>,
    id: crate::domain::RecurrenceSeriesId,
    i: int,
)
    requires
        0 <= i <= series.len(),
        forall|j: int| 0 <= j < i ==> #[trigger] series[j].id != id,
        i < series.len() ==> series[i].id == id,
    ensures
        first_series_index(series, id) == if i < series.len() {
            Some(i)
        } else {
            None::<int>
        },
    decreases series.len(),
{
    if series.len() > 0 && i > 0 {
        let rest = series.drop_first();
        assert forall|j: int| 0 <= j < i - 1 implies #[trigger] rest[j].id != id by {
            assert(rest[j] == series[j + 1]);
        }
        lemma_first_series_index(rest, id, i - 1);
        assert(series[0].id != id);
    }
}

/// The exception that first-index search finds has the series and date
/// searched for.
pub(crate) proof fn lemma_exception_index_found(
    exceptions: Seq<RecurrenceException>,
    id: crate::domain::RecurrenceSeriesId,
    date: crate::time::CivilDate,
)
    ensures
        first_exception_index(exceptions, id, date) matches Some(j) ==> 0 <= j < exceptions.len()
            && exceptions[j].series_id == id && exceptions[j].original_date == date,
    decreases exceptions.len(),
{
    if exceptions.len() > 0 {
        lemma_exception_index_found(exceptions.drop_first(), id, date);
    }
}

proof fn lemma_first_exception_index(
    exceptions: Seq<RecurrenceException>,
    id: crate::domain::RecurrenceSeriesId,
    date: crate::time::CivilDate,
    i: int,
)
    requires
        0 <= i <= exceptions.len(),
        forall|j: int|
            0 <= j < i ==> !(#[trigger] exceptions[j].series_id == id
                && exceptions[j].original_date == date),
        i < exceptions.len() ==> exceptions[i].series_id == id && exceptions[i].original_date
            == date,
    ensures
        first_exception_index(exceptions, id, date) == if i < exceptions.len() {
            Some(i)
        } else {
            None::<int>
        },
    decreases exceptions.len(),
{
    if exceptions.len() > 0 && i > 0 {
        let rest = exceptions.drop_first();
        assert forall|j: int| 0 <= j < i - 1 implies !(#[trigger] rest[j].series_id == id
            && rest[j].original_date == date) by {
            assert(rest[j] == exceptions[j + 1]);
        }
        lemma_first_exception_index(rest, id, date, i - 1);
        assert(!(exceptions[0].series_id == id && exceptions[0].original_date == date));
    }
}

/// The occurrence that `id` names in a snapshot: the first stored event with
/// that identifier, or the occurrence of the first stored series with that
/// identifier on its original date after the first matching exception (a
/// cancellation hides it, a modification replaces it); without an exception,
/// the template when the series repeats on that date.
pub open spec fn lookup_occurrence(
    events: Seq<Event>,
    series: Seq<RecurrenceSeries>,
    exceptions: Seq<RecurrenceException>,
    id: OccurrenceId,
) -> Option<EventOccurrence> {
    match id {
        OccurrenceId::Standalone(event_id) => match first_event_index(events, event_id) {
            Some(i) => Some(standalone_occurrence(events[i])),
            None => None,
        },
        OccurrenceId::Recurring { series_id, original_date } => match first_series_index(
            series,
            series_id,
        ) {
            Some(k) => match first_exception_index(exceptions, series_id, original_date) {
                Some(i) => match exceptions[i].kind {
                    RecurrenceExceptionKind::Cancelled => None,
                    RecurrenceExceptionKind::Modified(draft) => Some(
                        recurring_occurrence(series_id, original_date, draft),
                    ),
                },
                None => if series[k].contains_day(original_date.day()) {
                    Some(
                        recurring_occurrence(
                            series_id,
                            original_date,
                            crate::domain::EventDraft { date: original_date, ..series[k].template },
                        ),
                    )
                } else {
                    None
                },
            },
            None => None,
        },
    }
}

impl PersistenceSnapshot {
    /// Copies of the events whose dates fall in `range`, in stored order.
    pub fn events_in(&self, range: DateRange) -> (events: Vec<Event>)
        ensures
            events@ == events_in_range(self.events@, range),
    {
        let mut found: Vec<Event> = Vec::new();
        let mut i: usize = 0;
        while i < self.events.len()
            invariant
                i <= self.events.len(),
                found@ == events_in_range(self.events@.take(i as int), range),
            decreases self.events.len() - i,
        {
            assert(self.events@.take(i as int + 1).drop_last() =~= self.events@.take(i as int));
            if range.contains(self.events[i].draft.date) {
                found.push(self.events[i].duplicate());
            }
            i += 1;
        }
        assert(self.events@.take(self.events.len() as int) =~= self.events@);
        found
    }

    /// Lists standalone and recurring occurrences whose dates fall in
    /// `range`, sorted by date, start, end and identity.
    pub fn occurrences(&self, range: DateRange) -> (occurrences: Vec<EventOccurrence>)
        ensures
            occurrences_sorted(occurrences@),
            occurrences@.to_multiset() == (standalone_in_range(self.events@, range)
                + expansions_in_range(
                self.recurrence_series@,
                self.recurrence_exceptions@,
                range.start.day(),
                range.end.day(),
            )).to_multiset(),
            forall|k: int|
                0 <= k < occurrences.len() ==> range.start.day() <= (
                #[trigger] occurrences@[k]).draft.date.day() < range.end.day(),
    {
        let mut found: Vec<EventOccurrence> = Vec::new();
        let mut i: usize = 0;
        while i < self.events.len()
            invariant
                i <= self.events.len(),
                found@ == standalone_in_range(self.events@.take(i as int), range),
            decreases self.events.len() - i,
        {
            assert(self.events@.take(i as int + 1).drop_last() =~= self.events@.take(i as int));
            if range.contains(self.events[i].draft.date) {
                found.push(EventOccurrence::standalone(&self.events[i]));
            }
            i += 1;
        }
        assert(self.events@.take(self.events.len() as int) =~= self.events@);
        let ghost standalone = found@;
        let mut k: usize = 0;
        while k < self.recurrence_series.len()
            invariant
                k <= self.recurrence_series.len(),
                found@ == standalone + expansions_in_range(
                    self.recurrence_series@.take(k as int),
                    self.recurrence_exceptions@,
                    range.start.day(),
                    range.end.day(),
                ),
            decreases self.recurrence_series.len() - k,
        {
            assert(self.recurrence_series@.take(k as int + 1).drop_last()
                =~= self.recurrence_series@.take(k as int));
            let s = &self.recurrence_series[k];
            let own = exceptions_for_series(self.recurrence_exceptions.as_slice(), s.id);
            let mut expanded = expand_series_days(s, own.as_slice(), range.start, range.end);
            let ghost before = found@;
            found.append(&mut expanded);
            assert(found@ =~= standalone + expansions_in_range(
                self.recurrence_series@.take(k as int + 1),
                self.recurrence_exceptions@,
                range.start.day(),
                range.end.day(),
            ));
            k += 1;
        }
        assert(self.recurrence_series@.take(self.recurrence_series.len() as int)
            =~= self.recurrence_series@);
        let sorted = sort_occurrences(found);
        proof {
            broadcast use vstd::seq_lib::group_to_multiset_ensures;

            let st = standalone_in_range(self.events@, range);
            let ex = expansions_in_range(
                self.recurrence_series@,
                self.recurrence_exceptions@,
                range.start.day(),
                range.end.day(),
            );
            lemma_standalone_in_range_exact(self.events@, range);
            assert forall|k: int| 0 <= k < sorted.len() implies range.start.day() <= (
            #[trigger] sorted@[k]).draft.date.day() < range.end.day() by {
                let o = sorted@[k];
                assert(sorted@.contains(o));
                assert(sorted@.to_multiset().count(o) > 0);
                assert((st + ex).contains(o));
                lemma_seq_add_contains(st, ex, o);
                if st.contains(o) {
                    let j = choose|j: int| 0 <= j < st.len() && st[j] == o;
                } else {
                    lemma_expansions_in_range_dates(
                        self.recurrence_series@,
                        self.recurrence_exceptions@,
                        range.start.day(),
                        range.end.day(),
                        o,
                    );
                }
            }
        }
        sorted
    }

    /// Looks up one standalone or recurring occurrence.
    pub fn occurrence(&self, id: OccurrenceId) -> (occurrence: Option<EventOccurrence>)
        ensures
            occurrence == lookup_occurrence(
                self.events@,
                self.recurrence_series@,
                self.recurrence_exceptions@,
                id,
            ),
    {
        match id {
            OccurrenceId::Standalone(event_id) => match find_event_index(self.events.as_slice(), event_id) {
                Some(i) => Some(EventOccurrence::standalone(&self.events[i])),
                None => None,
            },
            OccurrenceId::Recurring { series_id, original_date } => {
                let k = match find_series_index(self.recurrence_series.as_slice(), series_id) {
                    Some(k) => k,
                    None => return None,
                };
                let series = &self.recurrence_series[k];
                match find_exception_index(self.recurrence_exceptions.as_slice(), series_id, original_date) {
                    Some(i) => match &self.recurrence_exceptions[i].kind {
                        RecurrenceExceptionKind::Cancelled => None,
                        RecurrenceExceptionKind::Modified(draft) => Some(
                            EventOccurrence::recurring(series_id, original_date, draft.duplicate()),
                        ),
                    },
                    None => if series.contains_date(original_date) {
                        let mut draft = series.template.duplicate();
                        draft.date = original_date;
                        Some(EventOccurrence::recurring(series_id, original_date, draft))
                    } else {
                        None
                    },
                }
            },
        }
    }
}

/// Returns the index of the first event with identifier `id`.
pub fn find_event_index(events: &[Event], id: EventId) -> (index: Option<usize>)
    ensures
        match index {
            Some(i) => first_event_index(events@, id) == Some(i as int) && i < events.len(),
            None => first_event_index(events@, id) is None,
        },
{
    let mut i: usize = 0;
    while i < events.len()
        invariant
            i <= events.len(),
            forall|j: int| 0 <= j < i ==> #[trigger] events@[j].id != id,
        decreases events.len() - i,
    {
        if events[i].id == id {
            proof {
                lemma_first_event_index(events@, id, i as int);
            }
            return Some(i);
        }
        i += 1;
    }
    proof {
        lemma_first_event_index(events@, id, i as int);
    }
    None
}

/// Returns the index of the first series with identifier `id`.
pub fn find_series_index(series: &[RecurrenceSeries], id: crate::domain::RecurrenceSeriesId) -> (index:
    Option<usize>)
    ensures
        match index {
            Some(i) => first_series_index(series@, id) == Some(i as int) && i < series.len(),
            None => first_series_index(series@, id) is None,
        },
{
    let mut i: usize = 0;
    while i < series.len()
        invariant
            i <= series.len(),
            forall|j: int| 0 <= j < i ==> #[trigger] series@[j].id != id,
        decreases series.len() - i,
    {
        if series[i].id == id {
            proof {
                lemma_first_series_index(series@, id, i as int);
            }
            return Some(i);
        }
        i += 1;
    }
    proof {
        lemma_first_series_index(series@, id, i as int);
    }
    None
}

/// Returns the index of the first exception of series `id` keyed by `date`.
pub fn find_exception_index(
    exceptions: &[RecurrenceException],
    id: crate::domain::RecurrenceSeriesId,
    date: crate::time::CivilDate,
) -> (index: Option<usize>)
    ensures
        match index {
            Some(i) => first_exception_index(exceptions@, id, date) == Some(i as int) && i
                < exceptions.len(),
            None => first_exception_index(exceptions@, id, date) is None,
        },
{
    let mut i: usize = 0;
    while i < exceptions.len()
        invariant
            i <= exceptions.len(),
            forall|j: int|
                0 <= j < i ==> !(#[trigger] exceptions@[j].series_id == id
                    && exceptions@[j].original_date == date),
        decreases exceptions.len() - i,
    {
        if exceptions[i].series_id == id && exceptions[i].original_date == date {
            proof {
                lemma_first_exception_index(exceptions@, id, date, i as int);
            }
            return Some(i);
        }
        i += 1;
    }
    proof {
        lemma_first_exception_index(exceptions@, id, date, i as int);
    }
    None
}

} // verus!

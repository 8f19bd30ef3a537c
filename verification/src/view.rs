//! Calendar-surface decisions: which events a filter shows, where a date
//! falls in a range, which half-hour slots are free, the rolling week
//! window, and multiple-event selection.
use vstd::prelude::*;

use crate::categories::has_category;
use crate::domain::{CalendarError, Category, CategoryId, DateRange, EventOccurrence, OccurrenceId};
use crate::store::{occurrence_id_less, occurrence_id_lt};
use crate::time::{CivilDate, MAX_EPOCH_DAY, MIN_EPOCH_DAY, NANOS_PER_MINUTE, TimeOfDay, strftime_text};

verus! {

/// The calendar surface shown.
#[derive(Clone, Copy, Debug, PartialEq, Eq, Structural, Hash)]
pub enum CalendarViewMode {
    Day,
    Week,
}

/// Which categories the calendar shows.
#[derive(Clone, Copy, Debug, PartialEq, Eq, Structural, Hash)]
pub enum CategoryFilter {
    All,
    Only(CategoryId),
}

/// Whether an occurrence passes a category filter.
pub open spec fn filter_passes(event: EventOccurrence, filter: CategoryFilter) -> bool {
    match filter {
        CategoryFilter::All => true,
        CategoryFilter::Only(id) => event.draft.category_id == id,
    }
}

/// Returns whether an occurrence passes a category filter.
pub fn event_matches_filter(event: &EventOccurrence, filter: CategoryFilter) -> (passes: bool)
    ensures
        passes == filter_passes(*event, filter),
{
    match filter {
        CategoryFilter::All => true,
        CategoryFilter::Only(id) => event.draft.category_id == id,
    }
}

/// Returns the position of `date` among the days of `range`.
pub fn day_index(range: DateRange, date: CivilDate) -> (index: Option<usize>)
    ensures
        index is Some <==> range.holds(date.day()),
        index matches Some(i) ==> i == date.day() - range.start.day(),
{
    if range.start.epoch_day <= date.epoch_day && date.epoch_day < range.end.epoch_day {
        Some((date.epoch_day as i64 - range.start.epoch_day as i64) as usize)
    } else {
        None
    }
}

/// Lists the dates of a range in order.
pub fn dates_in_range(range: DateRange) -> (dates: Vec<CivilDate>)
    requires
        range.start.in_range(),
        range.end.in_range(),
    ensures
        dates@.len() == if range.start.day() < range.end.day() {
            range.end.day() - range.start.day()
        } else {
            0
        },
        forall|k: int| 0 <= k < dates@.len() ==> (#[trigger] dates@[k]).day() == range.start.day() + k,
{
    let mut dates: Vec<CivilDate> = Vec::new();
    let mut current = range.start;
    while current.epoch_day < range.end.epoch_day
        invariant
            range.start.day() <= current.day() <= range.end.day() || (current == range.start
                && range.end.day() <= range.start.day()),
            range.end.in_range(),
            current.day() - range.start.day() == dates@.len(),
            forall|k: int| 0 <= k < dates@.len() ==> (#[trigger] dates@[k]).day() == range.start.day() + k,
        decreases range.end.day() - current.day(),
    {
        dates.push(current);
        current = CivilDate { epoch_day: current.epoch_day + 1 };
    }
    dates
}

/// First minute of the first interactive slot (06:00).
pub const FIRST_SLOT_MINUTE: u16 = 360;

/// End minute of the interactive slots (22:00).
pub const LAST_SLOT_MINUTE: u16 = 1320;

/// Length of one interactive slot in minutes.
pub const TIME_SLOT_MINUTES: u16 = 30;

/// The start minutes of the interactive slots: every half hour from 06:00 up
/// to 21:30.
pub fn slot_starts() -> (starts: Vec<u16>)
    ensures
        starts@.len() == 32,
        forall|k: int| 0 <= k < 32 ==> #[trigger] starts@[k] == 360 + 30 * k,
{
    let mut starts: Vec<u16> = Vec::new();
    let mut minute: u16 = FIRST_SLOT_MINUTE;
    while minute < LAST_SLOT_MINUTE
        invariant
            360 <= minute <= 1320,
            (minute - 360) % 30 == 0,
            starts@.len() == (minute - 360) / 30,
            forall|k: int| 0 <= k < starts@.len() ==> #[trigger] starts@[k] == 360 + 30 * k,
        decreases 1320 - minute,
    {
        starts.push(minute);
        minute = minute + TIME_SLOT_MINUTES;
    }
    starts
}

/// A slot starting at `slot_start` and an event from `event_start` to
/// `event_end` (minutes since midnight) share time; both ends are exclusive.
pub open spec fn slot_overlaps(slot_start: int, event_start: int, event_end: int) -> bool {
    event_start < slot_start + 30 && event_end > slot_start
}

/// Returns whether a slot and an event share time.
pub fn slot_overlaps_event(slot_start: i32, event_start: i32, event_end: i32) -> (overlaps: bool)
    ensures
        overlaps == slot_overlaps(slot_start as int, event_start as int, event_end as int),
{
    (event_start as i64) < slot_start as i64 + TIME_SLOT_MINUTES as i64 && event_end > slot_start
}

/// The time at which a slot starts.
pub fn slot_time(slot_start: i32) -> (time: TimeOfDay)
    requires
        0 <= slot_start < 1440,
    ensures
        time.nanos == slot_start * NANOS_PER_MINUTE,
        time.wf(),
{
    TimeOfDay::from_minutes(slot_start as u16)
}

/// A free interactive slot: its column, date and start minute.
#[derive(Clone, Copy, Debug, PartialEq, Eq, Structural, Hash)]
pub struct EmptySlot {
    pub day: usize,
    pub date: CivilDate,
    pub start_minute: u16,
}

/// Whether some event of column `day` shares time with the slot at
/// `slot_start`; event times count in whole minutes.
pub open spec fn slot_taken(range: DateRange, events: Seq<EventOccurrence>, day: int, slot_start: int) -> bool {
    exists|k: int|
        0 <= k < events.len() && range.holds((#[trigger] events[k]).draft.date.day())
            && events[k].draft.date.day() - range.start.day() == day && slot_overlaps(
            slot_start,
            events[k].draft.start_time.spec_minutes(),
            events[k].draft.end_time.spec_minutes(),
        )
}

fn slot_is_taken(range: DateRange, events: &[EventOccurrence], day: usize, slot_start: u16) -> (taken:
    bool)
    requires
        forall|k: int|
            0 <= k < events.len() ==> (#[trigger] events@[k]).draft.start_time.wf()
                && events@[k].draft.end_time.wf(),
    ensures
        taken == slot_taken(range, events@, day as int, slot_start as int),
{
    let mut k: usize = 0;
    while k < events.len()
        invariant
            k <= events.len(),
            forall|m: int|
                0 <= m < events.len() ==> (#[trigger] events@[m]).draft.start_time.wf()
                    && events@[m].draft.end_time.wf(),
            forall|m: int|
                0 <= m < k ==> !(range.holds((#[trigger] events@[m]).draft.date.day())
                    && events@[m].draft.date.day() - range.start.day() == day && slot_overlaps(
                    slot_start as int,
                    events@[m].draft.start_time.spec_minutes(),
                    events@[m].draft.end_time.spec_minutes(),
                )),
        decreases events.len() - k,
    {
        let e = &events[k];
        if day_index(range, e.draft.date) == Some(day) {
            let start = e.draft.start_time.minutes_since_midnight() as i32;
            let end = e.draft.end_time.minutes_since_midnight() as i32;
            if slot_overlaps_event(slot_start as i32, start, end) {
                return true;
            }
        }
        k += 1;
    }
    false
}

/// The free interactive slots of the first `column_count` columns of a
/// surface starting on `range.start`: column by column, slot by slot, every
/// slot on a representable date that no event of that column overlaps.
pub open spec fn slot_is_free(range: DateRange, events: Seq<EventOccurrence>, slot: EmptySlot) -> bool {
    &&& slot.date.day() == range.start.day() + slot.day
    &&& MIN_EPOCH_DAY <= slot.date.day() <= MAX_EPOCH_DAY
    &&& 360 <= slot.start_minute < 1320
    &&& (slot.start_minute - 360) % 30 == 0
    &&& !slot_taken(range, events, slot.day as int, slot.start_minute as int)
}

/// Lists the free interactive slots, column by column and in time order.
pub fn empty_slots(range: DateRange, events: &[EventOccurrence], column_count: usize) -> (slots: Vec<
    EmptySlot,
>)
    requires
        range.start.in_range(),
        column_count <= 65535,
        forall|k: int|
            0 <= k < events.len() ==> (#[trigger] events@[k]).draft.start_time.wf()
                && events@[k].draft.end_time.wf(),
    ensures
        forall|k: int| 0 <= k < slots@.len() ==> slot_is_free(range, events@, #[trigger] slots@[k]),
        forall|k: int| 0 <= k < slots@.len() ==> (#[trigger] slots@[k]).day < column_count,
        forall|day: int, m: int|
            0 <= day < column_count && MIN_EPOCH_DAY <= range.start.day() + day <= MAX_EPOCH_DAY
                && 360 <= m < 1320 && (m - 360) % 30 == 0 && !slot_taken(range, events@, day, m)
                ==> exists|k: int|
                0 <= k < slots@.len() && (#[trigger] slots@[k]).day == day && slots@[k].start_minute
                    == m,
        forall|a: int, b: int|
            0 <= a < b < slots@.len() ==> ((#[trigger] slots@[a]).day < (#[trigger] slots@[b]).day
                || (slots@[a].day == slots@[b].day && slots@[a].start_minute
                < slots@[b].start_minute)),
{
    let starts = slot_starts();
    let mut slots: Vec<EmptySlot> = Vec::new();
    let mut day: usize = 0;
    while day < column_count
        invariant
            day <= column_count,
            column_count <= 65535,
            range.start.in_range(),
            starts@.len() == 32,
            forall|k: int| 0 <= k < 32 ==> #[trigger] starts@[k] == 360 + 30 * k,
            forall|k: int|
                0 <= k < events.len() ==> (#[trigger] events@[k]).draft.start_time.wf()
                    && events@[k].draft.end_time.wf(),
            forall|k: int| 0 <= k < slots@.len() ==> slot_is_free(range, events@, #[trigger] slots@[k]),
            forall|k: int| 0 <= k < slots@.len() ==> (#[trigger] slots@[k]).day < day,
            forall|d: int, m: int|
                0 <= d < day && MIN_EPOCH_DAY <= range.start.day() + d <= MAX_EPOCH_DAY && 360 <= m
                    < 1320 && (m - 360) % 30 == 0 && !slot_taken(range, events@, d, m) ==> exists|k: int|
                    0 <= k < slots@.len() && (#[trigger] slots@[k]).day == d && slots@[k].start_minute
                        == m,
            forall|a: int, b: int|
                0 <= a < b < slots@.len() ==> ((#[trigger] slots@[a]).day < (#[trigger] slots@[b]).day
                    || (slots@[a].day == slots@[b].day && slots@[a].start_minute
                    < slots@[b].start_minute)),
        decreases column_count - day,
    {
        let date = range.start.checked_add_days(day as i32);
        if let Some(day_date) = date {
            let ghost before = slots@;
            let mut s: usize = 0;
            while s < starts.len()
                invariant
                    day < column_count,
                    column_count <= 65535,
                    day_date.day() == range.start.day() + day,
                    MIN_EPOCH_DAY <= day_date.day() <= MAX_EPOCH_DAY,
                    s <= starts@.len(),
                    starts@.len() == 32,
                    forall|k: int| 0 <= k < 32 ==> #[trigger] starts@[k] == 360 + 30 * k,
                    forall|k: int|
                        0 <= k < events.len() ==> (#[trigger] events@[k]).draft.start_time.wf()
                            && events@[k].draft.end_time.wf(),
                    before.len() <= slots@.len(),
                    forall|k: int| 0 <= k < before.len() ==> slots@[k] == before[k],
                    forall|k: int| 0 <= k < before.len() ==> (#[trigger] before[k]).day < day,
                    forall|k: int|
                        0 <= k < slots@.len() ==> slot_is_free(range, events@, #[trigger] slots@[k]),
                    forall|k: int|
                        before.len() <= k < slots@.len() ==> (#[trigger] slots@[k]).day == day
                            && slots@[k].start_minute < 360 + 30 * s,
                    forall|m: int|
                        360 <= m < 360 + 30 * s && (m - 360) % 30 == 0 && !slot_taken(
                            range,
                            events@,
                            day as int,
                            m,
                        ) ==> exists|k: int|
                            before.len() <= k < slots@.len() && (#[trigger] slots@[k]).day == day
                                && slots@[k].start_minute == m,
                    forall|a: int, b: int|
                        0 <= a < b < slots@.len() ==> ((#[trigger] slots@[a]).day
                            < (#[trigger] slots@[b]).day || (slots@[a].day == slots@[b].day
                            && slots@[a].start_minute < slots@[b].start_minute)),
                decreases starts@.len() - s,
            {
                let minute = starts[s];
                let taken = slot_is_taken(range, events, day, minute);
                let slot = EmptySlot { day, date: day_date, start_minute: minute };
                let ghost before_s = slots@;
                if !taken {
                    proof {
                        assert(slot_is_free(range, events@, slot));
                    }
                    slots.push(slot);
                }
                proof {
                    if !taken {
                        assert(slots@ == before_s.push(slot));
                        let n = slots@.len() - 1;
                        assert(slots@[n] == slot);
                        assert forall|a: int, b: int|
                            0 <= a < b < slots@.len() implies ((#[trigger] slots@[a]).day
                            < (#[trigger] slots@[b]).day || (slots@[a].day == slots@[b].day
                            && slots@[a].start_minute < slots@[b].start_minute)) by {
                            if b == n {
                                assert(slots@[a] == before_s[a]);
                                if a < before.len() {
                                    assert(slots@[a] == before[a]);
                                }
                            } else {
                                assert(slots@[a] == before_s[a] && slots@[b] == before_s[b]);
                            }
                        }
                    } else {
                        assert(slots@ == before_s);
                    }
                    assert forall|m: int|
                        360 <= m < 360 + 30 * (s + 1) && (m - 360) % 30 == 0 && !slot_taken(
                            range,
                            events@,
                            day as int,
                            m,
                        ) implies exists|k: int|
                        before.len() <= k < slots@.len() && (#[trigger] slots@[k]).day == day
                            && slots@[k].start_minute == m by {
                        if m == 360 + 30 * s {
                            let n = slots@.len() - 1;
                            assert(slots@[n].start_minute == m);
                        } else {
                            let k = choose|k: int|
                                before.len() <= k < before_s.len() && (#[trigger] before_s[k]).day == day
                                    && before_s[k].start_minute == m;
                            assert(slots@[k] == before_s[k]);
                        }
                    }
                }
                s += 1;
            }
            proof {
                assert forall|k: int| 0 <= k < slots@.len() implies (#[trigger] slots@[k]).day < day + 1 by {
                    if k < before.len() {
                        assert(slots@[k] == before[k]);
                    }
                }
                assert forall|d: int, m: int|
                    0 <= d < day + 1 && MIN_EPOCH_DAY <= range.start.day() + d <= MAX_EPOCH_DAY && 360
                        <= m < 1320 && (m - 360) % 30 == 0 && !slot_taken(range, events@, d, m) implies exists|k: int|
                    0 <= k < slots@.len() && (#[trigger] slots@[k]).day == d && slots@[k].start_minute
                        == m by {
                    if d < day {
                        let k = choose|k: int|
                            0 <= k < before.len() && (#[trigger] before[k]).day == d && before[k].start_minute == m;
                        assert(slots@[k] == before[k]);
                    }
                }
            }
        }
        day += 1;
    }
    slots
}

/// Dates the week surface keeps visible as its logical window.
pub const WEEK_VISIBLE_DAYS: usize = 7;

/// Dates kept on either side of the logical window for seamless scrolling.
pub const WEEK_BUFFER_DAYS: usize = 7;

/// Columns from an edge of the buffer at which the buffer is rebased.
pub const WEEK_REBASE_GUARD_DAYS: usize = 3;

/// The visible week length as an `i32`.
pub fn week_visible_days_i32() -> (days: i32)
    ensures
        days == 7,
{
    7
}

/// The date `days` days after `date`, if representable.
pub fn shift_date(date: CivilDate, days: i32) -> (shifted: Option<CivilDate>)
    ensures
        shifted is Some <==> MIN_EPOCH_DAY <= date.day() + days <= MAX_EPOCH_DAY,
        shifted matches Some(s) ==> s.day() == date.day() + days,
{
    date.checked_add_days(days)
}

/// The rolling week range: the buffer start and the twenty-one days after
/// it (a week of buffer, the visible week, a week of buffer).
pub fn rolling_week_range(buffer_start: CivilDate) -> (range: Result<DateRange, CalendarError>)
    ensures
        range is Ok <==> buffer_start.day() + 21 <= MAX_EPOCH_DAY && MIN_EPOCH_DAY
            <= buffer_start.day() + 21,
        range matches Ok(r) ==> r.start == buffer_start && r.end.day() == buffer_start.day() + 21,
        range matches Err(e) ==> e == CalendarError::DateArithmetic,
{
    let end = match shift_date(buffer_start, 21) {
        Some(end) => end,
        None => return Err(CalendarError::DateArithmetic),
    };
    DateRange::new(buffer_start, end)
}

/// The first visible date of the week surface when the column at `column`
/// is under the scroll position.
pub fn logical_week_start(buffer_start: CivilDate, column: i32) -> (start: Option<CivilDate>)
    ensures
        start is Some <==> MIN_EPOCH_DAY <= buffer_start.day() + column <= MAX_EPOCH_DAY,
        start matches Some(s) ==> s.day() == buffer_start.day() + column,
{
    shift_date(buffer_start, column)
}

/// How far to move the rolling buffer once scrolling nears one of its
/// edges: a week back when fewer than three columns lie before the first
/// visible one, a week forward when the visible week and three more columns
/// pass the end, and nothing otherwise, when rebasing is not allowed, when
/// the buffer holds no more than a week, or when the scroll position is
/// unknown.
pub fn week_rebase_delta(
    buffer_start: CivilDate,
    first_visible: Option<usize>,
    column_count: usize,
    can_rebase: bool,
) -> (delta: Option<i32>)
    ensures
        ({
            match first_visible {
                Some(first) => {
                    if !can_rebase || column_count <= 7 {
                        delta is None
                    } else if first < 3 {
                        delta == if MIN_EPOCH_DAY <= buffer_start.day() - 7 <= MAX_EPOCH_DAY {
                            Some(-7i32)
                        } else {
                            None
                        }
                    } else if (if first + 10 > usize::MAX {
                        usize::MAX as int
                    } else {
                        first + 10
                    }) > column_count {
                        delta == if MIN_EPOCH_DAY <= buffer_start.day() + 7 <= MAX_EPOCH_DAY {
                            Some(7i32)
                        } else {
                            None
                        }
                    } else {
                        delta is None
                    }
                },
                None => delta is None,
            }
        }),
{
    let first = match first_visible {
        Some(first) => first,
        None => return None,
    };
    if !can_rebase || column_count <= WEEK_VISIBLE_DAYS {
        return None;
    }
    let trailing_edge = first.saturating_add(WEEK_VISIBLE_DAYS).saturating_add(WEEK_REBASE_GUARD_DAYS);
    if first < WEEK_REBASE_GUARD_DAYS {
        let days = week_visible_days_i32();
        match shift_date(buffer_start, -days) {
            Some(_) => Some(-days),
            None => None,
        }
    } else if trailing_edge > column_count {
        let days = week_visible_days_i32();
        match shift_date(buffer_start, days) {
            Some(_) => Some(days),
            None => None,
        }
    } else {
        None
    }
}

/// The buffer start for a logical window starting on `visible_start`: a
/// week earlier, or the window start itself when that is not representable.
pub fn week_buffer_start(visible_start: CivilDate) -> (start: CivilDate)
    ensures
        start == if MIN_EPOCH_DAY <= visible_start.day() - 7 <= MAX_EPOCH_DAY {
            CivilDate { epoch_day: (visible_start.epoch_day - 7) as i32 }
        } else {
            visible_start
        },
{
    match shift_date(visible_start, -7) {
        Some(s) => s,
        None => visible_start,
    }
}

/// The seven-day range of the logical week window, if representable.
pub fn visible_week_range(visible_start: CivilDate) -> (range: Option<DateRange>)
    ensures
        range is Some <==> visible_start.day() + 7 <= MAX_EPOCH_DAY && MIN_EPOCH_DAY
            <= visible_start.day() + 7,
        range matches Some(r) ==> r.start == visible_start && r.end.day() == visible_start.day() + 7,
{
    let end = match shift_date(visible_start, 7) {
        Some(end) => end,
        None => return None,
    };
    match DateRange::new(visible_start, end) {
        Ok(r) => Some(r),
        Err(_) => None,
    }
}

/// Whether identities are in strictly increasing order (so each occurs once).
pub open spec fn ids_increasing(ids: Seq<OccurrenceId>) -> bool {
    forall|i: int, j: int| 0 <= i < j < ids.len() ==> occurrence_id_lt(#[trigger] ids[i], #[trigger] ids[j])
}

proof fn lemma_id_order(a: OccurrenceId, b: OccurrenceId, c: OccurrenceId)
    ensures
        !occurrence_id_lt(a, a),
        a != b ==> occurrence_id_lt(a, b) || occurrence_id_lt(b, a),
        occurrence_id_lt(a, b) ==> !occurrence_id_lt(b, a),
        occurrence_id_lt(a, b) && occurrence_id_lt(b, c) ==> occurrence_id_lt(a, c),
{
    match (a, b) {
        (OccurrenceId::Standalone(x), OccurrenceId::Standalone(y)) => {
            if a != b {
                assert(x.value != y.value);
            }
        },
        (
            OccurrenceId::Recurring { series_id: s1, original_date: d1 },
            OccurrenceId::Recurring { series_id: s2, original_date: d2 },
        ) => {
            if a != b {
                assert(s1.value != s2.value || d1.epoch_day != d2.epoch_day);
            }
        },
        _ => {},
    }
}

/// Adds `id` to an increasing list of identities, keeping it increasing;
/// returns whether it was absent.
pub fn insert_id(ids: &mut Vec<OccurrenceId>, id: OccurrenceId) -> (inserted: bool)
    requires
        ids_increasing(old(ids)@),
    ensures
        ids_increasing(final(ids)@),
        inserted == !old(ids)@.contains(id),
        final(ids)@.to_set() == old(ids)@.to_set().insert(id),
{
    let ghost before = ids@;
    let mut p: usize = 0;
    while p < ids.len() && occurrence_id_less(ids[p], id)
        invariant
            p <= ids@.len(),
            ids@ == before,
            ids_increasing(before),
            forall|j: int| 0 <= j < p ==> occurrence_id_lt(#[trigger] ids@[j], id),
        decreases ids@.len() - p,
    {
        p += 1;
    }
    proof {
        assert forall|j: int| p <= j < before.len() implies !occurrence_id_lt(#[trigger] before[j], id) by {
            lemma_id_order(before[p as int], before[j], id);
            lemma_id_order(before[j], id, id);
            if p < j {
                lemma_id_order(before[p as int], before[j], before[p as int]);
            }
        }
    }
    if p < ids.len() && ids[p] == id {
        proof {
            assert(before.to_set().insert(id) =~= before.to_set());
        }
        return false;
    }
    proof {
        assert forall|j: int| 0 <= j < before.len() implies before[j] != id by {
            if j >= p {
                if j == p {
                } else {
                    lemma_id_order(before[p as int], before[j], id);
                    lemma_id_order(before[p as int], id, id);
                    lemma_id_order(id, before[p as int], id);
                }
            } else {
                lemma_id_order(id, id, id);
            }
        }
        if p < before.len() {
            lemma_id_order(before[p as int], id, id);
            assert(occurrence_id_lt(id, before[p as int]));
        }
    }
    ids.insert(p, id);
    proof {
        let s = ids@;
        assert(s =~= before.insert(p as int, id));
        assert forall|a: int, b: int| 0 <= a < b < s.len() implies occurrence_id_lt(
            #[trigger] s[a],
            #[trigger] s[b],
        ) by {
            if a < p && b == p {
                assert(s[a] == before[a]);
            } else if a == p && b > p {
                assert(s[b] == before[b - 1]);
                if b - 1 > p {
                    lemma_id_order(id, before[p as int], before[b - 1]);
                }
            } else if b < p {
                assert(s[a] == before[a] && s[b] == before[b]);
            } else if a < p && b > p {
                assert(s[a] == before[a] && s[b] == before[b - 1]);
                lemma_id_order(before[a], before[p as int], before[b - 1]);
            } else {
                assert(s[a] == before[a - 1] && s[b] == before[b - 1]);
            }
        }
        assert forall|x: OccurrenceId| s.to_set().contains(x) <==> before.to_set().insert(id).contains(x) by {
            if s.contains(x) {
                let k = choose|k: int| 0 <= k < s.len() && s[k] == x;
                if k < p {
                    assert(before[k] == x);
                } else if k > p {
                    assert(before[k - 1] == x);
                }
            }
            if before.contains(x) {
                let k = choose|k: int| 0 <= k < before.len() && before[k] == x;
                if k < p {
                    assert(s[k] == x);
                } else {
                    assert(s[k + 1] == x);
                }
            }
            if x == id {
                assert(s[p as int] == id);
            }
        }
        assert(s.to_set() =~= before.to_set().insert(id));
    }
    true
}

/// Removes `id` from an increasing list of identities.
pub fn remove_id(ids: &mut Vec<OccurrenceId>, id: OccurrenceId)
    requires
        ids_increasing(old(ids)@),
    ensures
        ids_increasing(final(ids)@),
        final(ids)@.to_set() == old(ids)@.to_set().remove(id),
{
    let ghost before = ids@;
    let mut p: usize = 0;
    while p < ids.len()
        invariant
            p <= ids@.len(),
            ids@ == before,
            old(ids)@ == before,
            ids_increasing(before),
            forall|j: int| 0 <= j < p ==> #[trigger] ids@[j] != id,
        decreases ids@.len() - p,
    {
        if ids[p] == id {
            ids.remove(p);
            proof {
                let s = ids@;
                assert(s =~= before.remove(p as int));
                assert forall|a: int, b: int| 0 <= a < b < s.len() implies occurrence_id_lt(
                    #[trigger] s[a],
                    #[trigger] s[b],
                ) by {
                    let a0 = if a < p { a } else { a + 1 };
                    let b0 = if b < p { b } else { b + 1 };
                    assert(s[a] == before[a0] && s[b] == before[b0]);
                }
                assert forall|x: OccurrenceId| s.to_set().contains(x) <==> before.to_set().remove(id).contains(x) by {
                    if s.contains(x) {
                        let k = choose|k: int| 0 <= k < s.len() && s[k] == x;
                        let k0 = if k < p { k } else { k + 1 };
                        assert(before[k0] == x);
                        if x == id {
                            lemma_id_order(before[k0], before[p as int], before[k0]);
                            if k0 < p {
                                assert(occurrence_id_lt(before[k0], before[p as int]));
                            } else {
                                assert(occurrence_id_lt(before[p as int], before[k0]));
                            }
                        }
                    }
                    if before.contains(x) && x != id {
                        let k = choose|k: int| 0 <= k < before.len() && before[k] == x;
                        if k < p {
                            assert(s[k] == x);
                        } else {
                            assert(k != p);
                            assert(s[k - 1] == x);
                        }
                    }
                }
                assert(s.to_set() =~= before.to_set().remove(id));
            }
            return;
        }
        p += 1;
    }
    proof {
        assert(!before.contains(id));
        assert(before.to_set().remove(id) =~= before.to_set());
    }
}

/// The transient event-selection mode of the calendar surface.
#[derive(Clone, Debug)]
pub enum EventSelection {
    /// Normal single-event selection.
    Single,
    /// Several occurrences of one captured surface may be selected.
    Bulk { surface: CalendarViewMode, selected: Vec<OccurrenceId> },
}

/// `selected` with `id` added when absent and removed when present.
pub open spec fn toggled_set(selected: Set<OccurrenceId>, id: OccurrenceId) -> Set<OccurrenceId> {
    if selected.contains(id) {
        selected.remove(id)
    } else {
        selected.insert(id)
    }
}

/// Toggling the same occurrence twice gives back the selection.
pub proof fn lemma_toggle_twice_restores(selected: Set<OccurrenceId>, id: OccurrenceId)
    ensures
        toggled_set(toggled_set(selected, id), id) == selected,
{
    assert(toggled_set(toggled_set(selected, id), id) =~= selected);
}

impl EventSelection {
    /// Whether a bulk selection keeps its identities increasing.
    pub open spec fn wf(self) -> bool {
        match self {
            EventSelection::Single => true,
            EventSelection::Bulk { selected, .. } => ids_increasing(selected@),
        }
    }

    /// The selected identities as a set; empty in single mode.
    pub open spec fn selected_set(self) -> Set<OccurrenceId> {
        match self {
            EventSelection::Single => Set::empty(),
            EventSelection::Bulk { selected, .. } => selected@.to_set(),
        }
    }

    /// The captured surface, in bulk mode.
    pub fn surface(&self) -> (surface: Option<CalendarViewMode>)
        ensures
            surface == match *self {
                EventSelection::Single => None,
                EventSelection::Bulk { surface, .. } => Some(surface),
            },
    {
        match self {
            EventSelection::Single => None,
            EventSelection::Bulk { surface, .. } => Some(*surface),
        }
    }

    /// The selected identities, in bulk mode.
    pub fn selected(&self) -> (selected: Option<&Vec<OccurrenceId>>)
        ensures
            selected == match *self {
                EventSelection::Single => None,
                EventSelection::Bulk { selected, .. } => Some(&selected),
            },
    {
        match self {
            EventSelection::Single => None,
            EventSelection::Bulk { selected, .. } => Some(selected),
        }
    }

    /// The selected identities, for change in place, in bulk mode.
    pub fn selected_mut(&mut self) -> (selected: Option<&mut Vec<OccurrenceId>>)
        ensures
            match *old(self) {
                EventSelection::Single => selected is None && *final(self) == *old(self),
                EventSelection::Bulk { surface, selected: s } => selected matches Some(r) && *r == s
                    && *final(self) == (EventSelection::Bulk { surface, selected: *final(r) }),
            },
    {
        match self {
            EventSelection::Single => None,
            EventSelection::Bulk { selected, .. } => Some(selected),
        }
    }

    /// Starts bulk selection on `surface` with nothing selected.
    pub fn begin(surface: CalendarViewMode) -> (selection: EventSelection)
        ensures
            selection.wf(),
            selection.selected_set() == Set::<OccurrenceId>::empty(),
            selection.surface_spec() == Some(surface),
    {
        let s = EventSelection::Bulk { surface, selected: Vec::new() };
        proof {
            assert(Seq::<OccurrenceId>::empty().to_set() =~= Set::<OccurrenceId>::empty());
        }
        s
    }

    /// The captured surface, in bulk mode.
    pub open spec fn surface_spec(self) -> Option<CalendarViewMode> {
        match self {
            EventSelection::Single => None,
            EventSelection::Bulk { surface, .. } => Some(surface),
        }
    }

    /// Whether `id` is selected.
    pub fn is_selected(&self, id: OccurrenceId) -> (selected: bool)
        ensures
            selected == self.selected_set().contains(id),
    {
        match self {
            EventSelection::Single => false,
            EventSelection::Bulk { selected, .. } => {
                let found = contains_id(selected, id);
                proof {
                    if found {
                        let k = choose|k: int| 0 <= k < selected@.len() && selected@[k] == id;
                        assert(selected@.to_set().contains(id));
                    }
                }
                found
            },
        }
    }

    /// Toggles `id` when bulk selection is on, was captured on `surface`,
    /// `surface` is the active one, and `visible` (the surface's occurrences)
    /// holds `id`. Returns whether the selection changed.
    pub fn toggle(
        &mut self,
        surface: CalendarViewMode,
        active: CalendarViewMode,
        id: OccurrenceId,
        visible: &[OccurrenceId],
    ) -> (toggled: bool)
        requires
            old(self).wf(),
        ensures
            final(self).wf(),
            final(self).surface_spec() == old(self).surface_spec(),
            toggled == (old(self).surface_spec() == Some(surface) && active == surface
                && visible@.contains(id)),
            toggled ==> final(self).selected_set() == toggled_set(old(self).selected_set(), id),
            !toggled ==> final(self).selected_set() == old(self).selected_set(),
    {
        let mut present = false;
        let mut i: usize = 0;
        while i < visible.len()
            invariant
                i <= visible@.len(),
                present == exists|k: int| 0 <= k < i && visible@[k] == id,
            decreases visible@.len() - i,
        {
            if visible[i] == id {
                present = true;
            }
            i += 1;
        }
        proof {
            if visible@.contains(id) {
                let k = choose|k: int| 0 <= k < visible@.len() && visible@[k] == id;
                assert(exists|m: int| 0 <= m < visible@.len() && visible@[m] == id);
            }
        }
        match self {
            EventSelection::Single => false,
            EventSelection::Bulk { surface: captured, selected } => {
                if *captured != surface || active != surface || !present {
                    return false;
                }
                if !insert_id(selected, id) {
                    remove_id(selected, id);
                }
                true
            },
        }
    }

    /// Selects every visible occurrence, or clears the selection when every
    /// one of them is already selected. Does nothing in single mode.
    pub fn select_all(&mut self, visible: &[OccurrenceId])
        requires
            old(self).wf(),
        ensures
            final(self).wf(),
            final(self).surface_spec() == old(self).surface_spec(),
            *old(self) is Bulk ==> final(self).selected_set() == if visible@.len() > 0
                && old(self).selected_set() == visible@.to_set() {
                Set::<OccurrenceId>::empty()
            } else {
                visible@.to_set()
            },
            *old(self) is Single ==> *final(self) is Single,
    {
        let mut ids: Vec<OccurrenceId> = Vec::new();
        let mut i: usize = 0;
        proof {
            assert(ids@.to_set() =~= visible@.take(0).to_set());
        }
        while i < visible.len()
            invariant
                i <= visible@.len(),
                ids_increasing(ids@),
                ids@.to_set() == visible@.take(i as int).to_set(),
            decreases visible@.len() - i,
        {
            insert_id(&mut ids, visible[i]);
            proof {
                assert(visible@.take(i as int + 1) =~= visible@.take(i as int).push(visible@[i as int]));
                visible@.take(i as int).lemma_push_to_set_commute(visible@[i as int]);
            }
            i += 1;
        }
        proof {
            assert(visible@.take(visible@.len() as int) =~= visible@);
        }
        match self {
            EventSelection::Single => {},
            EventSelection::Bulk { selected, .. } => {
                if visible.len() > 0 && same_ids(selected, &ids) {
                    *selected = Vec::new();
                    proof {
                        assert(Seq::<OccurrenceId>::empty().to_set() =~= Set::<OccurrenceId>::empty());
                    }
                } else {
                    *selected = ids;
                }
            },
        }
    }
}

/// Whether two identity lists hold the same identities.
pub fn same_ids(a: &Vec<OccurrenceId>, b: &Vec<OccurrenceId>) -> (same: bool)
    ensures
        same == (a@.to_set() == b@.to_set()),
{
    let mut i: usize = 0;
    while i < a.len()
        invariant
            i <= a@.len(),
            forall|k: int| 0 <= k < i ==> b@.contains(#[trigger] a@[k]),
        decreases a@.len() - i,
    {
        if !contains_id(b, a[i]) {
            proof {
                assert(a@.to_set().contains(a@[i as int]));
                assert(!b@.to_set().contains(a@[i as int]));
            }
            return false;
        }
        i += 1;
    }
    let mut j: usize = 0;
    while j < b.len()
        invariant
            j <= b@.len(),
            forall|k: int| 0 <= k < a@.len() ==> b@.contains(#[trigger] a@[k]),
            forall|k: int| 0 <= k < j ==> a@.contains(#[trigger] b@[k]),
        decreases b@.len() - j,
    {
        if !contains_id(a, b[j]) {
            proof {
                assert(b@.to_set().contains(b@[j as int]));
                assert(!a@.to_set().contains(b@[j as int]));
            }
            return false;
        }
        j += 1;
    }
    proof {
        assert forall|x: OccurrenceId| a@.to_set().contains(x) <==> b@.to_set().contains(x) by {
            if a@.contains(x) {
                let k = choose|k: int| 0 <= k < a@.len() && a@[k] == x;
                assert(b@.contains(a@[k]));
            }
            if b@.contains(x) {
                let k = choose|k: int| 0 <= k < b@.len() && b@[k] == x;
                assert(a@.contains(b@[k]));
            }
        }
        assert(a@.to_set() =~= b@.to_set());
    }
    true
}

/// Whether a list of identities holds `id`.
pub fn contains_id(ids: &Vec<OccurrenceId>, id: OccurrenceId) -> (found: bool)
    ensures
        found == ids@.contains(id),
{
    let mut i: usize = 0;
    while i < ids.len()
        invariant
            i <= ids@.len(),
            forall|k: int| 0 <= k < i ==> #[trigger] ids@[k] != id,
        decreases ids@.len() - i,
    {
        if ids[i] == id {
            return true;
        }
        i += 1;
    }
    false
}

/// Whether a filter still names something to show: every category, or a
/// stored visible one.
pub open spec fn filter_still_valid(filter: CategoryFilter, categories: Seq<Category>) -> bool {
    match filter {
        CategoryFilter::All => true,
        CategoryFilter::Only(id) => exists|i: int|
            0 <= i < categories.len() && #[trigger] categories[i].id == id && categories[i].visible,
    }
}

/// The filter kept after the categories changed: a filter on a category
/// that is gone or hidden falls back to every category.
pub fn reconciled_filter(filter: CategoryFilter, categories: &[Category]) -> (kept: CategoryFilter)
    ensures
        kept == if filter_still_valid(filter, categories@) {
            filter
        } else {
            CategoryFilter::All
        },
{
    match filter {
        CategoryFilter::All => CategoryFilter::All,
        CategoryFilter::Only(id) => {
            let mut i: usize = 0;
            while i < categories.len()
                invariant
                    i <= categories.len(),
                    filter == CategoryFilter::Only(id),
                    forall|k: int|
                        0 <= k < i ==> !(#[trigger] categories@[k].id == id && categories@[k].visible),
                decreases categories.len() - i,
            {
                if categories[i].id == id && categories[i].visible {
                    assert(categories@[i as int].id == id && categories@[i as int].visible);
                    return filter;
                }
                i += 1;
            }
            CategoryFilter::All
        },
    }
}

/// The category remembered for the next new event, forgotten when it is no
/// longer stored.
pub fn reconciled_last_category(last: Option<CategoryId>, categories: &[Category]) -> (kept: Option<
    CategoryId,
>)
    ensures
        kept == match last {
            Some(id) => if has_category(categories@, id) {
                Some(id)
            } else {
                None
            },
            None => None,
        },
{
    match last {
        Some(id) => if crate::categories::has_category_id(categories, id) {
            Some(id)
        } else {
            None
        },
        None => None,
    }
}

/// The heading of the shown range: the selected day, or the first and last
/// day of the visible week, as `strftime` writes them.
pub open spec fn range_label_text(
    mode: CalendarViewMode,
    selected: CivilDate,
    week: DateRange,
) -> Option<Seq<char>> {
    match mode {
        CalendarViewMode::Day => strftime_text(selected.epoch_day, "%A, %b %-d, %Y"@),
        CalendarViewMode::Week => {
            let last: i32 = if week.end.day() > MIN_EPOCH_DAY {
                (week.end.epoch_day - 1) as i32
            } else {
                week.start.epoch_day
            };
            match (strftime_text(week.start.epoch_day, "%b %-d"@), strftime_text(last, "%b %-d, %Y"@)) {
                (Some(a), Some(b)) => Some(a + " \u{2013} "@ + b),
                _ => None,
            }
        },
    }
}

/// The heading of the shown range, or "No calendar loaded" before the
/// calendar is loaded or when no week is visible.
pub fn range_label(
    loaded: bool,
    mode: CalendarViewMode,
    selected: CivilDate,
    week: Option<DateRange>,
) -> (label: String)
    requires
        selected.in_range(),
        week matches Some(w) ==> w.start.in_range() && w.end.in_range(),
    ensures
        !loaded || (mode == CalendarViewMode::Week && week is None) ==> label@ == "No calendar loaded"@,
        loaded && mode == CalendarViewMode::Day ==> range_label_text(
            mode,
            selected,
            DateRange { start: selected, end: selected },
        ) == Some(label@),
        loaded && mode == CalendarViewMode::Week && week is Some ==> range_label_text(
            mode,
            selected,
            week->0,
        ) == Some(label@),
{
    if !loaded {
        return String::from_str("No calendar loaded");
    }
    match mode {
        CalendarViewMode::Day => match selected.format("%A, %b %-d, %Y") {
            Some(t) => t,
            None => String::new(),
        },
        CalendarViewMode::Week => {
            let w = match week {
                Some(w) => w,
                None => return String::from_str("No calendar loaded"),
            };
            let last = match w.end.yesterday() {
                Some(d) => d,
                None => w.start,
            };
            let start = match w.start.format("%b %-d") {
                Some(t) => t,
                None => String::new(),
            };
            let end = match last.format("%b %-d, %Y") {
                Some(t) => t,
                None => String::new(),
            };
            let mut label = start;
            label.append(" \u{2013} ");
            label.append(end.as_str());
            label
        },
    }
}

} // verus!

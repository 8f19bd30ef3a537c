//! Time and date proposal math used by direct calendar manipulation.
use vstd::prelude::*;

use crate::domain::{CalendarError, EventDraft};
use crate::time::{
    CivilDate, CivilDateTime, TimeOfDay, MAX_EPOCH_DAY, MIN_EPOCH_DAY, NANOS_PER_DAY,
    NANOS_PER_MINUTE,
};

verus! {

/// Minutes in one day.
pub const MINUTES_PER_DAY: i32 = 1440;

/// The last minute of a day.
pub const LAST_MINUTE: i32 = 1439;

/// Edge of an event used for a resize operation.
#[derive(Clone, Copy, Debug, PartialEq, Eq, Structural, Hash)]
pub enum ResizeEdge {
    /// The event start is being changed.
    Start,
    /// The event end is being changed.
    End,
}

/// `value` limited to `lo..=hi`.
pub open spec fn clamp(value: int, lo: int, hi: int) -> int {
    if value < lo {
        lo
    } else if value > hi {
        hi
    } else {
        value
    }
}

/// The snapping interval actually used: the configured one limited to one
/// to sixty minutes.
pub open spec fn snap_interval(snap_minutes: u16) -> int {
    clamp(snap_minutes as int, 1, 60)
}

/// `minutes` rounded to the nearest multiple of the interval (halves round
/// up), then limited to the minutes of one day.
pub open spec fn snapped_minute(minutes: int, snap_minutes: u16) -> int {
    let interval = snap_interval(snap_minutes);
    clamp(((minutes + interval / 2) / interval) * interval, 0, LAST_MINUTE as int)
}

/// Rounds `minutes` to the nearest snapping point within the day.
pub fn snap_nearest(minutes: i32, snap_minutes: u16) -> (snapped: i32)
    ensures
        snapped == snapped_minute(minutes as int, snap_minutes),
        0 <= snapped <= LAST_MINUTE,
{
    let interval: i64 = if snap_minutes < 1 {
        1
    } else if snap_minutes > 60 {
        60
    } else {
        snap_minutes as i64
    };
    let shifted: i64 = minutes as i64 + interval / 2;
    if shifted < 0 {
        proof {
            let iv = interval as int;
            let t = shifted as int;
            vstd::arithmetic::div_mod::lemma_fundamental_div_mod(t, iv);
            vstd::arithmetic::div_mod::lemma_mod_bound(t, iv);
            assert((t / iv) * iv <= t) by {
                assert(iv * (t / iv) == (t / iv) * iv) by {
                    vstd::arithmetic::mul::lemma_mul_is_commutative(iv, t / iv);
                }
            }
        }
        return 0;
    }
    proof {
        let iv = interval as int;
        let t = shifted as int;
        vstd::arithmetic::div_mod::lemma_fundamental_div_mod(t, iv);
        vstd::arithmetic::div_mod::lemma_mod_bound(t, iv);
        vstd::arithmetic::div_mod::lemma_div_pos_is_pos(t, iv);
        assert(iv * (t / iv) == (t / iv) * iv) by {
            vstd::arithmetic::mul::lemma_mul_is_commutative(iv, t / iv);
        }
        assert(0 <= (t / iv) * iv <= t) by {
            vstd::arithmetic::mul::lemma_mul_nonnegative(t / iv, iv);
        }
    }
    let snapped: i64 = (shifted / interval) * interval;
    if snapped > LAST_MINUTE as i64 {
        LAST_MINUTE
    } else {
        snapped as i32
    }
}

/// The time `minutes` after midnight, with the minutes limited to one day.
pub open spec fn time_at_minute(minutes: int) -> TimeOfDay {
    TimeOfDay { nanos: (clamp(minutes, 0, LAST_MINUTE as int) * NANOS_PER_MINUTE) as u64 }
}

/// Returns the time `minutes` after midnight, limiting the value to one day.
pub fn time_from_minutes(minutes: i32) -> (time: TimeOfDay)
    ensures
        time == time_at_minute(minutes as int),
        time.wf(),
        time.spec_minutes() == clamp(minutes as int, 0, LAST_MINUTE as int),
{
    let clamped: i32 = if minutes < 0 {
        0
    } else if minutes > LAST_MINUTE {
        LAST_MINUTE
    } else {
        minutes
    };
    TimeOfDay::from_minutes(clamped as u16)
}

/// The draft's duration in whole minutes, or zero when it ends before it starts.
pub open spec fn draft_duration(draft: EventDraft) -> int {
    let d = draft.end_time.spec_minutes() - draft.start_time.spec_minutes();
    if d < 0 {
        0
    } else {
        d
    }
}

/// The start minute chosen for a move.
pub open spec fn moved_start(draft: EventDraft, minute_delta: i32, snap_minutes: u16) -> int {
    let latest = if LAST_MINUTE - draft_duration(draft) < 0 {
        0
    } else {
        LAST_MINUTE - draft_duration(draft)
    };
    clamp(
        snapped_minute(draft.start_time.spec_minutes() + minute_delta, snap_minutes),
        0,
        latest,
    )
}

/// Proposes a moved event at a snapped date and time: the start moves by
/// `minute_delta` and snaps, staying early enough for the event to end within
/// the day, and the date moves by `day_delta` days. Returns `None` when the
/// new date cannot be represented.
pub fn propose_move(draft: &EventDraft, day_delta: i32, minute_delta: i32, snap_minutes: u16) -> (moved:
    Option<EventDraft>)
    requires
        draft.start_time.wf(),
        draft.end_time.wf(),
        draft.start_time.spec_minutes() + minute_delta <= i32::MAX,
    ensures
        moved is Some <==> MIN_EPOCH_DAY <= draft.date.day() + day_delta <= MAX_EPOCH_DAY,
        moved matches Some(m) ==> m == (EventDraft {
            date: CivilDate { epoch_day: (draft.date.day() + day_delta) as i32 },
            start_time: time_at_minute(moved_start(*draft, minute_delta, snap_minutes)),
            end_time: time_at_minute(
                moved_start(*draft, minute_delta, snap_minutes) + draft_duration(*draft),
            ),
            ..*draft
        }),
        moved matches Some(m) ==> m.end_time.spec_minutes() - m.start_time.spec_minutes()
            == draft_duration(*draft) && m.start_time.wf() && m.end_time.wf(),
        snapped_minute(draft.start_time.spec_minutes() + minute_delta, snap_minutes) + draft_duration(
            *draft,
        ) <= LAST_MINUTE ==> (moved matches Some(m) ==> m.start_time.spec_minutes() == snapped_minute(
            draft.start_time.spec_minutes() + minute_delta,
            snap_minutes,
        )),
{
    let start_minute = draft.start_time.minutes_since_midnight();
    let end_minute = draft.end_time.minutes_since_midnight();
    let duration: i32 = if end_minute > start_minute {
        (end_minute - start_minute) as i32
    } else {
        0
    };
    let start = snap_nearest(start_minute as i32 + minute_delta, snap_minutes);
    let latest_start: i32 = if LAST_MINUTE - duration < 0 {
        0
    } else {
        LAST_MINUTE - duration
    };
    let start: i32 = if start < 0 {
        0
    } else if start > latest_start {
        latest_start
    } else {
        start
    };
    let date = match draft.date.checked_add_days(day_delta) {
        Some(d) => d,
        None => return None,
    };
    let end: i32 = if start + duration < LAST_MINUTE {
        start + duration
    } else {
        LAST_MINUTE
    };
    let mut moved = draft.duplicate();
    moved.date = date;
    moved.start_time = time_from_minutes(start);
    moved.end_time = time_from_minutes(end);
    Some(moved)
}

/// The start and end minutes chosen for a resize.
pub open spec fn resized_minutes(
    draft: EventDraft,
    edge: ResizeEdge,
    pointer_minute: i32,
    snap_minutes: u16,
) -> (int, int) {
    let interval = snap_interval(snap_minutes);
    let start = draft.start_time.spec_minutes();
    let end = draft.end_time.spec_minutes();
    let minimum_end = if start + interval < LAST_MINUTE {
        start + interval
    } else {
        LAST_MINUTE as int
    };
    let minimum_start = if end - interval > 0 {
        end - interval
    } else {
        0
    };
    let snapped = snapped_minute(pointer_minute as int, snap_minutes);
    match edge {
        ResizeEdge::Start => (clamp(snapped, 0, minimum_start), end),
        ResizeEdge::End => (start, clamp(snapped, minimum_end, LAST_MINUTE as int)),
    }
}

/// Proposes a resized event: the chosen edge follows the snapped pointer,
/// keeping at least one snap interval from the other edge where the day
/// allows it.
pub fn propose_resize(
    draft: &EventDraft,
    edge: ResizeEdge,
    pointer_minute: i32,
    snap_minutes: u16,
) -> (resized: EventDraft)
    requires
        draft.start_time.wf(),
        draft.end_time.wf(),
    ensures
        resized == (EventDraft {
            start_time: time_at_minute(resized_minutes(*draft, edge, pointer_minute, snap_minutes).0),
            end_time: time_at_minute(resized_minutes(*draft, edge, pointer_minute, snap_minutes).1),
            ..*draft
        }),
        edge == ResizeEdge::Start && snapped_minute(pointer_minute as int, snap_minutes)
            <= draft.end_time.spec_minutes() - snap_interval(snap_minutes) ==> resized.start_time.spec_minutes()
            == snapped_minute(pointer_minute as int, snap_minutes) && resized.end_time.spec_minutes()
            == draft.end_time.spec_minutes(),
        edge == ResizeEdge::End && snapped_minute(pointer_minute as int, snap_minutes)
            >= draft.start_time.spec_minutes() + snap_interval(snap_minutes) ==> resized.end_time.spec_minutes()
            == snapped_minute(pointer_minute as int, snap_minutes) && resized.start_time.spec_minutes()
            == draft.start_time.spec_minutes(),
{
    let interval: i32 = if snap_minutes < 1 {
        1
    } else if snap_minutes > 60 {
        60
    } else {
        snap_minutes as i32
    };
    let original_start = draft.start_time.minutes_since_midnight() as i32;
    let original_end = draft.end_time.minutes_since_midnight() as i32;
    let minimum_end: i32 = if original_start + interval < LAST_MINUTE {
        original_start + interval
    } else {
        LAST_MINUTE
    };
    let minimum_start: i32 = if original_end - interval > 0 {
        original_end - interval
    } else {
        0
    };
    let snapped = snap_nearest(pointer_minute, snap_minutes);
    let (start, end) = match edge {
        ResizeEdge::Start => (
            if snapped < 0 {
                0
            } else if snapped > minimum_start {
                minimum_start
            } else {
                snapped
            },
            original_end,
        ),
        ResizeEdge::End => (
            original_start,
            if snapped < minimum_end {
                minimum_end
            } else if snapped > LAST_MINUTE {
                LAST_MINUTE
            } else {
                snapped
            },
        ),
    };
    let mut resized = draft.duplicate();
    resized.start_time = time_from_minutes(start);
    resized.end_time = time_from_minutes(end);
    resized
}

/// A resize keeps at least one snap interval between the edges whenever the
/// fixed edge leaves room for it inside the day.
pub proof fn lemma_resize_keeps_one_interval(
    draft: EventDraft,
    edge: ResizeEdge,
    pointer_minute: i32,
    snap_minutes: u16,
)
    requires
        draft.start_time.wf(),
        draft.end_time.wf(),
        edge == ResizeEdge::Start ==> draft.end_time.spec_minutes() >= snap_interval(snap_minutes),
        edge == ResizeEdge::End ==> draft.start_time.spec_minutes() + snap_interval(snap_minutes)
            <= LAST_MINUTE,
    ensures
        resized_minutes(draft, edge, pointer_minute, snap_minutes).1 - resized_minutes(
            draft,
            edge,
            pointer_minute,
            snap_minutes,
        ).0 >= snap_interval(snap_minutes),
{
}

/// The moved edge follows the snapped pointer: a start resize puts the start
/// on the snapped pointer whenever that leaves at least one snap interval
/// before the end, and an end resize puts the end on it whenever that
/// leaves at least one interval after the start; the other edge stays.
pub proof fn lemma_resize_follows_pointer(
    draft: EventDraft,
    edge: ResizeEdge,
    pointer_minute: i32,
    snap_minutes: u16,
)
    requires
        draft.start_time.wf(),
        draft.end_time.wf(),
    ensures
        edge == ResizeEdge::Start && snapped_minute(pointer_minute as int, snap_minutes)
            <= draft.end_time.spec_minutes() - snap_interval(snap_minutes) ==> resized_minutes(
            draft,
            edge,
            pointer_minute,
            snap_minutes,
        ) == (snapped_minute(pointer_minute as int, snap_minutes), draft.end_time.spec_minutes()),
        edge == ResizeEdge::End && snapped_minute(pointer_minute as int, snap_minutes)
            >= draft.start_time.spec_minutes() + snap_interval(snap_minutes) ==> resized_minutes(
            draft,
            edge,
            pointer_minute,
            snap_minutes,
        ) == (draft.start_time.spec_minutes(), snapped_minute(pointer_minute as int, snap_minutes)),
{
}

/// A move puts the start on the snapped value of the original start plus
/// the pointer's offset, whatever its sign, whenever the event still ends
/// within the day from there; the length is kept.
pub proof fn lemma_move_follows_pointer(draft: EventDraft, minute_delta: i32, snap_minutes: u16)
    requires
        draft.start_time.wf(),
        draft.end_time.wf(),
    ensures
        snapped_minute(draft.start_time.spec_minutes() + minute_delta, snap_minutes) + draft_duration(
            draft,
        ) <= LAST_MINUTE ==> moved_start(draft, minute_delta, snap_minutes) == snapped_minute(
            draft.start_time.spec_minutes() + minute_delta,
            snap_minutes,
        ),
{
}

/// Moving twice by whole snap intervals from a start on the grid lands
/// where one move by the sum lands, as long as the event stays inside the
/// day: in particular a move back by the same amount returns the start.
pub proof fn lemma_moves_on_the_grid_add_up(draft: EventDraft, k: int, snap_minutes: u16)
    requires
        draft.start_time.wf(),
        draft.end_time.wf(),
        draft.start_time.spec_minutes() % snap_interval(snap_minutes) == 0,
        0 <= draft.start_time.spec_minutes() + k * snap_interval(snap_minutes),
        draft.start_time.spec_minutes() + k * snap_interval(snap_minutes) + draft_duration(draft)
            <= LAST_MINUTE,
        i32::MIN <= k * snap_interval(snap_minutes) <= i32::MAX,
    ensures
        moved_start(draft, (k * snap_interval(snap_minutes)) as i32, snap_minutes)
            == draft.start_time.spec_minutes() + k * snap_interval(snap_minutes),
{
    let iv = snap_interval(snap_minutes);
    let st = draft.start_time.spec_minutes();
    let m = st + k * iv;
    let q0 = st / iv;
    vstd::arithmetic::div_mod::lemma_fundamental_div_mod(st, iv);
    assert(st == q0 * iv) by (nonlinear_arith)
        requires
            st == iv * (st / iv) + st % iv,
            st % iv == 0,
            q0 == st / iv,
    ;
    assert(m == (q0 + k) * iv) by (nonlinear_arith)
        requires
            st == q0 * iv,
            m == st + k * iv,
    ;
    assert(0 <= iv / 2 < iv);
    vstd::arithmetic::div_mod::lemma_fundamental_div_mod_converse(m + iv / 2, iv, q0 + k, iv / 2);
    assert(((m + iv / 2) / iv) * iv == m);
}

/// A move keeps the event inside one day and keeps its length.
pub proof fn lemma_move_stays_within_day(draft: EventDraft, minute_delta: i32, snap_minutes: u16)
    requires
        draft.start_time.wf(),
        draft.end_time.wf(),
    ensures
        0 <= moved_start(draft, minute_delta, snap_minutes),
        moved_start(draft, minute_delta, snap_minutes) + draft_duration(draft) <= LAST_MINUTE,
{
}

/// How a date-time is moved onto a snapping point.
#[derive(Clone, Copy, Debug, PartialEq, Eq, Structural, Hash)]
pub enum SnapMode {
    /// To the snapping point at or before it.
    Down,
    /// To the nearest snapping point; halfway rounds up.
    Nearest,
    /// To the snapping point at or after it.
    Up,
}

/// Nanoseconds since midnight `t` moved onto a multiple of `step`; the
/// result may reach into the next day.
pub open spec fn snapped_nanos(t: int, step: int, mode: SnapMode) -> int {
    let r = t % step;
    let down = t - r;
    match mode {
        SnapMode::Down => down,
        SnapMode::Up => if r == 0 {
            t
        } else {
            down + step
        },
        SnapMode::Nearest => if 2 * r >= step {
            down + step
        } else {
            down
        },
    }
}

/// Snapping lands on a multiple of the step: `Down` at or before the value
/// and less than a step away, `Up` at or after it and less than a step away,
/// `Nearest` at most half a step away.
pub proof fn lemma_snap_lands_on_grid(t: int, step: int, mode: SnapMode)
    requires
        0 <= t,
        0 < step,
    ensures
        snapped_nanos(t, step, mode) % step == 0,
        mode == SnapMode::Down ==> snapped_nanos(t, step, mode) <= t < snapped_nanos(t, step, mode)
            + step,
        mode == SnapMode::Up ==> t <= snapped_nanos(t, step, mode) < t + step,
        mode == SnapMode::Nearest ==> -step <= 2 * (snapped_nanos(t, step, mode) - t) <= step,
{
    let q = t / step;
    let r = t % step;
    vstd::arithmetic::div_mod::lemma_fundamental_div_mod(t, step);
    vstd::arithmetic::div_mod::lemma_mod_pos_bound(t, step);
    vstd::arithmetic::div_mod::lemma_mod_multiples_basic(q, step);
    vstd::arithmetic::div_mod::lemma_mod_multiples_basic(q + 1, step);
    assert(t - r == q * step) by {
        vstd::arithmetic::mul::lemma_mul_is_commutative(step, q);
    }
    assert((q + 1) * step == q * step + step) by {
        vstd::arithmetic::mul::lemma_mul_is_distributive_add_other_way(step, q, 1);
    }
    if r == 0 {
        assert(t % step == 0);
    }
}

/// Moves a date-time onto a multiple of `interval_minutes` since midnight,
/// carrying into the next day when it rounds past the last instant of the
/// day. The interval must be one minute to one day.
pub fn snap_datetime(value: CivilDateTime, interval_minutes: u16, mode: SnapMode) -> (result:
    Result<CivilDateTime, CalendarError>)
    requires
        value.time.wf(),
    ensures
        interval_minutes == 0 || interval_minutes > 1440 ==> result == Err::<
            CivilDateTime,
            CalendarError,
        >(CalendarError::InvalidSnapInterval),
        1 <= interval_minutes <= 1440 ==> {
            let s = snapped_nanos(
                value.time.nanos as int,
                interval_minutes * NANOS_PER_MINUTE,
                mode,
            );
            &&& s < NANOS_PER_DAY ==> result == Ok::<CivilDateTime, CalendarError>(
                CivilDateTime { date: value.date, time: TimeOfDay { nanos: s as u64 } },
            )
            &&& s >= NANOS_PER_DAY && value.date.day() < MAX_EPOCH_DAY ==> (result matches Ok(dt)
                && dt.date.day() == value.date.day() + 1 && dt.time.nanos == s - NANOS_PER_DAY)
            &&& s >= NANOS_PER_DAY && value.date.day() >= MAX_EPOCH_DAY ==> result == Err::<
                CivilDateTime,
                CalendarError,
            >(CalendarError::DateArithmetic)
        },
        result matches Ok(dt) ==> dt.time.wf(),
{
    if interval_minutes == 0 || interval_minutes > 1440 {
        return Err(CalendarError::InvalidSnapInterval);
    }
    let step: u64 = interval_minutes as u64 * NANOS_PER_MINUTE;
    let t = value.time.nanos;
    let r = t % step;
    proof {
        assert(r <= t && r < step) by (nonlinear_arith)
            requires
                r == t % step,
                step > 0,
        ;
    }
    let down = t - r;
    proof {
        assert(step <= 1440 * NANOS_PER_MINUTE) by (nonlinear_arith)
            requires
                step == interval_minutes as u64 * NANOS_PER_MINUTE,
                interval_minutes <= 1440,
        ;
        assert(step >= NANOS_PER_MINUTE) by (nonlinear_arith)
            requires
                step == interval_minutes as u64 * NANOS_PER_MINUTE,
                interval_minutes >= 1,
        ;
    }
    let snapped: u64 = match mode {
        SnapMode::Down => down,
        SnapMode::Up => if r == 0 {
            t
        } else {
            down + step
        },
        SnapMode::Nearest => if 2 * r >= step {
            down + step
        } else {
            down
        },
    };
    if snapped < NANOS_PER_DAY {
        Ok(CivilDateTime { date: value.date, time: TimeOfDay { nanos: snapped } })
    } else {
        match value.date.tomorrow() {
            Some(next) => Ok(CivilDateTime { date: next, time: TimeOfDay { nanos: snapped - NANOS_PER_DAY } }),
            None => Err(CalendarError::DateArithmetic),
        }
    }
}

} // verus!

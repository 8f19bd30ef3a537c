//! Which event reminders fall due when the clock is checked: a reminder is
//! due a number of minutes before its occurrence starts, is delivered once
//! per occurrence and date, and is caught up for at most a few minutes after
//! the app was away.
use vstd::prelude::*;

use crate::domain::{EventOccurrence, OccurrenceId};
use crate::time::{CivilDate, NANOS_PER_SECOND, Timestamp, min_instant};

verus! {

/// How far back a check looks for reminders it missed.
pub const REMINDER_CATCH_UP_MINUTES: u16 = 5;

/// The occurrence a delivered reminder leads back to.
#[derive(Clone, Copy, Debug, PartialEq, Eq, Structural, Hash)]
pub struct ReminderTarget {
    pub occurrence_id: OccurrenceId,
    pub date: CivilDate,
}

/// The instant `minutes` minutes before `t`, when it is representable.
pub open spec fn instant_before(t: Timestamp, minutes: int) -> Option<int> {
    if t.instant() - minutes * 60 * NANOS_PER_SECOND >= min_instant() {
        Some(t.instant() - minutes * 60 * NANOS_PER_SECOND)
    } else {
        None
    }
}

/// The instant after which a check at `now` delivers reminders: the last
/// check, or the catch-up limit before `now` when the last check lies
/// further back. The limit is `now` itself when it cannot be represented.
pub open spec fn window_start_instant(last_check: Timestamp, now: Timestamp) -> int {
    let catch_up = match instant_before(now, REMINDER_CATCH_UP_MINUTES as int) {
        Some(i) => i,
        None => now.instant(),
    };
    if last_check.instant() >= catch_up {
        last_check.instant()
    } else {
        catch_up
    }
}

/// Computes where the reminder window of a check at `now` starts.
pub fn reminder_window_start(last_check: Timestamp, now: Timestamp) -> (start: Timestamp)
    requires
        last_check.wf(),
        now.wf(),
    ensures
        start.wf(),
        start.instant() == window_start_instant(last_check, now),
{
    let catch_up = match now.minutes_before(REMINDER_CATCH_UP_MINUTES) {
        Some(t) => t,
        None => now,
    };
    if last_check.is_before(&catch_up) {
        catch_up
    } else {
        last_check
    }
}

/// The occurrence and date a reminder is delivered for.
pub open spec fn target_of(occurrence: EventOccurrence) -> ReminderTarget {
    ReminderTarget { occurrence_id: occurrence.id, date: occurrence.draft.date }
}

/// Whether the occurrence starting at `start` has a reminder due after
/// `window_start` and no later than `now`.
pub open spec fn reminder_fires(
    occurrence: EventOccurrence,
    start: Option<Timestamp>,
    window_start: int,
    now: Timestamp,
) -> bool {
    &&& occurrence.draft.reminder is Some
    &&& start is Some
    &&& instant_before(start->0, occurrence.draft.reminder->0 as int) matches Some(due) && window_start
        < due <= now.instant()
}

/// Whether the target of `occurrence` was delivered before or is among the
/// occurrences `chosen` already picked.
pub open spec fn already_delivered(
    occurrences: Seq<EventOccurrence>,
    chosen: Seq<usize>,
    delivered: Seq<ReminderTarget>,
    occurrence: EventOccurrence,
) -> bool {
    ||| delivered.contains(target_of(occurrence))
    ||| exists|k: int|
        0 <= k < chosen.len() && target_of(occurrences[#[trigger] chosen[k] as int]) == target_of(
            occurrence,
        )
}

/// The positions, in order, of the first `n` occurrences whose reminders
/// are delivered: each fires in the window and its target was not
/// delivered before, by an earlier check or earlier in this one.
pub open spec fn due_positions(
    occurrences: Seq<EventOccurrence>,
    starts: Seq<Option<Timestamp>>,
    window_start: int,
    now: Timestamp,
    delivered: Seq<ReminderTarget>,
    n: int,
) -> Seq<usize>
    decreases n,
{
    if n <= 0 {
        Seq::empty()
    } else {
        let chosen = due_positions(occurrences, starts, window_start, now, delivered, n - 1);
        let o = occurrences[n - 1];
        if reminder_fires(o, starts[n - 1], window_start, now) && !already_delivered(
            occurrences,
            chosen,
            delivered,
            o,
        ) {
            chosen.push((n - 1) as usize)
        } else {
            chosen
        }
    }
}

/// A check delivers each occurrence's reminder at most once per date, and
/// none that an earlier check delivered: the chosen positions are in order,
/// their targets differ from one another and from every delivered target.
pub proof fn lemma_reminders_delivered_once(
    occurrences: Seq<EventOccurrence>,
    starts: Seq<Option<Timestamp>>,
    window_start: int,
    now: Timestamp,
    delivered: Seq<ReminderTarget>,
    n: int,
)
    requires
        0 <= n <= occurrences.len(),
        occurrences.len() <= usize::MAX,
    ensures
        ({
            let chosen = due_positions(occurrences, starts, window_start, now, delivered, n);
            &&& forall|k: int| 0 <= k < chosen.len() ==> #[trigger] chosen[k] < n
            &&& forall|k: int, l: int|
                0 <= k < l < chosen.len() ==> chosen[k] < chosen[l] && target_of(
                    occurrences[#[trigger] chosen[k] as int],
                ) != target_of(occurrences[#[trigger] chosen[l] as int])
            &&& forall|k: int|
                0 <= k < chosen.len() ==> !delivered.contains(
                    target_of(occurrences[#[trigger] chosen[k] as int]),
                )
        }),
    decreases n,
{
    if n > 0 {
        lemma_reminders_delivered_once(occurrences, starts, window_start, now, delivered, n - 1);
        let prev = due_positions(occurrences, starts, window_start, now, delivered, n - 1);
        let chosen = due_positions(occurrences, starts, window_start, now, delivered, n);
        let fresh = reminder_fires(occurrences[n - 1], starts[n - 1], window_start, now)
            && !already_delivered(occurrences, prev, delivered, occurrences[n - 1]);
        if fresh {
            assert(chosen == prev.push((n - 1) as usize));
            assert(!delivered.contains(target_of(occurrences[n - 1])));
            assert forall|k: int, l: int| 0 <= k < l < chosen.len() implies chosen[k] < chosen[l]
                && target_of(occurrences[#[trigger] chosen[k] as int]) != target_of(
                occurrences[#[trigger] chosen[l] as int],
            ) by {
                assert(chosen[k] == prev[k]);
                if l < prev.len() {
                    assert(chosen[l] == prev[l]);
                } else {
                    assert(prev[k] < n - 1);
                    if target_of(occurrences[prev[k] as int]) == target_of(occurrences[n - 1]) {
                        assert(already_delivered(occurrences, prev, delivered, occurrences[n - 1]));
                    }
                }
            }
            assert forall|k: int| 0 <= k < chosen.len() implies #[trigger] chosen[k] < n by {
                if k < prev.len() {
                    assert(chosen[k] == prev[k]);
                }
            }
            assert forall|k: int| 0 <= k < chosen.len() implies !delivered.contains(
                target_of(occurrences[#[trigger] chosen[k] as int]),
            ) by {
                if k < prev.len() {
                    assert(chosen[k] == prev[k]);
                }
            }
        }
    }
}

/// Whether `target` is in `targets`.
fn contains_target(targets: &[ReminderTarget], target: ReminderTarget) -> (found: bool)
    ensures
        found == targets@.contains(target),
{
    let mut i: usize = 0;
    while i < targets.len()
        invariant
            i <= targets.len(),
            forall|k: int| 0 <= k < i ==> targets@[k] != target,
        decreases targets.len() - i,
    {
        if targets[i] == target {
            return true;
        }
        i += 1;
    }
    false
}

/// The positions of the occurrences whose reminders a check delivers, in
/// order. `starts[i]` is when occurrence `i` starts, when that instant
/// exists in the configured time zone; `delivered` lists the targets that
/// earlier checks delivered.
pub fn due_reminders(
    occurrences: &[EventOccurrence],
    starts: &[Option<Timestamp>],
    window_start: Timestamp,
    now: Timestamp,
    delivered: &[ReminderTarget],
) -> (chosen: Vec<usize>)
    requires
        occurrences.len() == starts.len(),
        forall|i: int| 0 <= i < starts.len() ==> (#[trigger] starts@[i] matches Some(s) ==> s.wf()),
        window_start.wf(),
        now.wf(),
    ensures
        chosen@ == due_positions(
            occurrences@,
            starts@,
            window_start.instant(),
            now,
            delivered@,
            occurrences.len() as int,
        ),
{
    let mut chosen: Vec<usize> = Vec::new();
    let mut picked: Vec<ReminderTarget> = Vec::new();
    let mut i: usize = 0;
    while i < occurrences.len()
        invariant
            i <= occurrences.len(),
            occurrences.len() == starts.len(),
            forall|j: int| 0 <= j < starts.len() ==> (#[trigger] starts@[j] matches Some(s) ==> s.wf()),
            window_start.wf(),
            now.wf(),
            chosen@ == due_positions(
                occurrences@,
                starts@,
                window_start.instant(),
                now,
                delivered@,
                i as int,
            ),
            picked@.len() == chosen@.len(),
            forall|k: int|
                0 <= k < chosen@.len() ==> chosen@[k] < i && #[trigger] picked@[k] == target_of(
                    occurrences@[chosen@[k] as int],
                ),
        decreases occurrences.len() - i,
    {
        let occurrence = &occurrences[i];
        let target = ReminderTarget { occurrence_id: occurrence.id, date: occurrence.draft.date };
        let fires = match (occurrence.draft.reminder, starts[i]) {
            (Some(minutes), Some(start)) => match start.minutes_before(minutes) {
                Some(due) => window_start.is_before(&due) && !now.is_before(&due),
                None => false,
            },
            _ => false,
        };
        if fires {
            let seen = contains_target(delivered, target) || contains_target(picked.as_slice(), target);
            proof {
                let o = occurrences@[i as int];
                if picked@.contains(target) {
                    let k = choose|k: int| 0 <= k < picked@.len() && picked@[k] == target;
                    assert(target_of(occurrences@[chosen@[k] as int]) == target_of(o));
                }
                if exists|k: int|
                    0 <= k < chosen@.len() && target_of(occurrences@[#[trigger] chosen@[k] as int])
                        == target_of(o) {
                    let k = choose|k: int|
                        0 <= k < chosen@.len() && target_of(occurrences@[#[trigger] chosen@[k] as int])
                            == target_of(o);
                    assert(picked@[k] == target);
                }
            }
            if !seen {
                proof {
                    let before = chosen@;
                    let grown = before.push(i);
                    assert forall|k: int| 0 <= k < before.len() implies #[trigger] grown[k] == before[k] by {}
                }
                chosen.push(i);
                picked.push(target);
            }
        }
        i += 1;
    }
    chosen
}

} // verus!

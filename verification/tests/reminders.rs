use cadence::domain::{CategoryId, EventDraft, EventId, EventOccurrence, OccurrenceId};
use cadence::reminders::{ReminderTarget, due_reminders, reminder_window_start};
use cadence::time::{CivilDate, MIN_INSTANT_SECOND, TimeOfDay, Timestamp};

const NOW: i64 = 1_787_000_000;

fn at(second: i64) -> Timestamp {
    Timestamp { second, nanosecond: 0 }
}

fn occurrence(id: u128, reminder: Option<u16>) -> EventOccurrence {
    let day = CivilDate::from_ymd(2026, 8, 17).unwrap();
    let draft = EventDraft::new(
        "Standup",
        day,
        TimeOfDay::from_hm(9, 0),
        TimeOfDay::from_hm(9, 30),
        CategoryId::from_u128(1),
        None,
    )
    .with_reminder(reminder);
    EventOccurrence { id: OccurrenceId::Standalone(EventId::from_u128(id)), draft }
}

#[test]
fn minutes_before_subtracts_whole_minutes() {
    assert_eq!(Timestamp { second: 100, nanosecond: 5 }.minutes_before(1), Some(Timestamp { second: 40, nanosecond: 5 }));
    assert_eq!(
        Timestamp { second: 30, nanosecond: 500_000_000 }.minutes_before(1),
        Some(Timestamp { second: -29, nanosecond: -500_000_000 })
    );
    assert_eq!(at(MIN_INSTANT_SECOND + 30).minutes_before(1), None);
    assert_eq!(at(MIN_INSTANT_SECOND + 60).minutes_before(1), Some(at(MIN_INSTANT_SECOND)));
}

#[test]
fn the_reminder_window_catches_up_at_most_five_minutes() {
    assert_eq!(reminder_window_start(at(NOW - 3_600), at(NOW)), at(NOW - 300));
    assert_eq!(reminder_window_start(at(NOW - 120), at(NOW)), at(NOW - 120));
    assert_eq!(reminder_window_start(at(MIN_INSTANT_SECOND), at(MIN_INSTANT_SECOND + 10)), at(MIN_INSTANT_SECOND + 10));
}

#[test]
fn reminders_fall_due_once_inside_the_window() {
    let window = reminder_window_start(at(NOW - 3_600), at(NOW));
    let start = Some(at(NOW + 300));
    let occurrences = [
        occurrence(1, Some(6)),  // due one minute ago
        occurrence(2, Some(10)), // due exactly at the window start: already past
        occurrence(3, Some(4)),  // due in a minute
        occurrence(4, None),     // no reminder
        occurrence(5, Some(6)),  // its start does not exist in the time zone
        occurrence(1, Some(6)),  // the same target again
        occurrence(6, Some(5)),  // due right now
        occurrence(7, Some(6)),  // delivered by an earlier check
    ];
    let starts = [start, start, start, start, None, start, start, start];
    let delivered = [ReminderTarget { occurrence_id: occurrences[7].id, date: occurrences[7].draft.date }];
    assert_eq!(due_reminders(&occurrences, &starts, window, at(NOW), &delivered), vec![0, 6]);
    assert!(due_reminders(&occurrences, &starts, at(NOW), at(NOW), &delivered).is_empty());
}

use cadence::conflict::{OccurrenceConflict, find_occurrence_conflicts};
use cadence::domain::{CategoryId, EventDraft, EventId, EventOccurrence, OccurrenceId};
use cadence::time::{CivilDate, TimeOfDay};

fn occurrence(id: u128, start: (u8, u8), end: (u8, u8)) -> EventOccurrence {
    let day = CivilDate::from_ymd(2026, 8, 17).unwrap();
    EventOccurrence {
        id: OccurrenceId::Standalone(EventId::from_u128(id)),
        draft: EventDraft::new(
            "Block",
            day,
            TimeOfDay::from_hm(start.0, start.1),
            TimeOfDay::from_hm(end.0, end.1),
            CategoryId::from_u128(1),
            None,
        ),
    }
}

#[test]
fn back_to_back_occurrences_do_not_conflict() {
    let shown = [occurrence(1, (9, 0), (10, 0)), occurrence(2, (10, 0), (11, 0))];
    assert!(find_occurrence_conflicts(&shown).is_empty());
}

#[test]
fn every_overlapping_pair_is_reported_once_in_input_order() {
    let shown = [
        occurrence(1, (9, 0), (11, 0)),
        occurrence(2, (10, 0), (12, 0)),
        occurrence(3, (12, 0), (13, 0)),
        occurrence(4, (10, 30), (10, 45)),
    ];
    let pair = |a: usize, b: usize| OccurrenceConflict { first: shown[a].id, second: shown[b].id };
    assert_eq!(find_occurrence_conflicts(&shown), vec![pair(0, 1), pair(0, 3), pair(1, 3)]);
}

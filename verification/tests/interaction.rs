use cadence::domain::{CategoryId, EventDraft, CalendarError};
use cadence::interaction::{ResizeEdge, SnapMode, propose_move, propose_resize, snap_datetime, snap_nearest};
use cadence::time::{CivilDate, CivilDateTime, TimeOfDay};

fn date(y: i16, m: i8, d: i8) -> CivilDate {
    CivilDate::from_ymd(y, m, d).unwrap()
}

fn hm(h: u8, m: u8) -> TimeOfDay {
    TimeOfDay::from_hm(h, m)
}

fn draft(day: CivilDate, start: u8, end: u8) -> EventDraft {
    EventDraft::new("Focus", day, hm(start, 0), hm(end, 0), CategoryId::from_u128(1), None)
}

#[test]
fn move_snaps_preserves_duration_and_changes_day() {
    let original = draft(date(2026, 8, 21), 9, 10);
    let moved = propose_move(&original, 2, 17, 15).expect("date can move");
    assert_eq!(moved.date, date(2026, 8, 23));
    assert_eq!(moved.start_time, hm(9, 15));
    assert_eq!(moved.end_time, hm(10, 15));
}

#[test]
fn move_clamps_to_the_end_of_the_day() {
    let original = draft(date(2026, 8, 21), 22, 23);
    let moved = propose_move(&original, 0, 240, 15).expect("date can move");
    assert_eq!(moved.start_time, hm(22, 59));
    assert_eq!(moved.end_time, hm(23, 59));
}

#[test]
fn resize_enforces_a_snap_interval() {
    let original = draft(date(2026, 8, 21), 9, 10);
    let start = propose_resize(&original, ResizeEdge::Start, 9 * 60 + 52, 15);
    let end = propose_resize(&original, ResizeEdge::End, 9 * 60 + 2, 15);
    assert_eq!(start.start_time, hm(9, 45));
    assert_eq!(start.end_time, hm(10, 0));
    assert_eq!(end.start_time, hm(9, 0));
    assert_eq!(end.end_time, hm(9, 15));
}

#[test]
fn nearest_snapping_rounds_halves_up_and_stays_in_the_day() {
    assert_eq!(snap_nearest(7, 15), 0);
    assert_eq!(snap_nearest(8, 15), 15);
    assert_eq!(snap_nearest(1439, 15), 1439);
    assert_eq!(snap_nearest(-20, 15), 0);
}

#[test]
fn snapping_supports_all_modes_and_midnight_carry() {
    let at = |h: i8, m: i8, s: i8, day: i8| CivilDateTime {
        date: date(2024, 3, day),
        time: TimeOfDay::new(h, m, s, 0).unwrap(),
    };
    let before = at(10, 7, 30, 15);
    let tie = at(10, 7, 30, 15);
    let late = at(23, 59, 0, 15);

    assert_eq!(snap_datetime(before, 15, SnapMode::Down).unwrap(), at(10, 0, 0, 15));
    assert_eq!(snap_datetime(tie, 15, SnapMode::Nearest).unwrap(), at(10, 15, 0, 15));
    assert_eq!(snap_datetime(late, 15, SnapMode::Up).unwrap(), at(0, 0, 0, 16));
    assert!(matches!(
        snap_datetime(before, 0, SnapMode::Nearest),
        Err(CalendarError::InvalidSnapInterval)
    ));
}

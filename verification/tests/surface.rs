use cadence::domain::{CategoryId, DateRange, EventDraft, EventOccurrence, OccurrenceId, EventId, Event};
use cadence::time::{CivilDate, TimeOfDay, Timestamp};
use cadence::view::{
    CalendarViewMode, CategoryFilter, EventSelection, FIRST_SLOT_MINUTE, LAST_SLOT_MINUTE,
    TIME_SLOT_MINUTES, WEEK_BUFFER_DAYS, WEEK_REBASE_GUARD_DAYS, WEEK_VISIBLE_DAYS, dates_in_range,
    day_index, empty_slots, event_matches_filter, logical_week_start, rolling_week_range,
    shift_date, slot_overlaps_event, slot_starts, slot_time, visible_week_range,
    week_buffer_start, week_rebase_delta, week_visible_days_i32,
};

fn date(y: i16, m: i8, d: i8) -> CivilDate {
    CivilDate::from_ymd(y, m, d).unwrap()
}

fn occurrence(id: u128, day: CivilDate, start: (u8, u8), end: (u8, u8), category: u128) -> EventOccurrence {
    let event = Event::new(
        EventId::from_u128(id),
        EventDraft::new(
            "Block",
            day,
            TimeOfDay::from_hm(start.0, start.1),
            TimeOfDay::from_hm(end.0, end.1),
            CategoryId::from_u128(category),
            None,
        ),
        Timestamp::from_second(0),
    )
    .unwrap();
    EventOccurrence::standalone(&event)
}

#[test]
fn interactive_slots_cover_each_half_hour_between_six_and_ten_pm() {
    let starts = slot_starts();
    assert_eq!(starts.len(), 32);
    assert_eq!(starts.first(), Some(&360));
    assert_eq!(starts.last(), Some(&1290));
    assert_eq!((FIRST_SLOT_MINUTE, LAST_SLOT_MINUTE, TIME_SLOT_MINUTES), (360, 1320, 30));
}

#[test]
fn slot_overlap_uses_half_open_boundaries() {
    assert!(!slot_overlaps_event(540, 480, 540));
    assert!(!slot_overlaps_event(570, 480, 570));
    assert!(slot_overlaps_event(570, 569, 571));
    assert!(slot_overlaps_event(540, 540, 541));
}

#[test]
fn slot_time_preserves_half_hour_start() {
    assert_eq!(slot_time(390), TimeOfDay::from_hm(6, 30));
}

#[test]
fn empty_slots_skip_the_half_hours_an_event_covers() {
    let day = date(2026, 8, 17);
    let range = DateRange::day(day).unwrap();
    let events = vec![occurrence(1, day, (9, 0), (10, 15), 1)];
    let slots = empty_slots(range, &events, 1);
    assert_eq!(slots.len(), 29);
    assert!(slots.iter().all(|slot| slot.day == 0 && slot.date == day));
    assert!(!slots.iter().any(|slot| [540, 570, 600].contains(&slot.start_minute)));
    assert!(slots.iter().any(|slot| slot.start_minute == 630));
}

#[test]
fn day_positions_follow_the_range() {
    let range = DateRange::new(date(2026, 8, 16), date(2026, 8, 23)).unwrap();
    assert_eq!(day_index(range, date(2026, 8, 16)), Some(0));
    assert_eq!(day_index(range, date(2026, 8, 22)), Some(6));
    assert_eq!(day_index(range, date(2026, 8, 23)), None);
    let dates = dates_in_range(range);
    assert_eq!(dates.len(), 7);
    assert_eq!(dates[6], date(2026, 8, 22));
}

#[test]
fn category_filters_keep_only_their_category() {
    let day = date(2026, 8, 17);
    let event = occurrence(1, day, (9, 0), (10, 0), 5);
    assert!(event_matches_filter(&event, CategoryFilter::All));
    assert!(event_matches_filter(&event, CategoryFilter::Only(CategoryId::from_u128(5))));
    assert!(!event_matches_filter(&event, CategoryFilter::Only(CategoryId::from_u128(6))));
}

#[test]
fn selection_mode_records_surface_and_selected_occurrence() {
    let selection = EventSelection::Bulk {
        surface: CalendarViewMode::Week,
        selected: vec![OccurrenceId::Standalone(EventId::from_u128(1))],
    };
    assert_eq!(selection.surface(), Some(CalendarViewMode::Week));
    assert_eq!(selection.selected().map(Vec::len), Some(1));
}

#[test]
fn toggling_adds_then_removes_a_visible_occurrence() {
    let a = OccurrenceId::Standalone(EventId::from_u128(2));
    let b = OccurrenceId::Standalone(EventId::from_u128(1));
    let visible = vec![a, b];
    let mut selection = EventSelection::begin(CalendarViewMode::Day);
    assert!(selection.toggle(CalendarViewMode::Day, CalendarViewMode::Day, a, &visible));
    assert!(selection.toggle(CalendarViewMode::Day, CalendarViewMode::Day, b, &visible));
    assert_eq!(selection.selected(), Some(&vec![b, a]));
    assert!(selection.toggle(CalendarViewMode::Day, CalendarViewMode::Day, a, &visible));
    assert!(!selection.is_selected(a));
    let hidden = OccurrenceId::Standalone(EventId::from_u128(9));
    assert!(!selection.toggle(CalendarViewMode::Day, CalendarViewMode::Day, hidden, &visible));
    assert!(!selection.toggle(CalendarViewMode::Week, CalendarViewMode::Week, a, &visible));
    assert!(!EventSelection::Single.toggle(CalendarViewMode::Day, CalendarViewMode::Day, a, &visible));
    if let Some(ids) = selection.selected_mut() {
        ids.clear();
    }
    assert_eq!(selection.selected().map(Vec::len), Some(0));
}

#[test]
fn select_all_fills_then_clears_the_selection() {
    let a = OccurrenceId::Standalone(EventId::from_u128(1));
    let b = OccurrenceId::Standalone(EventId::from_u128(2));
    let mut selection = EventSelection::begin(CalendarViewMode::Week);
    selection.select_all(&[b, a, b]);
    assert_eq!(selection.selected(), Some(&vec![a, b]));
    selection.select_all(&[a, b]);
    assert_eq!(selection.selected().map(Vec::len), Some(0));
}

#[test]
fn rolling_range_keeps_a_week_of_buffer_on_each_side() {
    let visible_start = date(2026, 8, 23);
    let buffer_start = shift_date(visible_start, -(WEEK_BUFFER_DAYS as i32)).expect("date arithmetic succeeds");
    let range = rolling_week_range(buffer_start).expect("rolling range is valid");
    let dates = dates_in_range(range);

    assert_eq!(dates.len(), WEEK_VISIBLE_DAYS + WEEK_BUFFER_DAYS * 2);
    assert_eq!(dates[WEEK_BUFFER_DAYS], visible_start);
    assert_eq!(dates.last(), Some(&date(2026, 9, 5)));
    assert_eq!(week_buffer_start(visible_start), buffer_start);
}

fn column_under(scroll_left: f32, column_width: f32) -> i32 {
    (scroll_left.max(0.0) / column_width).floor() as i32
}

#[test]
fn logical_start_tracks_the_column_under_the_scroll_position() {
    let buffer_start = date(2026, 8, 16);
    assert_eq!(logical_week_start(buffer_start, column_under(0.0, 120.0)), Some(buffer_start));
    assert_eq!(
        logical_week_start(buffer_start, column_under(120.0 * 7.9, 120.0)),
        Some(date(2026, 8, 23))
    );
}

#[test]
fn rebasing_preserves_a_full_seven_day_viewport() {
    let buffer_start = date(2026, 8, 16);
    let column_count = WEEK_VISIBLE_DAYS + WEEK_BUFFER_DAYS * 2;
    let first = |scroll: f32| Some(column_under(scroll, 120.0) as usize);

    assert_eq!(
        week_rebase_delta(buffer_start, first(120.0 * (WEEK_REBASE_GUARD_DAYS - 1) as f32), column_count, true),
        Some(-week_visible_days_i32()),
    );
    assert_eq!(week_rebase_delta(buffer_start, first(120.0 * 12.0), column_count, true), Some(week_visible_days_i32()));
    assert_eq!(week_rebase_delta(buffer_start, first(0.0), column_count, false), None);
    assert_eq!(week_rebase_delta(buffer_start, first(120.0 * 7.0), column_count, true), None);
    assert_eq!(week_rebase_delta(buffer_start, None, column_count, true), None);
}

#[test]
fn the_visible_week_spans_seven_days() {
    let start = date(2026, 8, 23);
    let range = visible_week_range(start).unwrap();
    assert_eq!(range.start(), start);
    assert_eq!(range.end(), date(2026, 8, 30));
}

use cadence::domain::{CategoryId, DateRange, Event, EventDraft, EventId, EventOccurrence, OccurrenceId};
use cadence::layout::{
    LaneItem, LayoutError, assign_lanes, day_count, day_offset, layout_events, sort_lane_items,
};
use cadence::time::{CivilDate, TimeOfDay, Timestamp};

const MINUTE: u64 = 60_000_000_000;

fn date(y: i16, m: i8, d: i8) -> CivilDate {
    CivilDate::from_ymd(y, m, d).unwrap()
}

fn occurrence(id: u128, day: CivilDate, start: (u8, u8), end: (u8, u8)) -> EventOccurrence {
    let event = Event::new(
        EventId::from_u128(id),
        EventDraft::new(
            "Block",
            day,
            TimeOfDay::from_hm(start.0, start.1),
            TimeOfDay::from_hm(end.0, end.1),
            CategoryId::from_u128(1),
            None,
        ),
        Timestamp::from_second(0),
    )
    .unwrap();
    EventOccurrence::standalone(&event)
}

fn item(start: u64, occupied_end: u64, id: u128, index: usize) -> LaneItem {
    LaneItem { start, end: occupied_end, occupied_end, id: OccurrenceId::Standalone(EventId::from_u128(id)), index }
}

#[test]
fn overlapping_events_share_a_cluster_but_not_a_lane() {
    let items = vec![item(0, 60, 1, 0), item(30, 90, 2, 1), item(60, 120, 3, 2), item(200, 260, 4, 3)];
    let placements = assign_lanes(&items);
    let lanes: Vec<(usize, usize, usize)> =
        placements.iter().map(|p| (p.lane, p.lane_span, p.lane_count)).collect();
    assert_eq!(lanes, vec![(0, 1, 2), (1, 1, 2), (0, 1, 2), (0, 1, 1)]);
}

#[test]
fn events_widen_over_free_lanes_to_their_right() {
    let items = vec![item(0, 100, 1, 0), item(10, 40, 2, 1), item(20, 30, 3, 2), item(50, 80, 4, 3)];
    let placements = assign_lanes(&items);
    let lanes: Vec<(usize, usize, usize)> =
        placements.iter().map(|p| (p.lane, p.lane_span, p.lane_count)).collect();
    assert_eq!(lanes, vec![(0, 1, 3), (1, 1, 3), (2, 1, 3), (1, 2, 3)]);
}

#[test]
fn layout_order_breaks_ties_by_occupied_end_then_identity() {
    let items = vec![item(0, 60, 2, 0), item(0, 30, 9, 1), item(0, 60, 1, 2)];
    let sorted = sort_lane_items(&items);
    let order: Vec<usize> = sorted.iter().map(|i| i.index).collect();
    assert_eq!(order, vec![1, 2, 0]);
}

#[test]
fn short_events_occupy_the_minimum_and_days_are_kept_apart() {
    let monday = date(2026, 8, 17);
    let tuesday = date(2026, 8, 18);
    let range = DateRange::new(monday, date(2026, 8, 19)).unwrap();
    let events = vec![
        occurrence(1, monday, (9, 0), (9, 5)),
        occurrence(2, monday, (9, 10), (9, 20)),
        occurrence(3, tuesday, (9, 0), (10, 0)),
        occurrence(4, date(2026, 8, 25), (9, 0), (10, 0)),
    ];
    let placed = layout_events(&events, range, 15 * MINUTE).unwrap();
    assert_eq!(placed.len(), 3);
    assert_eq!(placed[0].day_offset(), 0);
    assert_eq!((placed[0].lane(), placed[0].lane_count()), (0, 2));
    assert_eq!((placed[1].lane(), placed[1].lane_count()), (1, 2));
    assert_eq!(placed[1].start_nanos(), (9 * 60 + 10) * MINUTE);
    assert_eq!(placed[1].end_nanos(), (9 * 60 + 20) * MINUTE);
    assert_eq!((placed[2].day_offset(), placed[2].lane(), placed[2].lane_span(), placed[2].lane_count()), (1, 0, 1, 1));
}

#[test]
fn invalid_metrics_and_wide_ranges_are_refused() {
    let start = date(2026, 1, 1);
    let range = DateRange::new(start, date(2027, 1, 1)).unwrap();
    assert_eq!(layout_events(&[], range, 15 * MINUTE).unwrap_err(), LayoutError::RangeTooWide);
    assert_eq!(layout_events(&[], range, 0).unwrap_err(), LayoutError::InvalidMetric);
    assert_eq!(day_count(DateRange::new(start, date(2026, 1, 8)).unwrap()), Ok(7));
    assert_eq!(day_offset(start, date(2026, 1, 3), 7), Ok(2));
    assert_eq!(day_offset(start, date(2026, 1, 9), 7), Err(LayoutError::DateArithmetic));
}

#[test]
fn reordering_the_events_keeps_the_layout() {
    let monday = date(2026, 8, 17);
    let tuesday = date(2026, 8, 18);
    let range = DateRange::new(monday, date(2026, 8, 19)).unwrap();
    let events = vec![
        occurrence(1, monday, (9, 0), (10, 0)),
        occurrence(2, monday, (9, 30), (11, 0)),
        occurrence(3, tuesday, (8, 0), (9, 0)),
        occurrence(4, monday, (10, 0), (10, 30)),
    ];
    let reordered = vec![events[3].clone(), events[2].clone(), events[0].clone(), events[1].clone()];
    let placed = layout_events(&events, range, 15 * MINUTE).unwrap();
    assert_eq!(layout_events(&reordered, range, 15 * MINUTE).unwrap(), placed);
    assert_eq!(placed.len(), 4);
}

use cadence::chrome::{ControlKind, WindowAction, window_controls};
use cadence::domain::{
    Category, CategoryColor, CategoryId, Event, EventDraft, EventId, OccurrenceId, Settings,
};
use cadence::store::{AppPreferences, PersistenceSnapshot};
use cadence::time::{CivilDate, TimeOfDay, Timestamp};
use cadence::view::{CalendarViewMode, CategoryFilter};
use cadence::workspace::build_workspace;

fn date(y: i16, m: i8, d: i8) -> CivilDate {
    CivilDate::from_ymd(y, m, d).unwrap()
}

fn event(id: u128, category: u128, day: CivilDate, start: u8, end: u8) -> Event {
    Event::new(
        EventId::from_u128(id),
        EventDraft::new(
            "Block",
            day,
            TimeOfDay::from_hm(start, 0),
            TimeOfDay::from_hm(end, 0),
            CategoryId::from_u128(category),
            None,
        ),
        Timestamp::from_second(0),
    )
    .unwrap()
}

#[test]
fn the_workspace_hides_hidden_categories_and_filters_the_surfaces() {
    let monday = date(2026, 8, 17);
    let tuesday = date(2026, 8, 18);
    let data = PersistenceSnapshot {
        settings: Settings::default_settings(),
        preferences: AppPreferences::default_preferences(),
        categories: vec![
            Category::new(CategoryId::from_u128(1), "Work", CategoryColor::Blue, true).unwrap(),
            Category::new(CategoryId::from_u128(2), "Home", CategoryColor::Lime, true).unwrap(),
            Category::new(CategoryId::from_u128(3), "Hidden", CategoryColor::Coral, false).unwrap(),
        ],
        events: vec![
            event(10, 1, monday, 9, 11),
            event(11, 2, monday, 10, 12),
            event(12, 3, monday, 9, 10),
            event(13, 1, tuesday, 9, 10),
        ],
        recurrence_series: Vec::new(),
        recurrence_exceptions: Vec::new(),
    };
    let buffer_start = date(2026, 8, 10);
    let w = build_workspace(&data, monday, buffer_start, CategoryFilter::Only(CategoryId::from_u128(1))).unwrap();
    assert_eq!(w.week.range.start(), buffer_start);
    assert_eq!(w.week.range.end(), date(2026, 8, 31));
    assert_eq!(w.week.events.len(), 2);
    assert_eq!(w.day.events.len(), 1);
    assert_eq!(w.summary_events.len(), 2);
    assert_eq!(w.surface(CalendarViewMode::Day).positions.len(), 1);
    assert_eq!(w.surface(CalendarViewMode::Week).positions.len(), 2);
    assert_eq!(
        w.conflict_ids,
        vec![OccurrenceId::Standalone(EventId::from_u128(10)), OccurrenceId::Standalone(EventId::from_u128(11))]
    );
}

#[test]
fn window_controls_follow_the_window_state() {
    let kinds = |m, r, x| window_controls(m, r, x).iter().map(|c| c.kind).collect::<Vec<_>>();
    assert_eq!(kinds(true, true, false), vec![ControlKind::Minimize, ControlKind::Maximize, ControlKind::Close]);
    assert_eq!(kinds(true, true, true), vec![ControlKind::Minimize, ControlKind::Restore, ControlKind::Close]);
    assert_eq!(kinds(false, false, false), vec![ControlKind::Close]);
    assert_eq!(ControlKind::Close.id(), "window-close");
    assert_eq!(ControlKind::Restore.label(), "Restore window");
    assert!(ControlKind::Close.is_close());
    assert_eq!(ControlKind::Maximize.action(), WindowAction::Zoom);
}

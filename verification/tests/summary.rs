use cadence::domain::{Category, CategoryColor, CategoryId, DateRange, EventDraft, EventId, EventOccurrence, OccurrenceId};
use cadence::summary::daily_summary;
use cadence::time::{CivilDate, TimeOfDay};
use cadence::view::{CalendarViewMode, CategoryFilter, range_label, reconciled_filter, reconciled_last_category};

fn date(y: i16, m: i8, d: i8) -> CivilDate {
    CivilDate::from_ymd(y, m, d).unwrap()
}

fn occurrence(id: u128, category: u128, start: (u8, u8), end: (u8, u8)) -> EventOccurrence {
    EventOccurrence {
        id: OccurrenceId::Standalone(EventId::from_u128(id)),
        draft: EventDraft::new(
            "Block",
            date(2026, 8, 17),
            TimeOfDay::from_hm(start.0, start.1),
            TimeOfDay::from_hm(end.0, end.1),
            CategoryId::from_u128(category),
            None,
        ),
    }
}

fn category(id: u128, color: CategoryColor, visible: bool) -> Category {
    Category::new(CategoryId::from_u128(id), "Category", color, visible).unwrap()
}

#[test]
fn the_day_summary_counts_overlaps_once_and_splits_minutes_by_category() {
    let categories = [category(1, CategoryColor::Lime, true), category(2, CategoryColor::Blue, true)];
    let events = [
        occurrence(10, 1, (9, 0), (10, 0)),
        occurrence(11, 2, (9, 30), (11, 0)),
        occurrence(12, 1, (13, 0), (13, 30)),
        occurrence(13, 3, (13, 15), (13, 45)),
    ];
    let summary = daily_summary(&events, &categories);
    assert_eq!(summary.blocks, 4);
    assert_eq!(summary.occupied_minutes, 120 + 45);
    let mut per_category: Vec<(u128, CategoryColor, i64)> = summary
        .category_minutes
        .iter()
        .map(|entry| (entry.category.value, entry.color, entry.minutes))
        .collect();
    per_category.sort_by_key(|entry| entry.0);
    assert_eq!(per_category, vec![(1, CategoryColor::Lime, 90), (2, CategoryColor::Blue, 90)]);
}

#[test]
fn an_empty_day_occupies_nothing() {
    let summary = daily_summary(&[], &[category(1, CategoryColor::Lime, true)]);
    assert_eq!((summary.blocks, summary.occupied_minutes), (0, 0));
    assert!(summary.category_minutes.is_empty());
}

#[test]
fn range_labels_name_the_day_or_the_week() {
    let monday = date(2026, 8, 17);
    let week = DateRange::new(date(2026, 8, 16), date(2026, 8, 23)).unwrap();
    assert_eq!(range_label(true, CalendarViewMode::Day, monday, Some(week)), "Monday, Aug 17, 2026");
    assert_eq!(range_label(true, CalendarViewMode::Week, monday, Some(week)), "Aug 16 \u{2013} Aug 22, 2026");
    assert_eq!(range_label(true, CalendarViewMode::Week, monday, None), "No calendar loaded");
    assert_eq!(range_label(false, CalendarViewMode::Day, monday, Some(week)), "No calendar loaded");
}

#[test]
fn filters_and_remembered_categories_follow_the_stored_categories() {
    let categories = [category(1, CategoryColor::Lime, true), category(2, CategoryColor::Blue, false)];
    let visible = CategoryFilter::Only(CategoryId::from_u128(1));
    assert_eq!(reconciled_filter(visible, &categories), visible);
    assert_eq!(reconciled_filter(CategoryFilter::Only(CategoryId::from_u128(2)), &categories), CategoryFilter::All);
    assert_eq!(reconciled_filter(CategoryFilter::Only(CategoryId::from_u128(3)), &categories), CategoryFilter::All);
    assert_eq!(reconciled_filter(CategoryFilter::All, &categories), CategoryFilter::All);
    assert_eq!(reconciled_last_category(Some(CategoryId::from_u128(2)), &categories), Some(CategoryId::from_u128(2)));
    assert_eq!(reconciled_last_category(Some(CategoryId::from_u128(3)), &categories), None);
    assert_eq!(reconciled_last_category(None, &categories), None);
}

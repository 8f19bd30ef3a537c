use cadence::domain::{
    Category, CategoryColor, CategoryId, DateRange, Event, EventDraft, EventId, OccurrenceId,
    RecurrenceException, RecurrenceRule, RecurrenceSeries, RecurrenceSeriesId, Settings, WeekStart,
    WeekdaySet,
};
use cadence::repository::{InMemoryRepository, RepositoryError};
use cadence::store::{AppPreferences, PersistenceSnapshot};
use cadence::time::{CivilDate, TimeOfDay, Timestamp, Weekday};

fn date(y: i16, m: i8, d: i8) -> CivilDate {
    CivilDate::from_ymd(y, m, d).unwrap()
}

fn time(h: u8, m: u8) -> TimeOfDay {
    TimeOfDay::from_hm(h, m)
}

fn category(id: u128, name: &str) -> Category {
    Category::new(CategoryId::from_u128(id), name, CategoryColor::Lime, true).unwrap()
}

fn event(id: u128, category_id: CategoryId, day: CivilDate, start: u8, end: u8) -> Event {
    Event::new(
        EventId::from_u128(id),
        EventDraft::new(&format!("Event {id}"), day, time(start, 0), time(end, 0), category_id, None),
        Timestamp::from_second(0),
    )
    .unwrap()
}

#[test]
fn day_and_week_queries_share_the_same_events() {
    let mut repository = InMemoryRepository::new(Settings::default_settings());
    let category = category(1, "Work");
    let category_id = category.id;
    repository.create_category(category).unwrap();
    repository.create_event(event(2, category_id, date(2024, 3, 4), 9, 10)).unwrap();
    repository.create_event(event(3, category_id, date(2024, 3, 5), 11, 12)).unwrap();

    let week = DateRange::week(date(2024, 3, 5), WeekStart::Monday).unwrap();
    let day = DateRange::day(date(2024, 3, 4)).unwrap();
    let week_events = repository.events(week).unwrap();
    let day_events = repository.events(day).unwrap();
    assert_eq!(week_events.len(), 2);
    assert_eq!(day_events, vec![week_events[0].clone()]);
}

#[test]
fn repository_preserves_boundaries_and_referential_integrity() {
    let mut repository = InMemoryRepository::with_defaults();
    repository.create_category(category(9, "Fallback")).unwrap();
    let category = category(10, "Reading");
    let category_id = category.id;
    repository.create_category(category.clone()).unwrap();
    let event = event(11, category_id, date(2024, 3, 4), 9, 10);
    repository.create_event(event.clone()).unwrap();

    assert!(repository.create_event(event.clone()).is_err());
    assert!(repository.delete_category(category_id).is_err());
    assert_eq!(repository.delete_event(EventId::from_u128(11)).unwrap(), event);
    assert_eq!(repository.delete_category(category_id).unwrap(), category);
}

#[test]
fn categories_require_unique_names_and_keep_one_category() {
    let mut repository = InMemoryRepository::with_defaults();
    let first = category(600, "Focus");
    let second = category(601, "Career");
    repository.create_category(first.clone()).unwrap();
    repository.create_category(second.clone()).unwrap();

    let duplicate = Category::new(CategoryId::from_u128(602), "  focus  ", CategoryColor::Blue, true).unwrap();
    assert!(matches!(
        repository.create_category(duplicate),
        Err(RepositoryError::DuplicateCategoryName)
    ));

    let mut renamed = second.clone();
    renamed.revise("FOCUS", CategoryColor::Cyan, true).unwrap();
    assert!(matches!(
        repository.update_category(renamed),
        Err(RepositoryError::DuplicateCategoryName)
    ));

    repository.delete_category(first.id).unwrap();
    assert!(matches!(repository.delete_category(second.id), Err(RepositoryError::LastCategory)));
}

#[test]
fn category_deletion_checks_modified_recurrence_exceptions() {
    let mut repository = InMemoryRepository::with_defaults();
    let source = category(610, "Source");
    let target = category(611, "Target");
    repository.create_category(source.clone()).unwrap();
    repository.create_category(target.clone()).unwrap();
    let start = date(2026, 8, 17);
    let series = RecurrenceSeries::new(
        RecurrenceSeriesId::from_u128(612),
        EventDraft::new("Series", start, time(8, 0), time(9, 0), target.id, None),
        RecurrenceRule::Daily,
        None,
        Timestamp::from_second(0),
    )
    .unwrap();
    repository.create_series(series.clone()).unwrap();
    repository
        .upsert_exception(
            RecurrenceException::modified(
                series.id,
                start,
                EventDraft::new("One-off", start, time(10, 0), time(11, 0), source.id, None),
                Timestamp::from_second(1),
            )
            .unwrap(),
        )
        .unwrap();

    assert!(matches!(repository.delete_category(source.id), Err(RepositoryError::CategoryInUse)));
}

#[test]
fn event_lifecycle_supports_edit_duplicate_delete_and_restore() {
    let mut repository = InMemoryRepository::with_defaults();
    let category = category(20, "Focus");
    let category_id = category.id;
    repository.create_category(category).unwrap();

    let event_id = EventId::from_u128(21);
    let created = event(21, category_id, date(2024, 3, 4), 9, 10);
    repository.create_event(created.clone()).unwrap();

    let mut revised = created;
    revised
        .revise(
            EventDraft::new(
                "Revised focus block",
                date(2024, 3, 5),
                time(10, 30),
                time(12, 0),
                category_id,
                Some("Updated notes".to_owned()),
            ),
            Timestamp::from_second(60),
        )
        .unwrap();
    repository.update_event(revised.clone()).unwrap();

    let stored = repository.event(event_id).unwrap().unwrap();
    assert_eq!(stored.title(), "Revised focus block");
    assert_eq!(stored.date(), date(2024, 3, 5));
    assert_eq!(stored.draft.notes.as_deref(), Some("Updated notes"));

    let duplicate = Event::new(EventId::from_u128(22), stored.draft(), Timestamp::from_second(120)).unwrap();
    assert!(matches!(
        repository.create_event(duplicate),
        Err(RepositoryError::ScheduleConflict(_))
    ));
    assert_eq!(repository.events(DateRange::day(date(2024, 3, 5)).unwrap()).unwrap().len(), 1);

    let deleted = repository.delete_event(event_id).unwrap();
    assert_eq!(deleted, revised);
    assert!(repository.event(event_id).unwrap().is_none());

    repository.create_event(deleted.clone()).unwrap();
    assert_eq!(repository.event(event_id).unwrap(), Some(deleted));
}

#[test]
fn adjacent_events_are_allowed_but_partial_overlap_is_rejected() {
    let mut repository = InMemoryRepository::with_defaults();
    let category_id = category(30, "Schedule").id;
    repository.create_category(category(30, "Schedule")).unwrap();
    let day = date(2026, 8, 17);
    repository.create_event(event(31, category_id, day, 9, 10)).unwrap();
    repository.create_event(event(32, category_id, day, 10, 11)).unwrap();
    assert!(matches!(
        repository.create_event(event(33, category_id, day, 9, 10)),
        Err(RepositoryError::ScheduleConflict(_))
    ));
    assert!(matches!(
        repository.create_event(event(34, category_id, day, 9, 11)),
        Err(RepositoryError::ScheduleConflict(_))
    ));
}

#[test]
fn recurring_series_conflicts_are_checked_beyond_the_visible_week() {
    let mut repository = InMemoryRepository::with_defaults();
    let category_id = category(40, "Recurring").id;
    repository.create_category(category(40, "Recurring")).unwrap();
    let start = date(2026, 8, 17);
    let first = RecurrenceSeries::new(
        RecurrenceSeriesId::from_u128(41),
        EventDraft::new("First", start, time(8, 0), time(9, 0), category_id, None),
        RecurrenceRule::Daily,
        None,
        Timestamp::from_second(0),
    )
    .unwrap();
    repository.create_series(first).unwrap();

    let second = RecurrenceSeries::new(
        RecurrenceSeriesId::from_u128(42),
        EventDraft::new("Second", date(2027, 1, 1), time(8, 30), time(9, 30), category_id, None),
        RecurrenceRule::Daily,
        None,
        Timestamp::from_second(0),
    )
    .unwrap();
    assert!(matches!(
        repository.create_series(second),
        Err(RepositoryError::ScheduleConflict(_))
    ));
}

#[test]
fn legacy_overlaps_load_and_only_resolving_edits_are_allowed() {
    let category = category(50, "Legacy");
    let category_id = category.id;
    let first = event(51, category_id, date(2026, 8, 17), 9, 10);
    let second = event(52, category_id, date(2026, 8, 17), 9, 10);
    let snapshot = PersistenceSnapshot {
        settings: Settings::default_settings(),
        preferences: AppPreferences::default_preferences(),
        categories: vec![category],
        events: vec![first.clone(), second],
        recurrence_series: Vec::new(),
        recurrence_exceptions: Vec::new(),
    };
    let mut repository = InMemoryRepository::from_snapshot(&snapshot).unwrap();

    let mut unchanged = first.clone();
    unchanged
        .revise(
            EventDraft::new("Renamed only", first.date(), first.start_time(), first.end_time(), category_id, None),
            Timestamp::from_second(1),
        )
        .unwrap();
    assert!(matches!(
        repository.update_event(unchanged),
        Err(RepositoryError::ScheduleConflict(_))
    ));

    let mut resolved = first;
    resolved
        .revise(
            EventDraft::new("Moved away", date(2026, 8, 17), time(10, 0), time(11, 0), category_id, None),
            Timestamp::from_second(2),
        )
        .unwrap();
    repository.update_event(resolved).unwrap();
}

#[test]
fn recurring_occurrences_are_range_bounded_and_exceptions_are_persisted_in_memory() {
    let mut repository = InMemoryRepository::with_defaults();
    let category_id = category(500, "Focus").id;
    repository.create_category(category(500, "Focus")).unwrap();
    let start = date(2026, 8, 17);
    let series = RecurrenceSeries::new(
        RecurrenceSeriesId::from_u128(500),
        EventDraft::new("Deep work", start, time(8, 0), time(9, 0), category_id, None),
        RecurrenceRule::Weekly(WeekdaySet::one(Weekday::Monday)),
        None,
        Timestamp::from_second(0),
    )
    .unwrap();
    repository.create_series(series.clone()).unwrap();

    let range = DateRange::new(start, date(2026, 9, 1)).unwrap();
    assert_eq!(repository.occurrences(range).unwrap().len(), 3);

    repository.upsert_exception(RecurrenceException::cancelled(series.id, start)).unwrap();
    assert_eq!(repository.occurrences(range).unwrap().len(), 2);
    assert!(repository
        .occurrence(OccurrenceId::Recurring { series_id: series.id, original_date: start })
        .unwrap()
        .is_none());

    let moved_date = date(2026, 8, 28);
    repository
        .upsert_exception(
            RecurrenceException::modified(
                series.id,
                date(2026, 8, 24),
                EventDraft::new("Moved deep work", moved_date, time(10, 0), time(11, 0), category_id, None),
                Timestamp::from_second(1),
            )
            .unwrap(),
        )
        .unwrap();
    let moved_id = OccurrenceId::Recurring { series_id: series.id, original_date: date(2026, 8, 24) };
    assert_eq!(repository.occurrence(moved_id).unwrap().unwrap().date(), moved_date);
}

#[test]
fn mixed_occurrence_deletion_removes_standalone_and_cancels_only_selected_series_date() {
    let mut repository = InMemoryRepository::with_defaults();
    let category_id = category(520, "Focus").id;
    repository.create_category(category(520, "Focus")).unwrap();
    let start = date(2026, 8, 17);
    let standalone = event(521, category_id, start, 10, 11);
    repository.create_event(standalone.clone()).unwrap();
    let series = RecurrenceSeries::new(
        RecurrenceSeriesId::from_u128(522),
        EventDraft::new("Deep work", start, time(8, 0), time(9, 0), category_id, None),
        RecurrenceRule::Weekly(WeekdaySet::one(Weekday::Monday)),
        None,
        Timestamp::from_second(0),
    )
    .unwrap();
    repository.create_series(series.clone()).unwrap();

    let cancelled_id = OccurrenceId::Recurring { series_id: series.id, original_date: start };
    let following_id = OccurrenceId::Recurring { series_id: series.id, original_date: date(2026, 8, 24) };
    repository.delete_event(standalone.id).unwrap();
    repository.upsert_exception(RecurrenceException::cancelled(series.id, start)).unwrap();

    assert!(repository.event(standalone.id).unwrap().is_none());
    assert!(repository.occurrence(cancelled_id).unwrap().is_none());
    assert!(repository.occurrence(following_id).unwrap().is_some());
}

#[test]
fn unknown_categories_and_missing_items_are_refused() {
    let mut repository = InMemoryRepository::with_defaults();
    let day = date(2026, 8, 17);
    assert!(matches!(
        repository.create_event(event(60, CategoryId::from_u128(99), day, 9, 10)),
        Err(RepositoryError::UnknownCategory)
    ));
    assert!(matches!(repository.delete_event(EventId::from_u128(60)), Err(RepositoryError::EventNotFound)));
    assert!(matches!(repository.update_event(event(60, CategoryId::from_u128(99), day, 9, 10)), Err(RepositoryError::EventNotFound)));
    assert!(matches!(repository.delete_category(CategoryId::from_u128(99)), Err(RepositoryError::CategoryNotFound)));
    assert!(matches!(
        repository.upsert_exception(RecurrenceException::cancelled(RecurrenceSeriesId::from_u128(7), day)),
        Err(RepositoryError::SeriesNotFound)
    ));
    assert!(matches!(repository.delete_series(RecurrenceSeriesId::from_u128(7)), Err(RepositoryError::SeriesNotFound)));
    assert!(repository.delete_exception(RecurrenceSeriesId::from_u128(7), day).unwrap().is_none());
    let focus = category(61, "Focus");
    repository.create_category(focus.clone()).unwrap();
    assert!(matches!(repository.create_category(focus), Err(RepositoryError::CategoryExists)));
}

#[test]
fn deleting_a_series_removes_its_exceptions() {
    let mut repository = InMemoryRepository::with_defaults();
    let category_id = category(70, "Focus").id;
    repository.create_category(category(70, "Focus")).unwrap();
    let start = date(2026, 8, 17);
    let series = RecurrenceSeries::new(
        RecurrenceSeriesId::from_u128(71),
        EventDraft::new("Daily", start, time(8, 0), time(9, 0), category_id, None),
        RecurrenceRule::Daily,
        None,
        Timestamp::from_second(0),
    )
    .unwrap();
    repository.create_series(series.clone()).unwrap();
    assert!(matches!(repository.create_series(series.clone()), Err(RepositoryError::SeriesExists)));
    repository.upsert_exception(RecurrenceException::cancelled(series.id, start)).unwrap();
    assert_eq!(repository.recurrence_exceptions().unwrap().len(), 1);
    assert_eq!(repository.delete_series(series.id).unwrap(), series);
    assert!(repository.recurrence_exceptions().unwrap().is_empty());
    assert!(repository.series(series.id).unwrap().is_none());
}

#[test]
fn snapshots_with_dangling_references_are_refused() {
    let orphan = event(80, CategoryId::from_u128(81), date(2026, 8, 17), 9, 10);
    let snapshot = PersistenceSnapshot {
        settings: Settings::default_settings(),
        preferences: AppPreferences::default_preferences(),
        categories: Vec::new(),
        events: vec![orphan],
        recurrence_series: Vec::new(),
        recurrence_exceptions: Vec::new(),
    };
    assert!(matches!(InMemoryRepository::from_snapshot(&snapshot), Err(RepositoryError::UnknownCategory)));
}

#[test]
fn deleting_right_after_creating_restores_the_store() {
    let mut repository = InMemoryRepository::with_defaults();
    let focus = category(90, "Focus");
    repository.create_category(focus.clone()).unwrap();
    let before = repository.snapshot().unwrap();

    let extra = category(91, "Errands");
    repository.create_category(extra.clone()).unwrap();
    assert_eq!(repository.delete_category(extra.id).unwrap(), extra);

    let created = event(92, focus.id, date(2026, 8, 17), 9, 10);
    repository.create_event(created.clone()).unwrap();
    assert_eq!(repository.delete_event(created.id).unwrap(), created);

    let series = RecurrenceSeries::new(
        RecurrenceSeriesId::from_u128(93),
        EventDraft::new("Daily", date(2026, 8, 18), time(8, 0), time(9, 0), focus.id, None),
        RecurrenceRule::Daily,
        None,
        Timestamp::from_second(0),
    )
    .unwrap();
    repository.create_series(series.clone()).unwrap();
    assert_eq!(repository.delete_series(series.id).unwrap(), series);

    assert_eq!(repository.snapshot().unwrap(), before);
}

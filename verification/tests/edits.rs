use cadence::domain::{
    Category, CategoryColor, CategoryId, DateRange, Event, EventDraft, EventId, OccurrenceId,
    RecurrenceException, RecurrenceExceptionKind, RecurrenceRule, RecurrenceSeries,
    RecurrenceSeriesId, ValidationError, WeekdaySet,
};
use cadence::editor::FormDraft;
use cadence::edits::{
    BulkDeleteError, RecurrenceScope, RecurringEditError, apply_recurring_edit,
    apply_recurring_edit_with, bulk_delete_prompt, delete_occurrences, delete_recurring,
    delete_recurring_at,
};
use cadence::repository::InMemoryRepository;
use cadence::time::{CivilDate, TimeOfDay, Timestamp, Weekday};

fn date(y: i16, m: i8, d: i8) -> CivilDate {
    CivilDate::from_ymd(y, m, d).unwrap()
}

fn time(h: u8, m: u8) -> TimeOfDay {
    TimeOfDay::from_hm(h, m)
}

const SERIES: u128 = 900;
const CATEGORY: u128 = 901;

/// A repository with one category and a weekly Monday series starting on
/// 2026-08-17.
fn weekly_repository() -> (InMemoryRepository, RecurrenceSeries) {
    let mut repository = InMemoryRepository::with_defaults();
    let category = Category::new(CategoryId::from_u128(CATEGORY), "Focus", CategoryColor::Lime, true).unwrap();
    repository.create_category(category).unwrap();
    let series = RecurrenceSeries::new(
        RecurrenceSeriesId::from_u128(SERIES),
        EventDraft::new("Deep work", date(2026, 8, 17), time(8, 0), time(9, 0), CategoryId::from_u128(CATEGORY), None),
        RecurrenceRule::Weekly(WeekdaySet::one(Weekday::Monday)),
        None,
        Timestamp::from_second(0),
    )
    .unwrap();
    repository.create_series(series.clone()).unwrap();
    (repository, series)
}

fn recurring(day: CivilDate) -> OccurrenceId {
    OccurrenceId::Recurring { series_id: RecurrenceSeriesId::from_u128(SERIES), original_date: day }
}

fn form(title: &str, day: CivilDate, recurrence: Option<RecurrenceRule>) -> FormDraft {
    FormDraft {
        title: title.to_string(),
        notes: String::new(),
        date: day,
        start_time: time(10, 0),
        end_time: time(11, 0),
        category_id: Some(CategoryId::from_u128(CATEGORY)),
        recurrence,
        ends_on: None,
        reminder: None,
    }
}

#[test]
fn bulk_deletion_removes_events_and_cancels_recurring_dates() {
    let (mut repository, _) = weekly_repository();
    let standalone = Event::new(
        EventId::from_u128(910),
        EventDraft::new("Lunch", date(2026, 8, 18), time(12, 0), time(13, 0), CategoryId::from_u128(CATEGORY), None),
        Timestamp::from_second(0),
    )
    .unwrap();
    repository.create_event(standalone).unwrap();
    let selected = [OccurrenceId::Standalone(EventId::from_u128(910)), recurring(date(2026, 8, 24))];
    delete_occurrences(&mut repository, &selected).unwrap();

    assert!(repository.event(EventId::from_u128(910)).unwrap().is_none());
    assert!(repository.occurrence(recurring(date(2026, 8, 24))).unwrap().is_none());
    assert!(repository.occurrence(recurring(date(2026, 8, 17))).unwrap().is_some());
    assert!(repository.occurrence(recurring(date(2026, 8, 31))).unwrap().is_some());
    let exceptions = repository.recurrence_exceptions().unwrap();
    assert_eq!(exceptions.len(), 1);
    assert_eq!(exceptions[0].kind, RecurrenceExceptionKind::Cancelled);
}

#[test]
fn bulk_deletion_of_an_unavailable_occurrence_changes_nothing() {
    let (mut repository, _) = weekly_repository();
    let before = repository.snapshot().unwrap();
    let selected = [recurring(date(2026, 8, 24)), OccurrenceId::Standalone(EventId::from_u128(999))];
    assert!(matches!(delete_occurrences(&mut repository, &selected), Err(BulkDeleteError::Unavailable)));
    assert_eq!(repository.snapshot().unwrap(), before);
    // A Tuesday is not an occurrence of a Monday series.
    assert!(matches!(
        delete_occurrences(&mut repository, &[recurring(date(2026, 8, 18))]),
        Err(BulkDeleteError::Unavailable)
    ));
    assert!(repository.recurrence_exceptions().unwrap().is_empty());
}

#[test]
fn bulk_delete_prompt_counts_recurring_occurrences() {
    let standalone = OccurrenceId::Standalone(EventId::from_u128(1));
    let only_standalone = bulk_delete_prompt(&[standalone, OccurrenceId::Standalone(EventId::from_u128(2))]);
    assert_eq!(only_standalone.title, "Delete 2 events?");
    assert_eq!(only_standalone.confirm, "Delete 2 events");
    assert_eq!(only_standalone.cancel, "Keep events");
    assert_eq!(only_standalone.description, "Delete 2 events? This can be undone during this session.");

    let only_recurring = bulk_delete_prompt(&[recurring(date(2026, 8, 17)), recurring(date(2026, 8, 24))]);
    assert_eq!(
        only_recurring.description,
        "Delete 2 recurring occurrences? Only the selected dates will be cancelled; the rest of each series will remain. This can be undone during this session."
    );

    let mixed = bulk_delete_prompt(&[standalone, recurring(date(2026, 8, 17)), recurring(date(2026, 8, 24))]);
    assert_eq!(mixed.title, "Delete 3 events?");
    assert_eq!(
        mixed.description,
        "Delete 3 events, including 2 recurring occurrences? Selected recurring dates will be cancelled; the rest of each series will remain. This can be undone during this session."
    );
}

#[test]
fn deleting_this_occurrence_cancels_only_its_date() {
    let (mut repository, series) = weekly_repository();
    delete_recurring_at(
        &mut repository,
        series.id,
        date(2026, 8, 24),
        RecurrenceScope::This,
        Timestamp::from_second(5),
    )
    .unwrap();
    assert!(repository.occurrence(recurring(date(2026, 8, 24))).unwrap().is_none());
    assert!(repository.occurrence(recurring(date(2026, 8, 31))).unwrap().is_some());
    assert_eq!(repository.series(series.id).unwrap(), Some(series));
}

#[test]
fn deleting_following_from_the_first_occurrence_removes_the_series() {
    let (mut repository, series) = weekly_repository();
    repository.upsert_exception(RecurrenceException::cancelled(series.id, date(2026, 8, 31))).unwrap();
    delete_recurring_at(
        &mut repository,
        series.id,
        date(2026, 8, 17),
        RecurrenceScope::Following,
        Timestamp::from_second(5),
    )
    .unwrap();
    assert!(repository.series(series.id).unwrap().is_none());
    assert!(repository.recurrence_exceptions().unwrap().is_empty());
}

#[test]
fn deleting_following_from_a_later_occurrence_ends_the_series_the_day_before() {
    let (mut repository, series) = weekly_repository();
    repository.upsert_exception(RecurrenceException::cancelled(series.id, date(2026, 8, 24))).unwrap();
    repository.upsert_exception(RecurrenceException::cancelled(series.id, date(2026, 9, 7))).unwrap();
    delete_recurring_at(
        &mut repository,
        series.id,
        date(2026, 8, 31),
        RecurrenceScope::Following,
        Timestamp::from_second(5),
    )
    .unwrap();
    let shortened = repository.series(series.id).unwrap().unwrap();
    assert_eq!(shortened.ends_on, Some(date(2026, 8, 30)));
    assert_eq!(shortened.updated_at, Timestamp::from_second(5));
    assert_eq!(shortened.created_at, series.created_at);
    let exceptions = repository.recurrence_exceptions().unwrap();
    assert_eq!(exceptions.len(), 1);
    assert_eq!(exceptions[0].original_date, date(2026, 8, 24));
    assert!(repository.occurrence(recurring(date(2026, 8, 31))).unwrap().is_none());
    assert!(repository.occurrence(recurring(date(2026, 8, 17))).unwrap().is_some());
}

#[test]
fn deleting_from_a_missing_series_is_refused() {
    let (mut repository, _) = weekly_repository();
    let before = repository.snapshot().unwrap();
    let missing = RecurrenceSeriesId::from_u128(1);
    assert!(matches!(
        delete_recurring_at(&mut repository, missing, date(2026, 8, 17), RecurrenceScope::Following, Timestamp::from_second(1)),
        Err(RecurringEditError::SeriesMissing)
    ));
    assert!(matches!(
        delete_recurring_at(&mut repository, missing, date(2026, 8, 17), RecurrenceScope::This, Timestamp::from_second(1)),
        Err(RecurringEditError::Repository(_))
    ));
    assert_eq!(repository.snapshot().unwrap(), before);
}

#[test]
fn editing_this_occurrence_stores_a_modification() {
    let (mut repository, series) = weekly_repository();
    let selected = apply_recurring_edit_with(
        &mut repository,
        series.id,
        date(2026, 8, 24),
        &form("Moved", date(2026, 8, 25), None),
        RecurrenceScope::This,
        Timestamp::from_second(9),
        RecurrenceSeriesId::from_u128(77),
    )
    .unwrap();
    assert_eq!(selected, recurring(date(2026, 8, 24)));
    let occurrence = repository.occurrence(selected).unwrap().unwrap();
    assert_eq!(occurrence.title(), "Moved");
    assert_eq!(occurrence.date(), date(2026, 8, 25));
    let exceptions = repository.recurrence_exceptions().unwrap();
    assert_eq!(exceptions.len(), 1);
    assert_eq!(exceptions[0].updated_at, Some(Timestamp::from_second(9)));
    assert_eq!(repository.series(series.id).unwrap(), Some(series));
}

#[test]
fn editing_following_from_the_first_occurrence_revises_the_series() {
    let (mut repository, series) = weekly_repository();
    let tuesdays = RecurrenceRule::Weekly(WeekdaySet::one(Weekday::Tuesday));
    repository.upsert_exception(RecurrenceException::cancelled(series.id, date(2026, 8, 24))).unwrap();
    let selected = apply_recurring_edit_with(
        &mut repository,
        series.id,
        date(2026, 8, 17),
        &form("Planning", date(2026, 8, 18), Some(tuesdays)),
        RecurrenceScope::Following,
        Timestamp::from_second(9),
        RecurrenceSeriesId::from_u128(77),
    )
    .unwrap();
    assert_eq!(selected, recurring(date(2026, 8, 18)));
    let revised = repository.series(series.id).unwrap().unwrap();
    assert_eq!(revised.rule, tuesdays);
    assert_eq!(revised.template.title, "Planning");
    assert_eq!(revised.updated_at, Timestamp::from_second(9));
    assert!(repository.series(RecurrenceSeriesId::from_u128(77)).unwrap().is_none());
    // The cancelled Monday is not a date of the revised series and is dropped.
    assert!(repository.recurrence_exceptions().unwrap().is_empty());
}

#[test]
fn editing_following_from_a_later_occurrence_splits_the_series() {
    let (mut repository, series) = weekly_repository();
    repository.upsert_exception(RecurrenceException::cancelled(series.id, date(2026, 8, 24))).unwrap();
    repository.upsert_exception(RecurrenceException::cancelled(series.id, date(2026, 9, 7))).unwrap();
    let successor = RecurrenceSeriesId::from_u128(77);
    let selected = apply_recurring_edit_with(
        &mut repository,
        series.id,
        date(2026, 8, 31),
        &form("Later work", date(2026, 8, 31), None),
        RecurrenceScope::Following,
        Timestamp::from_second(9),
        successor,
    )
    .unwrap();
    assert_eq!(selected, OccurrenceId::Recurring { series_id: successor, original_date: date(2026, 8, 31) });
    let predecessor = repository.series(series.id).unwrap().unwrap();
    assert_eq!(predecessor.ends_on, Some(date(2026, 8, 30)));
    let created = repository.series(successor).unwrap().unwrap();
    assert_eq!(created.template.title, "Later work");
    assert_eq!(created.rule, series.rule);
    assert_eq!(created.created_at, Timestamp::from_second(9));
    let exceptions = repository.recurrence_exceptions().unwrap();
    assert_eq!(exceptions.len(), 2);
    assert_eq!(exceptions[0].series_id, series.id);
    assert_eq!(exceptions[0].original_date, date(2026, 8, 24));
    assert_eq!(exceptions[1].series_id, successor);
    assert_eq!(exceptions[1].original_date, date(2026, 9, 7));
}

#[test]
fn invalid_recurring_edits_change_nothing() {
    let (mut repository, series) = weekly_repository();
    let before = repository.snapshot().unwrap();
    let mut backwards = form("Backwards", date(2026, 8, 24), None);
    backwards.end_time = time(9, 0);
    assert!(matches!(
        apply_recurring_edit_with(
            &mut repository,
            series.id,
            date(2026, 8, 24),
            &backwards,
            RecurrenceScope::This,
            Timestamp::from_second(9),
            RecurrenceSeriesId::from_u128(77),
        ),
        Err(RecurringEditError::Invalid(ValidationError::InvalidTimeRange))
    ));
    assert!(matches!(
        apply_recurring_edit_with(
            &mut repository,
            RecurrenceSeriesId::from_u128(5),
            date(2026, 8, 24),
            &form("Missing", date(2026, 8, 24), None),
            RecurrenceScope::Following,
            Timestamp::from_second(9),
            RecurrenceSeriesId::from_u128(77),
        ),
        Err(RecurringEditError::SeriesMissing)
    ));
    assert_eq!(repository.snapshot().unwrap(), before);
}

#[test]
fn clock_stamped_recurring_changes_use_the_current_time() {
    let (mut repository, series) = weekly_repository();
    let selected = apply_recurring_edit(
        &mut repository,
        series.id,
        date(2026, 8, 31),
        &form("Later work", date(2026, 8, 31), None),
        RecurrenceScope::Following,
        0,
    )
    .unwrap();
    let successor = match selected {
        OccurrenceId::Recurring { series_id, .. } => series_id,
        OccurrenceId::Standalone(_) => panic!("a split selects a recurring occurrence"),
    };
    assert_ne!(successor, series.id);
    assert_eq!(successor, RecurrenceSeriesId::from_u128(0x0000_0000_0000_4000_8000_0000_0000_0000));
    let created = repository.series(successor).unwrap().unwrap();
    assert!(created.created_at.second > 1_700_000_000);

    delete_recurring(&mut repository, series.id, date(2026, 8, 24), RecurrenceScope::Following).unwrap();
    let shortened = repository.series(series.id).unwrap().unwrap();
    assert_eq!(shortened.ends_on, Some(date(2026, 8, 23)));
    assert!(shortened.updated_at.second > 1_700_000_000);
}

#[test]
fn following_recurring_edit_keeps_predecessor_history_intact() {
    let timestamp = Timestamp::from_second(1_700_000_000);
    let start = date(2026, 8, 17);
    let split = date(2026, 8, 24);
    let mut repository = InMemoryRepository::with_defaults();
    let category = Category::new(CategoryId::from_u128(CATEGORY), "Work", CategoryColor::Blue, true).unwrap();
    repository.create_category(category).unwrap();
    let series = RecurrenceSeries::new(
        RecurrenceSeriesId::from_u128(0x100),
        EventDraft::new("Original", start, time(9, 0), time(10, 0), CategoryId::from_u128(CATEGORY), Some("before".to_owned())),
        RecurrenceRule::Daily,
        Some(date(2026, 8, 31)),
        timestamp,
    )
    .unwrap();
    let series_id = series.id;
    repository.create_series(series).unwrap();
    let predecessor_exception = RecurrenceException::cancelled(series_id, date(2026, 8, 19));
    repository.upsert_exception(predecessor_exception.clone()).unwrap();

    let draft = FormDraft {
        title: "Changed".to_owned(),
        notes: "after".to_owned(),
        date: split,
        start_time: time(11, 0),
        end_time: time(12, 0),
        category_id: Some(CategoryId::from_u128(CATEGORY)),
        recurrence: Some(RecurrenceRule::Daily),
        ends_on: Some(date(2026, 8, 31)),
        reminder: None,
    };
    let occurrence = apply_recurring_edit_with(
        &mut repository,
        series_id,
        split,
        &draft,
        RecurrenceScope::Following,
        timestamp,
        RecurrenceSeriesId::from_u128(0x200),
    )
    .unwrap();
    let successor_id = match occurrence {
        OccurrenceId::Recurring { series_id, .. } => series_id,
        OccurrenceId::Standalone(_) => panic!("following edit creates a recurring successor"),
    };

    let predecessor = repository.series(series_id).unwrap().unwrap();
    assert_eq!(predecessor.template.title, "Original");
    assert_eq!(predecessor.template.start_time, time(9, 0));
    assert_eq!(predecessor.ends_on, Some(date(2026, 8, 23)));
    assert_eq!(repository.recurrence_exceptions().unwrap(), vec![predecessor_exception]);

    let occurrences = repository.occurrences(DateRange::new(start, date(2026, 8, 27)).unwrap()).unwrap();
    assert!(occurrences.iter().any(|o| o.date() == date(2026, 8, 18) && o.title() == "Original"));
    assert!(!occurrences.iter().any(|o| o.date() == date(2026, 8, 19)));
    assert!(occurrences.iter().any(|o| o.date() == split && o.title() == "Changed"));

    let successor = repository.series(successor_id).unwrap().unwrap();
    assert_eq!(successor.template.title, "Changed");
    assert_eq!(successor.template.date, split);
    assert_eq!(successor.rule, RecurrenceRule::Daily);
}

#[test]
fn refused_changes_read_as_messages() {
    assert_eq!(RecurringEditError::SeriesMissing.message(), "That recurring series is no longer available.");
    assert_eq!(BulkDeleteError::Unavailable.message(), "One or more selected events are no longer available.");
}

use cadence::categories::{
    CategoryEditError, CategoryRemovalError, category_usage, next_category_color, remove_category_from_snapshot,
    revise_category, set_category_visibility,
};
use cadence::domain::{
    Category, CategoryColor, CategoryId, Event, EventDraft, EventId, RecurrenceException,
    RecurrenceExceptionKind, RecurrenceRule, RecurrenceSeries, RecurrenceSeriesId, Settings,
};
use cadence::repository::{InMemoryRepository, RepositoryError};
use cadence::store::{AppPreferences, AppearancePreferences, CalendarViewModePreference, PersistenceSnapshot};
use cadence::time::{CivilDate, TimeOfDay, Timestamp};

fn test_category(id: u128, name: &str, color: CategoryColor, visible: bool) -> Category {
    Category::new(CategoryId::from_u128(id), name, color, visible).expect("valid category")
}

fn test_draft(title: &str, date: CivilDate, start_hour: u8, end_hour: u8, category_id: CategoryId) -> EventDraft {
    EventDraft::new(
        title,
        date,
        TimeOfDay::from_hm(start_hour, 0),
        TimeOfDay::from_hm(end_hour, 0),
        category_id,
        None,
    )
}

fn sample(source: &Category, target: &Category) -> PersistenceSnapshot {
    let date = CivilDate::from_ymd(2026, 8, 22).unwrap();
    let timestamp = Timestamp::from_second(0);
    let event = Event::new(EventId::from_u128(3), test_draft("Standalone", date, 9, 10, source.id), timestamp)
        .expect("valid event");
    let series = RecurrenceSeries::new(
        RecurrenceSeriesId::from_u128(4),
        test_draft("Recurring", date, 11, 12, source.id),
        RecurrenceRule::Daily,
        None,
        timestamp,
    )
    .expect("valid series");
    let exception = RecurrenceException::modified(series.id, date, test_draft("Exception", date, 13, 14, source.id), timestamp)
        .expect("valid exception");
    PersistenceSnapshot {
        settings: Settings::default_settings(),
        preferences: AppPreferences {
            view_mode: CalendarViewModePreference::Week,
            category_filter: Some(source.id),
            notifications_enabled: false,
            reduce_motion: false,
            appearance: AppearancePreferences::default_preferences(),
        },
        categories: vec![source.clone(), target.clone()],
        events: vec![event],
        recurrence_series: vec![series],
        recurrence_exceptions: vec![exception],
    }
}

#[test]
fn replacement_deletion_rewrites_every_category_reference() {
    let source = test_category(1, "Source", CategoryColor::Coral, true);
    let target = test_category(2, "Target", CategoryColor::Blue, false);
    let before = sample(&source, &target);
    let timestamp = Timestamp::from_second(0);

    let after = remove_category_from_snapshot(&before, source.id, Some(target.id), timestamp)
        .expect("replacement deletion succeeds");

    assert_eq!(after.categories, vec![test_category(2, "Target", CategoryColor::Blue, true)]);
    assert_eq!(after.preferences.category_filter, None);
    assert!(after.events.iter().all(|event| event.category_id() == target.id));
    assert!(after.recurrence_series.iter().all(|series| series.template.category_id == target.id));
    assert!(after.recurrence_exceptions.iter().all(|exception| {
        matches!(&exception.kind, RecurrenceExceptionKind::Modified(draft) if draft.category_id == target.id)
    }));
    assert!(InMemoryRepository::from_snapshot(&after).is_ok());
}

#[test]
fn used_categories_need_a_different_stored_replacement() {
    let source = test_category(1, "Source", CategoryColor::Coral, true);
    let target = test_category(2, "Target", CategoryColor::Blue, true);
    let before = sample(&source, &target);
    let timestamp = Timestamp::from_second(0);
    assert_eq!(
        remove_category_from_snapshot(&before, source.id, None, timestamp).unwrap_err(),
        CategoryRemovalError::ReplacementRequired
    );
    assert_eq!(
        remove_category_from_snapshot(&before, source.id, Some(source.id), timestamp).unwrap_err(),
        CategoryRemovalError::DifferentReplacementRequired
    );
    assert_eq!(
        remove_category_from_snapshot(&before, source.id, Some(CategoryId::from_u128(9)), timestamp).unwrap_err(),
        CategoryRemovalError::ReplacementMissing
    );
    assert_eq!(
        remove_category_from_snapshot(&before, CategoryId::from_u128(9), None, timestamp).unwrap_err(),
        CategoryRemovalError::CategoryMissing
    );
    let usage = category_usage(&before, source.id);
    assert_eq!((usage.events, usage.series, usage.exceptions), (1, 1, 1));
}

#[test]
fn new_categories_take_the_least_used_colour() {
    let categories = vec![
        test_category(1, "A", CategoryColor::all()[0], true),
        test_category(2, "B", CategoryColor::all()[1], true),
    ];
    assert_eq!(next_category_color(&categories), CategoryColor::all()[2]);
}

#[test]
fn nothing_uses_a_deleted_category_and_references_still_resolve() {
    let source = test_category(1, "Source", CategoryColor::Coral, true);
    let target = test_category(2, "Target", CategoryColor::Blue, false);
    let before = sample(&source, &target);
    let after = remove_category_from_snapshot(&before, source.id, Some(target.id), Timestamp::from_second(9)).unwrap();
    let usage = category_usage(&after, source.id);
    assert_eq!((usage.events, usage.series, usage.exceptions), (0, 0, 0));
    assert!(after.categories.iter().all(|category| category.id != source.id));
    assert!(InMemoryRepository::from_snapshot(&after).is_ok());
}

#[test]
fn the_last_visible_category_cannot_be_hidden() {
    let mut repository = InMemoryRepository::with_defaults();
    let shown = test_category(1, "Focus", CategoryColor::Lime, true);
    let hidden = test_category(2, "Errands", CategoryColor::Rose, false);
    repository.create_category(shown.clone()).unwrap();
    repository.create_category(hidden.clone()).unwrap();

    assert!(matches!(set_category_visibility(&mut repository, shown.id, false), Err(CategoryEditError::LastVisible)));
    assert!(matches!(
        revise_category(&mut repository, shown.id, "Focus", CategoryColor::Lime, false),
        Err(CategoryEditError::LastVisible)
    ));
    assert!(matches!(
        set_category_visibility(&mut repository, CategoryId::from_u128(9), true),
        Err(CategoryEditError::Missing)
    ));
    assert!(matches!(
        revise_category(&mut repository, hidden.id, "  focus ", CategoryColor::Rose, true),
        Err(CategoryEditError::Repository(RepositoryError::DuplicateCategoryName))
    ));
    assert!(matches!(
        revise_category(&mut repository, hidden.id, "   ", CategoryColor::Rose, true),
        Err(CategoryEditError::Invalid(_))
    ));

    set_category_visibility(&mut repository, hidden.id, true).unwrap();
    set_category_visibility(&mut repository, shown.id, false).unwrap();
    revise_category(&mut repository, hidden.id, "Chores", CategoryColor::Cyan, true).unwrap();
    let stored = repository.category(hidden.id).unwrap().unwrap();
    assert_eq!((stored.name.as_str(), stored.color, stored.visible), ("Chores", CategoryColor::Cyan, true));
    assert!(!repository.category(shown.id).unwrap().unwrap().visible);
}

#[test]
fn category_removal_errors_read_as_messages() {
    assert_eq!(CategoryRemovalError::LastCategory.message(), "Keep at least one category.");
    assert_eq!(CategoryRemovalError::CategoryMissing.message(), "That category is no longer available.");
    assert_eq!(CategoryRemovalError::ReplacementRequired.message(), "Choose a replacement category first.");
}

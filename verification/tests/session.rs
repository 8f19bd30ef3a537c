use cadence::domain::{Category, CategoryColor, CategoryId};
use cadence::repository::InMemoryRepository;
use cadence::session::{PersistenceState, SaveSession, accepts_changes, close_allowed, restored_filter};
use cadence::view::CategoryFilter;

fn category(id: u128, name: &str) -> Category {
    Category::new(CategoryId::from_u128(id), name, CategoryColor::Teal, true).unwrap()
}

#[test]
fn a_failed_write_puts_the_data_back() {
    let mut session = SaveSession::opening();
    let mut repository = session.opened(&InMemoryRepository::with_defaults().snapshot().unwrap()).unwrap();
    assert_eq!(session.state, PersistenceState::Ready);

    let before = repository.snapshot().unwrap();
    repository.create_category(category(1, "Focus")).unwrap();
    assert!(session.begin_write(before.clone()));
    assert_eq!(session.state, PersistenceState::Writing);
    assert!(!close_allowed(session.state));
    assert!(!session.begin_write(before.clone()));

    assert!(session.finish_write(&mut repository, false));
    assert_eq!(session.state, PersistenceState::Ready);
    assert_eq!(repository.snapshot().unwrap(), before);
    assert!(close_allowed(session.state));
}

#[test]
fn a_successful_write_keeps_the_change() {
    let mut session = SaveSession::opening();
    let mut repository = session.opened(&InMemoryRepository::with_defaults().snapshot().unwrap()).unwrap();
    let before = repository.snapshot().unwrap();
    repository.create_category(category(1, "Focus")).unwrap();
    assert!(session.begin_write(before));
    assert!(!session.finish_write(&mut repository, true));
    assert_eq!(repository.categories().unwrap().len(), 1);
    assert!(accepts_changes(session.state, false));
    assert!(!accepts_changes(session.state, true));
}

#[test]
fn unreadable_data_needs_recovery_and_filters_fall_back() {
    let mut session = SaveSession::opening();
    session.open_failed();
    assert_eq!(session.state, PersistenceState::Recovery);
    assert!(!accepts_changes(session.state, false));
    session.reopen();
    assert_eq!(session.state, PersistenceState::Opening);

    let categories = [category(1, "Focus")];
    assert_eq!(restored_filter(Some(CategoryId::from_u128(1)), &categories), CategoryFilter::Only(CategoryId::from_u128(1)));
    assert_eq!(restored_filter(Some(CategoryId::from_u128(2)), &categories), CategoryFilter::All);
    assert_eq!(restored_filter(None, &categories), CategoryFilter::All);
}

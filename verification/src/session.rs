//! The save lifecycle of the open timetable: opening the stored data,
//! writing each change, and putting the data back as it was when a write
//! fails.
use vstd::prelude::*;

use crate::categories::{has_category, has_category_id};
use crate::domain::{Category, CategoryId};
use crate::repository::{InMemoryRepository, references_resolve, same_data};
use crate::store::PersistenceSnapshot;
use crate::view::CategoryFilter;

verus! {

/// Where the stored data stands.
#[derive(Clone, Copy, Debug, PartialEq, Eq, Structural, Hash)]
pub enum PersistenceState {
    /// The data is being opened.
    Opening,
    /// The data is available for normal use.
    Ready,
    /// A change is being written.
    Writing,
    /// The data could not be opened and needs the user's decision.
    Recovery,
}

/// Whether the window may close: not while a change is being written.
pub fn close_allowed(state: PersistenceState) -> (allowed: bool)
    ensures
        allowed == (state != PersistenceState::Writing),
{
    match state {
        PersistenceState::Writing => false,
        _ => true,
    }
}

/// Whether the calendar takes changes: only when the data is ready and no
/// drag or resize is under way.
pub fn accepts_changes(state: PersistenceState, manipulating: bool) -> (accepts: bool)
    ensures
        accepts == (state == PersistenceState::Ready && !manipulating),
{
    match state {
        PersistenceState::Ready => !manipulating,
        _ => false,
    }
}

/// The category filter restored when data is opened: the stored filter when
/// its category is stored, and every category otherwise.
pub fn restored_filter(stored: Option<CategoryId>, categories: &[Category]) -> (filter: CategoryFilter)
    ensures
        filter == match stored {
            Some(id) => if has_category(categories@, id) {
                CategoryFilter::Only(id)
            } else {
                CategoryFilter::All
            },
            None => CategoryFilter::All,
        },
{
    match stored {
        Some(id) => if has_category_id(categories, id) {
            CategoryFilter::Only(id)
        } else {
            CategoryFilter::All
        },
        None => CategoryFilter::All,
    }
}

/// The save lifecycle: the state, and while a change is being written the
/// data as it was before the change.
pub struct SaveSession {
    pub state: PersistenceState,
    pub rollback: Option<PersistenceSnapshot>,
}

impl SaveSession {
    /// A session that is opening the stored data.
    pub fn opening() -> (session: SaveSession)
        ensures
            session.state == PersistenceState::Opening,
            session.rollback is None,
    {
        SaveSession { state: PersistenceState::Opening, rollback: None }
    }

    /// Starts opening the stored data again, as a retry or after archiving
    /// unreadable data.
    pub fn reopen(&mut self)
        ensures
            final(self).state == PersistenceState::Opening,
            final(self).rollback is None,
    {
        self.state = PersistenceState::Opening;
        self.rollback = None;
    }

    /// Takes in the data that was read: a store of it when its references
    /// resolve, and then the session is ready; otherwise recovery is needed.
    pub fn opened(&mut self, snapshot: &PersistenceSnapshot) -> (repository: Option<InMemoryRepository>)
        ensures
            repository is Some <==> references_resolve(*snapshot),
            repository matches Some(r) ==> same_data(r.data, *snapshot),
            final(self).state == if references_resolve(*snapshot) {
                PersistenceState::Ready
            } else {
                PersistenceState::Recovery
            },
            final(self).rollback is None,
    {
        self.rollback = None;
        match InMemoryRepository::from_snapshot(snapshot) {
            Ok(repository) => {
                self.state = PersistenceState::Ready;
                Some(repository)
            },
            Err(_) => {
                self.state = PersistenceState::Recovery;
                None
            },
        }
    }

    /// The data could not be read: recovery is needed.
    pub fn open_failed(&mut self)
        ensures
            final(self).state == PersistenceState::Recovery,
            final(self).rollback is None,
    {
        self.state = PersistenceState::Recovery;
        self.rollback = None;
    }

    /// Starts writing a change, remembering the data as it was before it;
    /// refused while another change is being written.
    pub fn begin_write(&mut self, before: PersistenceSnapshot) -> (started: bool)
        ensures
            started == (old(self).state != PersistenceState::Writing),
            started ==> final(self).state == PersistenceState::Writing && final(self).rollback
                == Some(before),
            !started ==> *final(self) == *old(self),
    {
        if let PersistenceState::Writing = self.state {
            return false;
        }
        self.state = PersistenceState::Writing;
        self.rollback = Some(before);
        true
    }

    /// Ends a write. When it failed, the store goes back to the data as it
    /// was before the change, provided those references resolve; returns
    /// whether it did. Either way the session is ready again.
    pub fn finish_write(&mut self, repository: &mut InMemoryRepository, succeeded: bool) -> (rolled_back:
        bool)
        ensures
            final(self).state == PersistenceState::Ready,
            final(self).rollback is None,
            rolled_back == (!succeeded && old(self).rollback is Some && references_resolve(
                old(self).rollback->0,
            )),
            rolled_back ==> same_data(final(repository).data, old(self).rollback->0),
            !rolled_back ==> *final(repository) == *old(repository),
    {
        self.state = PersistenceState::Ready;
        let pending = self.rollback.take();
        if succeeded {
            return false;
        }
        match pending {
            Some(before) => match InMemoryRepository::from_snapshot(&before) {
                Ok(restored) => {
                    *repository = restored;
                    true
                },
                Err(_) => false,
            },
            None => false,
        }
    }
}

} // verus!

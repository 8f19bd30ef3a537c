//! Cadence: verified timetable logic.
//!
//! The crate models civil dates and times, timetable events and recurring
//! series, and proves the scheduling rules that decide where events go and
//! when they collide.
pub mod time;
pub mod domain;
pub mod recurrence;
pub mod conflict;
pub mod interaction;
pub mod store;
pub mod categories;
pub mod layout;
pub mod layout_order;
pub mod appearance;
pub mod repository;
pub mod text;
pub mod view;
pub mod chrome;
pub mod workspace;
pub mod editor;
pub mod edits;
pub mod reminders;
pub mod summary;
pub mod session;

# Cadence

Cadence is a local-first timetable for planning a day and understanding a
week. This crate holds its scheduling logic, written in Verus: every function
in `src/` carries a contract that Verus proves.

## Layout

- `src/` — the verified library:
  - `time`, `domain`: civil dates and times, events, categories, recurring
    series and their exceptions, settings, date ranges;
  - `recurrence`, `conflict`: expanding series into occurrences and finding
    overlaps;
  - `store`, `repository`, `categories`: the in-memory store, which keeps every
    reference resolved and never lets a new or revised item overlap one already
    on the calendar;
  - `edits`, `session`: bulk deletion, scoped edits and deletions of recurring
    series, and the save lifecycle that restores the data when a write fails;
  - `layout`, `layout_order`, `view`, `workspace`, `summary`: lane assignment
    for overlapping events and the proof that it does not depend on the order
    events are listed in, free slots, the rolling week, selection, the day and week surfaces
    and the day summary;
  - `interaction`, `editor`, `text`, `appearance`, `chrome`, `reminders`:
    dragging and resizing, the event form, user-facing text, theme and
    typography preferences, window controls, and due reminders.
- `tests/` — tests of the library on concrete values.
- `app/` — the `cadence` program: command-line options, the data folder, JSON
  backups, the day agenda and the reminder check.

The `jiff` and `uuid` crates are called from the library through a few
wrappers whose contracts are stated in `src/time.rs`, `src/domain.rs` and
`src/edits.rs`.

use cadence::categories::CategoryUsage;
use cadence::domain::ClockFormat;
use cadence::text::{decimal_text, join_parts, plural, reminder_body};
use cadence::time::{CivilDate, TimeOfDay};

fn date(y: i16, m: i8, d: i8) -> CivilDate {
    CivilDate::from_ymd(y, m, d).unwrap()
}

#[test]
fn reminder_body_uses_human_readable_context() {
    let today = date(2026, 8, 27);
    let start = TimeOfDay::from_hm(7, 45);
    assert_eq!(
        reminder_body("Routine", today, start, 15, today, ClockFormat::TwelveHour),
        "Routine · Today at 07:45 AM · 15 minute reminder"
    );
}

#[test]
fn reminder_body_labels_tomorrow_and_zero_minute_reminders() {
    let today = date(2026, 8, 27);
    let tomorrow = today.tomorrow().expect("valid date");
    let start = TimeOfDay::from_hm(9, 0);
    assert_eq!(
        reminder_body("Focus", tomorrow, start, 0, today, ClockFormat::TwentyFourHour),
        "Focus · Tomorrow at 09:00 · Starting now"
    );
}

#[test]
fn reminder_body_names_later_dates_and_single_minutes() {
    let today = date(2026, 8, 27);
    let later = date(2026, 8, 31);
    let start = TimeOfDay::from_hm(14, 30);
    assert_eq!(
        reminder_body("Gym", later, start, 1, today, ClockFormat::TwelveHour),
        "Gym · Mon, Aug 31 at 02:30 PM · 1 minute reminder"
    );
}

#[test]
fn counts_and_lists_read_naturally() {
    assert_eq!(decimal_text(0), "0");
    assert_eq!(decimal_text(1207), "1207");
    assert_eq!(plural(1), "");
    assert_eq!(plural(2), "s");
    let parts = |items: &[&str]| items.iter().map(|s| s.to_string()).collect::<Vec<_>>();
    assert_eq!(join_parts(&parts(&[])), "");
    assert_eq!(join_parts(&parts(&["a"])), "a");
    assert_eq!(join_parts(&parts(&["a", "b"])), "a and b");
    assert_eq!(join_parts(&parts(&["a", "b", "c"])), "a, b, and c");
}

#[test]
fn reassignment_sentence_lists_each_kind_in_use() {
    let usage = CategoryUsage { events: 1, series: 2, exceptions: 3 };
    assert_eq!(
        usage.describes_reassignment(),
        "1 standalone event, 2 recurring series, and 3 modified occurrences will move to the replacement category."
    );
    let usage = CategoryUsage { events: 2, series: 0, exceptions: 1 };
    assert_eq!(
        usage.describes_reassignment(),
        "2 standalone events and 1 modified occurrence will move to the replacement category."
    );
}

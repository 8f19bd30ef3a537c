use cadence::domain::{
    CategoryId, ClockFormat, DateRange, Event, EventDraft, EventId, Settings, SnapInterval,
    TimeZoneId, ValidationError, WeekStart, next_week, start_of_week,
};
use cadence::text::format_time;
use cadence::time::{CivilDate, TimeOfDay, Timestamp};

fn date(y: i16, m: i8, d: i8) -> CivilDate {
    CivilDate::from_ymd(y, m, d).unwrap()
}

fn time(h: u8, m: u8) -> TimeOfDay {
    TimeOfDay::from_hm(h, m)
}

#[test]
fn week_boundaries_support_sunday_and_monday_starts() {
    let wednesday = date(2024, 1, 3);
    assert_eq!(start_of_week(wednesday, WeekStart::Sunday).unwrap(), date(2023, 12, 31));
    assert_eq!(start_of_week(wednesday, WeekStart::Monday).unwrap(), date(2024, 1, 1));

    let next = next_week(wednesday, WeekStart::Monday).unwrap();
    assert_eq!(next, date(2024, 1, 8));
    assert!(DateRange::new(date(2024, 1, 1), date(2024, 1, 1)).is_err());
}

#[test]
fn leap_days_and_year_boundaries_are_preserved() {
    let range = DateRange::week(date(2024, 2, 29), WeekStart::Sunday).unwrap();
    assert_eq!(range.start(), date(2024, 2, 25));
    assert_eq!(range.end(), date(2024, 3, 3));

    let new_year = DateRange::week(date(2024, 1, 1), WeekStart::Sunday).unwrap();
    assert_eq!(new_year.start(), date(2023, 12, 31));
}

#[test]
fn time_formatting_and_offsets_are_deterministic() {
    assert_eq!(format_time(time(0, 0), ClockFormat::TwelveHour), "12:00 AM");
    assert_eq!(format_time(time(12, 0), ClockFormat::TwelveHour), "12:00 PM");
    assert_eq!(format_time(time(18, 5), ClockFormat::TwentyFourHour), "18:05");
    assert_eq!(time(6, 30).minutes_since_midnight(), 390);
}

#[test]
fn twelve_hour_clock_pads_hours_and_marks_the_afternoon() {
    assert_eq!(format_time(time(7, 45), ClockFormat::TwelveHour), "07:45 AM");
    assert_eq!(format_time(time(23, 59), ClockFormat::TwelveHour), "11:59 PM");
    assert_eq!(format_time(time(0, 5), ClockFormat::TwentyFourHour), "00:05");
}

#[test]
fn events_and_settings_reject_invalid_values_with_user_facing_errors() {
    let category_id = CategoryId::from_u128(1);
    let timestamp = Timestamp::from_second(0);
    let invalid = Event::new(
        EventId::from_u128(2),
        EventDraft::new("   ", date(2024, 3, 15), time(10, 0), time(9, 0), category_id, Some("  ".to_owned())),
        timestamp,
    )
    .unwrap_err();
    assert_eq!(invalid, ValidationError::EmptyTitle);

    assert!(TimeZoneId::new("Not/AZone").is_err());
    assert!(SnapInterval::new(0).is_err());
    assert!(Settings::new(
        WeekStart::Sunday,
        ClockFormat::TwelveHour,
        TimeZoneId::new("Etc/UTC").unwrap(),
        SnapInterval::default_interval(),
        time(22, 0),
        time(6, 0),
    )
    .is_err());
}

#[test]
fn reversed_times_are_rejected_once_the_title_is_present() {
    let invalid = Event::new(
        EventId::from_u128(3),
        EventDraft::new("Focus", date(2024, 3, 15), time(10, 0), time(9, 0), CategoryId::from_u128(1), None),
        Timestamp::from_second(0),
    )
    .unwrap_err();
    assert_eq!(invalid, ValidationError::InvalidTimeRange);
}

#[test]
fn dates_round_trip_through_epoch_days() {
    let leap = CivilDate::from_ymd(2024, 2, 29).unwrap();
    assert_eq!(leap.to_ymd(), (2024, 2, 29));
    assert_eq!(CivilDate::from_epoch_day(0).unwrap().to_ymd(), (1970, 1, 1));
    assert_eq!(CivilDate::from_ymd(1969, 12, 31).unwrap().epoch_day, -1);
    assert!(CivilDate::from_ymd(2023, 2, 29).is_none());
}

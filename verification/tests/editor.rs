use cadence::domain::{CategoryId, RecurrenceRule, WeekdaySet};
use cadence::editor::{
    FormDraft, TimeOption, WeeklyDaysSource, draft_to_domain, end_time_options_after,
    initial_weekly_days, reminder_options_for, repeat_options_for, weekly_days_after_date_change,
    weekly_repeat_label,
};
use cadence::time::{CivilDate, TimeOfDay, Weekday};

fn date(y: i16, m: i8, d: i8) -> CivilDate {
    CivilDate::from_ymd(y, m, d).unwrap()
}

fn draft(date: CivilDate, recurrence: Option<RecurrenceRule>) -> FormDraft {
    FormDraft {
        title: String::new(),
        notes: String::new(),
        date,
        start_time: TimeOfDay::from_hm(10, 0),
        end_time: TimeOfDay::from_hm(11, 45),
        category_id: None,
        recurrence,
        ends_on: None,
        reminder: None,
    }
}

#[test]
fn end_time_options_begin_at_the_next_available_slot() {
    let options = [
        TimeOption { time: TimeOfDay::from_hm(11, 0), label: "11:00 AM".into() },
        TimeOption { time: TimeOfDay::from_hm(11, 15), label: "11:15 AM".into() },
        TimeOption { time: TimeOfDay::from_hm(11, 30), label: "11:30 AM".into() },
    ];
    let end_options = end_time_options_after(&options, TimeOfDay::from_hm(11, 15));
    assert_eq!(end_options.first().map(|option| option.time), Some(TimeOfDay::from_hm(11, 30)));
}

#[test]
fn weekly_recurrence_defaults_to_the_event_date() {
    let date = date(2026, 8, 17);
    let (days, source) = initial_weekly_days(&draft(date, None));
    assert_eq!(days, WeekdaySet::one(Weekday::Monday));
    assert_eq!(source, WeeklyDaysSource::Automatic);
}

#[test]
fn existing_weekly_recurrence_keeps_its_selected_days() {
    let date = date(2026, 8, 17);
    let selected = WeekdaySet::one(Weekday::Wednesday);
    let (days, source) = initial_weekly_days(&draft(date, Some(RecurrenceRule::Weekly(selected))));
    assert_eq!(days, selected);
    assert_eq!(source, WeeklyDaysSource::Customized);
}

#[test]
fn automatic_weekly_day_follows_date_but_custom_days_do_not() {
    let monday = date(2026, 8, 17);
    let tuesday = date(2026, 8, 18);
    let custom = WeekdaySet::one(Weekday::Monday);
    assert_eq!(
        weekly_days_after_date_change(WeeklyDaysSource::Automatic, custom, tuesday),
        WeekdaySet::one(Weekday::Tuesday)
    );
    assert_eq!(weekly_days_after_date_change(WeeklyDaysSource::Customized, custom, tuesday), custom);
    assert_eq!(
        weekly_days_after_date_change(WeeklyDaysSource::Automatic, custom, monday),
        WeekdaySet::one(Weekday::Monday)
    );
}

#[test]
fn weekly_option_label_identifies_single_and_multiple_days() {
    assert_eq!(weekly_repeat_label(WeekdaySet::one(Weekday::Monday)), "Weekly on Monday");
    let selected = WeekdaySet::one(Weekday::Monday)
        .toggled(Weekday::Wednesday)
        .expect("adding Wednesday leaves Monday selected");
    assert_eq!(weekly_repeat_label(selected), "Weekly on Mon, Wed");
}

#[test]
fn refreshing_weekly_options_updates_the_rule_value_with_the_label() {
    let selected = WeekdaySet::one(Weekday::Monday);
    let updated = WeekdaySet::one(Weekday::Wednesday);
    let (options, index) = repeat_options_for(Some(RecurrenceRule::Weekly(selected)), updated);
    let option = options.get(3).expect("weekly option is present");
    assert_eq!(index, Some(3));
    assert_eq!(option.rule, Some(RecurrenceRule::Weekly(updated)));
    assert_eq!(option.label, "Weekly on Wednesday");
}

#[test]
fn toggling_the_last_weekday_off_is_refused() {
    assert_eq!(WeekdaySet::one(Weekday::Friday).toggled(Weekday::Friday), None);
}

#[test]
fn reminder_choices_are_labelled_and_found() {
    let mut form = draft(date(2026, 8, 17), None);
    form.reminder = Some(15);
    let (options, index) = reminder_options_for(&form);
    let labels = options.iter().map(|o| o.label.as_str()).collect::<Vec<_>>();
    assert_eq!(
        labels,
        vec!["No reminder", "At start", "5 minutes before", "10 minutes before", "15 minutes before", "30 minutes before", "60 minutes before"]
    );
    assert_eq!(index, Some(4));
    form.reminder = Some(7);
    assert_eq!(reminder_options_for(&form).1, None);
}

#[test]
fn committing_a_form_keeps_its_values() {
    let mut form = draft(date(2026, 8, 17), None);
    form.title = "Plan".to_owned();
    form.category_id = Some(CategoryId::from_u128(4));
    form.reminder = Some(10);
    let event = draft_to_domain(&form);
    assert_eq!(event.title, "Plan");
    assert_eq!(event.category_id, CategoryId::from_u128(4));
    assert_eq!(event.notes, Some(String::new()));
    assert_eq!(event.reminder, Some(10));
}

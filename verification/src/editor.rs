//! The event form: its values, the choices its selectors offer, and how the
//! weekly repeat days follow the date.
use vstd::prelude::*;

use crate::domain::{Category, CategoryId, EventDraft, RecurrenceRule, WeekdaySet};
use crate::text::{comma_list, decimal_chars, decimal_text};
use crate::time::{CivilDate, TimeOfDay, Weekday, weekday_from_index};

verus! {

/// Values of the event form.
#[derive(Clone, Debug)]
pub struct FormDraft {
    pub title: String,
    pub notes: String,
    pub date: CivilDate,
    pub start_time: TimeOfDay,
    pub end_time: TimeOfDay,
    pub category_id: Option<CategoryId>,
    pub recurrence: Option<RecurrenceRule>,
    pub ends_on: Option<CivilDate>,
    /// Minutes before the start at which a reminder is due.
    pub reminder: Option<u16>,
}

/// The event values of a form: its fields, its category, and its notes
/// (kept even when empty).
pub open spec fn form_event(draft: FormDraft) -> EventDraft {
    EventDraft {
        title: draft.title,
        date: draft.date,
        start_time: draft.start_time,
        end_time: draft.end_time,
        category_id: draft.category_id->0,
        notes: Some(draft.notes),
        reminder: draft.reminder,
    }
}

/// The event values of a form that names its category.
pub fn draft_to_domain(draft: &FormDraft) -> (event: EventDraft)
    requires
        draft.category_id is Some,
    ensures
        event == form_event(*draft),
{
    let category = draft.category_id.unwrap();
    EventDraft {
        title: draft.title.clone(),
        date: draft.date,
        start_time: draft.start_time,
        end_time: draft.end_time,
        category_id: category,
        notes: Some(draft.notes.clone()),
        reminder: draft.reminder,
    }
}

/// Where the weekly repeat days come from: the event date, or the user.
#[derive(Clone, Copy, Debug, PartialEq, Eq, Structural, Hash)]
pub enum WeeklyDaysSource {
    Automatic,
    Customized,
}

/// The weekly days a form starts with: those of an existing weekly rule,
/// or else the weekday of the event date.
pub fn initial_weekly_days(draft: &FormDraft) -> (result: (WeekdaySet, WeeklyDaysSource))
    requires
        draft.date.in_range(),
    ensures
        match draft.recurrence {
            Some(RecurrenceRule::Weekly(days)) => result == (days, WeeklyDaysSource::Customized),
            _ => result.1 == WeeklyDaysSource::Automatic && forall|i: int| #[trigger] result.0.has(i)
                <==> i == draft.date.spec_weekday().index(),
        },
{
    match draft.recurrence {
        Some(RecurrenceRule::Weekly(days)) => (days, WeeklyDaysSource::Customized),
        _ => (WeekdaySet::one(draft.date.weekday()), WeeklyDaysSource::Automatic),
    }
}

/// The weekly days after the date changes: automatic days follow the new
/// date's weekday, customized days stay.
pub fn weekly_days_after_date_change(
    source: WeeklyDaysSource,
    current: WeekdaySet,
    date: CivilDate,
) -> (days: WeekdaySet)
    requires
        date.in_range(),
    ensures
        source == WeeklyDaysSource::Customized ==> days == current,
        source == WeeklyDaysSource::Automatic ==> forall|i: int| #[trigger] days.has(i) <==> i
            == date.spec_weekday().index(),
{
    match source {
        WeeklyDaysSource::Automatic => WeekdaySet::one(date.weekday()),
        WeeklyDaysSource::Customized => current,
    }
}

/// The full name of a weekday.
pub open spec fn weekday_name_text(day: Weekday) -> Seq<char> {
    match day {
        Weekday::Monday => "Monday"@,
        Weekday::Tuesday => "Tuesday"@,
        Weekday::Wednesday => "Wednesday"@,
        Weekday::Thursday => "Thursday"@,
        Weekday::Friday => "Friday"@,
        Weekday::Saturday => "Saturday"@,
        Weekday::Sunday => "Sunday"@,
    }
}

/// The three-letter name of a weekday.
pub open spec fn weekday_short_text(day: Weekday) -> Seq<char> {
    match day {
        Weekday::Monday => "Mon"@,
        Weekday::Tuesday => "Tue"@,
        Weekday::Wednesday => "Wed"@,
        Weekday::Thursday => "Thu"@,
        Weekday::Friday => "Fri"@,
        Weekday::Saturday => "Sat"@,
        Weekday::Sunday => "Sun"@,
    }
}

/// Returns the full name of a weekday.
pub fn weekday_name(day: Weekday) -> (name: &'static str)
    ensures
        name@ == weekday_name_text(day),
{
    match day {
        Weekday::Monday => "Monday",
        Weekday::Tuesday => "Tuesday",
        Weekday::Wednesday => "Wednesday",
        Weekday::Thursday => "Thursday",
        Weekday::Friday => "Friday",
        Weekday::Saturday => "Saturday",
        Weekday::Sunday => "Sunday",
    }
}

/// Returns the three-letter name of a weekday.
pub fn weekday_short_name(day: Weekday) -> (name: &'static str)
    ensures
        name@ == weekday_short_text(day),
{
    match day {
        Weekday::Monday => "Mon",
        Weekday::Tuesday => "Tue",
        Weekday::Wednesday => "Wed",
        Weekday::Thursday => "Thu",
        Weekday::Friday => "Fri",
        Weekday::Saturday => "Sat",
        Weekday::Sunday => "Sun",
    }
}

/// The weekdays of a set among the first `n` of the week, Monday first.
pub open spec fn set_days(days: WeekdaySet, n: int) -> Seq<Weekday>
    decreases n,
{
    if n <= 0 {
        Seq::empty()
    } else {
        let rest = set_days(days, n - 1);
        if days.has(n - 1) {
            rest.push(weekday_from_index(n - 1))
        } else {
            rest
        }
    }
}

/// The label of the weekly repeat choice: "Weekly", "Weekly on Monday", or
/// "Weekly on Mon, Wed".
pub open spec fn weekly_label_text(days: WeekdaySet) -> Seq<char> {
    let list = set_days(days, 7);
    if list.len() == 0 {
        "Weekly"@
    } else if list.len() == 1 {
        "Weekly on "@ + weekday_name_text(list[0])
    } else {
        "Weekly on "@ + comma_list(Seq::new(list.len(), |k: int| weekday_short_text(list[k])))
    }
}

fn weekday_at(index: u8) -> (day: Weekday)
    requires
        index < 7,
    ensures
        day == weekday_from_index(index as int),
{
    Weekday::from_monday_zero_offset(index)
}

/// Returns the label of the weekly repeat choice.
pub fn weekly_repeat_label(days: WeekdaySet) -> (label: String)
    ensures
        label@ == weekly_label_text(days),
{
    let mut list: Vec<Weekday> = Vec::new();
    let mut i: u8 = 0;
    while i < 7
        invariant
            i <= 7,
            list@ == set_days(days, i as int),
        decreases 7 - i,
    {
        let day = weekday_at(i);
        if days.contains(day) {
            list.push(day);
        }
        proof {
            assert(day.index() == i) by {
                assert(weekday_from_index(i as int).index() == i as int % 7);
            }
        }
        i += 1;
    }
    let ghost shorts = Seq::new(list@.len(), |k: int| weekday_short_text(list@[k]));
    if list.len() == 0 {
        return String::from_str("Weekly");
    }
    if list.len() == 1 {
        let mut label = String::from_str("Weekly on ");
        label.append(weekday_name(list[0]));
        return label;
    }
    let mut joined = String::from_str(weekday_short_name(list[0]));
    let mut k: usize = 1;
    proof {
        assert(shorts.take(1) =~= seq![shorts[0]]);
    }
    while k < list.len()
        invariant
            1 <= k <= list@.len(),
            shorts == Seq::new(list@.len(), |m: int| weekday_short_text(list@[m])),
            joined@ == comma_list(shorts.take(k as int)),
        decreases list@.len() - k,
    {
        proof {
            assert(shorts.take(k as int + 1).drop_last() =~= shorts.take(k as int));
        }
        joined.append(", ");
        joined.append(weekday_short_name(list[k]));
        k += 1;
    }
    proof {
        assert(shorts.take(list@.len() as int) =~= shorts);
    }
    let mut label = String::from_str("Weekly on ");
    label.append(joined.as_str());
    label
}

/// One choice of the repeat selector.
#[derive(Clone, Debug)]
pub struct RepeatOption {
    pub rule: Option<RecurrenceRule>,
    pub label: String,
}

/// The repeat choices (never, daily, weekdays, weekly on `weekly_days`) and
/// the position of the rule in use.
pub fn repeat_options_for(recurrence: Option<RecurrenceRule>, weekly_days: WeekdaySet) -> (result: (
    Vec<RepeatOption>,
    Option<usize>,
))
    ensures
        result.0@.len() == 4,
        result.0@[0].rule is None && result.0@[0].label@ == "Never"@,
        result.0@[1].rule == Some(RecurrenceRule::Daily) && result.0@[1].label@ == "Daily"@,
        result.0@[2].rule == Some(RecurrenceRule::Weekdays) && result.0@[2].label@ == "Weekdays"@,
        result.0@[3].rule == Some(RecurrenceRule::Weekly(weekly_days)) && result.0@[3].label@
            == weekly_label_text(weekly_days),
        result.1 == match recurrence {
            None => None,
            Some(RecurrenceRule::Daily) => Some(1usize),
            Some(RecurrenceRule::Weekdays) => Some(2usize),
            Some(RecurrenceRule::Weekly(_)) => Some(3usize),
        },
{
    let mut options: Vec<RepeatOption> = Vec::new();
    options.push(RepeatOption { rule: None, label: String::from_str("Never") });
    options.push(RepeatOption { rule: Some(RecurrenceRule::Daily), label: String::from_str("Daily") });
    options.push(
        RepeatOption { rule: Some(RecurrenceRule::Weekdays), label: String::from_str("Weekdays") },
    );
    options.push(
        RepeatOption {
            rule: Some(RecurrenceRule::Weekly(weekly_days)),
            label: weekly_repeat_label(weekly_days),
        },
    );
    let index = match recurrence {
        None => None,
        Some(RecurrenceRule::Daily) => Some(1usize),
        Some(RecurrenceRule::Weekdays) => Some(2usize),
        Some(RecurrenceRule::Weekly(_)) => Some(3usize),
    };
    (options, index)
}

/// One choice of the reminder selector.
#[derive(Clone, Debug)]
pub struct ReminderOption {
    pub reminder: Option<u16>,
    pub label: String,
}

/// The reminder offsets offered, in order.
pub open spec fn reminder_choices() -> Seq<Option<u16>> {
    seq![None, Some(0u16), Some(5u16), Some(10u16), Some(15u16), Some(30u16), Some(60u16)]
}

/// The label of a reminder choice: "No reminder", "At start", or
/// "N minutes before".
pub open spec fn reminder_label_text(reminder: Option<u16>) -> Seq<char> {
    match reminder {
        None => "No reminder"@,
        Some(m) => if m == 0 {
            "At start"@
        } else {
            decimal_chars(m as nat) + " minutes before"@
        },
    }
}

/// The reminder choices and the position of the form's reminder among them.
pub fn reminder_options_for(draft: &FormDraft) -> (result: (Vec<ReminderOption>, Option<usize>))
    ensures
        result.0@.len() == 7,
        forall|k: int|
            0 <= k < 7 ==> (#[trigger] result.0@[k]).reminder == reminder_choices()[k]
                && result.0@[k].label@ == reminder_label_text(reminder_choices()[k]),
        result.1 is Some <==> reminder_choices().contains(draft.reminder),
        result.1 matches Some(i) ==> i < 7 && reminder_choices()[i as int] == draft.reminder
            && forall|k: int| 0 <= k < i ==> reminder_choices()[k] != draft.reminder,
{
    let choices: Vec<Option<u16>> = vec![None, Some(0), Some(5), Some(10), Some(15), Some(30), Some(60)];
    assert(choices@ =~= reminder_choices());
    let mut options: Vec<ReminderOption> = Vec::new();
    let mut i: usize = 0;
    while i < 7
        invariant
            i <= 7,
            choices@ == reminder_choices(),
            options@.len() == i,
            forall|k: int|
                0 <= k < i ==> (#[trigger] options@[k]).reminder == reminder_choices()[k]
                    && options@[k].label@ == reminder_label_text(reminder_choices()[k]),
        decreases 7 - i,
    {
        let choice = choices[i];
        let label = match choice {
            None => String::from_str("No reminder"),
            Some(m) => if m == 0 {
                String::from_str("At start")
            } else {
                let mut t = decimal_text(m as u64);
                t.append(" minutes before");
                t
            },
        };
        options.push(ReminderOption { reminder: choice, label });
        i += 1;
    }
    let mut index: Option<usize> = None;
    let mut k: usize = 0;
    while k < 7
        invariant
            k <= 7,
            choices@ == reminder_choices(),
            index is None ==> forall|m: int| 0 <= m < k ==> reminder_choices()[m] != draft.reminder,
            index matches Some(i) ==> i < k && reminder_choices()[i as int] == draft.reminder
                && forall|m: int| 0 <= m < i ==> reminder_choices()[m] != draft.reminder,
        decreases 7 - k,
    {
        if index.is_none() && choices[k] == draft.reminder {
            index = Some(k);
        }
        k += 1;
    }
    proof {
        if reminder_choices().contains(draft.reminder) {
            let m = choose|m: int| 0 <= m < 7 && reminder_choices()[m] == draft.reminder;
            assert(index is Some);
        }
    }
    (options, index)
}

/// One choice of a time selector.
#[derive(Clone, Debug)]
pub struct TimeOption {
    pub time: TimeOfDay,
    pub label: String,
}

/// The time choices that come after `start_time`, in order.
pub open spec fn times_after(options: Seq<TimeOption>, start_time: TimeOfDay) -> Seq<TimeOption>
    decreases options.len(),
{
    if options.len() == 0 {
        Seq::empty()
    } else {
        let rest = times_after(options.drop_last(), start_time);
        if options.last().time.nanos > start_time.nanos {
            rest.push(options.last())
        } else {
            rest
        }
    }
}

/// The end-time choices: the time choices after the start time.
pub fn end_time_options_after(options: &[TimeOption], start_time: TimeOfDay) -> (after: Vec<
    TimeOption,
>)
    ensures
        after@ == times_after(options@, start_time),
{
    let mut after: Vec<TimeOption> = Vec::new();
    let mut i: usize = 0;
    while i < options.len()
        invariant
            i <= options.len(),
            after@ == times_after(options@.take(i as int), start_time),
        decreases options.len() - i,
    {
        assert(options@.take(i as int + 1).drop_last() =~= options@.take(i as int));
        if options[i].time.nanos > start_time.nanos {
            after.push(TimeOption { time: options[i].time, label: options[i].label.clone() });
        }
        i += 1;
    }
    assert(options@.take(options.len() as int) =~= options@);
    after
}

/// One choice of the category selector.
#[derive(Debug)]
pub struct CategoryOption {
    pub category: Category,
    pub id: CategoryId,
}

/// The category choices, one per category in order, and the position of the
/// form's category among them.
pub fn category_options_for(categories: Vec<Category>, draft: &FormDraft) -> (result: (
    Vec<CategoryOption>,
    Option<usize>,
))
    ensures
        result.0@.len() == categories@.len(),
        forall|k: int|
            0 <= k < categories@.len() ==> (#[trigger] result.0@[k]).category == categories@[k]
                && result.0@[k].id == categories@[k].id,
        match draft.category_id {
            None => result.1 is None,
            Some(id) => match result.1 {
                Some(i) => i < categories@.len() && categories@[i as int].id == id && forall|k: int|
                    0 <= k < i ==> categories@[k].id != id,
                None => forall|k: int| 0 <= k < categories@.len() ==> categories@[k].id != id,
            },
        },
{
    let ghost original = categories@;
    let mut options: Vec<CategoryOption> = Vec::new();
    let mut index: Option<usize> = None;
    let mut i: usize = 0;
    while i < categories.len()
        invariant
            i <= categories@.len(),
            categories@ == original,
            options@.len() == i,
            forall|k: int|
                0 <= k < i ==> (#[trigger] options@[k]).category == original[k] && options@[k].id
                    == original[k].id,
            match draft.category_id {
                None => index is None,
                Some(id) => match index {
                    Some(j) => j < i && original[j as int].id == id && forall|k: int|
                        0 <= k < j ==> original[k].id != id,
                    None => forall|k: int| 0 <= k < i ==> original[k].id != id,
                },
            },
        decreases categories@.len() - i,
    {
        let category = categories[i].duplicate();
        if index.is_none() && draft.category_id == Some(category.id) {
            index = Some(i);
        }
        let id = category.id;
        options.push(CategoryOption { category, id });
        i += 1;
    }
    (options, index)
}

} // verus!

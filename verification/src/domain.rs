//! Timetable entities: events, categories, recurring series and their
//! occurrences, plus the date ranges that calendar queries use.
use vstd::prelude::*;

use crate::time::{
    CivilDate, TimeOfDay, Timestamp, Weekday, MAX_EPOCH_DAY, MIN_EPOCH_DAY, NANOS_PER_DAY,
    weekday_from_index, weekday_index_of_day,
};

verus! {

/// Identifier of a standalone event.
#[derive(Clone, Copy, Debug, PartialEq, Eq, Structural, Hash, PartialOrd, Ord)]
pub struct EventId {
    pub value: u128,
}

/// Identifier of a category.
#[derive(Clone, Copy, Debug, PartialEq, Eq, Structural, Hash, PartialOrd, Ord)]
pub struct CategoryId {
    pub value: u128,
}

/// Identifier of a recurring series.
#[derive(Clone, Copy, Debug, PartialEq, Eq, Structural, Hash, PartialOrd, Ord)]
pub struct RecurrenceSeriesId {
    pub value: u128,
}

impl EventId {
    /// The identifier with the given 128-bit value.
    pub fn from_u128(value: u128) -> (id: EventId)
        ensures
            id.value == value,
    {
        EventId { value }
    }
}

impl CategoryId {
    /// The identifier with the given 128-bit value.
    pub fn from_u128(value: u128) -> (id: CategoryId)
        ensures
            id.value == value,
    {
        CategoryId { value }
    }
}

impl RecurrenceSeriesId {
    /// The identifier with the given 128-bit value.
    pub fn from_u128(value: u128) -> (id: RecurrenceSeriesId)
        ensures
            id.value == value,
    {
        RecurrenceSeriesId { value }
    }
}

/// Identity of one rendered occurrence: a standalone event, or the occurrence
/// of a recurring series on its original date.
#[derive(Clone, Copy, Debug, PartialEq, Eq, Structural, Hash, PartialOrd, Ord)]
pub enum OccurrenceId {
    Standalone(EventId),
    Recurring { series_id: RecurrenceSeriesId, original_date: CivilDate },
}

/// Why an entity was rejected.
#[derive(Clone, Copy, Debug, PartialEq, Eq, Structural)]
pub enum ValidationError {
    /// The title is empty or only whitespace.
    EmptyTitle,
    /// The end time does not come after the start time.
    InvalidTimeRange,
    /// The category name is empty or only whitespace.
    EmptyCategoryName,
    /// A weekly rule selects no weekday.
    EmptyWeekdays,
    /// A series ends before it starts.
    InvalidRecurrenceEnd,
    /// A snapping interval is outside one to sixty minutes.
    InvalidSnapInterval,
    /// The visible day starts at or after its end.
    InvalidDayBounds,
}

/// Whether `c` has the Unicode `White_Space` property, the whitespace that
/// `str::trim` removes.
pub open spec fn is_white_space(c: char) -> bool {
    let v = c as u32;
    ||| 0x09 <= v <= 0x0d
    ||| v == 0x20
    ||| v == 0x85
    ||| v == 0xa0
    ||| v == 0x1680
    ||| 0x2000 <= v <= 0x200a
    ||| v == 0x2028
    ||| v == 0x2029
    ||| v == 0x202f
    ||| v == 0x205f
    ||| v == 0x3000
}

/// How many whitespace characters open `text`.
pub open spec fn leading_white_space(text: Seq<char>) -> nat
    decreases text.len(),
{
    if text.len() > 0 && is_white_space(text[0]) {
        1 + leading_white_space(text.drop_first())
    } else {
        0
    }
}

/// How many whitespace characters close `text`.
pub open spec fn trailing_white_space(text: Seq<char>) -> nat
    decreases text.len(),
{
    if text.len() > 0 && is_white_space(text.last()) {
        1 + trailing_white_space(text.drop_last())
    } else {
        0
    }
}

/// The text without its leading and trailing whitespace.
pub open spec fn trimmed_text(text: Seq<char>) -> Seq<char> {
    let lead = leading_white_space(text);
    if lead >= text.len() {
        Seq::empty()
    } else {
        text.subrange(lead as int, text.len() - trailing_white_space(text))
    }
}

/// Calls `str::trim`, which removes leading and trailing characters with
/// the Unicode `White_Space` property; the contract states that result.
#[verifier::external_body]
pub(crate) fn trim_text(text: &str) -> (trimmed: &str)
    ensures
        trimmed@ == trimmed_text(text@),
{
    text.trim()
}

/// Whether a text is empty once leading and trailing whitespace is removed.
pub open spec fn blank_text(text: Seq<char>) -> bool {
    trimmed_text(text).len() == 0
}

/// Returns whether `text` holds nothing but whitespace.
pub fn is_blank(text: &str) -> (blank: bool)
    ensures
        blank == blank_text(text@),
{
    trim_text(text).is_empty()
}

/// Proposed values of a standalone event or of one occurrence.
#[derive(Debug, Clone, PartialEq, Eq)]
pub struct EventDraft {
    pub title: String,
    pub date: CivilDate,
    pub start_time: TimeOfDay,
    pub end_time: TimeOfDay,
    pub category_id: CategoryId,
    pub notes: Option<String>,
    /// Minutes before the start at which a reminder is due.
    pub reminder: Option<u16>,
}

/// Copies an optional string.
pub fn duplicate_text(text: &Option<String>) -> (copy: Option<String>)
    ensures
        copy == *text,
{
    match text {
        Some(t) => Some(t.clone()),
        None => None,
    }
}

impl EventDraft {
    /// A draft without a reminder.
    pub fn new(
        title: &str,
        date: CivilDate,
        start_time: TimeOfDay,
        end_time: TimeOfDay,
        category_id: CategoryId,
        notes: Option<String>,
    ) -> (draft: EventDraft)
        ensures
            draft.title@ == title@,
            draft.date == date,
            draft.start_time == start_time,
            draft.end_time == end_time,
            draft.category_id == category_id,
            draft.notes == notes,
            draft.reminder is None,
    {
        EventDraft {
            title: title.to_owned(),
            date,
            start_time,
            end_time,
            category_id,
            notes,
            reminder: None,
        }
    }

    /// The same draft with the given reminder.
    pub fn with_reminder(self, reminder: Option<u16>) -> (draft: EventDraft)
        ensures
            draft == (EventDraft { reminder, ..self }),
    {
        EventDraft { reminder, ..self }
    }

    /// An identical copy of the draft.
    pub fn duplicate(&self) -> (copy: EventDraft)
        ensures
            copy == *self,
    {
        EventDraft {
            title: self.title.clone(),
            date: self.date,
            start_time: self.start_time,
            end_time: self.end_time,
            category_id: self.category_id,
            notes: duplicate_text(&self.notes),
            reminder: self.reminder,
        }
    }

    /// A draft is valid when its title is not blank and its end time comes
    /// after its start time within one day.
    pub open spec fn is_valid(self) -> bool {
        !blank_text(self.title@) && self.start_time.nanos < self.end_time.nanos
            && self.end_time.nanos < NANOS_PER_DAY
    }

    /// The first validation failure of the draft.
    pub open spec fn spec_validation_error(self) -> ValidationError {
        if blank_text(self.title@) {
            ValidationError::EmptyTitle
        } else {
            ValidationError::InvalidTimeRange
        }
    }

    /// Checks the draft, reporting a blank title before a bad time range.
    pub fn validate(&self) -> (result: Result<(), ValidationError>)
        ensures
            result is Ok <==> self.is_valid(),
            result matches Err(e) ==> e == self.spec_validation_error(),
    {
        if is_blank(self.title.as_str()) {
            return Err(ValidationError::EmptyTitle);
        }
        if self.start_time.nanos < self.end_time.nanos && self.end_time.nanos < NANOS_PER_DAY {
            Ok(())
        } else {
            Err(ValidationError::InvalidTimeRange)
        }
    }
}

/// A stored standalone event.
#[derive(Debug, Clone, PartialEq, Eq)]
pub struct Event {
    pub id: EventId,
    pub draft: EventDraft,
    pub created_at: Timestamp,
    pub updated_at: Timestamp,
}

impl Event {
    /// Creates an event from a valid draft.
    pub fn new(id: EventId, draft: EventDraft, timestamp: Timestamp) -> (result: Result<
        Event,
        ValidationError,
    >)
        ensures
            result is Ok <==> draft.is_valid(),
            result matches Ok(e) ==> e.id == id && e.draft == draft && e.created_at == timestamp
                && e.updated_at == timestamp,
            result matches Err(err) ==> err == draft.spec_validation_error(),
    {
        match draft.validate() {
            Ok(()) => Ok(Event { id, draft, created_at: timestamp, updated_at: timestamp }),
            Err(e) => Err(e),
        }
    }

    /// Replaces the event's values with a valid draft.
    pub fn revise(&mut self, draft: EventDraft, timestamp: Timestamp) -> (result: Result<
        (),
        ValidationError,
    >)
        ensures
            result is Ok <==> draft.is_valid(),
            result is Ok ==> *final(self) == (Event {
                draft,
                updated_at: timestamp,
                ..*old(self)
            }),
            result is Err ==> *final(self) == *old(self),
            result matches Err(err) ==> err == draft.spec_validation_error(),
    {
        match draft.validate() {
            Ok(()) => {
                self.draft = draft;
                self.updated_at = timestamp;
                Ok(())
            },
            Err(e) => Err(e),
        }
    }

    /// An identical copy of the event.
    pub fn duplicate(&self) -> (copy: Event)
        ensures
            copy == *self,
    {
        Event {
            id: self.id,
            draft: self.draft.duplicate(),
            created_at: self.created_at,
            updated_at: self.updated_at,
        }
    }

    pub fn id(&self) -> (id: EventId)
        ensures
            id == self.id,
    {
        self.id
    }

    pub fn date(&self) -> (date: CivilDate)
        ensures
            date == self.draft.date,
    {
        self.draft.date
    }

    pub fn start_time(&self) -> (time: TimeOfDay)
        ensures
            time == self.draft.start_time,
    {
        self.draft.start_time
    }

    pub fn end_time(&self) -> (time: TimeOfDay)
        ensures
            time == self.draft.end_time,
    {
        self.draft.end_time
    }

    pub fn category_id(&self) -> (id: CategoryId)
        ensures
            id == self.draft.category_id,
    {
        self.draft.category_id
    }

    pub fn title(&self) -> (title: &str)
        ensures
            title@ == self.draft.title@,
    {
        self.draft.title.as_str()
    }

    /// A copy of the event's values.
    pub fn draft(&self) -> (draft: EventDraft)
        ensures
            draft == self.draft,
    {
        self.draft.duplicate()
    }
}

/// Colour tokens that categories use.
#[derive(Clone, Copy, Debug, PartialEq, Eq, Structural, Hash)]
pub enum CategoryColor {
    Lime,
    Yellow,
    Coral,
    Violet,
    Cyan,
    Blue,
    Orange,
    Rose,
    Magenta,
    Indigo,
    Teal,
    Slate,
}

/// Every colour token, in palette order.
pub open spec fn all_category_colors() -> Seq<CategoryColor> {
    seq![
        CategoryColor::Lime,
        CategoryColor::Yellow,
        CategoryColor::Coral,
        CategoryColor::Violet,
        CategoryColor::Cyan,
        CategoryColor::Blue,
        CategoryColor::Orange,
        CategoryColor::Rose,
        CategoryColor::Magenta,
        CategoryColor::Indigo,
        CategoryColor::Teal,
        CategoryColor::Slate,
    ]
}

impl CategoryColor {
    /// Every colour token, in palette order.
    pub fn all() -> (colors: Vec<CategoryColor>)
        ensures
            colors@ == all_category_colors(),
    {
        let v = vec![
            CategoryColor::Lime,
            CategoryColor::Yellow,
            CategoryColor::Coral,
            CategoryColor::Violet,
            CategoryColor::Cyan,
            CategoryColor::Blue,
            CategoryColor::Orange,
            CategoryColor::Rose,
            CategoryColor::Magenta,
            CategoryColor::Indigo,
            CategoryColor::Teal,
            CategoryColor::Slate,
        ];
        assert(v@ =~= all_category_colors());
        v
    }
}

/// A named, coloured group of events.
#[derive(Debug, Clone, PartialEq, Eq)]
pub struct Category {
    pub id: CategoryId,
    pub name: String,
    pub color: CategoryColor,
    pub visible: bool,
}

impl Category {
    /// Creates a category with a non-blank name.
    pub fn new(id: CategoryId, name: &str, color: CategoryColor, visible: bool) -> (result: Result<
        Category,
        ValidationError,
    >)
        ensures
            result is Ok <==> !blank_text(name@),
            result matches Ok(c) ==> c.id == id && c.name@ == name@ && c.color == color
                && c.visible == visible,
            result matches Err(e) ==> e == ValidationError::EmptyCategoryName,
    {
        if is_blank(name) {
            Err(ValidationError::EmptyCategoryName)
        } else {
            Ok(Category { id, name: name.to_owned(), color, visible })
        }
    }

    /// Replaces the name, colour and visibility; the name must not be blank.
    pub fn revise(&mut self, name: &str, color: CategoryColor, visible: bool) -> (result: Result<
        (),
        ValidationError,
    >)
        ensures
            result is Ok <==> !blank_text(name@),
            result is Ok ==> final(self).id == old(self).id && final(self).name@ == name@
                && final(self).color == color && final(self).visible == visible,
            result is Err ==> *final(self) == *old(self),
            result matches Err(e) ==> e == ValidationError::EmptyCategoryName,
    {
        if is_blank(name) {
            Err(ValidationError::EmptyCategoryName)
        } else {
            self.name = name.to_owned();
            self.color = color;
            self.visible = visible;
            Ok(())
        }
    }

    /// Shows or hides the category's events.
    pub fn set_visible(&mut self, visible: bool)
        ensures
            *final(self) == (Category { visible, ..*old(self) }),
    {
        self.visible = visible;
    }

    /// An identical copy of the category.
    pub fn duplicate(&self) -> (copy: Category)
        ensures
            copy == *self,
    {
        Category { id: self.id, name: self.name.clone(), color: self.color, visible: self.visible }
    }
}

/// Whether bit `i` of `mask` is set.
pub open spec fn has_bit(mask: u8, i: u8) -> bool {
    mask & (1u8 << i) != 0
}

/// A set of weekdays stored as seven bits, Monday first.
#[derive(Clone, Copy, Debug, PartialEq, Eq, Structural, Hash)]
pub struct WeekdaySet {
    pub bits: u8,
}

impl WeekdaySet {
    /// Whether the set holds the weekday with Monday-based index `i`.
    pub open spec fn has(self, i: int) -> bool {
        0 <= i < 7 && has_bit(self.bits, i as u8)
    }

    /// The set holding only `day`.
    pub fn one(day: Weekday) -> (set: WeekdaySet)
        ensures
            forall|i: int| #[trigger] set.has(i) <==> i == day.index(),
            set.bits < 128,
    {
        let i = day.to_monday_zero_offset();
        let bits: u8 = 1u8 << i;
        proof {
            assert forall|j: int| #[trigger] (WeekdaySet { bits }).has(j) <==> j == day.index() by {
                if 0 <= j < 7 {
                    let jj = j as u8;
                    assert(((1u8 << i) & (1u8 << jj) != 0) <==> i == jj) by (bit_vector)
                        requires
                            i < 7,
                            jj < 7,
                    ;
                }
            }
            assert((1u8 << i) < 128) by (bit_vector)
                requires
                    i < 7,
            ;
        }
        WeekdaySet { bits }
    }

    /// The set with `day` added.
    pub fn with(self, day: Weekday) -> (set: WeekdaySet)
        ensures
            forall|i: int| #[trigger] set.has(i) <==> (self.has(i) || i == day.index()),
    {
        let i = day.to_monday_zero_offset();
        let bits: u8 = self.bits | (1u8 << i);
        proof {
            let b = self.bits;
            assert forall|j: int| #[trigger] (WeekdaySet { bits }).has(j) <==> (self.has(j) || j
                == day.index()) by {
                if 0 <= j < 7 {
                    let jj = j as u8;
                    assert(((b | (1u8 << i)) & (1u8 << jj) != 0) <==> ((b & (1u8 << jj) != 0)
                        || i == jj)) by (bit_vector)
                        requires
                            i < 7,
                            jj < 7,
                    ;
                }
            }
        }
        WeekdaySet { bits }
    }

    /// The set with `day` flipped, or `None` when that leaves it empty.
    pub fn toggled(self, day: Weekday) -> (set: Option<WeekdaySet>)
        ensures
            set is None <==> forall|i: int| 0 <= i < 7 ==> #[trigger] self.has(i) == (i == day.index()),
            set matches Some(t) ==> forall|i: int| #[trigger] t.has(i) <==> (0 <= i < 7 && (self.has(i)
                != (i == day.index()))),
    {
        let i = day.to_monday_zero_offset();
        let bits: u8 = (self.bits ^ (1u8 << i)) & 0x7f;
        proof {
            let b = self.bits;
            assert forall|j: int| #[trigger] (WeekdaySet { bits }).has(j) <==> (0 <= j < 7 && (
            self.has(j) != (j == day.index()))) by {
                if 0 <= j < 7 {
                    let jj = j as u8;
                    assert(((((b ^ (1u8 << i)) & 0x7f) & (1u8 << jj)) != 0) <==> ((b & (1u8 << jj)
                        != 0) != (i == jj))) by (bit_vector)
                        requires
                            i < 7,
                            jj < 7,
                    ;
                }
            }
        }
        let t = WeekdaySet { bits };
        proof {
            if t.spec_is_empty() {
                assert forall|j: int| 0 <= j < 7 implies #[trigger] self.has(j) == (j == day.index()) by {
                    assert(!t.has(j));
                }
            } else {
                let j = choose|j: int| 0 <= j < 7 && t.has(j);
                assert(self.has(j) != (j == day.index()));
            }
        }
        if t.is_empty() {
            None
        } else {
            Some(t)
        }
    }

    /// Whether the set holds `day`.
    pub fn contains(self, day: Weekday) -> (present: bool)
        ensures
            present == self.has(day.index()),
    {
        let i = day.to_monday_zero_offset();
        self.bits & (1u8 << i) != 0
    }

    /// Whether the set holds no weekday.
    pub open spec fn spec_is_empty(self) -> bool {
        forall|i: int| 0 <= i < 7 ==> !self.has(i)
    }

    /// Returns whether the set holds no weekday.
    pub fn is_empty(self) -> (empty: bool)
        ensures
            empty == self.spec_is_empty(),
    {
        let b = self.bits;
        let empty = b & 0x7f == 0;
        proof {
            if empty {
                assert forall|i: int| 0 <= i < 7 implies !self.has(i) by {
                    let ii = i as u8;
                    assert(b & 0x7f == 0 ==> b & (1u8 << ii) == 0) by (bit_vector)
                        requires
                            ii < 7,
                    ;
                }
            } else {
                assert(b & 0x7f != 0 ==> (b & (1u8 << 0u8) != 0 || b & (1u8 << 1u8) != 0 || b & (1u8
                    << 2u8) != 0 || b & (1u8 << 3u8) != 0 || b & (1u8 << 4u8) != 0 || b & (1u8
                    << 5u8) != 0 || b & (1u8 << 6u8) != 0)) by (bit_vector);
                assert(!self.has(0) ==> !has_bit(b, 0u8));
                assert(!self.has(1) ==> !has_bit(b, 1u8));
                assert(!self.has(2) ==> !has_bit(b, 2u8));
                assert(!self.has(3) ==> !has_bit(b, 3u8));
                assert(!self.has(4) ==> !has_bit(b, 4u8));
                assert(!self.has(5) ==> !has_bit(b, 5u8));
                assert(!self.has(6) ==> !has_bit(b, 6u8));
            }
        }
        empty
    }
}

/// Which dates a recurring series repeats on.
#[derive(Clone, Copy, Debug, PartialEq, Eq, Structural, Hash)]
pub enum RecurrenceRule {
    /// Every day.
    Daily,
    /// Monday to Friday.
    Weekdays,
    /// The selected weekdays.
    Weekly(WeekdaySet),
}

impl RecurrenceRule {
    /// Whether the rule repeats on the weekday with Monday-based index `i`.
    pub open spec fn matches_index(self, i: int) -> bool {
        0 <= i < 7 && match self {
            RecurrenceRule::Daily => true,
            RecurrenceRule::Weekdays => i < 5,
            RecurrenceRule::Weekly(set) => set.has(i),
        }
    }

    /// Returns whether the rule repeats on `day`.
    pub fn matches(self, day: Weekday) -> (matches: bool)
        ensures
            matches == self.matches_index(day.index()),
    {
        match self {
            RecurrenceRule::Daily => true,
            RecurrenceRule::Weekdays => day.to_monday_zero_offset() < 5,
            RecurrenceRule::Weekly(set) => set.contains(day),
        }
    }
}

/// A recurring series: a template event repeated by a rule from the
/// template's date, up to an optional inclusive end date.
#[derive(Debug, Clone, PartialEq, Eq)]
pub struct RecurrenceSeries {
    pub id: RecurrenceSeriesId,
    pub template: EventDraft,
    pub rule: RecurrenceRule,
    pub ends_on: Option<CivilDate>,
    pub created_at: Timestamp,
    pub updated_at: Timestamp,
}

/// Whether a rule, template and end date describe a valid series.
pub open spec fn series_values_valid(
    template: EventDraft,
    rule: RecurrenceRule,
    ends_on: Option<CivilDate>,
) -> bool {
    &&& template.is_valid()
    &&& !(rule matches RecurrenceRule::Weekly(set) && set.spec_is_empty())
    &&& !(ends_on matches Some(end) && end.day() < template.date.day())
}

/// The first validation failure of a series' values.
pub open spec fn series_validation_error(
    template: EventDraft,
    rule: RecurrenceRule,
    ends_on: Option<CivilDate>,
) -> ValidationError {
    if !template.is_valid() {
        template.spec_validation_error()
    } else if rule matches RecurrenceRule::Weekly(set) && set.spec_is_empty() {
        ValidationError::EmptyWeekdays
    } else {
        ValidationError::InvalidRecurrenceEnd
    }
}

fn validate_series_values(
    template: &EventDraft,
    rule: RecurrenceRule,
    ends_on: Option<CivilDate>,
) -> (result: Result<(), ValidationError>)
    ensures
        result is Ok <==> series_values_valid(*template, rule, ends_on),
        result matches Err(e) ==> e == series_validation_error(*template, rule, ends_on),
{
    template.validate()?;
    if let RecurrenceRule::Weekly(set) = rule {
        if set.is_empty() {
            return Err(ValidationError::EmptyWeekdays);
        }
    }
    if let Some(end) = ends_on {
        if end.epoch_day < template.date.epoch_day {
            return Err(ValidationError::InvalidRecurrenceEnd);
        }
    }
    Ok(())
}

impl RecurrenceSeries {
    /// Creates a series from a valid template, a rule that selects at least
    /// one weekday, and an end date no earlier than the template's date.
    pub fn new(
        id: RecurrenceSeriesId,
        template: EventDraft,
        rule: RecurrenceRule,
        ends_on: Option<CivilDate>,
        timestamp: Timestamp,
    ) -> (result: Result<RecurrenceSeries, ValidationError>)
        ensures
            result is Ok <==> series_values_valid(template, rule, ends_on),
            result matches Ok(s) ==> s.id == id && s.template == template && s.rule == rule
                && s.ends_on == ends_on && s.created_at == timestamp && s.updated_at == timestamp,
            result matches Err(e) ==> e == series_validation_error(template, rule, ends_on),
    {
        validate_series_values(&template, rule, ends_on)?;
        Ok(RecurrenceSeries {
            id,
            template,
            rule,
            ends_on,
            created_at: timestamp,
            updated_at: timestamp,
        })
    }

    /// Replaces the template, rule and end date with valid values.
    pub fn revise(
        &mut self,
        template: EventDraft,
        rule: RecurrenceRule,
        ends_on: Option<CivilDate>,
        timestamp: Timestamp,
    ) -> (result: Result<(), ValidationError>)
        ensures
            result is Ok <==> series_values_valid(template, rule, ends_on),
            result is Ok ==> *final(self) == (RecurrenceSeries {
                template,
                rule,
                ends_on,
                updated_at: timestamp,
                ..*old(self)
            }),
            result is Err ==> *final(self) == *old(self),
    {
        validate_series_values(&template, rule, ends_on)?;
        self.template = template;
        self.rule = rule;
        self.ends_on = ends_on;
        self.updated_at = timestamp;
        Ok(())
    }

    /// An identical copy of the series.
    pub fn duplicate(&self) -> (copy: RecurrenceSeries)
        ensures
            copy == *self,
    {
        RecurrenceSeries {
            id: self.id,
            template: self.template.duplicate(),
            rule: self.rule,
            ends_on: self.ends_on,
            created_at: self.created_at,
            updated_at: self.updated_at,
        }
    }

    /// Whether the series repeats on epoch day `d`: on or after its first
    /// date, on or before its end date, and on a weekday its rule selects.
    pub open spec fn contains_day(self, d: int) -> bool {
        &&& self.template.date.day() <= d
        &&& (self.ends_on matches Some(end) ==> d <= end.day())
        &&& self.rule.matches_index(weekday_index_of_day(d))
    }

    /// Returns whether the series repeats on `date`.
    pub fn contains_date(&self, date: CivilDate) -> (contains: bool)
        ensures
            contains == self.contains_day(date.day()),
    {
        if date.epoch_day < self.template.date.epoch_day {
            return false;
        }
        if let Some(end) = self.ends_on {
            if end.epoch_day < date.epoch_day {
                return false;
            }
        }
        self.rule.matches(date.weekday())
    }
}

/// What an exception does to one occurrence of a series.
#[derive(Debug, Clone, PartialEq, Eq)]
pub enum RecurrenceExceptionKind {
    /// The occurrence is removed.
    Cancelled,
    /// The occurrence is replaced by the given values.
    Modified(EventDraft),
}

/// An exception to one occurrence of a series, keyed by its original date.
#[derive(Debug, Clone, PartialEq, Eq)]
pub struct RecurrenceException {
    pub series_id: RecurrenceSeriesId,
    pub original_date: CivilDate,
    pub kind: RecurrenceExceptionKind,
    pub updated_at: Option<Timestamp>,
}

impl RecurrenceException {
    /// Cancels the occurrence on `original_date`.
    pub fn cancelled(series_id: RecurrenceSeriesId, original_date: CivilDate) -> (exception:
        RecurrenceException)
        ensures
            exception == (RecurrenceException {
                series_id,
                original_date,
                kind: RecurrenceExceptionKind::Cancelled,
                updated_at: None,
            }),
    {
        RecurrenceException {
            series_id,
            original_date,
            kind: RecurrenceExceptionKind::Cancelled,
            updated_at: None,
        }
    }

    /// Replaces the occurrence on `original_date` with a valid draft.
    pub fn modified(
        series_id: RecurrenceSeriesId,
        original_date: CivilDate,
        draft: EventDraft,
        timestamp: Timestamp,
    ) -> (result: Result<RecurrenceException, ValidationError>)
        ensures
            result is Ok <==> draft.is_valid(),
            result matches Ok(e) ==> e == (RecurrenceException {
                series_id,
                original_date,
                kind: RecurrenceExceptionKind::Modified(draft),
                updated_at: Some(timestamp),
            }),
            result matches Err(err) ==> err == draft.spec_validation_error(),
    {
        draft.validate()?;
        Ok(
            RecurrenceException {
                series_id,
                original_date,
                kind: RecurrenceExceptionKind::Modified(draft),
                updated_at: Some(timestamp),
            },
        )
    }

    /// An identical copy of the exception.
    pub fn duplicate(&self) -> (copy: RecurrenceException)
        ensures
            copy == *self,
    {
        let kind = match &self.kind {
            RecurrenceExceptionKind::Cancelled => RecurrenceExceptionKind::Cancelled,
            RecurrenceExceptionKind::Modified(d) => RecurrenceExceptionKind::Modified(d.duplicate()),
        };
        RecurrenceException {
            series_id: self.series_id,
            original_date: self.original_date,
            kind,
            updated_at: self.updated_at,
        }
    }
}

/// One occurrence shown on the calendar.
#[derive(Debug, Clone, PartialEq, Eq)]
pub struct EventOccurrence {
    pub id: OccurrenceId,
    pub draft: EventDraft,
}

/// The occurrence of a standalone event.
pub open spec fn standalone_occurrence(event: Event) -> EventOccurrence {
    EventOccurrence { id: OccurrenceId::Standalone(event.id), draft: event.draft }
}

/// The occurrence of series `series_id` that originally falls on
/// `original_date`, shown with `draft`.
pub open spec fn recurring_occurrence(
    series_id: RecurrenceSeriesId,
    original_date: CivilDate,
    draft: EventDraft,
) -> EventOccurrence {
    EventOccurrence {
        id: OccurrenceId::Recurring { series_id, original_date },
        draft,
    }
}

impl EventOccurrence {
    /// The occurrence of a standalone event.
    pub fn standalone(event: &Event) -> (occurrence: EventOccurrence)
        ensures
            occurrence == standalone_occurrence(*event),
    {
        EventOccurrence { id: OccurrenceId::Standalone(event.id), draft: event.draft.duplicate() }
    }

    /// The occurrence of a series on its original date, shown with `draft`.
    pub fn recurring(
        series_id: RecurrenceSeriesId,
        original_date: CivilDate,
        draft: EventDraft,
    ) -> (occurrence: EventOccurrence)
        ensures
            occurrence == recurring_occurrence(series_id, original_date, draft),
    {
        EventOccurrence { id: OccurrenceId::Recurring { series_id, original_date }, draft }
    }

    /// An identical copy of the occurrence.
    pub fn duplicate(&self) -> (copy: EventOccurrence)
        ensures
            copy == *self,
    {
        EventOccurrence { id: self.id, draft: self.draft.duplicate() }
    }

    pub fn id(&self) -> (id: OccurrenceId)
        ensures
            id == self.id,
    {
        self.id
    }

    pub fn date(&self) -> (date: CivilDate)
        ensures
            date == self.draft.date,
    {
        self.draft.date
    }

    pub fn start_time(&self) -> (time: TimeOfDay)
        ensures
            time == self.draft.start_time,
    {
        self.draft.start_time
    }

    pub fn end_time(&self) -> (time: TimeOfDay)
        ensures
            time == self.draft.end_time,
    {
        self.draft.end_time
    }

    pub fn category_id(&self) -> (id: CategoryId)
        ensures
            id == self.draft.category_id,
    {
        self.draft.category_id
    }

    pub fn title(&self) -> (title: &str)
        ensures
            title@ == self.draft.title@,
    {
        self.draft.title.as_str()
    }
}

/// Errors of calendar date computations.
#[derive(Clone, Copy, Debug, PartialEq, Eq, Structural)]
pub enum CalendarError {
    /// A range's end does not come after its start.
    InvalidDateRange,
    /// A date computation left the representable range.
    DateArithmetic,
    /// A snapping interval is zero or longer than a day.
    InvalidSnapInterval,
}

/// A half-open range of dates: `start` is included, `end` is not.
#[derive(Clone, Copy, Debug, PartialEq, Eq, Structural, Hash)]
pub struct DateRange {
    pub start: CivilDate,
    pub end: CivilDate,
}

/// The first day of a week.
#[derive(Clone, Copy, Debug, PartialEq, Eq, Structural, Hash)]
pub enum WeekStart {
    Sunday,
    Monday,
}

/// How many days `day` lies after the start of its week.
pub open spec fn days_into_week(day: int, week_start: WeekStart) -> int {
    match week_start {
        WeekStart::Monday => weekday_index_of_day(day),
        WeekStart::Sunday => (weekday_index_of_day(day) + 1) % 7,
    }
}

/// The week of a day starts at most six days before it, on the chosen
/// first weekday (Monday, or Sunday), so the seven days from that start
/// hold the day.
pub proof fn lemma_week_holds_day(day: int, week_start: WeekStart)
    ensures
        0 <= days_into_week(day, week_start) < 7,
        weekday_index_of_day(day - days_into_week(day, week_start)) == match week_start {
            WeekStart::Monday => 0int,
            WeekStart::Sunday => 6int,
        },
{
    let w = weekday_index_of_day(day);
    assert(0 <= w < 7);
    let start = day - days_into_week(day, week_start);
    match week_start {
        WeekStart::Monday => {
            assert((start + 3) % 7 == 0) by {
                vstd::arithmetic::div_mod::lemma_fundamental_div_mod(day + 3, 7);
                vstd::arithmetic::div_mod::lemma_mod_multiples_basic((day + 3) / 7, 7);
                vstd::arithmetic::mul::lemma_mul_is_commutative(7, (day + 3) / 7);
            }
        },
        WeekStart::Sunday => {
            assert((start + 3) % 7 == 6) by {
                let q = (day + 3) / 7;
                vstd::arithmetic::div_mod::lemma_fundamental_div_mod(day + 3, 7);
                assert(start + 3 == 7 * q + w - (w + 1) % 7);
                if w == 6 {
                    assert(start + 3 == 7 * q + 6);
                    vstd::arithmetic::div_mod::lemma_fundamental_div_mod_converse_mod(start + 3, 7, q, 6);
                } else {
                    assert(start + 3 == 7 * (q - 1) + 6);
                    vstd::arithmetic::div_mod::lemma_fundamental_div_mod_converse_mod(start + 3, 7, q - 1, 6);
                }
            }
        },
    }
}

/// Returns the first date of the week that holds `date`.
pub fn start_of_week(date: CivilDate, week_start: WeekStart) -> (result: Result<
    CivilDate,
    CalendarError,
>)
    ensures
        result is Ok <==> MIN_EPOCH_DAY <= date.day() - days_into_week(date.day(), week_start)
            <= MAX_EPOCH_DAY,
        result matches Ok(s) ==> s.day() == date.day() - days_into_week(date.day(), week_start),
        result matches Err(e) ==> e == CalendarError::DateArithmetic,
{
    let index = date.weekday().to_monday_zero_offset();
    let back: u8 = match week_start {
        WeekStart::Monday => index,
        WeekStart::Sunday => (index + 1) % 7,
    };
    match date.checked_add_days(-(back as i32)) {
        Some(d) => Ok(d),
        None => Err(CalendarError::DateArithmetic),
    }
}

/// Returns the first date of the week after the one that holds `date`.
pub fn next_week(date: CivilDate, week_start: WeekStart) -> (result: Result<
    CivilDate,
    CalendarError,
>)
    ensures
        result matches Ok(s) ==> s.day() == date.day() - days_into_week(date.day(), week_start)
            + 7,
        result is Ok <==> (MIN_EPOCH_DAY <= date.day() - days_into_week(date.day(), week_start)
            && date.day() - days_into_week(date.day(), week_start) + 7 <= MAX_EPOCH_DAY),
{
    let start = start_of_week(date, week_start)?;
    match start.checked_add_days(7) {
        Some(d) => Ok(d),
        None => Err(CalendarError::DateArithmetic),
    }
}

impl DateRange {
    /// Whether the range is non-empty.
    pub open spec fn wf(self) -> bool {
        self.start.day() < self.end.day()
    }

    /// Whether the range holds epoch day `d`.
    pub open spec fn holds(self, d: int) -> bool {
        self.start.day() <= d < self.end.day()
    }

    /// The range `[start, end)`; the end must come after the start.
    pub fn new(start: CivilDate, end: CivilDate) -> (result: Result<DateRange, CalendarError>)
        ensures
            result is Ok <==> start.day() < end.day(),
            result matches Ok(r) ==> r.start == start && r.end == end,
            result matches Err(e) ==> e == CalendarError::InvalidDateRange,
    {
        if start.epoch_day < end.epoch_day {
            Ok(DateRange { start, end })
        } else {
            Err(CalendarError::InvalidDateRange)
        }
    }

    /// The one-day range holding `date`.
    pub fn day(date: CivilDate) -> (result: Result<DateRange, CalendarError>)
        ensures
            result is Ok <==> date.day() < MAX_EPOCH_DAY,
            result matches Ok(r) ==> r.start == date && r.end.day() == date.day() + 1,
            result matches Err(e) ==> e == CalendarError::DateArithmetic,
    {
        match date.tomorrow() {
            Some(end) => Ok(DateRange { start: date, end }),
            None => Err(CalendarError::DateArithmetic),
        }
    }

    /// The seven-day week that holds `date`.
    pub fn week(date: CivilDate, week_start: WeekStart) -> (result: Result<
        DateRange,
        CalendarError,
    >)
        ensures
            result matches Ok(r) ==> r.start.day() == date.day() - days_into_week(
                date.day(),
                week_start,
            ) && r.end.day() == r.start.day() + 7,
            result is Ok <==> (MIN_EPOCH_DAY <= date.day() - days_into_week(date.day(), week_start)
                && date.day() - days_into_week(date.day(), week_start) + 7 <= MAX_EPOCH_DAY),
            result matches Err(e) ==> e == CalendarError::DateArithmetic,
    {
        let start = match start_of_week(date, week_start) {
            Ok(s) => s,
            Err(e) => return Err(e),
        };
        match start.checked_add_days(7) {
            Some(end) => Ok(DateRange { start, end }),
            None => Err(CalendarError::DateArithmetic),
        }
    }

    /// Whether the range holds `date`.
    pub fn contains(&self, date: CivilDate) -> (contains: bool)
        ensures
            contains == self.holds(date.day()),
    {
        self.start.epoch_day <= date.epoch_day && date.epoch_day < self.end.epoch_day
    }

    pub fn start(&self) -> (start: CivilDate)
        ensures
            start == self.start,
    {
        self.start
    }

    pub fn end(&self) -> (end: CivilDate)
        ensures
            end == self.end,
    {
        self.end
    }
}


/// How times are written.
#[derive(Clone, Copy, Debug, PartialEq, Eq, Structural, Hash)]
pub enum ClockFormat {
    /// `9:05 AM` style with a meridiem.
    TwelveHour,
    /// `09:05` style.
    TwentyFourHour,
}

/// The name of an IANA time zone that was found when it was created.
#[derive(Clone, Debug, PartialEq, Eq)]
pub struct TimeZoneId {
    pub name: String,
}

/// Calls `jiff::tz::TimeZone::get`. The answer depends on the time zone
/// database installed on the machine, so the contract states nothing of it.
#[verifier::external_body]
fn time_zone_is_known(name: &str) -> bool {
    jiff::tz::TimeZone::get(name).is_ok()
}

/// Errors of settings values.
#[derive(Clone, Copy, Debug, PartialEq, Eq, Structural)]
pub enum SettingsError {
    /// The time zone name is not known on this machine.
    UnknownTimeZone,
    /// The snapping interval is outside one to sixty minutes.
    InvalidSnapInterval,
    /// The visible day does not start before it ends.
    InvalidDayBounds,
}

impl TimeZoneId {
    /// The zone with the given IANA name, if the time zone database knows it.
    pub fn new(name: &str) -> (result: Result<TimeZoneId, SettingsError>)
        ensures
            result matches Ok(id) ==> id.name@ == name@,
            result matches Err(e) ==> e == SettingsError::UnknownTimeZone,
    {
        if time_zone_is_known(name) {
            Ok(TimeZoneId { name: name.to_owned() })
        } else {
            Err(SettingsError::UnknownTimeZone)
        }
    }

    /// Coordinated Universal Time.
    pub fn utc() -> (id: TimeZoneId)
        ensures
            id.name@ == "UTC"@,
    {
        TimeZoneId { name: String::from_str("UTC") }
    }

    /// The zone's IANA name.
    pub fn as_str(&self) -> (name: &str)
        ensures
            name@ == self.name@,
    {
        self.name.as_str()
    }
}

/// A snapping interval of one to sixty minutes.
#[derive(Clone, Copy, Debug, PartialEq, Eq, Structural, Hash)]
pub struct SnapInterval {
    pub minutes: u16,
}

impl SnapInterval {
    /// The interval, which must lie between one and sixty minutes.
    pub fn new(minutes: u16) -> (result: Result<SnapInterval, SettingsError>)
        ensures
            result is Ok <==> 1 <= minutes <= 60,
            result matches Ok(s) ==> s.minutes == minutes,
            result matches Err(e) ==> e == SettingsError::InvalidSnapInterval,
    {
        if 1 <= minutes && minutes <= 60 {
            Ok(SnapInterval { minutes })
        } else {
            Err(SettingsError::InvalidSnapInterval)
        }
    }

    /// The default interval of fifteen minutes.
    pub fn default_interval() -> (s: SnapInterval)
        ensures
            s.minutes == 15,
    {
        SnapInterval { minutes: 15 }
    }

    pub fn minutes(&self) -> (m: u16)
        ensures
            m == self.minutes,
    {
        self.minutes
    }
}

/// Calendar settings.
#[derive(Clone, Debug, PartialEq, Eq)]
pub struct Settings {
    pub week_starts_on: WeekStart,
    pub clock_format: ClockFormat,
    pub time_zone: TimeZoneId,
    pub snap_interval: SnapInterval,
    /// First time shown in the day grid.
    pub day_start: TimeOfDay,
    /// Last time shown in the day grid.
    pub day_end: TimeOfDay,
}

/// The default settings: Sunday weeks, a twelve-hour clock, UTC,
/// fifteen-minute snapping and a visible day from 06:00 to 22:00.
pub open spec fn is_default_settings(s: Settings) -> bool {
    &&& s.week_starts_on == WeekStart::Sunday
    &&& s.clock_format == ClockFormat::TwelveHour
    &&& s.time_zone.name@ == "UTC"@
    &&& s.snap_interval.minutes == 15
    &&& s.day_start.spec_minutes() == 360
    &&& s.day_end.spec_minutes() == 1320
}

impl Settings {
    /// Settings whose visible day starts before it ends.
    pub fn new(
        week_starts_on: WeekStart,
        clock_format: ClockFormat,
        time_zone: TimeZoneId,
        snap_interval: SnapInterval,
        day_start: TimeOfDay,
        day_end: TimeOfDay,
    ) -> (result: Result<Settings, SettingsError>)
        ensures
            result is Ok <==> day_start.nanos < day_end.nanos,
            result matches Ok(s) ==> s.week_starts_on == week_starts_on && s.clock_format
                == clock_format && s.time_zone == time_zone && s.snap_interval == snap_interval
                && s.day_start == day_start && s.day_end == day_end,
            result matches Err(e) ==> e == SettingsError::InvalidDayBounds,
    {
        if day_start.nanos < day_end.nanos {
            Ok(Settings { week_starts_on, clock_format, time_zone, snap_interval, day_start, day_end })
        } else {
            Err(SettingsError::InvalidDayBounds)
        }
    }

    /// Sunday weeks, a twelve-hour clock, UTC, fifteen-minute snapping and a
    /// visible day from 06:00 to 22:00.
    pub fn default_settings() -> (s: Settings)
        ensures
            is_default_settings(s),
            s.week_starts_on == WeekStart::Sunday,
            s.clock_format == ClockFormat::TwelveHour,
            s.time_zone.name@ == "UTC"@,
            s.snap_interval.minutes == 15,
            s.day_start.spec_minutes() == 360,
            s.day_end.spec_minutes() == 1320,
    {
        Settings {
            week_starts_on: WeekStart::Sunday,
            clock_format: ClockFormat::TwelveHour,
            time_zone: TimeZoneId::utc(),
            snap_interval: SnapInterval::default_interval(),
            day_start: TimeOfDay::from_hm(6, 0),
            day_end: TimeOfDay::from_hm(22, 0),
        }
    }

    /// An identical copy of the settings.
    pub fn duplicate(&self) -> (copy: Settings)
        ensures
            copy == *self,
    {
        Settings {
            week_starts_on: self.week_starts_on,
            clock_format: self.clock_format,
            time_zone: TimeZoneId { name: self.time_zone.name.clone() },
            snap_interval: self.snap_interval,
            day_start: self.day_start,
            day_end: self.day_end,
        }
    }

    pub fn week_starts_on(&self) -> (w: WeekStart)
        ensures
            w == self.week_starts_on,
    {
        self.week_starts_on
    }

    pub fn clock_format(&self) -> (c: ClockFormat)
        ensures
            c == self.clock_format,
    {
        self.clock_format
    }
}

} // verus!

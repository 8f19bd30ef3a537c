//! Civil dates, wall-clock times and timestamps.
//!
//! A civil date is stored as its Unix epoch day (days since 1970-01-01), which
//! makes ordering, day arithmetic and weekdays plain integer facts. The mapping
//! between an epoch day and a year, month and day is computed by `jiff`.
use vstd::prelude::*;

verus! {

/// The epoch day of -9999-01-01, the earliest date `jiff` represents.
pub const MIN_EPOCH_DAY: i32 = -4371587;

/// The epoch day of 9999-12-31, the latest date `jiff` represents.
pub const MAX_EPOCH_DAY: i32 = 2932896;

/// Nanoseconds in one civil day.
pub const NANOS_PER_DAY: u64 = 86_400_000_000_000;

/// Nanoseconds in one minute.
pub const NANOS_PER_MINUTE: u64 = 60_000_000_000;

/// A day of the week.
#[derive(Clone, Copy, Debug, PartialEq, Eq, Structural, Hash)]
pub enum Weekday {
    Monday,
    Tuesday,
    Wednesday,
    Thursday,
    Friday,
    Saturday,
    Sunday,
}

/// The weekday whose Monday-based offset is `index` (taken modulo seven).
pub open spec fn weekday_from_index(index: int) -> Weekday {
    let i = index % 7;
    if i == 0 {
        Weekday::Monday
    } else if i == 1 {
        Weekday::Tuesday
    } else if i == 2 {
        Weekday::Wednesday
    } else if i == 3 {
        Weekday::Thursday
    } else if i == 4 {
        Weekday::Friday
    } else if i == 5 {
        Weekday::Saturday
    } else {
        Weekday::Sunday
    }
}

impl Weekday {
    /// Offset of the weekday counting Monday as zero.
    pub open spec fn index(self) -> int {
        match self {
            Weekday::Monday => 0,
            Weekday::Tuesday => 1,
            Weekday::Wednesday => 2,
            Weekday::Thursday => 3,
            Weekday::Friday => 4,
            Weekday::Saturday => 5,
            Weekday::Sunday => 6,
        }
    }

    /// Returns the offset of the weekday counting Monday as zero.
    pub fn to_monday_zero_offset(self) -> (offset: u8)
        ensures
            offset == self.index(),
            offset < 7,
    {
        match self {
            Weekday::Monday => 0,
            Weekday::Tuesday => 1,
            Weekday::Wednesday => 2,
            Weekday::Thursday => 3,
            Weekday::Friday => 4,
            Weekday::Saturday => 5,
            Weekday::Sunday => 6,
        }
    }

    /// Returns the weekday with the given Monday-based offset, modulo seven.
    pub fn from_monday_zero_offset(offset: u8) -> (day: Weekday)
        ensures
            day == weekday_from_index(offset as int),
            day.index() == offset as int % 7,
    {
        let i = offset % 7;
        if i == 0 {
            Weekday::Monday
        } else if i == 1 {
            Weekday::Tuesday
        } else if i == 2 {
            Weekday::Wednesday
        } else if i == 3 {
            Weekday::Thursday
        } else if i == 4 {
            Weekday::Friday
        } else if i == 5 {
            Weekday::Saturday
        } else {
            Weekday::Sunday
        }
    }
}

/// A calendar date without a time zone, stored as days since 1970-01-01.
#[derive(Clone, Copy, Debug, PartialEq, Eq, Structural, Hash, PartialOrd, Ord)]
pub struct CivilDate {
    /// Days since 1970-01-01 (negative before it).
    pub epoch_day: i32,
}

/// The weekday of an epoch day: 1970-01-01 was a Thursday.
pub open spec fn weekday_index_of_day(day: int) -> int {
    (day + 3) % 7
}

impl CivilDate {
    /// The epoch day as a mathematical integer.
    pub open spec fn day(self) -> int {
        self.epoch_day as int
    }

    /// Whether the date lies in the range that `jiff` can represent.
    pub open spec fn in_range(self) -> bool {
        MIN_EPOCH_DAY <= self.epoch_day <= MAX_EPOCH_DAY
    }

    /// Checks that the date lies in the range that `jiff` can represent.
    pub fn is_in_range(self) -> (ok: bool)
        ensures
            ok == self.in_range(),
    {
        MIN_EPOCH_DAY <= self.epoch_day && self.epoch_day <= MAX_EPOCH_DAY
    }

    /// The date with the given epoch day, when it is representable.
    pub fn from_epoch_day(day: i32) -> (date: Option<CivilDate>)
        ensures
            date is Some <==> MIN_EPOCH_DAY <= day <= MAX_EPOCH_DAY,
            date matches Some(d) ==> d.epoch_day == day,
    {
        if MIN_EPOCH_DAY <= day && day <= MAX_EPOCH_DAY {
            Some(CivilDate { epoch_day: day })
        } else {
            None
        }
    }

    /// The earliest representable date.
    pub fn min_value() -> (date: CivilDate)
        ensures
            date.epoch_day == MIN_EPOCH_DAY,
    {
        CivilDate { epoch_day: MIN_EPOCH_DAY }
    }

    /// The latest representable date.
    pub fn max_value() -> (date: CivilDate)
        ensures
            date.epoch_day == MAX_EPOCH_DAY,
    {
        CivilDate { epoch_day: MAX_EPOCH_DAY }
    }

    /// Returns the following date, or `None` at the end of the representable range.
    pub fn tomorrow(self) -> (next: Option<CivilDate>)
        ensures
            next is Some <==> self.epoch_day < MAX_EPOCH_DAY,
            next matches Some(n) ==> n.day() == self.day() + 1,
    {
        if self.epoch_day < MAX_EPOCH_DAY {
            Some(CivilDate { epoch_day: self.epoch_day + 1 })
        } else {
            None
        }
    }

    /// Returns the preceding date, or `None` at the start of the representable range.
    pub fn yesterday(self) -> (previous: Option<CivilDate>)
        ensures
            previous is Some <==> self.epoch_day > MIN_EPOCH_DAY,
            previous matches Some(p) ==> p.day() == self.day() - 1,
    {
        if self.epoch_day > MIN_EPOCH_DAY {
            Some(CivilDate { epoch_day: self.epoch_day - 1 })
        } else {
            None
        }
    }

    /// Adds a signed number of days, returning `None` when the result leaves
    /// the representable range.
    pub fn checked_add_days(self, days: i32) -> (shifted: Option<CivilDate>)
        ensures
            shifted is Some <==> MIN_EPOCH_DAY <= self.day() + days <= MAX_EPOCH_DAY,
            shifted matches Some(s) ==> s.day() == self.day() + days,
    {
        let target = self.epoch_day as i64 + days as i64;
        if MIN_EPOCH_DAY as i64 <= target && target <= MAX_EPOCH_DAY as i64 {
            Some(CivilDate { epoch_day: target as i32 })
        } else {
            None
        }
    }

    /// Whether this date comes strictly before `other`.
    pub fn is_before(self, other: CivilDate) -> (before: bool)
        ensures
            before == (self.day() < other.day()),
    {
        self.epoch_day < other.epoch_day
    }

    /// The later of two dates.
    pub fn later(self, other: CivilDate) -> (d: CivilDate)
        ensures
            d.day() == if self.day() < other.day() { other.day() } else { self.day() },
    {
        if self.epoch_day < other.epoch_day { other } else { self }
    }

    /// The earlier of two dates.
    pub fn earlier(self, other: CivilDate) -> (d: CivilDate)
        ensures
            d.day() == if self.day() < other.day() { self.day() } else { other.day() },
    {
        if self.epoch_day < other.epoch_day { self } else { other }
    }

    /// The weekday of this date.
    pub open spec fn spec_weekday(self) -> Weekday {
        weekday_from_index(weekday_index_of_day(self.day()))
    }

    /// Returns the weekday of this date.
    pub fn weekday(self) -> (day: Weekday)
        ensures
            day == self.spec_weekday(),
            day.index() == weekday_index_of_day(self.day()),
    {
        // Shift by a multiple of seven so that the remainder is taken of a
        // non-negative number.
        let shifted: i64 = self.epoch_day as i64 + 3 + 7 * 400_000_000;
        let r: i64 = shifted % 7;
        proof {
            let d = self.day();
            assert((d + 3 + 7 * 400_000_000) % 7 == (d + 3) % 7) by {
                vstd::arithmetic::div_mod::lemma_mod_add_multiples_vanish(d + 3, 7);
                lemma_mod_shift(d + 3, 400_000_000);
            }
        }
        Weekday::from_monday_zero_offset(r as u8)
    }
}

proof fn lemma_mod_shift(x: int, k: nat)
    ensures
        (x + 7 * k) % 7 == x % 7,
    decreases k,
{
    if k > 0 {
        lemma_mod_shift(x, (k - 1) as nat);
        vstd::arithmetic::div_mod::lemma_mod_add_multiples_vanish(x + 7 * (k - 1), 7);
        assert(x + 7 * (k - 1) + 7 == x + 7 * k);
    }
}


/// A wall-clock time of day with nanosecond precision.
#[derive(Clone, Copy, Debug, PartialEq, Eq, Structural, Hash, PartialOrd, Ord)]
pub struct TimeOfDay {
    /// Nanoseconds since midnight, below one day.
    pub nanos: u64,
}

impl TimeOfDay {
    /// Whether the value lies within one day.
    pub open spec fn wf(self) -> bool {
        self.nanos < NANOS_PER_DAY
    }

    /// Checks that the value lies within one day.
    pub fn is_valid(self) -> (valid: bool)
        ensures
            valid == self.wf(),
    {
        self.nanos < NANOS_PER_DAY
    }

    /// Whole minutes since midnight.
    pub open spec fn spec_minutes(self) -> int {
        self.nanos as int / NANOS_PER_MINUTE as int
    }

    /// Creates a time from its hour, minute, second and sub-second parts,
    /// returning `None` when a part is out of range.
    pub fn new(hour: i8, minute: i8, second: i8, subsec_nanosecond: i32) -> (time: Option<TimeOfDay>)
        ensures
            time is Some <==> (0 <= hour < 24 && 0 <= minute < 60 && 0 <= second < 60
                && 0 <= subsec_nanosecond < 1_000_000_000),
            time matches Some(t) ==> t.wf() && t.nanos == hour * 3_600_000_000_000 + minute
                * 60_000_000_000 + second * 1_000_000_000 + subsec_nanosecond,
    {
        if 0 <= hour && hour < 24 && 0 <= minute && minute < 60 && 0 <= second && second < 60
            && 0 <= subsec_nanosecond && subsec_nanosecond < 1_000_000_000 {
            let nanos = hour as u64 * 3_600_000_000_000 + minute as u64 * 60_000_000_000
                + second as u64 * 1_000_000_000 + subsec_nanosecond as u64;
            Some(TimeOfDay { nanos })
        } else {
            None
        }
    }

    /// Creates the time `hour:minute:00`.
    pub fn from_hm(hour: u8, minute: u8) -> (time: TimeOfDay)
        requires
            hour < 24,
            minute < 60,
        ensures
            time.wf(),
            time.nanos == hour * 3_600_000_000_000 + minute * 60_000_000_000,
            time.spec_minutes() == hour * 60 + minute,
    {
        let nanos = hour as u64 * 3_600_000_000_000 + minute as u64 * 60_000_000_000;
        proof {
            let m = hour * 60 + minute;
            assert(nanos == m * 60_000_000_000);
            vstd::arithmetic::div_mod::lemma_div_multiples_vanish(m as int, 60_000_000_000);
        }
        TimeOfDay { nanos }
    }

    /// Creates the time that lies `minutes` minutes after midnight.
    pub fn from_minutes(minutes: u16) -> (time: TimeOfDay)
        requires
            minutes < 1440,
        ensures
            time.wf(),
            time.nanos == minutes * NANOS_PER_MINUTE,
            time.spec_minutes() == minutes,
    {
        proof {
            vstd::arithmetic::div_mod::lemma_div_multiples_vanish(minutes as int, 60_000_000_000);
        }
        TimeOfDay { nanos: minutes as u64 * NANOS_PER_MINUTE }
    }

    /// Midnight.
    pub fn midnight() -> (time: TimeOfDay)
        ensures
            time.nanos == 0,
    {
        TimeOfDay { nanos: 0 }
    }

    /// Hour component (0 to 23).
    pub fn hour(self) -> (h: u8)
        requires
            self.wf(),
        ensures
            h == self.nanos / 3_600_000_000_000,
            h < 24,
    {
        (self.nanos / 3_600_000_000_000) as u8
    }

    /// Minute component (0 to 59).
    pub fn minute(self) -> (m: u8)
        requires
            self.wf(),
        ensures
            m == self.spec_minutes() % 60,
            m < 60,
    {
        ((self.nanos / NANOS_PER_MINUTE) % 60) as u8
    }

    /// Whole minutes since midnight (0 to 1439).
    pub fn minutes_since_midnight(self) -> (m: u16)
        requires
            self.wf(),
        ensures
            m == self.spec_minutes(),
            m < 1440,
    {
        (self.nanos / NANOS_PER_MINUTE) as u16
    }
}

/// A civil date and a time of day.
#[derive(Clone, Copy, Debug, PartialEq, Eq, Structural, Hash)]
pub struct CivilDateTime {
    pub date: CivilDate,
    pub time: TimeOfDay,
}

/// An instant, as seconds and nanoseconds since the Unix epoch.
#[derive(Clone, Copy, Debug, PartialEq, Eq, Structural, Hash, PartialOrd, Ord)]
pub struct Timestamp {
    /// Whole seconds since 1970-01-01T00:00:00Z.
    pub second: i64,
    /// Sub-second part in nanoseconds.
    pub nanosecond: i32,
}

/// The whole seconds of the first instant `jiff` represents,
/// -009999-01-02T01:59:59Z.
pub const MIN_INSTANT_SECOND: i64 = -377705023201;

/// The whole seconds of the last instant `jiff` represents,
/// 9999-12-30T22:00:00.999999999Z.
pub const MAX_INSTANT_SECOND: i64 = 253402207200;

/// Nanoseconds in one second.
pub const NANOS_PER_SECOND: i64 = 1_000_000_000;

/// The first instant `jiff` represents, in nanoseconds since the epoch.
pub open spec fn min_instant() -> int {
    MIN_INSTANT_SECOND * NANOS_PER_SECOND
}

impl Timestamp {
    /// The instant `second` seconds after the Unix epoch.
    pub fn from_second(second: i64) -> (t: Timestamp)
        ensures
            t.second == second,
            t.nanosecond == 0,
    {
        Timestamp { second, nanosecond: 0 }
    }

    /// Nanoseconds since the epoch.
    pub open spec fn instant(self) -> int {
        self.second * NANOS_PER_SECOND + self.nanosecond
    }

    /// An instant in the form `jiff` keeps: seconds and nanoseconds of one
    /// sign, less than a second of nanoseconds, within `jiff`'s range.
    pub open spec fn wf(self) -> bool {
        &&& -NANOS_PER_SECOND < self.nanosecond < NANOS_PER_SECOND
        &&& self.second > 0 ==> self.nanosecond >= 0
        &&& self.second < 0 ==> self.nanosecond <= 0
        &&& MIN_INSTANT_SECOND <= self.second <= MAX_INSTANT_SECOND
        &&& self.second == MIN_INSTANT_SECOND ==> self.nanosecond == 0
    }

    /// Checks that the instant is in `jiff`'s form and range.
    pub fn is_valid(self) -> (valid: bool)
        ensures
            valid == self.wf(),
    {
        let nanos = self.nanosecond as i64;
        -NANOS_PER_SECOND < nanos && nanos < NANOS_PER_SECOND && (self.second <= 0
            || self.nanosecond >= 0) && (self.second >= 0 || self.nanosecond <= 0)
            && MIN_INSTANT_SECOND <= self.second && self.second <= MAX_INSTANT_SECOND && (self.second
            != MIN_INSTANT_SECOND || self.nanosecond == 0)
    }

    /// Whether this instant comes before `other`.
    pub fn is_before(&self, other: &Timestamp) -> (before: bool)
        requires
            self.wf(),
            other.wf(),
        ensures
            before == (self.instant() < other.instant()),
    {
        proof {
            assert(self.instant() < other.instant() <==> (self.second < other.second || (self.second
                == other.second && self.nanosecond < other.nanosecond))) by (nonlinear_arith)
                requires
                    -NANOS_PER_SECOND < self.nanosecond < NANOS_PER_SECOND,
                    -NANOS_PER_SECOND < other.nanosecond < NANOS_PER_SECOND,
                    self.second > 0 ==> self.nanosecond >= 0,
                    self.second < 0 ==> self.nanosecond <= 0,
                    other.second > 0 ==> other.nanosecond >= 0,
                    other.second < 0 ==> other.nanosecond <= 0,
            ;
        }
        self.second < other.second || (self.second == other.second && self.nanosecond < other.nanosecond)
    }

    /// The instant `minutes` minutes earlier, or `None` when it falls before
    /// the first representable instant.
    pub fn minutes_before(self, minutes: u16) -> (earlier: Option<Timestamp>)
        requires
            self.wf(),
        ensures
            earlier is Some <==> self.instant() - minutes * 60 * NANOS_PER_SECOND >= min_instant(),
            earlier matches Some(e) ==> e.wf() && e.instant() == self.instant() - minutes * 60
                * NANOS_PER_SECOND,
    {
        jiff_minutes_before(self, minutes)
    }
}

/// Calls `jiff::Timestamp::checked_sub` with `jiff::SignedDuration::from_mins`
/// on the instant `t`, rebuilt with `jiff::Timestamp::new`. The contract
/// states what `jiff` documents and its source shows: the result is the
/// instant `minutes` minutes earlier, kept in `jiff`'s one-sign form, and the
/// subtraction fails exactly when that instant precedes `Timestamp::MIN`.
#[verifier::external_body]
fn jiff_minutes_before(t: Timestamp, minutes: u16) -> (earlier: Option<Timestamp>)
    requires
        t.wf(),
    ensures
        earlier is Some <==> t.instant() - minutes * 60 * NANOS_PER_SECOND >= min_instant(),
        earlier matches Some(e) ==> e.wf() && e.instant() == t.instant() - minutes * 60
            * NANOS_PER_SECOND,
{
    let stamp = match jiff::Timestamp::new(t.second, t.nanosecond) {
        Ok(stamp) => stamp,
        Err(_) => return None,
    };
    match stamp.checked_sub(jiff::SignedDuration::from_mins(i64::from(minutes))) {
        Ok(e) => Some(Timestamp { second: e.as_second(), nanosecond: e.subsec_nanosecond() }),
        Err(_) => None,
    }
}


/// Whether `year` is a Gregorian leap year.
pub open spec fn is_leap_year(year: int) -> bool {
    year % 4 == 0 && (year % 100 != 0 || year % 400 == 0)
}

/// The number of days in `month` of `year`.
pub open spec fn days_in_month(year: int, month: int) -> int {
    if month == 2 {
        if is_leap_year(year) {
            29
        } else {
            28
        }
    } else if month == 4 || month == 6 || month == 9 || month == 11 {
        30
    } else {
        31
    }
}

/// Days from 1970-01-01 to the proleptic Gregorian date `year-month-day`,
/// counted through 400-year eras that start on March 1.
pub open spec fn days_from_civil(year: int, month: int, day: int) -> int {
    let y = if month <= 2 {
        year - 1
    } else {
        year
    };
    let era = y / 400;
    let yoe = y - era * 400;
    let mp = if month > 2 {
        month - 3
    } else {
        month + 9
    };
    let doy = (153 * mp + 2) / 5 + day - 1;
    let doe = yoe * 365 + yoe / 4 - yoe / 100 + doy;
    era * 146097 + doe - 719468
}

/// The epoch day of the Gregorian date `year-month-day`, or `None` when it
/// does not exist or lies outside the years -9999 to 9999.
#[verifier::opaque]
pub open spec fn gregorian_epoch_day(year: i16, month: i8, day: i8) -> Option<i32> {
    if -9999 <= year <= 9999 && 1 <= month <= 12 && 1 <= day <= days_in_month(
        year as int,
        month as int,
    ) {
        Some(days_from_civil(year as int, month as int, day as int) as i32)
    } else {
        None
    }
}

/// The text that `jiff`'s `strftime` formatting produces for an epoch day and
/// a pattern, or `None` when the pattern cannot be formatted.
pub uninterp spec fn strftime_text(epoch_day: i32, pattern: Seq<char>) -> Option<Seq<char>>;

/// Calls `jiff::civil::Date::new` and measures the result in days from
/// 1970-01-01 with `Date::until`. `Date::new` accepts exactly the existing
/// Gregorian dates of the years -9999 to 9999, and the span it measures is
/// the day count from the epoch; an accepted date lies in `jiff`'s range
/// (`Date::MIN` = -9999-01-01 to `Date::MAX` = 9999-12-31).
#[verifier::external_body]
fn jiff_epoch_day(year: i16, month: i8, day: i8) -> (epoch_day: Option<i32>)
    ensures
        epoch_day == gregorian_epoch_day(year, month, day),
        epoch_day matches Some(d) ==> MIN_EPOCH_DAY <= d <= MAX_EPOCH_DAY,
{
    let epoch = jiff::civil::Date::constant(1970, 1, 1);
    match jiff::civil::Date::new(year, month, day) {
        Ok(date) => epoch.until(date).ok().map(|span| span.get_days()),
        Err(_) => None,
    }
}

/// Calls `jiff::civil::Date::checked_add` on 1970-01-01 with a span of
/// `epoch_day` days and reads back the year, month and day: the date whose
/// epoch day is `epoch_day`. The `requires` keeps the day inside `jiff`'s
/// range, where the addition does not fail.
#[verifier::external_body]
fn jiff_parts(epoch_day: i32) -> (parts: (i16, i8, i8))
    requires
        MIN_EPOCH_DAY <= epoch_day <= MAX_EPOCH_DAY,
    ensures
        gregorian_epoch_day(parts.0, parts.1, parts.2) == Some(epoch_day),
{
    let epoch = jiff::civil::Date::constant(1970, 1, 1);
    let span = jiff::Span::new().try_days(epoch_day).expect("epoch day within span range");
    let date = epoch.checked_add(span).expect("epoch day within date range");
    (date.year(), date.month(), date.day())
}

/// The date patterns the calendar formats: each uses only the weekday,
/// month, day and year directives, which a date always supplies.
pub open spec fn is_date_pattern(pattern: Seq<char>) -> bool {
    ||| pattern == "%a, %b %-d"@
    ||| pattern == "%A, %b %-d, %Y"@
    ||| pattern == "%b %-d"@
    ||| pattern == "%b %-d, %Y"@
}

/// Calls `jiff::fmt::strtime::format` with `pattern` on the date `epoch_day`
/// days after 1970-01-01. The contract names the result; it also states
/// that a date pattern is always formatted, since a date supplies the
/// weekday, month, day and year those directives read, and formatting into
/// a `String` cannot fail.
#[verifier::external_body]
fn jiff_strftime(epoch_day: i32, pattern: &str) -> (text: Option<String>)
    requires
        MIN_EPOCH_DAY <= epoch_day <= MAX_EPOCH_DAY,
    ensures
        text matches Some(t) ==> strftime_text(epoch_day, pattern@) == Some(t@),
        text is None ==> strftime_text(epoch_day, pattern@) is None,
        is_date_pattern(pattern@) ==> text is Some,
{
    let epoch = jiff::civil::Date::constant(1970, 1, 1);
    let span = jiff::Span::new().try_days(epoch_day).expect("epoch day within span range");
    let date = epoch.checked_add(span).expect("epoch day within date range");
    jiff::fmt::strtime::format(pattern, date).ok()
}

impl CivilDate {
    /// The Gregorian date `year-month-day`, or `None` when it does not exist
    /// or lies outside the representable range.
    pub fn from_ymd(year: i16, month: i8, day: i8) -> (date: Option<CivilDate>)
        ensures
            date matches Some(d) ==> gregorian_epoch_day(year, month, day) == Some(d.epoch_day)
                && d.in_range(),
            date is None ==> gregorian_epoch_day(year, month, day) is None,
    {
        match jiff_epoch_day(year, month, day) {
            Some(d) => Some(CivilDate { epoch_day: d }),
            None => None,
        }
    }

    /// The Gregorian year, month and day of this date.
    pub fn to_ymd(self) -> (parts: (i16, i8, i8))
        requires
            self.in_range(),
        ensures
            gregorian_epoch_day(parts.0, parts.1, parts.2) == Some(self.epoch_day),
    {
        jiff_parts(self.epoch_day)
    }

    /// Formats the date with a `strftime` pattern such as `"%b %-d"`.
    pub fn format(self, pattern: &str) -> (text: Option<String>)
        requires
            self.in_range(),
        ensures
            text matches Some(t) ==> strftime_text(self.epoch_day, pattern@) == Some(t@),
            text is None ==> strftime_text(self.epoch_day, pattern@) is None,
            is_date_pattern(pattern@) ==> text is Some,
    {
        jiff_strftime(self.epoch_day, pattern)
    }
}

} // verus!

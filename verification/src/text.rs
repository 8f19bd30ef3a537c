//! User-facing text: clock times, counts, reminder bodies and the sentence
//! that describes where a deleted category's items go.
use vstd::prelude::*;

use crate::categories::CategoryUsage;
use crate::domain::ClockFormat;
use crate::time::{CivilDate, MAX_EPOCH_DAY, NANOS_PER_MINUTE, TimeOfDay, strftime_text};

verus! {

/// The character of a decimal digit.
pub open spec fn digit_char(d: int) -> char {
    if d == 0 {
        '0'
    } else if d == 1 {
        '1'
    } else if d == 2 {
        '2'
    } else if d == 3 {
        '3'
    } else if d == 4 {
        '4'
    } else if d == 5 {
        '5'
    } else if d == 6 {
        '6'
    } else if d == 7 {
        '7'
    } else if d == 8 {
        '8'
    } else {
        '9'
    }
}

/// The decimal digits of `n`, without leading zeros.
pub open spec fn decimal_chars(n: nat) -> Seq<char>
    decreases n,
{
    if n < 10 {
        seq![digit_char(n as int)]
    } else {
        decimal_chars(n / 10) + seq![digit_char(n as int % 10)]
    }
}

/// Two-digit, zero-padded text of a number below one hundred.
pub open spec fn two_digits(n: int) -> Seq<char> {
    seq![digit_char(n / 10), digit_char(n % 10)]
}

fn digit_str(d: u64) -> (s: &'static str)
    requires
        d < 10,
    ensures
        s@ == seq![digit_char(d as int)],
{
    proof {
        reveal_strlit("0");
        reveal_strlit("1");
        reveal_strlit("2");
        reveal_strlit("3");
        reveal_strlit("4");
        reveal_strlit("5");
        reveal_strlit("6");
        reveal_strlit("7");
        reveal_strlit("8");
        reveal_strlit("9");
    }
    let s = if d == 0 {
        "0"
    } else if d == 1 {
        "1"
    } else if d == 2 {
        "2"
    } else if d == 3 {
        "3"
    } else if d == 4 {
        "4"
    } else if d == 5 {
        "5"
    } else if d == 6 {
        "6"
    } else if d == 7 {
        "7"
    } else if d == 8 {
        "8"
    } else {
        "9"
    };
    assert(s@ =~= seq![digit_char(d as int)]);
    s
}

/// The decimal text of a number.
pub fn decimal_text(n: u64) -> (text: String)
    ensures
        text@ == decimal_chars(n as nat),
    decreases n,
{
    if n < 10 {
        String::from_str(digit_str(n))
    } else {
        let mut text = decimal_text(n / 10);
        text.append(digit_str(n % 10));
        text
    }
}

/// The text of a clock time: `HH:MM` on a twenty-four-hour clock, or
/// `HH:MM AM`/`HH:MM PM` on a twelve-hour clock, where midnight and noon
/// read as twelve.
pub open spec fn time_text(hour: int, minute: int, format: ClockFormat) -> Seq<char> {
    match format {
        ClockFormat::TwentyFourHour => two_digits(hour) + seq![':'] + two_digits(minute),
        ClockFormat::TwelveHour => {
            let h = if hour % 12 == 0 {
                12
            } else {
                hour % 12
            };
            two_digits(h) + seq![':'] + two_digits(minute) + if hour < 12 {
                seq![' ', 'A', 'M']
            } else {
                seq![' ', 'P', 'M']
            }
        },
    }
}

fn two_digit_text(n: u64) -> (text: String)
    requires
        n < 100,
    ensures
        text@ == two_digits(n as int),
{
    let mut text = String::from_str(digit_str(n / 10));
    text.append(digit_str(n % 10));
    text
}

/// Formats a time of day on the chosen clock.
pub fn format_time(time: TimeOfDay, format: ClockFormat) -> (text: String)
    requires
        time.wf(),
    ensures
        text@ == time_text(
            time.spec_minutes() / 60,
            time.spec_minutes() % 60,
            format,
        ),
{
    let minutes = time.nanos / NANOS_PER_MINUTE;
    let hour = minutes / 60;
    let minute = minutes % 60;
    proof {
        assert(time.spec_minutes() == minutes);
        assert(hour < 24) by (nonlinear_arith)
            requires
                minutes == time.nanos / NANOS_PER_MINUTE,
                time.nanos < 86_400_000_000_000,
                hour == minutes / 60,
                NANOS_PER_MINUTE == 60_000_000_000,
        ;
        reveal_strlit(":");
        reveal_strlit(" AM");
        reveal_strlit(" PM");
    }
    match format {
        ClockFormat::TwentyFourHour => {
            let mut text = two_digit_text(hour);
            text.append(":");
            let m = two_digit_text(minute);
            text.append(m.as_str());
            text
        },
        ClockFormat::TwelveHour => {
            let h = if hour % 12 == 0 {
                12
            } else {
                hour % 12
            };
            let mut text = two_digit_text(h);
            text.append(":");
            let m = two_digit_text(minute);
            text.append(m.as_str());
            if hour < 12 {
                text.append(" AM");
            } else {
                text.append(" PM");
            }
            text
        },
    }
}

/// The day label of a reminder: "Today", "Tomorrow", or the date as
/// `jiff` formats it with `%a, %b %-d`.
pub open spec fn day_label_text(date: CivilDate, today: CivilDate) -> Option<Seq<char>> {
    if date == today {
        Some("Today"@)
    } else if date.day() == (if today.day() < MAX_EPOCH_DAY {
        today.day() + 1
    } else {
        today.day()
    }) {
        Some("Tomorrow"@)
    } else {
        strftime_text(date.epoch_day, "%a, %b %-d"@)
    }
}

/// The notice of a reminder: "Starting now", "1 minute reminder", or
/// "N minute reminder".
pub open spec fn notice_text(minutes: u16) -> Seq<char> {
    if minutes == 0 {
        "Starting now"@
    } else if minutes == 1 {
        "1 minute reminder"@
    } else {
        decimal_chars(minutes as nat) + " minute reminder"@
    }
}

/// The body of a reminder notification:
/// `"{category} · {day} at {time} · {notice}"`.
pub open spec fn reminder_text(
    category: Seq<char>,
    day_label: Seq<char>,
    time: Seq<char>,
    notice: Seq<char>,
) -> Seq<char> {
    category + " · "@ + day_label + " at "@ + time + " · "@ + notice
}

/// Builds the body of a reminder for an event of `category` on `date` at
/// `start_time`, `reminder_minutes` ahead, seen on `today`.
pub fn reminder_body(
    category: &str,
    date: CivilDate,
    start_time: TimeOfDay,
    reminder_minutes: u16,
    today: CivilDate,
    clock_format: ClockFormat,
) -> (body: String)
    requires
        date.in_range(),
        today.in_range(),
        start_time.wf(),
    ensures
        day_label_text(date, today) matches Some(label) && body@ == reminder_text(
            category@,
            label,
            time_text(start_time.spec_minutes() / 60, start_time.spec_minutes() % 60, clock_format),
            notice_text(reminder_minutes),
        ),
{
    let tomorrow = match today.tomorrow() {
        Some(t) => t,
        None => today,
    };
    let day_label = if date == today {
        String::from_str("Today")
    } else if date == tomorrow {
        String::from_str("Tomorrow")
    } else {
        match date.format("%a, %b %-d") {
            Some(text) => text,
            None => String::new(),
        }
    };
    let notice = if reminder_minutes == 0 {
        String::from_str("Starting now")
    } else if reminder_minutes == 1 {
        String::from_str("1 minute reminder")
    } else {
        let mut n = decimal_text(reminder_minutes as u64);
        n.append(" minute reminder");
        n
    };
    let mut body = String::from_str(category);
    body.append(" · ");
    body.append(day_label.as_str());
    body.append(" at ");
    let time = format_time(start_time, clock_format);
    body.append(time.as_str());
    body.append(" · ");
    body.append(notice.as_str());
    body
}

/// The plural suffix of a count: empty for one, "s" otherwise.
pub open spec fn plural_suffix(count: int) -> Seq<char> {
    if count == 1 {
        Seq::empty()
    } else {
        seq!['s']
    }
}

/// Returns the plural suffix of a count.
pub fn plural(count: usize) -> (suffix: &'static str)
    ensures
        suffix@ == plural_suffix(count as int),
{
    proof {
        reveal_strlit("");
        reveal_strlit("s");
    }
    let s = if count == 1 {
        ""
    } else {
        "s"
    };
    assert(s@ =~= plural_suffix(count as int));
    s
}

/// `a, b, …, and z` joined in reading order: nothing, one part, `a and b`,
/// or a comma list with "and" before the last part.
pub open spec fn joined_text(parts: Seq<Seq<char>>) -> Seq<char> {
    if parts.len() == 0 {
        Seq::empty()
    } else if parts.len() == 1 {
        parts[0]
    } else if parts.len() == 2 {
        parts[0] + " and "@ + parts[1]
    } else {
        comma_list(parts.drop_last()) + ", and "@ + parts.last()
    }
}

/// The parts separated by ", ".
pub open spec fn comma_list(parts: Seq<Seq<char>>) -> Seq<char>
    decreases parts.len(),
{
    if parts.len() == 0 {
        Seq::empty()
    } else if parts.len() == 1 {
        parts[0]
    } else {
        comma_list(parts.drop_last()) + ", "@ + parts.last()
    }
}

/// The views of a list of strings.
pub open spec fn string_views(parts: Seq<String>) -> Seq<Seq<char>> {
    Seq::new(parts.len(), |i: int| parts[i]@)
}

/// Joins parts for reading: `a`, `a and b`, or `a, b, and c`.
pub fn join_parts(parts: &[String]) -> (text: String)
    ensures
        text@ == joined_text(string_views(parts@)),
{
    let ghost views = string_views(parts@);
    if parts.len() == 0 {
        return String::new();
    }
    if parts.len() == 1 {
        return parts[0].clone();
    }
    if parts.len() == 2 {
        let mut text = parts[0].clone();
        text.append(" and ");
        text.append(parts[1].as_str());
        return text;
    }
    let mut text = parts[0].clone();
    let last = parts.len() - 1;
    let mut i: usize = 1;
    while i < last
        invariant
            1 <= i <= last,
            last == parts.len() - 1,
            views == string_views(parts@),
            text@ == comma_list(views.take(i as int)),
        decreases last - i,
    {
        proof {
            assert(views.take(i as int + 1).drop_last() =~= views.take(i as int));
            assert(views.take(i as int + 1).last() == parts@[i as int]@);
        }
        text.append(", ");
        text.append(parts[i].as_str());
        i += 1;
    }
    proof {
        assert(views.take(last as int) =~= views.drop_last());
        assert(views.take(1) =~= seq![views[0]]);
    }
    text.append(", and ");
    text.append(parts[last].as_str());
    text
}

/// The parts of a reassignment sentence, one per kind of item in use.
pub open spec fn usage_parts(usage: CategoryUsage) -> Seq<Seq<char>> {
    let events = if usage.events > 0 {
        seq![decimal_chars(usage.events as nat) + " standalone event"@ + plural_suffix(usage.events as int)]
    } else {
        Seq::empty()
    };
    let series = if usage.series > 0 {
        seq![decimal_chars(usage.series as nat) + " recurring series"@]
    } else {
        Seq::empty()
    };
    let exceptions = if usage.exceptions > 0 {
        seq![decimal_chars(usage.exceptions as nat) + " modified occurrence"@ + plural_suffix(usage.exceptions as int)]
    } else {
        Seq::empty()
    };
    events + series + exceptions
}

impl CategoryUsage {
    /// The sentence telling which items will move to the replacement
    /// category.
    pub fn describes_reassignment(self) -> (text: String)
        ensures
            text@ == joined_text(usage_parts(self)) + " will move to the replacement category."@,
    {
        let mut parts: Vec<String> = Vec::new();
        if self.events > 0 {
            let mut p = decimal_text(self.events as u64);
            p.append(" standalone event");
            p.append(plural(self.events));
            parts.push(p);
        }
        if self.series > 0 {
            let mut p = decimal_text(self.series as u64);
            p.append(" recurring series");
            parts.push(p);
        }
        if self.exceptions > 0 {
            let mut p = decimal_text(self.exceptions as u64);
            p.append(" modified occurrence");
            p.append(plural(self.exceptions));
            parts.push(p);
        }
        proof {
            assert(string_views(parts@) =~= usage_parts(self));
        }
        let mut text = join_parts(parts.as_slice());
        text.append(" will move to the replacement category.");
        text
    }
}

} // verus!

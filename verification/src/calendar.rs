//! Calendar dates and the local time of message timestamps.

use vstd::prelude::*;

use chrono::{Datelike, TimeZone, Timelike};

use crate::error::AppError;
use crate::text::{self, padded_text};
use crate::words::{self, trim_blanks};

verus! {

/// A day of the proleptic Gregorian calendar.
#[derive(Debug, Clone, Copy, PartialEq, Eq, Structural)]
pub struct CalendarDate {
    pub year: i32,
    pub month: u32,
    pub day: u32,
}

/// What a clock on the wall shows, and how far it is ahead of UTC in seconds.
#[derive(Debug, Clone, Copy, PartialEq, Eq, Structural)]
pub struct LocalTime {
    pub date: CalendarDate,
    pub hour: u32,
    pub minute: u32,
    pub second: u32,
    pub offset_seconds: i32,
}

pub open spec fn is_leap_year(year: int) -> bool {
    year % 4 == 0 && (year % 100 != 0 || year % 400 == 0)
}

pub open spec fn days_in_month(year: int, month: int) -> int {
    if month == 2 {
        if is_leap_year(year) {
            29
        } else {
            28
        }
    } else if month == 4 || month == 6 || month == 9 || month == 11 {
        30
    } else {
        31
    }
}

/// The days of a year before the first of a month.
pub open spec fn days_before_month(year: int, month: int) -> int
    decreases month,
{
    if month <= 1 {
        0
    } else {
        days_before_month(year, month - 1) + days_in_month(year, month - 1)
    }
}

/// The days from the first of January of year zero to that of `year`.
pub open spec fn days_before_year(year: int) -> int {
    365 * year + (year + 3) / 4 - (year + 99) / 100 + (year + 399) / 400
}

impl CalendarDate {
    /// The date exists in the calendar.
    pub open spec fn is_valid(self) -> bool {
        1 <= self.month <= 12 && 1 <= self.day <= days_in_month(
            self.year as int,
            self.month as int,
        )
    }

    /// The days from the first of January of year zero to this date.
    pub open spec fn day_number(self) -> int {
        days_before_year(self.year as int) + days_before_month(self.year as int, self.month as int)
            + self.day - 1
    }

    /// This date is earlier than `other`.
    pub open spec fn is_before(self, other: CalendarDate) -> bool {
        ||| self.year < other.year
        ||| self.year == other.year && self.month < other.month
        ||| self.year == other.year && self.month == other.month && self.day < other.day
    }

    /// Whether this date is earlier than `other`.
    pub fn precedes(&self, other: &CalendarDate) -> (earlier: bool)
        ensures
            earlier == self.is_before(*other),
    {
        self.year < other.year || (self.year == other.year && (self.month < other.month || (
        self.month == other.month && self.day < other.day)))
    }
}

/// The day number of the first of January 1970.
pub open spec fn epoch_day() -> int {
    719528
}

impl LocalTime {
    pub open spec fn is_valid(self) -> bool {
        &&& self.date.is_valid()
        &&& self.hour < 24
        &&& self.minute < 60
        &&& self.second < 60
        &&& -86400 < self.offset_seconds < 86400
    }

    /// The seconds from midnight of the first of January 1970, on this clock.
    pub open spec fn wall_seconds(self) -> int {
        (self.date.day_number() - epoch_day()) * 86400 + self.hour * 3600 + self.minute * 60
            + self.second
    }

    /// This is what a clock shows at a timestamp, given in milliseconds since
    /// the start of 1970 in UTC.
    pub open spec fn shows(self, timestamp_ms: int) -> bool {
        self.is_valid() && self.wall_seconds() == timestamp_ms / 1000 + self.offset_seconds
    }
}

/// The first and the last millisecond that have a calendar date: years -262143
/// to 262142 in UTC.
pub open spec fn has_local_time(timestamp_ms: int) -> bool {
    -8334601228800000 <= timestamp_ms <= 8210266876799999
}

/// `chrono::Local.timestamp_millis_opt(..).single()` and the fields of the time
/// that it gives. There is one for every timestamp in chrono's range and none
/// for any other. The fields are those of a calendar date and a time of day;
/// they are the UTC time moved by the offset, which is less than a day. Which
/// offset it is depends on the time zone of the machine, so nothing more is said
/// of it.
#[verifier::external_body]
fn local_time(timestamp_ms: i64) -> (time: Option<LocalTime>)
    ensures
        time is Some == has_local_time(timestamp_ms as int),
        time matches Some(shown) ==> shown.shows(timestamp_ms as int),
{
    let found = chrono::Local.timestamp_millis_opt(timestamp_ms).single();
    found.map(|time| LocalTime {
        date: CalendarDate { year: time.year(), month: time.month(), day: time.day() },
        hour: time.hour(),
        minute: time.minute(),
        second: time.second(),
        offset_seconds: time.offset().local_minus_utc(),
    })
}

/// The local time of a message timestamp.
pub fn timestamp_to_local(timestamp_ms: i64) -> (result: Result<LocalTime, AppError>)
    ensures
        match result {
            Ok(time) => has_local_time(timestamp_ms as int) && time.shows(timestamp_ms as int),
            Err(error) => !has_local_time(timestamp_ms as int) && error is InvalidTimestamp,
        },
{
    match local_time(timestamp_ms) {
        Some(time) => Ok(time),
        None => Err(AppError::InvalidTimestamp),
    }
}

/// The local date of a message timestamp.
pub fn timestamp_date(timestamp_ms: i64) -> (date: Option<CalendarDate>)
    ensures
        date is Some == has_local_time(timestamp_ms as int),
        date matches Some(day) ==> day.is_valid() && exists|time: LocalTime| #[trigger]
            time.shows(timestamp_ms as int) && time.date == day,
{
    match local_time(timestamp_ms) {
        Some(time) => {
            assert(time.shows(timestamp_ms as int));
            Some(time.date)
        },
        None => None,
    }
}

// ---------------------------------------------------------------------------
// Date ranges
// ---------------------------------------------------------------------------

/// A date lies in a range whose ends are both part of it; a missing end leaves
/// the range open.
pub open spec fn date_in_range(
    date: CalendarDate,
    start: Option<CalendarDate>,
    end: Option<CalendarDate>,
) -> bool {
    &&& start matches Some(first) ==> !date.is_before(first)
    &&& end matches Some(last) ==> !last.is_before(date)
}

/// The range ends before it starts.
pub open spec fn is_reversed(start: Option<CalendarDate>, end: Option<CalendarDate>) -> bool {
    start is Some && end is Some && end->0.is_before(start->0)
}

pub fn range_is_reversed(start: Option<CalendarDate>, end: Option<CalendarDate>) -> (reversed: bool)
    ensures
        reversed == is_reversed(start, end),
{
    match (start, end) {
        (Some(first), Some(last)) => last.precedes(&first),
        _ => false,
    }
}

pub fn date_is_in_range(
    date: CalendarDate,
    start: Option<CalendarDate>,
    end: Option<CalendarDate>,
) -> (inside: bool)
    ensures
        inside == date_in_range(date, start, end),
{
    let late_enough = match start {
        Some(first) => !date.precedes(&first),
        None => true,
    };
    let early_enough = match end {
        Some(last) => !last.precedes(&date),
        None => true,
    };
    late_enough && early_enough
}

/// Whether a message belongs to a date range. A message without a timestamp,
/// which counts as zero, belongs to every range.
pub fn timestamp_is_in_range(
    timestamp_ms: i64,
    start: Option<CalendarDate>,
    end: Option<CalendarDate>,
) -> (result: Result<bool, AppError>)
    ensures
        timestamp_ms == 0 ==> result == Ok::<bool, AppError>(true),
        match result {
            Ok(inside) => {
                &&& has_local_time(timestamp_ms as int)
                &&& timestamp_ms != 0 ==> exists|time: LocalTime| #[trigger]
                    time.shows(timestamp_ms as int) && inside == date_in_range(
                        time.date,
                        start,
                        end,
                    )
            },
            Err(error) => !has_local_time(timestamp_ms as int) && error is InvalidTimestamp,
        },
{
    if timestamp_ms == 0 {
        return Ok(true);
    }
    match timestamp_to_local(timestamp_ms) {
        Ok(time) => {
            assert(time.shows(timestamp_ms as int));
            Ok(date_is_in_range(time.date, start, end))
        },
        Err(error) => Err(error),
    }
}

/// A range without ends holds every date.
pub proof fn an_open_range_holds_every_date(date: CalendarDate)
    ensures
        date_in_range(date, None, None),
{
}

/// Both ends of a range that is not reversed belong to it.
pub proof fn a_range_holds_both_its_ends(start: CalendarDate, end: CalendarDate)
    requires
        !is_reversed(Some(start), Some(end)),
    ensures
        date_in_range(start, Some(start), Some(end)),
        date_in_range(end, Some(start), Some(end)),
{
}

/// A reversed range holds no date.
pub proof fn a_reversed_range_is_empty(start: CalendarDate, end: CalendarDate, date: CalendarDate)
    requires
        is_reversed(Some(start), Some(end)),
    ensures
        !date_in_range(date, Some(start), Some(end)),
{
}

// ---------------------------------------------------------------------------
// Dates and times as text
// ---------------------------------------------------------------------------

/// A year in four digits; one outside 0 to 9999 has a sign in front and as many
/// digits as it needs.
pub open spec fn year_text(year: int) -> Seq<char> {
    if 0 <= year <= 9999 {
        text::padded(year as nat, 4)
    } else if year < 0 {
        seq!['-'] + text::padded((-year) as nat, 4)
    } else {
        seq!['+'] + text::padded(year as nat, 4)
    }
}

/// A date as `YYYY-MM-DD`.
pub open spec fn date_text(date: CalendarDate) -> Seq<char> {
    year_text(date.year as int).push('-') + text::padded(date.month as nat, 2).push('-')
        + text::padded(date.day as nat, 2)
}

/// The distance to UTC as `+HH:MM`, rounded to minutes; `Z` for none.
pub open spec fn offset_text(offset_seconds: int) -> Seq<char> {
    let distance = if offset_seconds < 0 {
        -offset_seconds
    } else {
        offset_seconds
    };
    let minutes = (distance + 30) / 60;
    if offset_seconds == 0 {
        seq!['Z']
    } else {
        seq![
            if offset_seconds < 0 {
                '-'
            } else {
                '+'
            },
        ] + text::padded((minutes / 60) as nat, 2).push(':') + text::padded(
            (minutes % 60) as nat,
            2,
        )
    }
}

/// A time as `YYYY-MM-DDTHH:MM:SS+HH:MM`.
pub open spec fn time_text(time: LocalTime) -> Seq<char> {
    date_text(time.date).push('T') + text::padded(time.hour as nat, 2).push(':') + text::padded(
        time.minute as nat,
        2,
    ).push(':') + text::padded(time.second as nat, 2) + offset_text(time.offset_seconds as int)
}

proof fn lemma_padded_has_no_slash(number: nat, width: nat)
    ensures
        forall|i: int|
            0 <= i < text::padded(number, width).len() ==> #[trigger] text::padded(
                number,
                width,
            )[i] != '/',
{
    text::reading_undoes_padding(number, width);
    text::a_value_is_made_of_digits(text::padded(number, width));
    assert forall|i: int| 0 <= i < text::padded(number, width).len() implies #[trigger] text::padded(
        number,
        width,
    )[i] != '/' by {
        assert(text::is_digit(text::padded(number, width)[i]));
    }
}

/// A date as text names an entry of a folder: it holds no slash.
pub proof fn lemma_date_text_has_no_slash(date: CalendarDate)
    ensures
        !date_text(date).contains('/'),
        date_text(date).len() > 0,
{
    let distance = if date.year < 0 {
        (-date.year) as nat
    } else {
        date.year as nat
    };
    lemma_padded_has_no_slash(distance, 4);
    lemma_padded_has_no_slash(date.month as nat, 2);
    lemma_padded_has_no_slash(date.day as nat, 2);
    let year = year_text(date.year as int);
    assert forall|i: int| 0 <= i < year.len() implies #[trigger] year[i] != '/' by {
        if 0 <= date.year <= 9999 {
            assert(year[i] == text::padded(distance, 4)[i]);
        } else if i > 0 {
            assert(year[i] == text::padded(distance, 4)[i - 1]);
        }
    }
    let month = text::padded(date.month as nat, 2).push('-');
    let day = text::padded(date.day as nat, 2);
    let whole = date_text(date);
    assert forall|i: int| 0 <= i < whole.len() implies #[trigger] whole[i] != '/' by {
        if i < year.len() {
            assert(whole[i] == year[i]);
        } else if i == year.len() {
        } else if i < year.len() + 1 + month.len() {
            assert(whole[i] == month[i - year.len() - 1]);
        } else {
            assert(whole[i] == day[i - year.len() - 1 - month.len()]);
        }
    }
}

fn year_to_text(year: i32) -> (shown: String)
    ensures
        shown@ == year_text(year as int),
{
    if 0 <= year && year <= 9999 {
        padded_text(year as u64, 4)
    } else {
        let mut shown = String::new();
        let distance: u64 = if year < 0 {
            shown.push('-');
            (-(year as i64)) as u64
        } else {
            shown.push('+');
            year as u64
        };
        let digits = padded_text(distance, 4);
        assert(shown@ =~= seq![if year < 0 { '-' } else { '+' }]);
        shown.append(digits.as_str());
        shown
    }
}

impl CalendarDate {
    /// The date as `YYYY-MM-DD`.
    pub fn to_text(&self) -> (shown: String)
        ensures
            shown@ == date_text(*self),
    {
        let mut shown = year_to_text(self.year);
        shown.push('-');
        let mut month = padded_text(self.month as u64, 2);
        month.push('-');
        shown.append(month.as_str());
        let day = padded_text(self.day as u64, 2);
        shown.append(day.as_str());
        shown
    }
}

fn offset_to_text(offset_seconds: i32) -> (shown: String)
    requires
        -86400 < offset_seconds < 86400,
    ensures
        shown@ == offset_text(offset_seconds as int),
{
    let mut shown = String::new();
    if offset_seconds == 0 {
        shown.push('Z');
        assert(shown@ =~= seq!['Z']);
        return shown;
    }
    let distance: u64 = if offset_seconds < 0 {
        shown.push('-');
        (-offset_seconds) as u64
    } else {
        shown.push('+');
        offset_seconds as u64
    };
    assert(shown@ =~= seq![if offset_seconds < 0 { '-' } else { '+' }]);
    let minutes: u64 = (distance + 30) / 60;
    let mut hours = padded_text(minutes / 60, 2);
    hours.push(':');
    shown.append(hours.as_str());
    let rest = padded_text(minutes % 60, 2);
    shown.append(rest.as_str());
    shown
}

impl LocalTime {
    /// The time as `YYYY-MM-DDTHH:MM:SS+HH:MM`.
    pub fn to_text(&self) -> (shown: String)
        requires
            self.is_valid(),
        ensures
            shown@ == time_text(*self),
    {
        let mut shown = self.date.to_text();
        shown.push('T');
        let mut hour = padded_text(self.hour as u64, 2);
        hour.push(':');
        shown.append(hour.as_str());
        let mut minute = padded_text(self.minute as u64, 2);
        minute.push(':');
        shown.append(minute.as_str());
        let second = padded_text(self.second as u64, 2);
        shown.append(second.as_str());
        let offset = offset_to_text(self.offset_seconds);
        shown.append(offset.as_str());
        shown
    }
}

/// The distance to UTC as `+HH:MM`, with seconds where there are any.
pub open spec fn zone_text(offset_seconds: int) -> Seq<char> {
    let distance = if offset_seconds < 0 {
        -offset_seconds
    } else {
        offset_seconds
    };
    let shown = seq![
        if offset_seconds < 0 {
            '-'
        } else {
            '+'
        },
    ] + text::padded((distance / 3600) as nat, 2).push(':') + text::padded(
        (distance / 60 % 60) as nat,
        2,
    );
    if distance % 60 == 0 {
        shown
    } else {
        shown.push(':') + text::padded((distance % 60) as nat, 2)
    }
}

/// A time as `YYYYMMDD-HHMMSS`.
pub open spec fn stamp_text(time: LocalTime) -> Seq<char> {
    year_text(time.date.year as int) + text::padded(time.date.month as nat, 2) + text::padded(
        time.date.day as nat,
        2,
    ).push('-') + text::padded(time.hour as nat, 2) + text::padded(time.minute as nat, 2)
        + text::padded(time.second as nat, 2)
}

impl LocalTime {
    /// The distance to UTC as `+HH:MM`, with seconds where there are any.
    pub fn zone_to_text(&self) -> (shown: String)
        requires
            self.is_valid(),
        ensures
            shown@ == zone_text(self.offset_seconds as int),
    {
        let mut shown = String::new();
        let distance: u64 = if self.offset_seconds < 0 {
            shown.push('-');
            (-self.offset_seconds) as u64
        } else {
            shown.push('+');
            self.offset_seconds as u64
        };
        assert(shown@ =~= seq![if self.offset_seconds < 0 { '-' } else { '+' }]);
        let mut hours = padded_text(distance / 3600, 2);
        hours.push(':');
        shown.append(hours.as_str());
        shown.append(padded_text(distance / 60 % 60, 2).as_str());
        if distance % 60 != 0 {
            shown.push(':');
            shown.append(padded_text(distance % 60, 2).as_str());
        }
        shown
    }

    /// The time as `YYYYMMDD-HHMMSS`.
    pub fn to_stamp(&self) -> (shown: String)
        ensures
            shown@ == stamp_text(*self),
    {
        let mut shown = year_to_text(self.date.year);
        shown.append(padded_text(self.date.month as u64, 2).as_str());
        let mut day = padded_text(self.date.day as u64, 2);
        day.push('-');
        shown.append(day.as_str());
        shown.append(padded_text(self.hour as u64, 2).as_str());
        shown.append(padded_text(self.minute as u64, 2).as_str());
        shown.append(padded_text(self.second as u64, 2).as_str());
        shown
    }
}

/// The date that chrono reads from a text by the pattern `%Y-%m-%d`.
pub uninterp spec fn date_read(date: Seq<char>) -> Option<CalendarDate>;

/// A date that exists, in one of the years that chrono knows.
pub open spec fn is_known_date(date: CalendarDate) -> bool {
    date.is_valid() && -262143 <= date.year <= 262142
}

/// `chrono::NaiveDate::parse_from_str` with the pattern `%Y-%m-%d`: what it reads
/// depends on the text alone, every date that it reads exists, and a date written
/// as `YYYY-MM-DD` is read back.
#[verifier::external_body]
pub(crate) fn parse_date(date: &str) -> (read: Option<CalendarDate>)
    ensures
        read == date_read(date@),
        read matches Some(day) ==> day.is_valid(),
        forall|day: CalendarDate|
            is_known_date(day) && date@ == #[trigger] date_text(day) ==> read == Some(day),
{
    chrono::NaiveDate::parse_from_str(date, "%Y-%m-%d").ok().map(
        |day| CalendarDate { year: day.year(), month: day.month(), day: day.day() },
    )
}

/// What was typed in is a text, with or without blanks around it.
pub open spec fn is_typed(typed: Seq<char>, wanted: Seq<char>) -> bool {
    words::without_trailing_blanks(words::without_leading_blanks(typed)) == wanted
}

/// The date that a text typed in stands for.
pub open spec fn typed_date(typed: Seq<char>) -> Option<CalendarDate> {
    date_read(words::without_trailing_blanks(words::without_leading_blanks(typed)))
}

/// The date that an entry shows while it is being typed in, taken as it stands.
pub fn date_shown(entered: &str) -> (date: Option<CalendarDate>)
    ensures
        date == date_read(entered@),
        date matches Some(day) ==> day.is_valid(),
        forall|day: CalendarDate|
            is_known_date(day) && entered@ == #[trigger] date_text(day) ==> date == Some(day),
{
    parse_date(entered)
}

/// The date that a text typed in stands for; blanks around it do not count.
pub fn parsed_date(typed: &str) -> (date: Option<CalendarDate>)
    ensures
        date == typed_date(typed@),
        date matches Some(day) ==> day.is_valid(),
        forall|day: CalendarDate|
            is_known_date(day) && is_typed(typed@, #[trigger] date_text(day)) ==> date == Some(day),
{
    parse_date(trim_blanks(typed).as_str())
}

} // verus!

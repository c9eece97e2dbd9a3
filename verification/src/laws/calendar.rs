//! Dates and times.

use vstd::prelude::*;

use crate::calendar::{self, CalendarDate, LocalTime};
use crate::model;
use crate::text;
use crate::words;

verus! {

// ---------------------------------------------------------------------------
// Days
// ---------------------------------------------------------------------------

proof fn lemma_year_length(year: int)
    ensures
        calendar::days_before_year(year + 1) == calendar::days_before_year(year)
            + if calendar::is_leap_year(year) {
            366int
        } else {
            365int
        },
{
}

proof fn lemma_months(year: int)
    ensures
        calendar::days_before_month(year, 1) == 0,
        calendar::days_before_month(year, 2) == 31,
        calendar::days_before_month(year, 3) == 31 + calendar::days_in_month(year, 2),
        calendar::days_before_month(year, 4) == 62 + calendar::days_in_month(year, 2),
        calendar::days_before_month(year, 5) == 92 + calendar::days_in_month(year, 2),
        calendar::days_before_month(year, 6) == 123 + calendar::days_in_month(year, 2),
        calendar::days_before_month(year, 7) == 153 + calendar::days_in_month(year, 2),
        calendar::days_before_month(year, 8) == 184 + calendar::days_in_month(year, 2),
        calendar::days_before_month(year, 9) == 215 + calendar::days_in_month(year, 2),
        calendar::days_before_month(year, 10) == 245 + calendar::days_in_month(year, 2),
        calendar::days_before_month(year, 11) == 276 + calendar::days_in_month(year, 2),
        calendar::days_before_month(year, 12) == 306 + calendar::days_in_month(year, 2),
        calendar::days_before_month(year, 13) == 337 + calendar::days_in_month(year, 2),
{
    reveal_with_fuel(calendar::days_before_month, 14);
}

/// A year has 366 days where its number is a multiple of four, but not of a hundred
/// or else of four hundred; the months have the days that they have.
pub proof fn months_and_years_have_their_days(year: int)
    ensures
        year % 400 == 0 ==> calendar::is_leap_year(year),
        year % 100 == 0 && year % 400 != 0 ==> !calendar::is_leap_year(year),
        year % 4 == 0 && year % 100 != 0 ==> calendar::is_leap_year(year),
        year % 4 != 0 ==> !calendar::is_leap_year(year),
        calendar::days_in_month(year, 1) == 31,
        calendar::days_in_month(year, 2) == if calendar::is_leap_year(year) {
            29int
        } else {
            28int
        },
        calendar::days_in_month(year, 3) == 31,
        calendar::days_in_month(year, 4) == 30,
        calendar::days_in_month(year, 5) == 31,
        calendar::days_in_month(year, 6) == 30,
        calendar::days_in_month(year, 7) == 31,
        calendar::days_in_month(year, 8) == 31,
        calendar::days_in_month(year, 9) == 30,
        calendar::days_in_month(year, 10) == 31,
        calendar::days_in_month(year, 11) == 30,
        calendar::days_in_month(year, 12) == 31,
{
}

/// Days are counted one by one: the next day of a month, the first of the next month
/// after the last of one, the first of January after the last of December. The
/// first of January 1970 is where timestamps start.
pub proof fn days_follow_one_another(date: CalendarDate, next: CalendarDate)
    requires
        date.is_valid(),
        ({
            ||| next.year == date.year && next.month == date.month && next.day == date.day + 1
            ||| next.year == date.year && next.month == date.month + 1 && next.day == 1 && date.day
                == calendar::days_in_month(date.year as int, date.month as int)
            ||| next.year == date.year + 1 && next.month == 1 && next.day == 1 && date.month == 12
                && date.day == 31
        }),
    ensures
        next.day_number() == date.day_number() + 1,
        date.year == 1970 && date.month == 1 && date.day == 1 ==> date.day_number()
            == calendar::epoch_day(),
{
    lemma_months(date.year as int);
    lemma_months(next.year as int);
    lemma_year_length(date.year as int);
}

proof fn lemma_day_in_year(date: CalendarDate)
    requires
        date.is_valid(),
    ensures
        calendar::days_before_year(date.year as int) <= date.day_number()
            < calendar::days_before_year(date.year as int + 1),
{
    lemma_months(date.year as int);
    lemma_year_length(date.year as int);
}

proof fn lemma_years_ascend(first: int, second: int)
    requires
        first <= second,
    ensures
        calendar::days_before_year(first) <= calendar::days_before_year(second),
    decreases second - first,
{
    if first < second {
        lemma_years_ascend(first, second - 1);
        lemma_year_length(second - 1);
    }
}

proof fn lemma_months_ascend(year: int, first: int, second: int)
    requires
        1 <= first < second <= 12,
    ensures
        calendar::days_before_month(year, first) + calendar::days_in_month(year, first)
            <= calendar::days_before_month(year, second),
    decreases second - first,
{
    if first + 1 < second {
        lemma_months_ascend(year, first, second - 1);
    }
}

/// A date is before another exactly where fewer days lie before it.
pub proof fn earlier_dates_have_smaller_numbers(left: CalendarDate, right: CalendarDate)
    requires
        left.is_valid(),
        right.is_valid(),
    ensures
        left.is_before(right) <==> left.day_number() < right.day_number(),
        left == right <==> left.day_number() == right.day_number(),
{
    lemma_day_in_year(left);
    lemma_day_in_year(right);
    if left.year < right.year {
        lemma_years_ascend(left.year as int + 1, right.year as int);
    } else if right.year < left.year {
        lemma_years_ascend(right.year as int + 1, left.year as int);
    } else if left.month < right.month {
        lemma_months_ascend(left.year as int, left.month as int, right.month as int);
    } else if right.month < left.month {
        lemma_months_ascend(left.year as int, right.month as int, left.month as int);
    }
}

/// A date lies in a range where its day is not before the first and not after the
/// last; a range is reversed where its last day is before its first.
pub proof fn a_range_goes_from_day_to_day(
    date: CalendarDate,
    start: CalendarDate,
    end: CalendarDate,
)
    requires
        date.is_valid(),
        start.is_valid(),
        end.is_valid(),
    ensures
        calendar::date_in_range(date, Some(start), Some(end)) <==> start.day_number()
            <= date.day_number() <= end.day_number(),
        calendar::date_in_range(date, Some(start), None) <==> start.day_number()
            <= date.day_number(),
        calendar::date_in_range(date, None, Some(end)) <==> date.day_number() <= end.day_number(),
        calendar::date_in_range(date, None, None),
        calendar::is_reversed(Some(start), Some(end)) <==> end.day_number() < start.day_number(),
        !calendar::is_reversed(Some(start), None),
        !calendar::is_reversed(None, Some(end)),
        !calendar::is_reversed(None, None),
{
    earlier_dates_have_smaller_numbers(date, start);
    earlier_dates_have_smaller_numbers(end, date);
    earlier_dates_have_smaller_numbers(end, start);
}

// ---------------------------------------------------------------------------
// Clocks
// ---------------------------------------------------------------------------

/// A clock shows one time at a timestamp: two that are as far from UTC show the same.
pub proof fn a_clock_shows_one_time(left: LocalTime, right: LocalTime, timestamp_ms: int)
    requires
        left.shows(timestamp_ms),
        right.shows(timestamp_ms),
        left.offset_seconds == right.offset_seconds,
    ensures
        left == right,
{
    let a = left.date.day_number();
    let b = right.date.day_number();
    let x = left.hour * 3600 + left.minute * 60 + left.second;
    let y = right.hour * 3600 + right.minute * 60 + right.second;
    assert(0 <= x < 86400);
    assert(0 <= y < 86400);
    assert(a == b);
    assert(x == y);
    earlier_dates_have_smaller_numbers(left.date, right.date);
}

/// At the start of timestamps a clock in UTC shows midnight of the first of January
/// 1970. A thousand milliseconds are a second, sixty seconds a minute, sixty minutes
/// an hour, and twenty-four hours a day.
pub proof fn clocks_count_seconds(time: LocalTime, later: LocalTime, timestamp_ms: int)
    requires
        time.is_valid(),
        later.is_valid(),
        later.offset_seconds == time.offset_seconds,
    ensures
        time.date.year == 1970 && time.date.month == 1 && time.date.day == 1 && time.hour == 0
            && time.minute == 0 && time.second == 0 && time.offset_seconds == 0 ==> (time.shows(
            timestamp_ms,
        ) <==> 0 <= timestamp_ms < 1000),
        time.shows(timestamp_ms) && later.date == time.date && later.hour == time.hour
            && later.minute == time.minute && later.second == time.second + 1 ==> later.shows(
            timestamp_ms + 1000,
        ),
        time.shows(timestamp_ms) && later.date == time.date && later.hour == time.hour
            && later.minute == time.minute + 1 && later.second == time.second ==> later.shows(
            timestamp_ms + 60000,
        ),
        time.shows(timestamp_ms) && later.date == time.date && later.hour == time.hour + 1
            && later.minute == time.minute && later.second == time.second ==> later.shows(
            timestamp_ms + 3600000,
        ),
        time.shows(timestamp_ms) && later.date.day_number() == time.date.day_number() + 1
            && later.hour == time.hour && later.minute == time.minute && later.second
            == time.second ==> later.shows(timestamp_ms + 86400000),
{
    lemma_months(time.date.year as int);
    assert((timestamp_ms + 1000) / 1000 == timestamp_ms / 1000 + 1);
    assert((timestamp_ms + 60000) / 1000 == timestamp_ms / 1000 + 60);
    assert((timestamp_ms + 3600000) / 1000 == timestamp_ms / 1000 + 3600);
    assert((timestamp_ms + 86400000) / 1000 == timestamp_ms / 1000 + 86400);
}

/// A clock to the east is ahead by as much as it is farther from UTC.
pub proof fn clocks_to_the_east_are_ahead(east: LocalTime, west: LocalTime, timestamp_ms: int)
    requires
        east.is_valid(),
        west.shows(timestamp_ms),
    ensures
        east.shows(timestamp_ms) <==> east.wall_seconds() - west.wall_seconds()
            == east.offset_seconds - west.offset_seconds,
{
}

/// The timestamps that have a local time are those at which a clock in UTC shows a
/// year from -262143 to 262142.
pub proof fn the_known_years_have_local_times(time: LocalTime, timestamp_ms: int)
    requires
        time.shows(timestamp_ms),
        time.offset_seconds == 0,
    ensures
        calendar::has_local_time(timestamp_ms) <==> -262143 <= time.date.year <= 262142,
{
    let year = time.date.year as int;
    let day = time.date.day_number();
    lemma_day_in_year(time.date);
    let least = calendar::days_before_year(-262143);
    let above = calendar::days_before_year(262143);
    assert((least - calendar::epoch_day()) * 86400000 == -8334601228800000);
    assert((above - calendar::epoch_day()) * 86400000 - 1 == 8210266876799999);
    let seconds = time.hour * 3600 + time.minute * 60 + time.second;
    assert(0 <= seconds < 86400);
    assert(timestamp_ms / 1000 == (day - calendar::epoch_day()) * 86400 + seconds);
    if year < -262143 {
        lemma_years_ascend(year + 1, -262143);
    } else {
        lemma_years_ascend(-262143, year);
    }
    if year > 262142 {
        lemma_years_ascend(262143, year);
    } else {
        lemma_years_ascend(year + 1, 262143);
    }
}

// ---------------------------------------------------------------------------
// Text
// ---------------------------------------------------------------------------

/// A number in two digits holds its tens and its ones.
pub proof fn two_digits_hold_a_number(number: nat)
    requires
        number < 100,
    ensures
        text::padded(number, 2).len() == 2,
        text::digits_value(text::padded(number, 2)) == Some(number),
        text::padded(number, 2)[0] as u32 == '0' as u32 + number / 10,
        text::padded(number, 2)[1] as u32 == '0' as u32 + number % 10,
{
    text::reading_undoes_padding(number, 2);
    reveal_with_fuel(text::decimal, 3);
    if number >= 10 {
        assert(text::decimal(number / 10).len() == 1);
    } else {
        assert(text::padded(number, 2) =~= seq!['0', text::digit_char(number)]);
    }
}

proof fn lemma_four_digits(number: nat)
    requires
        number <= 9999,
    ensures
        text::padded(number, 4).len() == 4,
        text::digits_value(text::padded(number, 4)) == Some(number),
{
    text::reading_undoes_padding(number, 4);
    reveal_with_fuel(text::decimal, 5);
}

/// A date of a year in four digits is written in ten characters: the year, the month
/// and the day, with hyphens between them.
pub proof fn a_date_is_written_year_first(date: CalendarDate)
    requires
        date.is_valid(),
        0 <= date.year <= 9999,
    ensures
        ({
            let shown = calendar::date_text(date);
            &&& shown.len() == 10
            &&& shown[4] == '-' && shown[7] == '-'
            &&& text::digits_value(shown.subrange(0, 4)) == Some(date.year as nat)
            &&& text::digits_value(shown.subrange(5, 7)) == Some(date.month as nat)
            &&& text::digits_value(shown.subrange(8, 10)) == Some(date.day as nat)
        }),
{
    lemma_four_digits(date.year as nat);
    two_digits_hold_a_number(date.month as nat);
    two_digits_hold_a_number(date.day as nat);
    let shown = calendar::date_text(date);
    assert(shown.subrange(0, 4) =~= text::padded(date.year as nat, 4));
    assert(shown.subrange(5, 7) =~= text::padded(date.month as nat, 2));
    assert(shown.subrange(8, 10) =~= text::padded(date.day as nat, 2));
}

/// A year outside four digits has a sign in front.
pub proof fn a_far_year_has_a_sign(year: int)
    ensures
        year < 0 ==> calendar::year_text(year) == seq!['-'] + text::padded((-year) as nat, 4),
        year > 9999 ==> calendar::year_text(year) == seq!['+'] + text::padded(year as nat, 4),
        0 <= year <= 9999 ==> calendar::year_text(year) == text::padded(year as nat, 4),
{
}

/// A time is written as its date, its hour, minute and second, and the distance to
/// UTC.
pub proof fn a_time_is_written_after_its_date(time: LocalTime)
    requires
        time.is_valid(),
        0 <= time.date.year <= 9999,
    ensures
        ({
            let shown = calendar::time_text(time);
            &&& shown.len() >= 19
            &&& shown.subrange(0, 10) == calendar::date_text(time.date)
            &&& shown[10] == 'T' && shown[13] == ':' && shown[16] == ':'
            &&& text::digits_value(shown.subrange(11, 13)) == Some(time.hour as nat)
            &&& text::digits_value(shown.subrange(14, 16)) == Some(time.minute as nat)
            &&& text::digits_value(shown.subrange(17, 19)) == Some(time.second as nat)
            &&& shown.skip(19) == calendar::offset_text(time.offset_seconds as int)
        }),
        ({
            let stamp = calendar::stamp_text(time);
            &&& stamp.len() == 15
            &&& text::digits_value(stamp.subrange(0, 4)) == Some(time.date.year as nat)
            &&& text::digits_value(stamp.subrange(4, 6)) == Some(time.date.month as nat)
            &&& text::digits_value(stamp.subrange(6, 8)) == Some(time.date.day as nat)
            &&& stamp[8] == '-'
            &&& text::digits_value(stamp.subrange(9, 11)) == Some(time.hour as nat)
            &&& text::digits_value(stamp.subrange(11, 13)) == Some(time.minute as nat)
            &&& text::digits_value(stamp.subrange(13, 15)) == Some(time.second as nat)
        }),
{
    a_date_is_written_year_first(time.date);
    lemma_four_digits(time.date.year as nat);
    two_digits_hold_a_number(time.date.month as nat);
    two_digits_hold_a_number(time.date.day as nat);
    two_digits_hold_a_number(time.hour as nat);
    two_digits_hold_a_number(time.minute as nat);
    two_digits_hold_a_number(time.second as nat);
    let shown = calendar::time_text(time);
    assert(shown.subrange(0, 10) =~= calendar::date_text(time.date));
    assert(shown.subrange(11, 13) =~= text::padded(time.hour as nat, 2));
    assert(shown.subrange(14, 16) =~= text::padded(time.minute as nat, 2));
    assert(shown.subrange(17, 19) =~= text::padded(time.second as nat, 2));
    assert(shown.skip(19) =~= calendar::offset_text(time.offset_seconds as int));
    let stamp = calendar::stamp_text(time);
    assert(stamp.subrange(0, 4) =~= text::padded(time.date.year as nat, 4));
    assert(stamp.subrange(4, 6) =~= text::padded(time.date.month as nat, 2));
    assert(stamp.subrange(6, 8) =~= text::padded(time.date.day as nat, 2));
    assert(stamp.subrange(9, 11) =~= text::padded(time.hour as nat, 2));
    assert(stamp.subrange(11, 13) =~= text::padded(time.minute as nat, 2));
    assert(stamp.subrange(13, 15) =~= text::padded(time.second as nat, 2));
}

/// The distance to UTC is written with its sign, hours and minutes: `Z` for none in a
/// time, and with seconds where there are any in the name of a zone.
pub proof fn a_distance_is_written_with_its_sign(hours: nat, minutes: nat, seconds: nat)
    requires
        hours < 24,
        minutes < 60,
        0 < seconds < 60,
    ensures
        ({
            let shown = text::padded(hours, 2).push(':') + text::padded(minutes, 2);
            let whole = (hours * 3600 + minutes * 60) as int;
            &&& whole > 0 ==> calendar::offset_text(whole) == seq!['+'] + shown
            &&& whole > 0 ==> calendar::offset_text(-whole) == seq!['-'] + shown
            &&& calendar::zone_text(whole) == seq!['+'] + shown
            &&& whole > 0 ==> calendar::zone_text(-whole) == seq!['-'] + shown
            &&& calendar::zone_text(whole + seconds) == (seq!['+'] + shown).push(':')
                + text::padded(seconds, 2)
            &&& calendar::zone_text(-whole - seconds) == (seq!['-'] + shown).push(':')
                + text::padded(seconds, 2)
        }),
        calendar::offset_text(0) == seq!['Z'],
        seconds < 30 && hours * 3600 + minutes * 60 > 0 ==> calendar::offset_text(
            (hours * 3600 + minutes * 60 + seconds) as int,
        ) == calendar::offset_text((hours * 3600 + minutes * 60) as int),
        seconds >= 30 ==> calendar::offset_text(
            (hours * 3600 + minutes * 60 + seconds) as int,
        ) == calendar::offset_text((hours * 3600 + minutes * 60 + 60) as int),
{
    let whole = (hours * 3600 + minutes * 60) as int;
    let shown = text::padded(hours, 2).push(':') + text::padded(minutes, 2);
    assert((whole + 30) / 60 == hours * 60 + minutes);
    assert((hours * 60 + minutes) / 60 == hours);
    assert((hours * 60 + minutes) % 60 == minutes);
    assert(whole / 3600 == hours);
    assert(whole / 60 % 60 == minutes);
    assert(whole % 60 == 0);
    assert((whole + seconds) / 3600 == hours);
    assert((whole + seconds) / 60 % 60 == minutes);
    assert((whole + seconds) % 60 == seconds);
    if whole > 0 {
        assert(calendar::offset_text(whole) =~= seq!['+'] + shown);
        assert(calendar::offset_text(-whole) =~= seq!['-'] + shown);
        assert(calendar::zone_text(-whole) =~= seq!['-'] + shown);
    }
    assert(calendar::zone_text(whole) =~= seq!['+'] + shown);
    assert(calendar::zone_text(whole + seconds) =~= (seq!['+'] + shown).push(':') + text::padded(
        seconds,
        2,
    ));
    assert(calendar::zone_text(-whole - seconds) =~= (seq!['-'] + shown).push(':') + text::padded(
        seconds,
        2,
    ));
    if seconds < 30 {
        assert((whole + seconds + 30) / 60 == hours * 60 + minutes);
    } else {
        assert((whole + seconds + 30) / 60 == hours * 60 + minutes + 1);
        assert((whole + 60 + 30) / 60 == hours * 60 + minutes + 1);
    }
}

/// Blanks around a typed date do not count.
pub proof fn blanks_around_a_date_do_not_count(
    front: Seq<char>,
    typed: Seq<char>,
    back: Seq<char>,
)
    requires
        words::all_blank(front),
        words::all_blank(back),
        typed.len() > 0,
        !text::is_blank(typed.first()),
        !text::is_blank(typed.last()),
    ensures
        calendar::typed_date(front + typed + back) == calendar::date_read(typed),
        calendar::is_typed(front + typed + back, typed),
{
    lemma_leading(front, typed + back);
    assert(front + typed + back =~= front + (typed + back));
    assert((typed + back).first() == typed.first());
    lemma_trailing(typed, back);
}

proof fn lemma_leading(front: Seq<char>, rest: Seq<char>)
    requires
        words::all_blank(front),
        rest.len() > 0,
        !text::is_blank(rest.first()),
    ensures
        words::without_leading_blanks(front + rest) == rest,
    decreases front.len(),
{
    let whole = front + rest;
    if front.len() == 0 {
        assert(whole =~= rest);
    } else {
        assert(text::is_blank(front[0]));
        assert(whole.first() == front[0]);
        let shorter = front.drop_first();
        assert(whole.drop_first() =~= shorter + rest);
        assert forall|i: int| 0 <= i < shorter.len() implies text::is_blank(
            #[trigger] shorter[i],
        ) by {
            assert(shorter[i] == front[i + 1]);
        }
        lemma_leading(shorter, rest);
    }
}

proof fn lemma_trailing(rest: Seq<char>, back: Seq<char>)
    requires
        words::all_blank(back),
        rest.len() > 0,
        !text::is_blank(rest.last()),
    ensures
        words::without_trailing_blanks(rest + back) == rest,
    decreases back.len(),
{
    let whole = rest + back;
    if back.len() == 0 {
        assert(whole =~= rest);
    } else {
        assert(text::is_blank(back[back.len() - 1]));
        assert(whole.last() == back[back.len() - 1]);
        let shorter = back.drop_last();
        assert(whole.drop_last() =~= rest + shorter);
        lemma_trailing(rest, shorter);
    }
}

/// A date is valid where its month and its day exist, and a time where its date is valid
/// and its hour, minute and second exist; clocks are less than a day away from UTC.
pub proof fn a_time_is_valid_where_it_exists(time: LocalTime)
    ensures
        time.date.is_valid() <==> (1 <= time.date.month && time.date.month <= 12 && 1
            <= time.date.day && time.date.day <= calendar::days_in_month(
            time.date.year as int,
            time.date.month as int,
        )),
        time.is_valid() <==> (time.date.is_valid() && time.hour <= 23 && time.minute <= 59
            && time.second <= 59 && -86399 <= time.offset_seconds && time.offset_seconds <= 86399),
{
}

/// The time of a message that may be missing is missing where the message is, and else
/// what the clock shows.
pub proof fn a_missing_timestamp_has_no_time(time: LocalTime, milliseconds: i64)
    ensures
        model::shows_optional(None, None),
        !model::shows_optional(Some(time), None),
        !model::shows_optional(None, Some(milliseconds)),
        model::shows_optional(Some(time), Some(milliseconds)) <==> time.shows(
            milliseconds as int,
        ),
{
}

} // verus!

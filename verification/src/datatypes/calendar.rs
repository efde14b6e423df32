//! Dates, times and durations: what their texts denote, and where they stand in time.
use vstd::prelude::*;

use super::binary64::{
    literal, mantissa, nearest_units, negated, of_decimal, of_integer, scaled, spelled, sum,
    unsigned_part, Float,
};
use super::duration::{
    date_fields, duration_of, duration_seconds, field, or_zero, seconds_field, time_fields,
    DurationModel,
};
use super::facets::lemma_trim_kept;
use super::lexical::{bare, lemma_kinds};
use super::natural::{lemma_power_positive, power};
use super::registry::Bindings;
use super::rounding::{lemma_no_exponent, lemma_nearest, size};
use super::temporal::{
    date_of, days_of, no_fields, temporal_of, temporal_seconds, time_of, timezone, TemporalModel,
    TemporalShape,
};
use super::xsd::{xsd_accepts, xsd_same};
use crate::compact_writing::lemma_occurs;
use crate::numbers::{digit_of, digits_of, value_of};
use crate::text::{all_digits, digit, lemma_position, split_once, trim, white_space, Text};

verus! {

// ---------------------------------------------------------------------
// Places in time
// ---------------------------------------------------------------------

/// A whole number in floating point.
pub open spec fn whole(n: int) -> Float {
    Float::Finite { units: n * power(2, 1074) as int }
}

/// Whether a whole number has up to fifty-three binary digits.
pub open spec fn small(n: int) -> bool {
    -0x20_0000_0000_0000 < n < 0x20_0000_0000_0000
}

/// A small whole number is the number nearest to it.
proof fn lemma_nearest_whole(n: int)
    requires
        small(n),
    ensures
        nearest_units(n * power(2, 1074) as int) == whole(n),
        of_integer(n) == whole(n),
{
    let one = power(2, 1074);
    let k = size(n);
    lemma_nearest(n);
    lemma_power_positive(2, 1074);
    assert(power(10, 0) == 1);
    assert(k * 1 * one == k * one) by (nonlinear_arith);
    assert(n < 0 <==> n * one < 0) by (nonlinear_arith)
        requires
            one >= 1,
    ;
    if n < 0 {
        assert(-(n * one) == k * one) by (nonlinear_arith)
            requires
                k == -n,
        ;
    } else {
        assert(n * one == k * one);
    }
}

/// Small whole numbers are added as numbers are.
proof fn lemma_sum_whole(a: int, b: int)
    requires
        small(a + b),
    ensures
        sum(whole(a), whole(b)) == whole(a + b),
{
    let one = power(2, 1074) as int;
    assert(a * one + b * one == (a + b) * one) by (nonlinear_arith);
    lemma_nearest_whole(a + b);
}

/// Small whole numbers are multiplied as numbers are.
proof fn lemma_scaled_whole(a: int, f: nat)
    requires
        small(a * f as int),
    ensures
        scaled(whole(a), f) == whole(a * f as int),
{
    let one = power(2, 1074) as int;
    let g = f as int;
    assert((a * one) * g == (a * g) * one) by (nonlinear_arith);
    lemma_nearest_whole(a * f as int);
}

/// The sign of a whole number is changed as that of numbers is.
proof fn lemma_negated_whole(a: int)
    ensures
        negated(whole(a)) == whole(-a),
{
    let one = power(2, 1074) as int;
    assert(-(a * one) == (-a) * one) by (nonlinear_arith);
}

/// A number, or the given one.
pub open spec fn or_else(n: Option<nat>, default: int) -> int {
    match n {
        Some(n) => n as int,
        None => default,
    }
}

/// The seconds from the start of 1970 in UTC to a date and time of whole seconds: the days of
/// the calendar, and hours, minutes and seconds, less the offset. What is missing is taken from
/// the start of 1972.
pub open spec fn instant(t: TemporalModel, second: int) -> int {
    days_of(
        match t.year {
            Some(year) => year,
            None => 1972,
        },
        or_else(t.month, 1) as nat,
        or_else(t.day, 1) as nat,
    ) * 86400 + or_else(t.hour, 0) * 3600 + or_else(t.minute, 0) * 60 + second - (match t.offset {
        Some(offset) => offset * 60,
        None => 0,
    })
}

/// Dates and times are ordered by where they stand in time.
pub proof fn law_dates_and_times_are_ordered_in_time(t: TemporalModel, second: int)
    requires
        t.second == Some(whole(second)) || t.second is None && second == 0,
        t.year matches Some(year) ==> -10_000_000 <= year <= 10_000_000,
        or_else(t.month, 1) <= 12,
        or_else(t.day, 1) <= 31,
        or_else(t.hour, 0) <= 24,
        or_else(t.minute, 0) <= 59,
        0 <= second < 60,
        t.offset matches Some(offset) ==> -10_000_000 <= offset <= 10_000_000,
    ensures
        temporal_seconds(t) == whole(instant(t, second)),
{
    reveal(temporal_seconds);
    let year = match t.year {
        Some(year) => year,
        None => 1972,
    };
    let days = days_of(year, or_else(t.month, 1) as nat, or_else(t.day, 1) as nat);
    assert(-4_000_000_000 <= days <= 4_000_000_000);
    let hour = or_else(t.hour, 0);
    let minute = or_else(t.minute, 0);
    lemma_nearest_whole(days);
    lemma_scaled_whole(days, 86400);
    lemma_nearest_whole(hour);
    lemma_scaled_whole(hour, 3600);
    lemma_sum_whole(days * 86400, hour * 3600);
    lemma_nearest_whole(minute);
    lemma_scaled_whole(minute, 60);
    lemma_sum_whole(days * 86400 + hour * 3600, minute * 60);
    let so_far = days * 86400 + hour * 3600 + minute * 60;
    assert(0 * power(2, 1074) as int == 0);
    lemma_sum_whole(so_far, second);
    match t.offset {
        Some(offset) => {
            lemma_nearest_whole(offset);
            lemma_scaled_whole(offset, 60);
            lemma_negated_whole(offset * 60);
            lemma_sum_whole(so_far + second, -(offset * 60));
        },
        None => {},
    }
}

/// Durations of whole seconds are ordered by their length, where a year counts as 365 days and
/// a month as 30, and a negative one is less than nothing.
pub proof fn law_durations_are_ordered_by_length(d: DurationModel, second: int)
    requires
        d.seconds == whole(second),
        d.years <= 1_000_000,
        d.months <= 1_000_000,
        d.days <= 1_000_000,
        d.hours <= 1_000_000,
        d.minutes <= 1_000_000,
        0 <= second <= 1_000_000,
    ensures
        ({
            let length = (d.years * 365 + d.months * 30 + d.days) * 86400 + d.hours * 3600
                + d.minutes * 60 + second;
            duration_seconds(d) == whole(
                if d.negative {
                    -length
                } else {
                    length
                },
            )
        }),
{
    reveal(duration_seconds);
    let years = d.years as int;
    let months = d.months as int;
    let days = d.days as int;
    let hours = d.hours as int;
    let minutes = d.minutes as int;
    lemma_nearest_whole(years);
    lemma_scaled_whole(years, 365);
    lemma_scaled_whole(years * 365, 86400);
    lemma_nearest_whole(months);
    lemma_scaled_whole(months, 30);
    lemma_scaled_whole(months * 30, 86400);
    lemma_nearest_whole(days);
    lemma_scaled_whole(days, 86400);
    lemma_nearest_whole(hours);
    lemma_scaled_whole(hours, 3600);
    lemma_nearest_whole(minutes);
    lemma_scaled_whole(minutes, 60);
    let a = years * 365 * 86400;
    let b = a + months * 30 * 86400;
    let c = b + days * 86400;
    let e = c + hours * 3600;
    let f = e + minutes * 60;
    lemma_sum_whole(a, months * 30 * 86400);
    lemma_sum_whole(b, days * 86400);
    lemma_sum_whole(c, hours * 3600);
    lemma_sum_whole(e, minutes * 60);
    lemma_sum_whole(f, second);
    lemma_negated_whole(f + second);
}

// ---------------------------------------------------------------------
// Texts
// ---------------------------------------------------------------------

/// What stands before and after the first of a character.
pub proof fn lemma_split_at(a: Text, c: char, b: Text)
    requires
        !a.contains(c),
    ensures
        split_once(a + seq![c] + b, c) == Some((a, b)),
{
    let w = a + seq![c] + b;
    assert forall|j: int| 0 <= j < a.len() implies #[trigger] w[j] != c by {
        assert(w[j] == a[j]);
        assert(a.contains(a[j]));
    }
    lemma_position(w, c, a.len());
    assert(w.take(a.len() as int) =~= a);
    assert(w.skip(a.len() as int + 1) =~= b);
}

/// Digits are no other characters.
proof fn lemma_only_digits(t: Text, c: char)
    requires
        all_digits(t),
        !digit(c),
    ensures
        !t.contains(c),
        digits_of(t, 10),
{
    assert forall|i: int| 0 <= i < t.len() implies digit_of(#[trigger] t[i]) < 10 by {
        assert(digit(t[i]));
    }
    if t.contains(c) {
        let i = choose|i: int| 0 <= i < t.len() && t[i] == c;
        assert(digit(t[i]));
    }
}

/// A date as it is written.
pub open spec fn date_text(year: Text, month: Text, day: Text) -> Text {
    year + seq!['-'] + (month + seq!['-'] + day)
}

/// A time as it is written.
pub open spec fn time_text(hour: Text, minute: Text, second: Text) -> Text {
    hour + seq![':'] + (minute + seq![':'] + second)
}

/// Whether texts are the digits of a date.
pub open spec fn date_digits(year: Text, month: Text, day: Text) -> bool {
    all_digits(year) && all_digits(month) && all_digits(day) && year.len() >= 4 && value_of(
        year,
        10,
    ) <= 10_000_000 && month.len() == 2 && day.len() == 2
}

/// Whether texts are the digits of a time.
pub open spec fn time_digits(hour: Text, minute: Text, second: Text) -> bool {
    all_digits(hour) && all_digits(minute) && all_digits(second) && hour.len() == 2 && minute.len()
        == 2 && second.len() == 2
}

/// Whether numbers are a day of some month.
pub open spec fn is_day(month: nat, day: nat) -> bool {
    1 <= month <= 12 && 1 <= day <= 31
}

/// Whether numbers are a time of day, the end of the day included.
pub open spec fn is_time(hour: nat, minute: nat, second: nat) -> bool {
    hour <= 23 && minute <= 59 && second <= 59 || hour == 24 && minute == 0 && second == 0
}

/// The date that digits denote.
proof fn lemma_date(year: Text, month: Text, day: Text)
    requires
        date_digits(year, month, day),
    ensures
        date_of(date_text(year, month, day)) == (if is_day(
            value_of(month, 10),
            value_of(day, 10),
        ) {
            Some((value_of(year, 10) as int, value_of(month, 10), value_of(day, 10)))
        } else {
            None
        }),
{
    let t = date_text(year, month, day);
    lemma_only_digits(year, '-');
    lemma_only_digits(month, '-');
    assert(digit(year[0]));
    assert(t[0] == year[0]);
    lemma_split_at(year, '-', month + seq!['-'] + day);
    lemma_split_at(month, '-', day);
}

/// The number of seconds that digits denote.
proof fn lemma_seconds(second: Text)
    requires
        all_digits(second),
        second.len() == 2,
    ensures
        literal(second) == Some(whole(value_of(second, 10) as int)),
        value_of(second, 10) <= 99,
{
    let k = value_of(second, 10);
    let none = Seq::<char>::empty();
    lemma_two_digits(second);
    lemma_only_digits(second, '.');
    assert(digit(second[0]));
    reveal_strlit("inf");
    reveal_strlit("infinity");
    reveal_strlit("nan");
    assert("inf"@.len() == 3 && "infinity"@.len() == 8 && "nan"@.len() == 3);
    assert(unsigned_part(second) == (false, second));
    lemma_no_exponent(second);
    assert forall|j: int| 0 <= j < second.len() implies #[trigger] second[j] != '.' by {
        assert(second.contains(second[j]));
    }
    lemma_position(second, '.', second.len());
    assert(split_once(second, '.') is None);
    assert(second + none =~= second);
    assert(all_digits(none));
    lemma_nearest(k as int);
    assert(mantissa(false, second, 0) == Some(of_decimal(false, k, 0)));
}

/// Two digits denote a number of up to two digits.
proof fn lemma_two_digits(t: Text)
    requires
        all_digits(t),
        t.len() == 2,
    ensures
        value_of(t, 10) <= 99,
        digits_of(t, 10),
{
    reveal_with_fuel(value_of, 3);
    assert(digit(t[0]) && digit(t[1]));
    let first = t.drop_last();
    assert(first.len() == 1 && first.last() == t[0]);
    assert(first.drop_last().len() == 0);
    assert(value_of(first, 10) <= 9);
    assert forall|i: int| 0 <= i < t.len() implies digit_of(#[trigger] t[i]) < 10 by {
        assert(digit(t[i]));
    }
}

/// The time that digits denote.
proof fn lemma_time(hour: Text, minute: Text, second: Text)
    requires
        time_digits(hour, minute, second),
    ensures
        time_of(time_text(hour, minute, second)) == (if is_time(
            value_of(hour, 10),
            value_of(minute, 10),
            value_of(second, 10),
        ) {
            Some(
                (
                    value_of(hour, 10),
                    value_of(minute, 10),
                    whole(value_of(second, 10) as int),
                ),
            )
        } else {
            None
        }),
{
    let s = value_of(second, 10) as int;
    lemma_only_digits(hour, ':');
    lemma_only_digits(minute, ':');
    lemma_split_at(hour, ':', minute + seq![':'] + second);
    lemma_split_at(minute, ':', second);
    lemma_two_digits(hour);
    lemma_seconds(second);
    assert(digit(hour[0]));
    lemma_nearest_whole(60);
    lemma_nearest_whole(0);
    lemma_power_positive(2, 1074);
    let one = power(2, 1074) as int;
    assert((s < 60 <==> s * one < 60 * one) && (s == 0 <==> s * one == 0 * one))
        by (nonlinear_arith)
        requires
            one >= 1,
    ;
}

/// A timezone as it is written: none, `Z`, or a sign, hours and minutes.
pub enum Zone {
    Unstated,
    Utc,
    Offset { behind: bool, hours: Text, minutes: Text },
}

/// A timezone as it is written.
pub open spec fn zone_text(zone: Zone) -> Text {
    match zone {
        Zone::Unstated => Seq::empty(),
        Zone::Utc => seq!['Z'],
        Zone::Offset { behind, hours, minutes } => seq![if behind {
            '-'
        } else {
            '+'
        }] + hours + seq![':'] + minutes,
    }
}

/// Whether a timezone is written with two digits of hours and of minutes.
pub open spec fn zone_digits(zone: Zone) -> bool {
    zone matches Zone::Offset { behind, hours, minutes } ==> all_digits(hours) && all_digits(
        minutes,
    ) && hours.len() == 2 && minutes.len() == 2
}

/// The minutes that a timezone is ahead of UTC.
pub open spec fn zone_minutes(zone: Zone) -> Option<int> {
    match zone {
        Zone::Unstated => None,
        Zone::Utc => Some(0),
        Zone::Offset { behind, hours, minutes } => {
            let n = value_of(hours, 10) * 60 + value_of(minutes, 10);
            Some(
                if behind {
                    -(n as int)
                } else {
                    n as int
                },
            )
        },
    }
}

/// A timezone stands behind the rest.
proof fn lemma_zone(body: Text, zone: Zone)
    requires
        zone_digits(zone),
        body.len() > 0,
        digit(body.last()),
        body.len() > 6 ==> body[body.len() - 6] != '+' && (body[body.len() - 6] != '-'
            || body[body.len() - 3] != ':'),
    ensures
        timezone(body + zone_text(zone)) == Some((body, zone_minutes(zone))),
{
    let t = body + zone_text(zone);
    match zone {
        Zone::Unstated => {
            assert(t =~= body);
        },
        Zone::Utc => {
            assert(t.drop_last() =~= body);
        },
        Zone::Offset { behind, hours, minutes } => {
            let n = t.len() as int;
            lemma_two_digits(hours);
            lemma_two_digits(minutes);
            assert(digit(minutes[0]) && digit(minutes[1]) && digit(hours[0]));
            assert(t.last() == minutes[1]);
            assert(t.subrange(n - 5, n - 3) =~= hours);
            assert(t.subrange(n - 2, n) =~= minutes);
            assert(t.take(n - 6) =~= body);
            assert(t[n - 3] == ':');
        },
    }
}

/// The text of a date is a value just where it names a day of some month, and then of that
/// year, month and day, in its timezone.
pub proof fn law_dates(year: Text, month: Text, day: Text, zone: Zone, bindings: Bindings)
    requires
        date_digits(year, month, day),
        zone_digits(zone),
    ensures
        ({
            let t = date_text(year, month, day) + zone_text(zone);
            let m = value_of(month, 10);
            let d = value_of(day, 10);
            &&& xsd_accepts("date"@, bare(), t, bindings) <==> is_day(m, d)
            &&& temporal_of(TemporalShape::Date, t) == (if is_day(m, d) {
                Some(
                    TemporalModel {
                        year: Some(value_of(year, 10) as int),
                        month: Some(m),
                        day: Some(d),
                        ..no_fields(zone_minutes(zone))
                    },
                )
            } else {
                None
            })
        }),
{
    let body = date_text(year, month, day);
    let t = body + zone_text(zone);
    lemma_kinds();
    lemma_date(year, month, day);
    assert(digit(day[0]) && digit(day[1]) && digit(month[0]) && digit(month[1]) && digit(year[0]));
    assert(body.last() == day[1]);
    assert(body[body.len() - 3] == '-');
    assert(body[body.len() - 6] == '-');
    lemma_zone(body, zone);
    lemma_trimmed(body, zone);
    super::lexical::lemma_bare("date"@, t, bindings);
}

/// A text that starts with no white space and ends with a digit, with a timezone behind it, has
/// no white space around it.
proof fn lemma_trimmed(body: Text, zone: Zone)
    requires
        body.len() > 0,
        !white_space(body[0]),
        digit(body.last()),
        zone_digits(zone),
    ensures
        trim(body + zone_text(zone)) == body + zone_text(zone),
{
    let t = body + zone_text(zone);
    assert(t[0] == body[0]);
    match zone {
        Zone::Unstated => {
            assert(t =~= body);
        },
        Zone::Utc => {
            assert(t.last() == 'Z');
        },
        Zone::Offset { behind, hours, minutes } => {
            assert(digit(minutes[1]));
            assert(t.last() == minutes[1]);
        },
    }
    lemma_trim_kept(t);
}

/// The text of a time is a value just where it is a time of day.
pub proof fn law_times(hour: Text, minute: Text, second: Text, zone: Zone, bindings: Bindings)
    requires
        time_digits(hour, minute, second),
        zone_digits(zone),
    ensures
        ({
            let t = time_text(hour, minute, second) + zone_text(zone);
            let h = value_of(hour, 10);
            let m = value_of(minute, 10);
            let s = value_of(second, 10);
            &&& xsd_accepts("time"@, bare(), t, bindings) <==> is_time(h, m, s)
            &&& temporal_of(TemporalShape::Time, t) == (if is_time(h, m, s) {
                Some(
                    TemporalModel {
                        hour: Some(h),
                        minute: Some(m),
                        second: Some(whole(s as int)),
                        ..no_fields(zone_minutes(zone))
                    },
                )
            } else {
                None
            })
        }),
{
    let body = time_text(hour, minute, second);
    let t = body + zone_text(zone);
    lemma_kinds();
    lemma_time(hour, minute, second);
    assert(digit(hour[0]) && digit(hour[1]) && digit(second[1]) && digit(minute[0]));
    assert(body.last() == second[1]);
    assert(body[0] == hour[0]);
    assert(body[body.len() - 6] == ':');
    lemma_zone(body, zone);
    lemma_trimmed(body, zone);
    super::lexical::lemma_bare("time"@, t, bindings);
}

/// The text of a date and time is a value just where its date and its time are.
pub proof fn law_dates_with_times(
    year: Text,
    month: Text,
    day: Text,
    hour: Text,
    minute: Text,
    second: Text,
    zone: Zone,
    bindings: Bindings,
)
    requires
        date_digits(year, month, day),
        time_digits(hour, minute, second),
        zone_digits(zone),
    ensures
        ({
            let t = date_text(year, month, day) + seq!['T'] + time_text(hour, minute, second)
                + zone_text(zone);
            let valid = is_day(value_of(month, 10), value_of(day, 10)) && is_time(
                value_of(hour, 10),
                value_of(minute, 10),
                value_of(second, 10),
            );
            &&& xsd_accepts("dateTime"@, bare(), t, bindings) <==> valid
            &&& temporal_of(TemporalShape::DateTime, t) == (if valid {
                Some(
                    TemporalModel {
                        year: Some(value_of(year, 10) as int),
                        month: Some(value_of(month, 10)),
                        day: Some(value_of(day, 10)),
                        hour: Some(value_of(hour, 10)),
                        minute: Some(value_of(minute, 10)),
                        second: Some(whole(value_of(second, 10) as int)),
                        offset: zone_minutes(zone),
                    },
                )
            } else {
                None
            })
        }),
{
    let date = date_text(year, month, day);
    let time = time_text(hour, minute, second);
    let body = date + seq!['T'] + time;
    let t = body + zone_text(zone);
    lemma_kinds();
    lemma_date(year, month, day);
    lemma_time(hour, minute, second);
    lemma_only_digits(year, 'T');
    lemma_only_digits(month, 'T');
    lemma_only_digits(day, 'T');
    assert(!date.contains('T')) by {
        if date.contains('T') {
            let i = choose|i: int| 0 <= i < date.len() && date[i] == 'T';
            let n = year.len() as int;
            if i < n {
                assert(year[i] == 'T');
            } else if n < i < n + 3 {
                assert(month[i - n - 1] == 'T');
            } else if i > n + 3 {
                assert(day[i - n - 4] == 'T');
            }
        }
    }
    lemma_split_at(date, 'T', time);
    assert(digit(second[1]) && digit(year[0]) && digit(minute[0]));
    assert(body.last() == second[1]);
    assert(body[0] == year[0]);
    assert(body[body.len() - 6] == ':');
    lemma_zone(body, zone);
    lemma_trimmed(body, zone);
    super::lexical::lemma_bare("dateTime"@, t, bindings);
}

/// Two dates with times are the same exactly where they stand at the same place in time,
/// whatever their timezones.
pub proof fn law_same_instants_are_the_same(
    a: Text,
    b: Text,
    x: TemporalModel,
    y: TemporalModel,
    s: int,
    u: int,
    bindings: Bindings,
)
    requires
        trim(a) == a,
        trim(b) == b,
        temporal_of(TemporalShape::DateTime, a) == Some(x),
        temporal_of(TemporalShape::DateTime, b) == Some(y),
        temporal_seconds(x) == whole(s),
        temporal_seconds(y) == whole(u),
    ensures
        xsd_same("dateTime"@, a, bindings, b, bindings) <==> s == u,
{
    lemma_kinds();
    lemma_power_positive(2, 1074);
    let one = power(2, 1074) as int;
    assert(s == u <==> s * one == u * one) by (nonlinear_arith)
        requires
            one >= 1,
    ;
}

/// The texts of years, months and days alone, and of two of them, are values just where the
/// month and the day are some.
pub proof fn law_parts_of_dates(year: Text, month: Text, day: Text, zone: Zone)
    requires
        date_digits(year, month, day),
        zone_digits(zone),
    ensures
        ({
            let y = value_of(year, 10) as int;
            let m = value_of(month, 10);
            let d = value_of(day, 10);
            let z = zone_text(zone);
            let none = no_fields(zone_minutes(zone));
            &&& temporal_of(TemporalShape::GYear, year + z) == Some(
                TemporalModel { year: Some(y), ..none },
            )
            &&& temporal_of(TemporalShape::GYearMonth, year + seq!['-'] + month + z) == (if 1 <= m
                <= 12 {
                Some(TemporalModel { year: Some(y), month: Some(m), ..none })
            } else {
                None
            })
            &&& temporal_of(
                TemporalShape::GMonthDay,
                seq!['-', '-'] + (month + seq!['-'] + day) + z,
            ) == (if is_day(m, d) {
                Some(TemporalModel { month: Some(m), day: Some(d), ..none })
            } else {
                None
            })
            &&& temporal_of(TemporalShape::GDay, seq!['-', '-', '-'] + day + z) == (if 1 <= d
                <= 31 {
                Some(TemporalModel { day: Some(d), ..none })
            } else {
                None
            })
            &&& temporal_of(TemporalShape::GMonth, seq!['-', '-'] + month + z) == (if 1 <= m <= 12 {
                Some(TemporalModel { month: Some(m), ..none })
            } else {
                None
            })
        }),
{
    lemma_year(year, zone);
    lemma_year_and_month(year, month, zone);
    lemma_month_and_day(month, day, zone);
    lemma_day(day, zone);
    lemma_month(month, zone);
}

/// The text of a year.
proof fn lemma_year(year: Text, zone: Zone)
    requires
        all_digits(year),
        year.len() >= 4,
        value_of(year, 10) <= 10_000_000,
        zone_digits(zone),
    ensures
        temporal_of(TemporalShape::GYear, year + zone_text(zone)) == Some(
            TemporalModel {
                year: Some(value_of(year, 10) as int),
                ..no_fields(zone_minutes(zone))
            },
        ),
{
    lemma_only_digits(year, '-');
    assert(digit(year[0]) && digit(year.last()));
    if year.len() > 6 {
        assert(digit(year[year.len() - 6]));
    }
    lemma_zone(year, zone);
}

/// The text of a year and a month.
proof fn lemma_year_and_month(year: Text, month: Text, zone: Zone)
    requires
        all_digits(year),
        all_digits(month),
        year.len() >= 4,
        month.len() == 2,
        value_of(year, 10) <= 10_000_000,
        zone_digits(zone),
    ensures
        temporal_of(TemporalShape::GYearMonth, year + seq!['-'] + month + zone_text(zone)) == (if 1
            <= value_of(month, 10) <= 12 {
            Some(
                TemporalModel {
                    year: Some(value_of(year, 10) as int),
                    month: Some(value_of(month, 10)),
                    ..no_fields(zone_minutes(zone))
                },
            )
        } else {
            None
        }),
{
    lemma_only_digits(year, '-');
    assert(digit(year[0]) && digit(month[1]) && digit(year[year.len() - 3]));
    let a = year + seq!['-'] + month;
    assert(a.last() == month[1]);
    assert(a.len() > 6 ==> a[a.len() - 6] == year[year.len() - 3]);
    lemma_zone(a, zone);
    lemma_split_at(year, '-', month);
}

/// The text of a month and a day.
proof fn lemma_month_and_day(month: Text, day: Text, zone: Zone)
    requires
        all_digits(month),
        all_digits(day),
        month.len() == 2,
        day.len() == 2,
        zone_digits(zone),
    ensures
        temporal_of(
            TemporalShape::GMonthDay,
            seq!['-', '-'] + (month + seq!['-'] + day) + zone_text(zone),
        ) == (if is_day(value_of(month, 10), value_of(day, 10)) {
            Some(
                TemporalModel {
                    month: Some(value_of(month, 10)),
                    day: Some(value_of(day, 10)),
                    ..no_fields(zone_minutes(zone))
                },
            )
        } else {
            None
        }),
{
    reveal_strlit("--");
    assert("--"@ =~= seq!['-', '-']);
    lemma_only_digits(month, '-');
    assert(digit(day[1]));
    let inner = month + seq!['-'] + day;
    let b = seq!['-', '-'] + inner;
    assert(b.last() == day[1]);
    assert(b.len() == 7 && b[1] == '-' && b[4] == '-');
    lemma_zone(b, zone);
    lemma_split_at(month, '-', day);
    assert(b.skip(2) =~= inner);
    assert(b.take(2) =~= "--"@);
}

/// The text of a day.
proof fn lemma_day(day: Text, zone: Zone)
    requires
        all_digits(day),
        day.len() == 2,
        zone_digits(zone),
    ensures
        temporal_of(TemporalShape::GDay, seq!['-', '-', '-'] + day + zone_text(zone)) == (if 1
            <= value_of(day, 10) <= 31 {
            Some(
                TemporalModel { day: Some(value_of(day, 10)), ..no_fields(zone_minutes(zone)) },
            )
        } else {
            None
        }),
{
    reveal_strlit("---");
    assert("---"@ =~= seq!['-', '-', '-']);
    assert(digit(day[1]));
    let c = seq!['-', '-', '-'] + day;
    assert(c.last() == day[1] && c.len() == 5);
    lemma_zone(c, zone);
    assert(c.skip(3) =~= day);
    assert(c.take(3) =~= "---"@);
}

/// The text of a month.
proof fn lemma_month(month: Text, zone: Zone)
    requires
        all_digits(month),
        month.len() == 2,
        zone_digits(zone),
    ensures
        temporal_of(TemporalShape::GMonth, seq!['-', '-'] + month + zone_text(zone)) == (if 1
            <= value_of(month, 10) <= 12 {
            Some(
                TemporalModel {
                    month: Some(value_of(month, 10)),
                    ..no_fields(zone_minutes(zone))
                },
            )
        } else {
            None
        }),
{
    reveal_strlit("--");
    assert("--"@ =~= seq!['-', '-']);
    assert(digit(month[1]));
    let e = seq!['-', '-'] + month;
    assert(e.last() == month[1] && e.len() == 4);
    lemma_zone(e, zone);
    assert(e.skip(2) =~= month);
    assert(e.take(2) =~= "--"@);
}

// ---------------------------------------------------------------------
// Texts of durations
// ---------------------------------------------------------------------

/// A field of a duration as it is written, where there is one: digits and its mark.
pub open spec fn field_text(digits: Option<Text>, mark: char) -> Text {
    match digits {
        Some(t) => t + seq![mark],
        None => Seq::empty(),
    }
}

/// Whether a field is written with digits that denote a number of at most six digits.
pub open spec fn field_digits(digits: Option<Text>) -> bool {
    digits matches Some(t) ==> t.len() > 0 && all_digits(t) && value_of(t, 10) <= 999_999
}

/// The number that a field denotes.
pub open spec fn field_value(digits: Option<Text>) -> Option<nat> {
    match digits {
        Some(t) => Some(value_of(t, 10)),
        None => None,
    }
}

/// A field is read where it stands first, and passed over where its mark does not occur.
proof fn lemma_field(digits: Option<Text>, mark: char, rest: Text)
    requires
        field_digits(digits),
        !digit(mark),
        !rest.contains(mark),
    ensures
        field(field_text(digits, mark) + rest, mark) == Some((field_value(digits), rest)),
{
    let w = field_text(digits, mark) + rest;
    lemma_occurs(w, mark);
    match digits {
        Some(t) => {
            lemma_only_digits(t, mark);
            assert(digit(t[0]));
            assert(w =~= t + seq![mark] + rest);
            lemma_split_at(t, mark, rest);
            assert forall|j: int| 0 <= j < t.len() implies #[trigger] w[j] != mark by {
                assert(t.contains(t[j]));
            }
            lemma_position(w, mark, t.len());
            assert(w.take(t.len() as int) =~= t);
            assert(w.skip(t.len() as int + 1) =~= rest);
        },
        None => {
            assert(w =~= rest);
        },
    }
}

/// A field holds no other mark.
proof fn lemma_field_text(digits: Option<Text>, mark: char, c: char)
    requires
        field_digits(digits),
        !digit(c),
        c != mark,
    ensures
        !field_text(digits, mark).contains(c),
{
    let w = field_text(digits, mark);
    match digits {
        Some(t) => {
            lemma_only_digits(t, c);
            if w.contains(c) {
                let i = choose|i: int| 0 <= i < w.len() && w[i] == c;
                if i < t.len() {
                    assert(t[i] == c);
                }
            }
        },
        None => {},
    }
}

/// Two texts hold no character that neither does.
proof fn lemma_neither(a: Text, b: Text, c: char)
    requires
        !a.contains(c),
        !b.contains(c),
    ensures
        !(a + b).contains(c),
{
    let w = a + b;
    if w.contains(c) {
        let i = choose|i: int| 0 <= i < w.len() && w[i] == c;
        if i < a.len() {
            assert(a[i] == c);
        } else {
            assert(b[i - a.len()] == c);
        }
    }
}

/// The number in floating point that digits denote.
proof fn lemma_digits_literal(t: Text)
    requires
        t.len() > 0,
        all_digits(t),
        value_of(t, 10) <= 999_999,
    ensures
        literal(t) == Some(whole(value_of(t, 10) as int)),
{
    let k = value_of(t, 10);
    let none = Seq::<char>::empty();
    lemma_only_digits(t, '.');
    assert(digit(t[0]));
    reveal_strlit("inf");
    reveal_strlit("infinity");
    reveal_strlit("nan");
    assert("inf"@[0] == 'i' && "infinity"@[0] == 'i' && "nan"@[0] == 'n');
    assert(!spelled(t, "inf"@) && !spelled(t, "infinity"@) && !spelled(t, "nan"@));
    assert(unsigned_part(t) == (false, t));
    lemma_no_exponent(t);
    assert forall|j: int| 0 <= j < t.len() implies #[trigger] t[j] != '.' by {
        assert(t.contains(t[j]));
    }
    lemma_position(t, '.', t.len());
    assert(split_once(t, '.') is None);
    assert(t + none =~= t);
    assert(all_digits(none));
    lemma_nearest(k as int);
    assert(mantissa(false, t, 0) == Some(of_decimal(false, k, 0)));
}

/// The fields of a duration that are days or more.
pub open spec fn days_text(years: Option<Text>, months: Option<Text>, days: Option<Text>) -> Text {
    field_text(years, 'Y') + (field_text(months, 'M') + field_text(days, 'D'))
}

/// The fields of a duration that are less than days.
pub open spec fn hours_text(
    hours: Option<Text>,
    minutes: Option<Text>,
    seconds: Option<Text>,
) -> Text {
    field_text(hours, 'H') + (field_text(minutes, 'M') + field_text(seconds, 'S'))
}

/// The fields that are days or more are read from their text.
proof fn lemma_days_text(years: Option<Text>, months: Option<Text>, days: Option<Text>)
    requires
        field_digits(years),
        field_digits(months),
        field_digits(days),
    ensures
        date_fields(days_text(years, months, days)) == Some(
            (field_value(years), field_value(months), field_value(days)),
        ),
        !days_text(years, months, days).contains('T'),
{
    let none = Seq::<char>::empty();
    let d = field_text(days, 'D');
    let md = field_text(months, 'M') + d;
    lemma_field_text(days, 'D', 'M');
    lemma_field_text(days, 'D', 'Y');
    lemma_field_text(months, 'M', 'Y');
    lemma_neither(field_text(months, 'M'), d, 'Y');
    lemma_field(years, 'Y', md);
    lemma_field(months, 'M', d);
    assert(d + none =~= d);
    lemma_field(days, 'D', none);
    lemma_field_text(years, 'Y', 'T');
    lemma_field_text(months, 'M', 'T');
    lemma_field_text(days, 'D', 'T');
    lemma_neither(field_text(months, 'M'), d, 'T');
    lemma_neither(field_text(years, 'Y'), md, 'T');
}

/// The seconds are read from their text.
proof fn lemma_seconds_text(seconds: Option<Text>)
    requires
        field_digits(seconds),
    ensures
        seconds_field(field_text(seconds, 'S')) == Some(
            match seconds {
                Some(digits) => Some(whole(value_of(digits, 10) as int)),
                None => None,
            },
        ),
{
    let s = field_text(seconds, 'S');
    lemma_occurs(s, 'S');
    match seconds {
        Some(digits) => {
            lemma_only_digits(digits, 'S');
            assert(s[digits.len() as int] == 'S');
            assert forall|j: int| 0 <= j < digits.len() implies #[trigger] s[j] != 'S' by {
                assert(digits.contains(digits[j]));
            }
            lemma_position(s, 'S', digits.len());
            assert(s.take(digits.len() as int) =~= digits);
            lemma_digits_literal(digits);
        },
        None => {},
    }
}

/// The fields that are less than days are read from their text.
proof fn lemma_hours_text(hours: Option<Text>, minutes: Option<Text>, seconds: Option<Text>)
    requires
        field_digits(hours),
        field_digits(minutes),
        field_digits(seconds),
    ensures
        time_fields(hours_text(hours, minutes, seconds)) == Some(
            (
                field_value(hours),
                field_value(minutes),
                match seconds {
                    Some(digits) => Some(whole(value_of(digits, 10) as int)),
                    None => None,
                },
            ),
        ),
{
    let s = field_text(seconds, 'S');
    let ms = field_text(minutes, 'M') + s;
    lemma_field_text(seconds, 'S', 'M');
    lemma_field_text(seconds, 'S', 'H');
    lemma_field_text(minutes, 'M', 'H');
    lemma_neither(field_text(minutes, 'M'), s, 'H');
    lemma_field(hours, 'H', ms);
    lemma_field(minutes, 'M', s);
    lemma_seconds_text(seconds);
}

/// The sign and the mark that a duration starts with.
pub open spec fn duration_start(negative: bool) -> Text {
    if negative {
        seq!['-', 'P']
    } else {
        seq!['P']
    }
}

/// A duration is read from the texts of its fields.
proof fn lemma_duration(
    negative: bool,
    date: Text,
    time: Text,
    days: (Option<nat>, Option<nat>, Option<nat>),
    hours: (Option<nat>, Option<nat>, Option<Float>),
)
    requires
        !date.contains('T'),
        date_fields(date) == Some(days),
        time_fields(time) == Some(hours),
    ensures
        duration_of(duration_start(negative) + (date + seq!['T'] + time)) == (if days.0 is Some
            || days.1 is Some || days.2 is Some || hours.0 is Some || hours.1 is Some || hours.2
            is Some {
            Some(
                DurationModel {
                    negative,
                    years: or_zero(days.0),
                    months: or_zero(days.1),
                    days: or_zero(days.2),
                    hours: or_zero(hours.0),
                    minutes: or_zero(hours.1),
                    seconds: match hours.2 {
                        Some(seconds) => seconds,
                        None => Float::Finite { units: 0 },
                    },
                },
            )
        } else {
            None
        }),
{
    let body = date + seq!['T'] + time;
    let t = duration_start(negative) + body;
    lemma_split_at(date, 'T', time);
    if negative {
        assert(t.drop_first() =~= seq!['P'] + body);
        assert(t.drop_first().drop_first() =~= body);
    } else {
        assert(t.drop_first() =~= body);
    }
}

/// The text of a duration is a value just where it has a field, and then of the numbers that
/// its fields denote, where what is missing is zero.
pub proof fn law_durations(
    negative: bool,
    years: Option<Text>,
    months: Option<Text>,
    days: Option<Text>,
    hours: Option<Text>,
    minutes: Option<Text>,
    seconds: Option<Text>,
)
    requires
        field_digits(years),
        field_digits(months),
        field_digits(days),
        field_digits(hours),
        field_digits(minutes),
        field_digits(seconds),
    ensures
        ({
            let t = duration_start(negative) + (days_text(years, months, days) + seq!['T']
                + hours_text(hours, minutes, seconds));
            let some = years is Some || months is Some || days is Some || hours is Some || minutes
                is Some || seconds is Some;
            duration_of(t) == (if some {
                Some(
                    DurationModel {
                        negative,
                        years: or_zero(field_value(years)),
                        months: or_zero(field_value(months)),
                        days: or_zero(field_value(days)),
                        hours: or_zero(field_value(hours)),
                        minutes: or_zero(field_value(minutes)),
                        seconds: whole(or_zero(field_value(seconds)) as int),
                    },
                )
            } else {
                None
            })
        }),
{
    let last = match seconds {
        Some(digits) => Some(whole(value_of(digits, 10) as int)),
        None => None,
    };
    lemma_days_text(years, months, days);
    lemma_hours_text(hours, minutes, seconds);
    assert(0 * power(2, 1074) as int == 0);
    lemma_duration(
        negative,
        days_text(years, months, days),
        hours_text(hours, minutes, seconds),
        (field_value(years), field_value(months), field_value(days)),
        (field_value(hours), field_value(minutes), last),
    );
}

} // verus!

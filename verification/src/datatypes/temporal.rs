//! Dates and times, and fragments of them, ordered by seconds since an epoch; those with
//! a timezone are taken to UTC first.
use vstd::prelude::*;
use vstd::slice::slice_subrange;

use super::binary64::{
    compared, literal, negated, of_integer, parse_literal, scaled, sum, Double, Float, Order,
};
use crate::numbers::{
    digit_of, integer, natural, parse_digits, parse_integer, parse_natural, unsigned, value_of,
};
use crate::text::{
    all_digits, digit, is_ascii_digits, split_at_first, split_once, strip_char, strip_prefix, Text,
};

verus! {

/// Which fields a temporal datatype has.
#[derive(Clone, Copy, PartialEq, Eq, Structural)]
pub enum TemporalShape {
    DateTime,
    Time,
    Date,
    GYearMonth,
    GYear,
    GMonthDay,
    GDay,
    GMonth,
}

/// The model of a [`Temporal`].
#[verifier::ext_equal]
pub struct TemporalModel {
    pub year: Option<int>,
    pub month: Option<nat>,
    pub day: Option<nat>,
    pub hour: Option<nat>,
    pub minute: Option<nat>,
    pub second: Option<Float>,
    pub offset: Option<int>,
}

/// No fields but the offset from UTC, in minutes.
pub open spec fn no_fields(offset: Option<int>) -> TemporalModel {
    TemporalModel {
        year: None,
        month: None,
        day: None,
        hour: None,
        minute: None,
        second: None,
        offset,
    }
}

/// A text without its timezone, and the offset from UTC that the timezone gives: `Z`, or
/// a sign with hours and minutes. `None` where those are no numbers.
pub open spec fn timezone(t: Text) -> Option<(Text, Option<int>)> {
    if t.len() > 0 && t.last() == 'Z' {
        Some((t.drop_last(), Some(0)))
    } else if t.len() > 6 && (t[t.len() - 6] == '+' || t[t.len() - 6] == '-') && t[t.len() - 3]
        == ':' {
        let n = t.len() as int;
        match (
            integer(t.subrange(n - 5, n - 3), i32::MAX as nat),
            integer(t.subrange(n - 2, n), i32::MAX as nat),
        ) {
            (Some(hours), Some(minutes)) => Some(
                (
                    t.take(n - 6),
                    Some(
                        if t[n - 6] == '-' {
                            -(hours * 60 + minutes)
                        } else {
                            hours * 60 + minutes
                        },
                    ),
                ),
            ),
            _ => None,
        }
    } else {
        Some((t, None))
    }
}

/// A year: at least four digits.
pub open spec fn year_digits(negative: bool, t: Text) -> Option<int> {
    if t.len() < 4 {
        None
    } else {
        match unsigned(t, 10, i64::MAX as nat) {
            Some(n) => Some(
                if negative {
                    -(n as int)
                } else {
                    n as int
                },
            ),
            None => None,
        }
    }
}

/// A year: at least four digits, after an optional minus.
pub open spec fn year_of(t: Text) -> Option<int> {
    if t.len() > 0 && t[0] == '-' {
        year_digits(true, t.drop_first())
    } else {
        year_digits(false, t)
    }
}

/// A number of two digits within bounds.
pub open spec fn component(t: Text, min: nat, max: nat) -> Option<nat> {
    if t.len() == 2 && all_digits(t) && min <= value_of(t, 10) <= max {
        Some(value_of(t, 10))
    } else {
        None
    }
}

/// What stands before the first `c`, between it and the second, and after that.
pub open spec fn split_twice(t: Text, c: char) -> Option<(Text, Text, Text)> {
    match split_once(t, c) {
        None => None,
        Some((first, rest)) => match split_once(rest, c) {
            None => None,
            Some((second, third)) => Some((first, second, third)),
        },
    }
}

/// The fields of a date: a year, a month and a day.
pub open spec fn date_of(t: Text) -> Option<(int, nat, nat)> {
    let negative = t.len() > 0 && t[0] == '-';
    let rest = if negative {
        t.drop_first()
    } else {
        t
    };
    match split_twice(rest, '-') {
        None => None,
        Some((year, month, day)) => match (
            year_digits(negative, year),
            component(month, 1, 12),
            component(day, 1, 31),
        ) {
            (Some(year), Some(month), Some(day)) => Some((year, month, day)),
            _ => None,
        },
    }
}

/// The fields of a time: hours, minutes and seconds, up to the end of the day.
pub open spec fn time_of(t: Text) -> Option<(nat, nat, Float)> {
    match split_twice(t, ':') {
        None => None,
        Some((hour, minute, second)) => match (
            natural(hour, u32::MAX as nat),
            component(minute, 0, 59),
            literal(second),
        ) {
            (Some(hour), Some(minute), Some(second)) => if hour > 24 || (hour == 24 && (minute
                != 0 || compared(second, of_integer(0)) != Some(Order::Equal))) || compared(
                second,
                of_integer(60),
            ) == Some(Order::Greater) || compared(second, of_integer(60)) == Some(Order::Equal) {
                None
            } else {
                Some((hour, minute, second))
            },
            _ => None,
        },
    }
}

/// The fields that a text without a timezone gives.
pub open spec fn fields_of(shape: TemporalShape, t: Text, offset: Option<int>) -> Option<
    TemporalModel,
> {
    let none = no_fields(offset);
    match shape {
        TemporalShape::DateTime => match split_once(t, 'T') {
            None => None,
            Some((date, time)) => match (date_of(date), time_of(time)) {
                (Some((year, month, day)), Some((hour, minute, second))) => Some(
                    TemporalModel {
                        year: Some(year),
                        month: Some(month),
                        day: Some(day),
                        hour: Some(hour),
                        minute: Some(minute),
                        second: Some(second),
                        offset,
                    },
                ),
                _ => None,
            },
        },
        TemporalShape::Time => match time_of(t) {
            Some((hour, minute, second)) => Some(
                TemporalModel {
                    hour: Some(hour),
                    minute: Some(minute),
                    second: Some(second),
                    ..none
                },
            ),
            None => None,
        },
        TemporalShape::Date => match date_of(t) {
            Some((year, month, day)) => Some(
                TemporalModel { year: Some(year), month: Some(month), day: Some(day), ..none },
            ),
            None => None,
        },
        TemporalShape::GYearMonth => match split_once(t, '-') {
            None => None,
            Some((year, month)) => match (year_of(year), component(month, 1, 12)) {
                (Some(year), Some(month)) => Some(
                    TemporalModel { year: Some(year), month: Some(month), ..none },
                ),
                _ => None,
            },
        },
        TemporalShape::GYear => match year_of(t) {
            Some(year) => Some(TemporalModel { year: Some(year), ..none }),
            None => None,
        },
        TemporalShape::GMonthDay => match strip_prefix(t, "--"@) {
            None => None,
            Some(rest) => match split_once(rest, '-') {
                None => None,
                Some((month, day)) => match (component(month, 1, 12), component(day, 1, 31)) {
                    (Some(month), Some(day)) => Some(
                        TemporalModel { month: Some(month), day: Some(day), ..none },
                    ),
                    _ => None,
                },
            },
        },
        TemporalShape::GDay => match strip_prefix(t, "---"@) {
            None => None,
            Some(rest) => match component(rest, 1, 31) {
                Some(day) => Some(TemporalModel { day: Some(day), ..none }),
                None => None,
            },
        },
        TemporalShape::GMonth => match strip_prefix(t, "--"@) {
            None => None,
            Some(rest) => match component(rest, 1, 12) {
                Some(month) => Some(TemporalModel { month: Some(month), ..none }),
                None => None,
            },
        },
    }
}

/// The value of a temporal datatype that a text denotes.
pub open spec fn temporal_of(shape: TemporalShape, t: Text) -> Option<TemporalModel> {
    match timezone(t) {
        None => None,
        Some((body, offset)) => fields_of(shape, body, offset),
    }
}

/// The days from the first of January 1970 to a date of the Gregorian calendar, extended
/// to all years. Years are counted from March, so that the leap day comes last.
pub open spec fn days_of(year: int, month: nat, day: nat) -> int {
    let y = if month <= 2 {
        year - 1
    } else {
        year
    };
    let m = if month > 2 {
        month as int - 3
    } else {
        month as int + 9
    };
    365 * y + y / 4 - y / 100 + y / 400 + (153 * m + 2) / 5 + day - 1 - 719468
}

/// The seconds from the epoch by which values of temporal datatypes are ordered. Fields
/// that are missing count as those of the first of January 1972.
#[verifier::opaque]
pub open spec fn temporal_seconds(t: TemporalModel) -> Float {
    let days = days_of(
        match t.year {
            Some(year) => year,
            None => 1972,
        },
        match t.month {
            Some(month) => month,
            None => 1,
        },
        match t.day {
            Some(day) => day,
            None => 1,
        },
    );
    let hour = match t.hour {
        Some(hour) => hour,
        None => 0,
    };
    let minute = match t.minute {
        Some(minute) => minute,
        None => 0,
    };
    let second = match t.second {
        Some(second) => second,
        None => Float::Finite { units: 0 },
    };
    let seconds = sum(
        sum(
            sum(scaled(of_integer(days), 86400), scaled(of_integer(hour as int), 3600)),
            scaled(of_integer(minute as int), 60),
        ),
        second,
    );
    match t.offset {
        Some(offset) => sum(seconds, negated(scaled(of_integer(offset), 60))),
        None => seconds,
    }
}

/// A value of a temporal datatype.
pub struct Temporal {
    year: Option<i64>,
    month: Option<u32>,
    day: Option<u32>,
    hour: Option<u32>,
    minute: Option<u32>,
    second: Option<Double>,
    timezone_offset_minutes: Option<i64>,
}

impl View for Temporal {
    type V = TemporalModel;

    closed spec fn view(&self) -> TemporalModel {
        TemporalModel {
            year: match self.year {
                Some(n) => Some(n as int),
                None => None,
            },
            month: opt_nat(self.month),
            day: opt_nat(self.day),
            hour: opt_nat(self.hour),
            minute: opt_nat(self.minute),
            second: match self.second {
                Some(n) => Some(n@),
                None => None,
            },
            offset: opt_int(self.timezone_offset_minutes),
        }
    }
}

/// The model of an optional number.
spec fn opt_nat(n: Option<u32>) -> Option<nat> {
    match n {
        Some(n) => Some(n as nat),
        None => None,
    }
}

/// The model of an optional number.
spec fn opt_int(n: Option<i64>) -> Option<int> {
    match n {
        Some(n) => Some(n as int),
        None => None,
    }
}

impl Temporal {
    /// The months that occur are those of the calendar.
    #[verifier::type_invariant]
    spec fn well_formed(&self) -> bool {
        &&& self.month matches Some(month) ==> 1 <= month <= 12
        &&& self.day matches Some(day) ==> 1 <= day <= 31
    }

    /// The value that a text denotes; see [`temporal_of`].
    pub fn parse(shape: TemporalShape, v: &[char]) -> (r: Option<Temporal>)
        ensures
            match r {
                Some(value) => temporal_of(shape, v@) == Some(value@),
                None => temporal_of(shape, v@) is None,
            },
    {
        let (body, offset) = match split_timezone(v) {
            Some(parts) => parts,
            None => {
                return None;
            },
        };
        let (mut year, mut month, mut day): (Option<i64>, Option<u32>, Option<u32>) = (
            None,
            None,
            None,
        );
        let (mut hour, mut minute): (Option<u32>, Option<u32>) = (None, None);
        let mut second: Option<Double> = None;
        match shape {
            TemporalShape::DateTime => {
                let (date, time) = match split_at_first(body, 'T') {
                    Some(parts) => parts,
                    None => {
                        return None;
                    },
                };
                match (parse_date(date), parse_time(time)) {
                    (Some((y, m, d)), Some((h, mi, s))) => {
                        year = Some(y);
                        month = Some(m);
                        day = Some(d);
                        hour = Some(h);
                        minute = Some(mi);
                        second = Some(s);
                    },
                    _ => {
                        return None;
                    },
                }
            },
            TemporalShape::Time => {
                match parse_time(body) {
                    Some((h, mi, s)) => {
                        hour = Some(h);
                        minute = Some(mi);
                        second = Some(s);
                    },
                    None => {
                        return None;
                    },
                }
            },
            TemporalShape::Date => {
                match parse_date(body) {
                    Some((y, m, d)) => {
                        year = Some(y);
                        month = Some(m);
                        day = Some(d);
                    },
                    None => {
                        return None;
                    },
                }
            },
            TemporalShape::GYearMonth => {
                let (first, rest) = match split_at_first(body, '-') {
                    Some(parts) => parts,
                    None => {
                        return None;
                    },
                };
                match (parse_year(first), parse_component(rest, 1, 12)) {
                    (Some(y), Some(m)) => {
                        year = Some(y);
                        month = Some(m);
                    },
                    _ => {
                        return None;
                    },
                }
            },
            TemporalShape::GYear => {
                match parse_year(body) {
                    Some(y) => {
                        year = Some(y);
                    },
                    None => {
                        return None;
                    },
                }
            },
            TemporalShape::GMonthDay => {
                let rest = match strip_hyphens(body, 2) {
                    Some(rest) => rest,
                    None => {
                        return None;
                    },
                };
                let (first, last) = match split_at_first(rest, '-') {
                    Some(parts) => parts,
                    None => {
                        return None;
                    },
                };
                match (parse_component(first, 1, 12), parse_component(last, 1, 31)) {
                    (Some(m), Some(d)) => {
                        month = Some(m);
                        day = Some(d);
                    },
                    _ => {
                        return None;
                    },
                }
            },
            TemporalShape::GDay => {
                let rest = match strip_hyphens(body, 3) {
                    Some(rest) => rest,
                    None => {
                        return None;
                    },
                };
                match parse_component(rest, 1, 31) {
                    Some(d) => {
                        day = Some(d);
                    },
                    None => {
                        return None;
                    },
                }
            },
            TemporalShape::GMonth => {
                let rest = match strip_hyphens(body, 2) {
                    Some(rest) => rest,
                    None => {
                        return None;
                    },
                };
                match parse_component(rest, 1, 12) {
                    Some(m) => {
                        month = Some(m);
                    },
                    None => {
                        return None;
                    },
                }
            },
        }
        Some(
            Temporal {
                year,
                month,
                day,
                hour,
                minute,
                second,
                timezone_offset_minutes: offset,
            },
        )
    }

    /// The seconds from the epoch; see [`temporal_seconds`].
    pub fn ordering_key(&self) -> (r: Double)
        ensures
            r@ == temporal_seconds(self@),
    {
        proof {
            reveal(temporal_seconds);
        }
        proof {
            use_type_invariant(self);
        }
        let year: i64 = match self.year {
            Some(year) => year,
            None => 1972,
        };
        let month: u32 = match self.month {
            Some(month) => month,
            None => 1,
        };
        let day: u32 = match self.day {
            Some(day) => day,
            None => 1,
        };
        let hour: u32 = match self.hour {
            Some(hour) => hour,
            None => 0,
        };
        let minute: u32 = match self.minute {
            Some(minute) => minute,
            None => 0,
        };
        let second = match &self.second {
            Some(second) => second.copy(),
            None => Double::zero(),
        };
        let days = from_signed(days_since_epoch(year, month, day)).times(86400);
        let hours = from_signed(hour as i128).times(3600);
        let minutes = from_signed(minute as i128).times(60);
        let seconds = days.plus(&hours).plus(&minutes).plus(&second);
        match self.timezone_offset_minutes {
            Some(offset) => seconds.plus(&from_signed(offset as i128).times(60).negate()),
            None => seconds,
        }
    }
}

/// The number nearest to a whole number.
fn from_signed(n: i128) -> (r: Double)
    requires
        n > i128::MIN,
    ensures
        r@ == of_integer(n as int),
{
    if n < 0 {
        Double::from_integer(true, (-n) as u128)
    } else {
        Double::from_integer(false, n as u128)
    }
}

/// Leap days go by spans of four hundred years.
proof fn lemma_era(y: int, era: int, rest: int)
    requires
        y == 400 * era + rest,
        0 <= rest < 400,
    ensures
        y / 4 == 100 * era + rest / 4,
        y / 100 == 4 * era + rest / 100,
        y / 400 == era,
{
}

/// The days from the first of January 1970 to a date; see [`days_of`].
pub fn days_since_epoch(year: i64, month: u32, day: u32) -> (r: i128)
    requires
        1 <= month <= 12,
        1 <= day <= 31,
    ensures
        r == days_of(year as int, month as nat, day as nat),
        i128::MIN < r,
{
    let y: i128 = if month <= 2 {
        year as i128 - 1
    } else {
        year as i128
    };
    let era: i128 = if y >= 0 {
        y / 400
    } else {
        -((399 - y) / 400)
    };
    assert(400 * era <= y < 400 * era + 400);
    let year_of_era: i128 = y - era * 400;
    proof {
        lemma_era(y as int, era as int, year_of_era as int);
    }
    let month_index: i128 = if month > 2 {
        month as i128 - 3
    } else {
        month as i128 + 9
    };
    let day_of_year: i128 = (153 * month_index + 2) / 5 + day as i128 - 1;
    let day_of_era: i128 = year_of_era * 365 + year_of_era / 4 - year_of_era / 100 + day_of_year;
    era * 146097 + day_of_era - 719468
}

/// The text without its timezone, and the offset; see [`timezone`].
fn split_timezone<'a>(v: &'a [char]) -> (r: Option<(&'a [char], Option<i64>)>)
    ensures
        match r {
            Some((body, offset)) => timezone(v@) == Some((body@, opt_int(offset))),
            None => timezone(v@) is None,
        },
{
    let n = v.len();
    if n > 0 && v[n - 1] == 'Z' {
        let body = slice_subrange(v, 0, n - 1);
        assert(body@ =~= v@.drop_last());
        return Some((body, Some(0)));
    }
    if n > 6 && (v[n - 6] == '+' || v[n - 6] == '-') && v[n - 3] == ':' {
        let first = slice_subrange(v, n - 5, n - 3);
        let last = slice_subrange(v, n - 2, n);
        let body = slice_subrange(v, 0, n - 6);
        assert(body@ =~= v@.take(n - 6));
        match (parse_integer(first, 0x7fff_ffff), parse_integer(last, 0x7fff_ffff)) {
            (Some(hours), Some(minutes)) => {
                let offset: i64 = hours * 60 + minutes;
                let signed: i64 = if v[n - 6] == '-' {
                    -offset
                } else {
                    offset
                };
                return Some((body, Some(signed)));
            },
            _ => {
                return None;
            },
        }
    }
    Some((v, None))
}

/// The parts of a text between two separators; see [`split_twice`].
fn split_in_three<'a>(v: &'a [char], c: char) -> (r: Option<
    (&'a [char], &'a [char], &'a [char]),
>)
    ensures
        match r {
            Some((first, second, third)) => split_twice(v@, c) == Some(
                (first@, second@, third@),
            ),
            None => split_twice(v@, c) is None,
        },
{
    match split_at_first(v, c) {
        None => None,
        Some((first, rest)) => match split_at_first(rest, c) {
            None => None,
            Some((second, third)) => Some((first, second, third)),
        },
    }
}

/// The fields of a date; see [`date_of`].
fn parse_date(v: &[char]) -> (r: Option<(i64, u32, u32)>)
    ensures
        match r {
            Some((year, month, day)) => date_of(v@) == Some(
                (year as int, month as nat, day as nat),
            ) && 1 <= month <= 12 && 1 <= day <= 31,
            None => date_of(v@) is None,
        },
{
    let (negative, rest) = match strip_char(v, '-') {
        Some(rest) => (true, rest),
        None => (false, v),
    };
    match split_in_three(rest, '-') {
        None => None,
        Some((year, month, day)) => match (
            parse_year_digits(negative, year),
            parse_component(month, 1, 12),
            parse_component(day, 1, 31),
        ) {
            (Some(year), Some(month), Some(day)) => Some((year, month, day)),
            _ => None,
        },
    }
}

/// The fields of a time; see [`time_of`].
fn parse_time(v: &[char]) -> (r: Option<(u32, u32, Double)>)
    ensures
        match r {
            Some((hour, minute, second)) => time_of(v@) == Some(
                (hour as nat, minute as nat, second@),
            ),
            None => time_of(v@) is None,
        },
{
    match split_in_three(v, ':') {
        None => None,
        Some((hour, minute, second)) => match (
            parse_natural(hour, 0xffff_ffff),
            parse_component(minute, 0, 59),
            parse_literal(second),
        ) {
            (Some(hour), Some(minute), Some(second)) => {
                let zero = Double::from_integer(false, 0);
                let sixty = Double::from_integer(false, 60);
                let past = match second.compare(&sixty) {
                    Some(Order::Greater) => true,
                    Some(Order::Equal) => true,
                    _ => false,
                };
                if hour > 24 || (hour == 24 && (minute != 0 || !second.equals(&zero))) || past {
                    None
                } else {
                    Some((hour as u32, minute, second))
                }
            },
            _ => None,
        },
    }
}

/// A year; see [`year_digits`].
fn parse_year_digits(negative: bool, v: &[char]) -> (r: Option<i64>)
    ensures
        match r {
            Some(n) => year_digits(negative, v@) == Some(n as int),
            None => year_digits(negative, v@) is None,
        },
{
    if v.len() < 4 {
        return None;
    }
    match parse_digits(v, 10, 0x7fff_ffff_ffff_ffff) {
        Some(n) => Some(
            if negative {
                -(n as i64)
            } else {
                n as i64
            },
        ),
        None => None,
    }
}

/// A year, after an optional minus; see [`year_of`].
fn parse_year(v: &[char]) -> (r: Option<i64>)
    ensures
        match r {
            Some(n) => year_of(v@) == Some(n as int),
            None => year_of(v@) is None,
        },
{
    match strip_char(v, '-') {
        Some(rest) => parse_year_digits(true, rest),
        None => parse_year_digits(false, v),
    }
}

/// A number of two digits within bounds; see [`component`].
fn parse_component(v: &[char], min: u32, max: u32) -> (r: Option<u32>)
    ensures
        match r {
            Some(n) => component(v@, min as nat, max as nat) == Some(n as nat) && min <= n
                <= max,
            None => component(v@, min as nat, max as nat) is None,
        },
{
    if v.len() != 2 || !is_ascii_digits(v) {
        return None;
    }
    proof {
        assert forall|i: int| 0 <= i < v@.len() implies digit_of(#[trigger] v@[i])
            < 10 by {
            assert(digit(v@[i]));
        }
    }
    match parse_digits(v, 10, max as u64) {
        Some(n) => {
            if n >= min as u64 {
                Some(n as u32)
            } else {
                None
            }
        },
        None => None,
    }
}

/// The text after two or three leading hyphens.
fn strip_hyphens<'a>(v: &'a [char], count: usize) -> (r: Option<&'a [char]>)
    requires
        count == 2 || count == 3,
    ensures
        ({
            let prefix = if count == 2 {
                "--"@
            } else {
                "---"@
            };
            match r {
                Some(rest) => strip_prefix(v@, prefix) == Some(rest@),
                None => strip_prefix(v@, prefix) is None,
            }
        }),
{
    proof {
        reveal_strlit("--");
        reveal_strlit("---");
    }
    if v.len() >= count && v[0] == '-' && v[1] == '-' && (count == 2 || v[2] == '-') {
        let rest = slice_subrange(v, count, v.len());
        assert(rest@ =~= v@.skip(count as int));
        assert(v@.take(count as int) =~= if count == 2 {
            "--"@
        } else {
            "---"@
        });
        Some(rest)
    } else {
        proof {
            if v@.len() >= count {
                let head = v@.take(count as int);
                assert(head[0] == v@[0] && head[1] == v@[1]);
                assert(count == 3 ==> head[2] == v@[2]);
            }
        }
        None
    }
}

// ---------------------------------------------------------------------
// The calendar
// ---------------------------------------------------------------------

/// Whether a year of the Gregorian calendar has a leap day.
pub open spec fn leap_year(year: int) -> bool {
    year % 4 == 0 && (year % 100 != 0 || year % 400 == 0)
}

/// The number of days of a month.
pub open spec fn month_length(year: int, month: nat) -> nat {
    if month == 2 {
        if leap_year(year) {
            29
        } else {
            28
        }
    } else if month == 4 || month == 6 || month == 9 || month == 11 {
        30
    } else {
        31
    }
}

/// The days before a year that counts from March, from the first of March of the year 0.
spec fn year_days(y: int) -> int {
    365 * y + y / 4 - y / 100 + y / 400
}

/// The days before a month, counted from March.
spec fn month_start(m: int) -> int {
    (153 * m + 2) / 5
}

/// A leap year has one day more than others.
proof fn lemma_leap_day(year: int)
    ensures
        year_days(year) - year_days(year - 1) == if leap_year(year) {
            366int
        } else {
            365int
        },
{
    let era = year / 400;
    let rest = year % 400;
    lemma_era(year, era, rest);
    if rest > 0 {
        lemma_era(year - 1, era, rest - 1);
    } else {
        lemma_era(year - 1, era - 1, 399);
    }
}

/// The days to the first of a month are those before its year and those before it.
proof fn lemma_year_days(year: int)
    ensures
        forall|month: nat, day: nat|
            3 <= month <= 12 ==> #[trigger] days_of(year, month, day) == year_days(year)
                + month_start(month - 3) + day - 719469,
        forall|month: nat, day: nat|
            1 <= month <= 2 ==> #[trigger] days_of(year + 1, month, day) == year_days(year)
                + month_start(month as int + 9) + day - 719469,
{
}

/// How long the months are.
proof fn lemma_month_starts()
    ensures
        month_start(0) == 0,
        month_start(1) == 31,
        month_start(2) == 61,
        month_start(3) == 92,
        month_start(4) == 122,
        month_start(5) == 153,
        month_start(6) == 184,
        month_start(7) == 214,
        month_start(8) == 245,
        month_start(9) == 275,
        month_start(10) == 306,
        month_start(11) == 337,
{
}

/// Days are counted as the calendar has them: from the first of January 1970, one for each
/// day of a month, a month's length to the first of the next, and from December on to the
/// next year.
pub proof fn law_days_follow_the_calendar(year: int, month: nat, day: nat)
    requires
        1 <= month <= 12,
    ensures
        days_of(1970, 1, 1) == 0,
        days_of(year, month, day + 1) == days_of(year, month, day) + 1,
        month < 12 ==> days_of(year, month + 1, 1) == days_of(year, month, 1) + month_length(
            year,
            month,
        ),
        month == 12 ==> days_of(year + 1, 1, 1) == days_of(year, 12, 1) + month_length(year, 12),
{
    lemma_leap_day(year);
    lemma_year_days(year);
    lemma_year_days(year - 1);
    lemma_month_starts();
}

} // verus!

//! Durations: `PnYnMnDTnHnMnS`, ordered by their approximate length in seconds, with
//! months of thirty days and years of 365.
use vstd::prelude::*;
use vstd::slice::slice_subrange;

use super::binary64::{literal, negated, of_integer, parse_literal, scaled, sum, Double, Float};
use crate::numbers::{natural, parse_natural};
use crate::text::{find, occurs, position, split_at_first, split_once, strip_char, Text};

verus! {

/// The model of a [`Duration`].
#[verifier::ext_equal]
pub struct DurationModel {
    pub negative: bool,
    pub years: nat,
    pub months: nat,
    pub days: nat,
    pub hours: nat,
    pub minutes: nat,
    pub seconds: Float,
}

/// The number before a mark, where there is one, and what follows the mark. `None` where
/// what stands before the mark is no number.
pub open spec fn field(t: Text, mark: char) -> Option<(Option<nat>, Text)> {
    if occurs(t, mark) {
        let k = position(t, mark) as int;
        match natural(t.take(k), u64::MAX as nat) {
            Some(n) => Some((Some(n), t.skip(k + 1))),
            None => None,
        }
    } else {
        Some((None, t))
    }
}

/// A number, or zero.
pub open spec fn or_zero(n: Option<nat>) -> nat {
    match n {
        Some(n) => n,
        None => 0,
    }
}

/// The years, months and days of a duration, where they are all that the text holds.
pub open spec fn date_fields(t: Text) -> Option<(Option<nat>, Option<nat>, Option<nat>)> {
    match field(t, 'Y') {
        None => None,
        Some((years, t1)) => match field(t1, 'M') {
            None => None,
            Some((months, t2)) => match field(t2, 'D') {
                None => None,
                Some((days, t3)) => if t3.len() == 0 {
                    Some((years, months, days))
                } else {
                    None
                },
            },
        },
    }
}

/// The seconds of a duration, where they are all that the text holds.
pub open spec fn seconds_field(t: Text) -> Option<Option<Float>> {
    if occurs(t, 'S') {
        let k = position(t, 'S') as int;
        match literal(t.take(k)) {
            Some(seconds) => if k + 1 == t.len() {
                Some(Some(seconds))
            } else {
                None
            },
            None => None,
        }
    } else if t.len() == 0 {
        Some(None)
    } else {
        None
    }
}

/// The hours, minutes and seconds of a duration, where they are all that the text holds.
pub open spec fn time_fields(t: Text) -> Option<(Option<nat>, Option<nat>, Option<Float>)> {
    match field(t, 'H') {
        None => None,
        Some((hours, t1)) => match field(t1, 'M') {
            None => None,
            Some((minutes, t2)) => match seconds_field(t2) {
                None => None,
                Some(seconds) => Some((hours, minutes, seconds)),
            },
        },
    }
}

/// The duration that a text denotes. It has at least one field.
pub open spec fn duration_of(t: Text) -> Option<DurationModel> {
    let negative = t.len() > 0 && t[0] == '-';
    let rest = if negative {
        t.drop_first()
    } else {
        t
    };
    if rest.len() == 0 || rest[0] != 'P' {
        None
    } else {
        let body = rest.drop_first();
        let (date, time) = match split_once(body, 'T') {
            Some(parts) => parts,
            None => (body, Seq::empty()),
        };
        match (date_fields(date), time_fields(time)) {
            (Some((years, months, days)), Some((hours, minutes, seconds))) => if years is Some
                || months is Some || days is Some || hours is Some || minutes is Some
                || seconds is Some {
                Some(
                    DurationModel {
                        negative,
                        years: or_zero(years),
                        months: or_zero(months),
                        days: or_zero(days),
                        hours: or_zero(hours),
                        minutes: or_zero(minutes),
                        seconds: match seconds {
                            Some(seconds) => seconds,
                            None => Float::Finite { units: 0 },
                        },
                    },
                )
            } else {
                None
            },
            _ => None,
        }
    }
}

/// The approximate length of a duration, in seconds.
#[verifier::opaque]
pub open spec fn duration_seconds(d: DurationModel) -> Float {
    let years = scaled(scaled(of_integer(d.years as int), 365), 86400);
    let months = scaled(scaled(of_integer(d.months as int), 30), 86400);
    let days = scaled(of_integer(d.days as int), 86400);
    let hours = scaled(of_integer(d.hours as int), 3600);
    let minutes = scaled(of_integer(d.minutes as int), 60);
    let length = sum(sum(sum(sum(sum(years, months), days), hours), minutes), d.seconds);
    if d.negative {
        negated(length)
    } else {
        length
    }
}

/// A duration.
pub struct Duration {
    negative: bool,
    years: u64,
    months: u64,
    days: u64,
    hours: u64,
    minutes: u64,
    seconds: Double,
}

impl View for Duration {
    type V = DurationModel;

    closed spec fn view(&self) -> DurationModel {
        DurationModel {
            negative: self.negative,
            years: self.years as nat,
            months: self.months as nat,
            days: self.days as nat,
            hours: self.hours as nat,
            minutes: self.minutes as nat,
            seconds: self.seconds@,
        }
    }
}

/// The model of an optional number.
spec fn opt_nat(n: Option<u64>) -> Option<nat> {
    match n {
        Some(n) => Some(n as nat),
        None => None,
    }
}

/// The number before a mark, and what follows the mark; see [`field`].
fn parse_field<'a>(v: &'a [char], mark: char) -> (r: Option<(Option<u64>, &'a [char])>)
    ensures
        match r {
            Some((n, rest)) => field(v@, mark) == Some((opt_nat(n), rest@)),
            None => field(v@, mark) is None,
        },
{
    let k = find(v, mark);
    if k == v.len() {
        return Some((None, v));
    }
    let digits = slice_subrange(v, 0, k);
    let rest = slice_subrange(v, k + 1, v.len());
    assert(digits@ =~= v@.take(k as int));
    assert(rest@ =~= v@.skip(k + 1));
    match parse_natural(digits, 0xffff_ffff_ffff_ffff) {
        Some(n) => Some((Some(n), rest)),
        None => None,
    }
}

/// The seconds of a duration; see [`seconds_field`].
fn parse_seconds(v: &[char]) -> (r: Option<Option<Double>>)
    ensures
        match r {
            Some(Some(seconds)) => seconds_field(v@) == Some(Some(seconds@)),
            Some(None) => seconds_field(v@) == Some(None::<Float>),
            None => seconds_field(v@) is None,
        },
{
    let k = find(v, 'S');
    if k == v.len() {
        return if v.len() == 0 {
            Some(None)
        } else {
            None
        };
    }
    let digits = slice_subrange(v, 0, k);
    assert(digits@ =~= v@.take(k as int));
    match parse_literal(digits) {
        Some(seconds) => {
            if k + 1 == v.len() {
                Some(Some(seconds))
            } else {
                None
            }
        },
        None => None,
    }
}

/// The years, months and days of a duration; see [`date_fields`].
fn parse_date_fields(v: &[char]) -> (r: Option<(Option<u64>, Option<u64>, Option<u64>)>)
    ensures
        match r {
            Some((years, months, days)) => date_fields(v@) == Some(
                (opt_nat(years), opt_nat(months), opt_nat(days)),
            ),
            None => date_fields(v@) is None,
        },
{
    let (years, t1) = match parse_field(v, 'Y') {
        Some(found) => found,
        None => {
            return None;
        },
    };
    let (months, t2) = match parse_field(t1, 'M') {
        Some(found) => found,
        None => {
            return None;
        },
    };
    let (days, t3) = match parse_field(t2, 'D') {
        Some(found) => found,
        None => {
            return None;
        },
    };
    if t3.len() > 0 {
        return None;
    }
    Some((years, months, days))
}

/// The hours, minutes and seconds of a duration; see [`time_fields`].
fn parse_time_fields(v: &[char]) -> (r: Option<(Option<u64>, Option<u64>, Option<Double>)>)
    ensures
        match r {
            Some((hours, minutes, seconds)) => time_fields(v@) == Some(
                (
                    opt_nat(hours),
                    opt_nat(minutes),
                    match seconds {
                        Some(seconds) => Some(seconds@),
                        None => None,
                    },
                ),
            ),
            None => time_fields(v@) is None,
        },
{
    let (hours, t1) = match parse_field(v, 'H') {
        Some(found) => found,
        None => {
            return None;
        },
    };
    let (minutes, t2) = match parse_field(t1, 'M') {
        Some(found) => found,
        None => {
            return None;
        },
    };
    match parse_seconds(t2) {
        Some(seconds) => Some((hours, minutes, seconds)),
        None => None,
    }
}

/// A number, or zero.
fn number_or_zero(n: Option<u64>) -> (r: u64)
    ensures
        r == or_zero(opt_nat(n)),
{
    match n {
        Some(n) => n,
        None => 0,
    }
}

impl Duration {
    /// The duration that a text denotes; see [`duration_of`].
    #[verifier::spinoff_prover]
    pub fn parse(v: &[char]) -> (r: Option<Duration>)
        ensures
            match r {
                Some(duration) => duration_of(v@) == Some(duration@),
                None => duration_of(v@) is None,
            },
    {
        let (negative, rest) = match strip_char(v, '-') {
            Some(rest) => (true, rest),
            None => (false, v),
        };
        let body = match strip_char(rest, 'P') {
            Some(body) => body,
            None => {
                return None;
            },
        };
        let none: Vec<char> = Vec::new();
        let (date, time) = match split_at_first(body, 'T') {
            Some((date, time)) => (date, time),
            None => {
                assert(none@ =~= Seq::<char>::empty());
                (body, none.as_slice())
            },
        };
        let (years, months, days) = match parse_date_fields(date) {
            Some(found) => found,
            None => {
                return None;
            },
        };
        let (hours, minutes, seconds) = match parse_time_fields(time) {
            Some(found) => found,
            None => {
                return None;
            },
        };
        if years.is_none() && months.is_none() && days.is_none() && hours.is_none()
            && minutes.is_none() && seconds.is_none() {
            return None;
        }
        Some(
            Duration {
                negative,
                years: number_or_zero(years),
                months: number_or_zero(months),
                days: number_or_zero(days),
                hours: number_or_zero(hours),
                minutes: number_or_zero(minutes),
                seconds: match seconds {
                    Some(seconds) => seconds,
                    None => Double::zero(),
                },
            },
        )
    }

    /// The approximate length of the duration, in seconds; see [`duration_seconds`].
    pub fn approx_seconds(&self) -> (r: Double)
        ensures
            r@ == duration_seconds(self@),
    {
        proof {
            reveal(duration_seconds);
        }
        let years = Double::from_integer(false, self.years as u128).times(365).times(86400);
        let months = Double::from_integer(false, self.months as u128).times(30).times(86400);
        let days = Double::from_integer(false, self.days as u128).times(86400);
        let hours = Double::from_integer(false, self.hours as u128).times(3600);
        let minutes = Double::from_integer(false, self.minutes as u128).times(60);
        let length = years.plus(&months).plus(&days).plus(&hours).plus(&minutes).plus(
            &self.seconds,
        );
        if self.negative {
            length.negate()
        } else {
            length
        }
    }
}

} // verus!

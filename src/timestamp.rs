//! Points in time of the series, as calendar fields.
use chrono::{Datelike, Timelike};
use vstd::prelude::*;

verus! {

/// A calendar date and time of day; `nanosecond` reaches past one second
/// only for a leap second.
#[derive(Clone, Copy, Debug, PartialEq, Eq, Structural)]
pub struct DateTime {
    pub year: i32,
    pub month: u32,
    pub day: u32,
    pub hour: u32,
    pub minute: u32,
    pub second: u32,
    pub nanosecond: u32,
}

/// Strict chronological order: fields compared from the year down.
pub open spec fn before(a: DateTime, b: DateTime) -> bool {
    if a.year != b.year {
        a.year < b.year
    } else if a.month != b.month {
        a.month < b.month
    } else if a.day != b.day {
        a.day < b.day
    } else if a.hour != b.hour {
        a.hour < b.hour
    } else if a.minute != b.minute {
        a.minute < b.minute
    } else if a.second != b.second {
        a.second < b.second
    } else {
        a.nanosecond < b.nanosecond
    }
}

pub open spec fn at_or_before(a: DateTime, b: DateTime) -> bool {
    before(a, b) || a == b
}

pub proof fn lemma_before_transitive(a: DateTime, b: DateTime, c: DateTime)
    requires
        at_or_before(a, b),
        at_or_before(b, c),
    ensures
        at_or_before(a, c),
        before(a, b) || before(b, c) ==> before(a, c),
{
}

pub proof fn lemma_before_total(a: DateTime, b: DateTime)
    ensures
        at_or_before(a, b) || before(b, a),
        !(before(a, b) && at_or_before(b, a)),
{
}

impl DateTime {
    pub fn new(year: i32, month: u32, day: u32, hour: u32, minute: u32, second: u32) -> (r:
        DateTime)
        ensures
            r == (DateTime { year, month, day, hour, minute, second, nanosecond: 0 }),
    {
        DateTime { year, month, day, hour, minute, second, nanosecond: 0 }
    }

    pub fn is_at_or_before(&self, other: &DateTime) -> (r: bool)
        ensures
            r == at_or_before(*self, *other),
    {
        if self.year != other.year {
            self.year < other.year
        } else if self.month != other.month {
            self.month < other.month
        } else if self.day != other.day {
            self.day < other.day
        } else if self.hour != other.hour {
            self.hour < other.hour
        } else if self.minute != other.minute {
            self.minute < other.minute
        } else if self.second != other.second {
            self.second < other.second
        } else {
            self.nanosecond <= other.nanosecond
        }
    }
}

/// The pattern of the provider's timestamp keys.
pub const TIMESTAMP_PATTERN: &'static str = "%Y-%m-%d %H:%M:%S";

/// What chrono reads from `text` under the strftime-style `pattern`: year,
/// month, day, hour, minute, second and nanosecond, or `None` when the text
/// does not match.
pub uninterp spec fn chrono_parse(text: Seq<char>, pattern: Seq<char>) -> Option<
    (i32, u32, u32, u32, u32, u32, u32),
>;

/// Relies on chrono's `NaiveDateTime::parse_from_str`, read back through its
/// `Datelike` and `Timelike` accessors: the result depends on the two texts alone.
#[verifier::external_body]
fn chrono_parse_parts(text: &str, pattern: &str) -> (r: Option<(i32, u32, u32, u32, u32, u32, u32)>)
    ensures
        r == chrono_parse(text@, pattern@),
{
    match chrono::NaiveDateTime::parse_from_str(text, pattern) {
        Ok(d) => Some(
            (d.year(), d.month(), d.day(), d.hour(), d.minute(), d.second(), d.nanosecond()),
        ),
        Err(_) => None,
    }
}

pub open spec fn datetime_of_parts(p: (i32, u32, u32, u32, u32, u32, u32)) -> DateTime {
    DateTime {
        year: p.0,
        month: p.1,
        day: p.2,
        hour: p.3,
        minute: p.4,
        second: p.5,
        nanosecond: p.6,
    }
}

/// The point in time that a provider key denotes, if it follows the pattern.
pub open spec fn timestamp_of(key: Seq<char>) -> Option<DateTime> {
    match chrono_parse(key, TIMESTAMP_PATTERN@) {
        Some(p) => Some(datetime_of_parts(p)),
        None => None,
    }
}

/// Reads a provider key of the form `YYYY-MM-DD HH:MM:SS`.
pub fn parse_timestamp(key: &str) -> (r: Option<DateTime>)
    ensures
        r == timestamp_of(key@),
{
    match chrono_parse_parts(key, TIMESTAMP_PATTERN) {
        Some(p) => Some(
            DateTime {
                year: p.0,
                month: p.1,
                day: p.2,
                hour: p.3,
                minute: p.4,
                second: p.5,
                nanosecond: p.6,
            },
        ),
        None => None,
    }
}

} // verus!

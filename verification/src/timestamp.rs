//! Points in time as civil date and time of day in UTC.

use crate::text::{
    append_decimal, decimal, digits, is_digit, lemma_decimal_injective, lemma_decimal_shape,
};
use chrono::{Datelike, Timelike};
use vstd::prelude::*;
use vstd::string::StringExecFns;

verus! {

/// A point in time, to the second, as the calendar date and the time of day
/// that it has in UTC.
#[derive(Debug, Clone, Copy, PartialEq, Eq, Structural)]
pub struct Timestamp {
    pub year: i32,
    pub month: u32,
    pub day: u32,
    pub hour: u32,
    pub minute: u32,
    pub second: u32,
}

/// What chrono reads from `text` as a point in time: the year, month, day,
/// hour, minute and second that the instant has in UTC, or nothing where
/// chrono rejects the text.
pub uninterp spec fn utc_reading(text: Seq<char>) -> Option<(i32, u32, u32, u32, u32, u32)>;

/// The key under which a month is grouped: the year and the month number in
/// decimal, joined by a hyphen, the month without a leading zero.
pub open spec fn month_label(year: int, month: int) -> Seq<char> {
    decimal(year) + seq!['-'] + decimal(month)
}

/// Of two keys with the same text, the year of the first takes at least as
/// many characters as the year of the second.
proof fn lemma_year_not_shorter(y1: int, m1: int, y2: int, m2: int)
    requires
        m1 >= 0,
        m2 >= 0,
        month_label(y1, m1) == month_label(y2, m2),
    ensures
        decimal(y1).len() >= decimal(y2).len(),
{
    lemma_decimal_shape(y1);
    lemma_decimal_shape(y2);
    let short = decimal(y1).len() as int;
    if short < decimal(y2).len() {
        assert(month_label(y1, m1)[short] == '-');
        assert(month_label(y2, m2)[short] == decimal(y2)[short]);
        assert(is_digit(decimal(y2)[short]));
    }
}

/// Different months have different keys: the key tells the year and the
/// number of the month.
pub proof fn lemma_month_label_injective(y1: int, m1: int, y2: int, m2: int)
    requires
        m1 >= 0,
        m2 >= 0,
        month_label(y1, m1) == month_label(y2, m2),
    ensures
        y1 == y2,
        m1 == m2,
{
    lemma_year_not_shorter(y1, m1, y2, m2);
    lemma_year_not_shorter(y2, m2, y1, m1);
    let year_len = decimal(y1).len() as int;
    let label = month_label(y1, m1);
    assert(decimal(y1) =~= label.take(year_len));
    assert(decimal(y2) =~= label.take(year_len));
    assert(decimal(m1) =~= label.skip(year_len + 1));
    assert(decimal(m2) =~= label.skip(year_len + 1));
    lemma_decimal_injective(y1, y2);
    lemma_decimal_injective(m1, m2);
}

/// The key of a month of the calendar ends in the number of the month, one
/// or two digits without a leading zero.
pub proof fn lemma_month_label_shape(year: int, month: int)
    requires
        1 <= month <= 12,
    ensures
        month_label(year, month) == decimal(year) + seq!['-'] + digits(month as nat),
        1 <= digits(month as nat).len() <= 2,
        digits(month as nat)[0] != '0',
{
    reveal_with_fuel(digits, 2);
}

/// Reads a point in time with chrono's `FromStr` for `DateTime<Utc>`, which
/// accepts RFC 3339 text with a `T` or a space between date and time and
/// converts any offset to UTC.
///
/// Trusted: the result is chrono's reading of the text, taken apart with its
/// `Datelike` and `Timelike` accessors, whose documented ranges are the second
/// clause.
#[verifier::external_body]
fn read_utc(text: &str) -> (r: Option<(i32, u32, u32, u32, u32, u32)>)
    ensures
        r == utc_reading(text@),
        r matches Some(f) ==> 1 <= f.1 <= 12 && 1 <= f.2 <= 31 && f.3 <= 23 && f.4 <= 59 && f.5
            <= 59,
{
    match text.parse::<chrono::DateTime<chrono::Utc>>() {
        Ok(t) => Some((t.year(), t.month(), t.day(), t.hour(), t.minute(), t.second())),
        Err(_) => None,
    }
}

impl Timestamp {
    /// Whether the fields are in the ranges of a calendar date and a time of
    /// day.
    pub open spec fn is_civil(self) -> bool {
        &&& 1 <= self.month <= 12
        &&& 1 <= self.day <= 31
        &&& self.hour <= 23
        &&& self.minute <= 59
        &&& self.second <= 59
    }

    /// The timestamp with the given year, month, day, hour, minute and second.
    pub open spec fn of(fields: (i32, u32, u32, u32, u32, u32)) -> Timestamp {
        Timestamp {
            year: fields.0,
            month: fields.1,
            day: fields.2,
            hour: fields.3,
            minute: fields.4,
            second: fields.5,
        }
    }

    /// The timestamp that `text` writes, if it writes one.
    pub open spec fn reading(text: Seq<char>) -> Option<Timestamp> {
        match utc_reading(text) {
            Some(fields) => Some(Timestamp::of(fields)),
            None => None,
        }
    }

    /// The key of the month that the timestamp lies in.
    pub open spec fn month_key_text(self) -> Seq<char> {
        month_label(self.year as int, self.month as int)
    }

    /// Builds a timestamp from its year, month, day, hour, minute and second.
    pub fn from_fields(fields: (i32, u32, u32, u32, u32, u32)) -> (t: Timestamp)
        ensures
            t == Timestamp::of(fields),
    {
        Timestamp {
            year: fields.0,
            month: fields.1,
            day: fields.2,
            hour: fields.3,
            minute: fields.4,
            second: fields.5,
        }
    }

    /// Reads a timestamp from RFC 3339 text such as `2023-05-14T10:00:00Z`.
    /// A timestamp that was read is a calendar date and a time of day.
    pub fn parse(text: &str) -> (r: Option<Timestamp>)
        ensures
            r == Timestamp::reading(text@),
            r matches Some(t) ==> t.is_civil(),
    {
        match read_utc(text) {
            Some(fields) => Some(Timestamp::from_fields(fields)),
            None => None,
        }
    }

    /// The key of the month that the timestamp lies in, such as `2023-5`.
    pub fn month_key(&self) -> (key: String)
        ensures
            key@ == self.month_key_text(),
    {
        let mut key = String::new();
        append_decimal(&mut key, self.year as i128);
        proof {
            reveal_strlit("-");
        }
        key.append("-");
        append_decimal(&mut key, self.month as i128);
        assert(key@ =~= self.month_key_text());
        key
    }
}

} // verus!

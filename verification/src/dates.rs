//! Calendar dates as the exhibition records store them (`YYYYMMDD`), read
//! with `chrono`.

use vstd::prelude::*;
use chrono::{Datelike, NaiveDate, Utc};

verus! {

/// A calendar date, as `chrono::NaiveDate` reports it.
#[derive(Clone, Copy, Debug)]
pub struct Date {
    pub year: i32,
    pub month: u32,
    pub day: u32,
}

/// Chronological order, which for valid dates is the order of
/// (year, month, day).
pub open spec fn date_le(a: Date, b: Date) -> bool {
    ||| a.year < b.year
    ||| a.year == b.year && a.month < b.month
    ||| a.year == b.year && a.month == b.month && a.day <= b.day
}

/// The month and the day lie where `chrono`'s `Datelike` says they always
/// do: the month from 1 to 12, the day of the month from 1 to 31.
pub open spec fn in_calendar_range(d: Date) -> bool {
    1 <= d.month <= 12 && 1 <= d.day <= 31
}

/// The date written as the number `YYYYMMDD`.
pub open spec fn date_number(d: Date) -> int {
    d.year * 10000 + d.month * 100 + d.day
}

/// Dates are ordered by the calendar: for dates whose month and day are in
/// range, a date is on or before another exactly when its `YYYYMMDD` number
/// is no greater; in particular, within one month the earlier day comes
/// first, and a later year or month is never before an earlier one.
pub proof fn law_date_order_is_calendar_order(a: Date, b: Date)
    requires
        in_calendar_range(a),
        in_calendar_range(b),
    ensures
        date_le(a, b) <==> date_number(a) <= date_number(b),
        a.year == b.year && a.month == b.month ==> (date_le(a, b) <==> a.day <= b.day),
        a.year == b.year && a.month != b.month ==> (date_le(a, b) <==> a.month < b.month),
        a.year != b.year ==> (date_le(a, b) <==> a.year < b.year),
{
}

/// On-or-before is a total order: every date is on or before itself, two
/// dates each on or before the other are the same date, it chains, and of
/// any two dates one is on or before the other.
pub proof fn law_date_order_is_total(a: Date, b: Date, c: Date)
    ensures
        date_le(a, a),
        date_le(a, b) && date_le(b, a) ==> a == b,
        date_le(a, b) && date_le(b, c) ==> date_le(a, c),
        date_le(a, b) || date_le(b, a),
{
}

impl Date {
    /// Whether this date is the same as or earlier than `other`.
    pub fn is_on_or_before(&self, other: &Date) -> (res: bool)
        ensures
            res == date_le(*self, *other),
    {
        if self.year != other.year {
            self.year < other.year
        } else if self.month != other.month {
            self.month < other.month
        } else {
            self.day <= other.day
        }
    }
}

/// The (year, month, day) that `NaiveDate::parse_from_str(text, "%Y%m%d")`
/// reads from a text, or nothing where it reports an error.
pub uninterp spec fn chrono_compact_date(text: Seq<char>) -> Option<(i32, u32, u32)>;

/// The date a text names in the `YYYYMMDD` form, as `chrono` reads it.
pub open spec fn compact_date(text: Seq<char>) -> Option<Date> {
    match chrono_compact_date(text) {
        Some(t) => Some(Date { year: t.0, month: t.1, day: t.2 }),
        None => None,
    }
}

/// Calls `NaiveDate::parse_from_str` with the format `%Y%m%d` and hands back
/// the year, month and day of the date it reads, the month and day in the
/// ranges `Datelike` documents; which texts it accepts is not spelled out
/// here.
#[verifier::external_body]
pub(crate) fn parse_compact_date(text: &str) -> (res: Option<Date>)
    ensures
        res is Some <==> chrono_compact_date(text@) is Some,
        res matches Some(d) ==> (d.year, d.month, d.day) == chrono_compact_date(text@)->0,
        res matches Some(d) ==> in_calendar_range(d),
{
    match NaiveDate::parse_from_str(text, "%Y%m%d") {
        Ok(d) => Some(Date { year: d.year(), month: d.month(), day: d.day() }),
        Err(_) => None,
    }
}

/// Calls `Utc::now().date_naive()`: today's date in UTC. Which date that is
/// depends on the clock, so only what holds of every date `chrono` gives is
/// promised: its month and day are in range.
#[verifier::external_body]
pub(crate) fn today_utc() -> (res: Date)
    ensures
        in_calendar_range(res),
{
    let d = Utc::now().date_naive();
    Date { year: d.year(), month: d.month(), day: d.day() }
}

} // verus!

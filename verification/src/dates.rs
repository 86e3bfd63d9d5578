//! Dates and instants as plain integers: a date is its day number counted
//! from 0001-01-01 (day 1), an instant is Unix seconds with nanoseconds plus
//! the local date it falls on. Parsing is done by `chrono`.

use vstd::prelude::*;

use chrono::Datelike;

verus! {

/// The day number of a `YYYY-MM-DD` date, as `chrono::NaiveDate::parse_from_str`
/// with the format `%Y-%m-%d` reads it (`None` when it does not parse).
pub uninterp spec fn parsed_date(s: Seq<char>) -> Option<int>;

/// The instant an RFC 3339 timestamp names, as Unix seconds, nanoseconds and
/// its offset in seconds east of UTC, as `chrono::DateTime::parse_from_rfc3339` reads it.
pub uninterp spec fn parsed_rfc3339(s: Seq<char>) -> Option<(int, int, int)>;

/// The `YYYY-MM-DD` text of the date with day number `d` (`NaiveDate`'s
/// `Display`), `None` when no `NaiveDate` has that day number.
pub uninterp spec fn date_text(d: int) -> Option<Seq<char>>;

/// Calls `NaiveDate::parse_from_str(s, "%Y-%m-%d")` and takes the day number
/// (`Datelike::num_days_from_ce`); the result is named `parsed_date`. The day
/// number of a date that parsed belongs to a `NaiveDate`, so it has a text.
#[verifier::external_body]
pub(crate) fn parse_date(s: &str) -> (r: Option<i32>)
    ensures
        match r {
            Some(d) => parsed_date(s@) == Some(d as int) && date_text(d as int) is Some,
            None => parsed_date(s@) is None,
        },
{
    chrono::NaiveDate::parse_from_str(s, "%Y-%m-%d").ok().map(|d| d.num_days_from_ce())
}

/// Calls `NaiveDate::from_num_days_from_ce_opt(d)` and formats the date with
/// `Display`; the result is named `date_text`.
#[verifier::external_body]
pub(crate) fn format_date(d: i32) -> (r: Option<String>)
    ensures
        match r {
            Some(t) => date_text(d as int) == Some(t@),
            None => date_text(d as int) is None,
        },
{
    chrono::NaiveDate::from_num_days_from_ce_opt(d).map(|date| date.to_string())
}

/// Calls `DateTime::parse_from_rfc3339(s)` and takes `timestamp`,
/// `timestamp_subsec_nanos` and the offset's `local_minus_utc`; the result
/// is named `parsed_rfc3339`.
#[verifier::external_body]
pub(crate) fn parse_rfc3339(s: &str) -> (r: Option<(i64, u32, i32)>)
    ensures
        match r {
            Some((secs, nanos, offset)) => parsed_rfc3339(s@) == Some(
                (secs as int, nanos as int, offset as int),
            ),
            None => parsed_rfc3339(s@) is None,
        },
{
    chrono::DateTime::parse_from_rfc3339(s).ok().map(
        |t| (t.timestamp(), t.timestamp_subsec_nanos(), t.offset().local_minus_utc()),
    )
}

/// The day after the date with day number `d` (`NaiveDate::checked_add_days`
/// with one day), `None` past the last date `chrono` holds.
pub uninterp spec fn next_day(d: int) -> Option<int>;

/// Calls `NaiveDate::checked_add_days(Days::new(1))` on the date with day
/// number `d`; the result is named `next_day` (`None` as well when `d` is no
/// date `chrono` holds).
#[verifier::external_body]
pub(crate) fn day_after(d: i64) -> (r: Option<i32>)
    ensures
        match r {
            Some(n) => next_day(d as int) == Some(n as int),
            None => next_day(d as int) is None,
        },
{
    let day = i32::try_from(d).ok()?;
    chrono::NaiveDate::from_num_days_from_ce_opt(day)?.checked_add_days(chrono::Days::new(1)).map(|n| n.num_days_from_ce())
}

/// A moment: Unix seconds and nanoseconds, and the day number of the local
/// date it falls on.
#[derive(Debug, Clone, Copy, PartialEq, Eq)]
pub struct Instant {
    pub date: i32,
    pub secs: i64,
    pub nanos: u32,
}

/// A deferral is a `YYYY-MM-DD` date or an RFC 3339 timestamp.
pub open spec fn valid_deferral(s: Seq<char>) -> bool {
    parsed_date(s) is Some || parsed_rfc3339(s) is Some
}

/// Whether `deferred_until` accepts the value: a date or an RFC 3339 timestamp.
pub fn valid_deferred_until(value: &str) -> (r: bool)
    ensures
        r == valid_deferral(value@),
{
    parse_date(value).is_some() || parse_rfc3339(value).is_some()
}

/// `(s1, n1)` is not later than `(s2, n2)`.
pub open spec fn not_after(s1: int, n1: int, s2: int, n2: int) -> bool {
    s1 < s2 || (s1 == s2 && n1 <= n2)
}

/// A project deferred until `value` is visible at `now`: there is no
/// deferral, it is not a date or timestamp, or it has been reached (a date
/// on its own day, a timestamp at its exact instant).
pub open spec fn deferral_visible(value: Option<Seq<char>>, now: Instant) -> bool {
    match value {
        None => true,
        Some(v) => match parsed_date(v) {
            Some(d) => d <= now.date,
            None => match parsed_rfc3339(v) {
                Some((s, n, _)) => not_after(s, n, now.secs as int, now.nanos as int),
                None => true,
            },
        },
    }
}

/// Whether a project deferred until `value` is visible at `now`.
pub fn deferred_is_visible_at(value: Option<&str>, now: &Instant) -> (r: bool)
    ensures
        r == deferral_visible(
            match value {
                Some(v) => Some(v@),
                None => None,
            },
            *now,
        ),
{
    match value {
        None => true,
        Some(v) => match parse_date(v) {
            Some(d) => d <= now.date,
            None => match parse_rfc3339(v) {
                Some((s, n, _)) => s < now.secs || (s == now.secs && n <= now.nanos),
                None => true,
            },
        },
    }
}

/// A deferral stays hidden before it is reached and stays visible after:
/// visibility never goes back as time moves forward.
pub proof fn lemma_deferral_monotonic(value: Option<Seq<char>>, a: Instant, b: Instant)
    requires
        a.date <= b.date,
        not_after(a.secs as int, a.nanos as int, b.secs as int, b.nanos as int),
        deferral_visible(value, a),
    ensures
        deferral_visible(value, b),
{
}

} // verus!

//! Moments of routines: a `chrono` date-time with a fixed offset, held as
//! Unix seconds, nanoseconds and the offset in seconds east of UTC, plus
//! whether it carries a clock time. Calendar arithmetic and formatting are
//! done by `chrono`; the local time zone is only consulted where a date or
//! a wall-clock time has to become a moment.

use vstd::prelude::*;

use chrono::{DateTime, Days, FixedOffset, Local, Months, NaiveDate, TimeDelta, TimeZone, Timelike};


verus! {

/// A scheduled moment that remembers whether it carries a clock time.
#[derive(Debug, Clone, Copy, PartialEq, Eq)]
pub struct RoutineInstant {
    pub secs: i64,
    pub nanos: u32,
    pub offset: i32,
    pub has_time: bool,
}

/// `a` is strictly later than `b`.
pub open spec fn later(a: RoutineInstant, b: RoutineInstant) -> bool {
    a.secs > b.secs || (a.secs == b.secs && a.nanos > b.nanos)
}

pub fn is_later(a: &RoutineInstant, b: &RoutineInstant) -> (r: bool)
    ensures
        r == later(*a, *b),
{
    a.secs > b.secs || (a.secs == b.secs && a.nanos > b.nanos)
}

/// The day number of the local date of a moment (`DateTime::date_naive`):
/// whole days since the Unix epoch in local time, plus the day number of
/// 1970-01-01.
pub open spec fn local_day(t: RoutineInstant) -> int {
    (t.secs + t.offset) / 86400 + 719163
}

/// A moment whose local date `chrono` can hold: its day number fits an `i32`.
pub open spec fn representable(t: RoutineInstant) -> bool {
    i32::MIN <= local_day(t) <= i32::MAX
}

/// `chrono::DateTime::checked_add_signed` with a number of seconds.
pub uninterp spec fn seconds_added(secs: int, nanos: int, offset: int, delta: int) -> Option<(int, int)>;

/// `chrono::DateTime::checked_add_days`.
pub uninterp spec fn days_added(secs: int, nanos: int, offset: int, days: int) -> Option<(int, int)>;

/// `chrono::DateTime::checked_sub_days`.
pub uninterp spec fn days_subtracted(secs: int, nanos: int, offset: int, days: int) -> Option<(int, int)>;

/// `chrono::DateTime::checked_add_months`.
pub uninterp spec fn months_added(secs: int, nanos: int, offset: int, months: int) -> Option<(int, int)>;

/// `chrono::DateTime::checked_sub_months`.
pub uninterp spec fn months_subtracted(secs: int, nanos: int, offset: int, months: int) -> Option<(int, int)>;

/// `YYYY-MM-DD HH:MM` of a moment in its own offset (`DateTime::format`).
pub uninterp spec fn minute_text(secs: int, nanos: int, offset: int) -> Seq<char>;

/// `YYYY-MM-DD` of a moment's local date (`DateTime::date_naive`).
pub uninterp spec fn local_date_text(secs: int, nanos: int, offset: int) -> Seq<char>;

/// The text of a moment: `YYYY-MM-DD HH:MM` in its own offset when it
/// carries a time, else its local date `YYYY-MM-DD`.
pub open spec fn instant_text(secs: int, nanos: int, offset: int, has_time: bool) -> Seq<char> {
    if has_time {
        minute_text(secs, nanos, offset)
    } else {
        local_date_text(secs, nanos, offset)
    }
}

/// `chrono::DateTime::with_second(0)` then `with_nanosecond(0)`, the moment
/// kept when either fails.
pub uninterp spec fn minute_start(secs: int, nanos: int, offset: int) -> (int, int);

/// Calls `DateTime::checked_add_signed` with `seconds` seconds on the moment
/// rebuilt from its parts (`None` when it cannot be rebuilt); the result,
/// in the same offset, is named `seconds_added`. Adding a positive duration
/// gives a later moment.
#[verifier::external_body]
pub(crate) fn add_seconds(t: &RoutineInstant, seconds: i64) -> (r: Option<(i64, u32)>)
    ensures
        match r {
            Some((s, n)) => seconds_added(t.secs as int, t.nanos as int, t.offset as int, seconds as int)
                == Some((s as int, n as int)) && (seconds > 0 ==> s > t.secs || (s == t.secs && n
                > t.nanos)),
            None => seconds_added(t.secs as int, t.nanos as int, t.offset as int, seconds as int) is None,
        },
{
    let at = DateTime::from_timestamp(t.secs, t.nanos)?.with_timezone(&FixedOffset::east_opt(t.offset)?);
    let d = TimeDelta::try_seconds(seconds)?;
    at.checked_add_signed(d).map(|x| (x.timestamp(), x.timestamp_subsec_nanos()))
}

/// Calls `DateTime::checked_add_days`; the result is named `days_added`.
/// Adding at least one day gives a later moment.
#[verifier::external_body]
pub(crate) fn add_days(t: &RoutineInstant, days: u64) -> (r: Option<(i64, u32)>)
    ensures
        match r {
            Some((s, n)) => days_added(t.secs as int, t.nanos as int, t.offset as int, days as int)
                == Some((s as int, n as int)) && (days > 0 ==> s > t.secs),
            None => days_added(t.secs as int, t.nanos as int, t.offset as int, days as int) is None,
        },
{
    let at = DateTime::from_timestamp(t.secs, t.nanos)?.with_timezone(&FixedOffset::east_opt(t.offset)?);
    at.checked_add_days(Days::new(days)).map(|x| (x.timestamp(), x.timestamp_subsec_nanos()))
}

/// Calls `DateTime::checked_sub_days`; the result is named `days_subtracted`.
#[verifier::external_body]
pub(crate) fn sub_days(t: &RoutineInstant, days: u64) -> (r: Option<(i64, u32)>)
    ensures
        match r {
            Some((s, n)) => days_subtracted(t.secs as int, t.nanos as int, t.offset as int, days as int)
                == Some((s as int, n as int)),
            None => days_subtracted(t.secs as int, t.nanos as int, t.offset as int, days as int) is None,
        },
{
    let at = DateTime::from_timestamp(t.secs, t.nanos)?.with_timezone(&FixedOffset::east_opt(t.offset)?);
    at.checked_sub_days(Days::new(days)).map(|x| (x.timestamp(), x.timestamp_subsec_nanos()))
}

/// Calls `DateTime::checked_add_months`; the result is named
/// `months_added`. Adding at least one month gives a later moment.
#[verifier::external_body]
pub(crate) fn add_months(t: &RoutineInstant, months: u32) -> (r: Option<(i64, u32)>)
    ensures
        match r {
            Some((s, n)) => months_added(t.secs as int, t.nanos as int, t.offset as int, months as int)
                == Some((s as int, n as int)) && (months > 0 ==> s > t.secs),
            None => months_added(t.secs as int, t.nanos as int, t.offset as int, months as int) is None,
        },
{
    let at = DateTime::from_timestamp(t.secs, t.nanos)?.with_timezone(&FixedOffset::east_opt(t.offset)?);
    at.checked_add_months(Months::new(months)).map(|x| (x.timestamp(), x.timestamp_subsec_nanos()))
}

/// Calls `DateTime::checked_sub_months`; the result is named `months_subtracted`.
#[verifier::external_body]
pub(crate) fn sub_months(t: &RoutineInstant, months: u32) -> (r: Option<(i64, u32)>)
    ensures
        match r {
            Some((s, n)) => months_subtracted(t.secs as int, t.nanos as int, t.offset as int, months as int)
                == Some((s as int, n as int)),
            None => months_subtracted(t.secs as int, t.nanos as int, t.offset as int, months as int) is None,
        },
{
    let at = DateTime::from_timestamp(t.secs, t.nanos)?.with_timezone(&FixedOffset::east_opt(t.offset)?);
    at.checked_sub_months(Months::new(months)).map(|x| (x.timestamp(), x.timestamp_subsec_nanos()))
}

/// Formats the moment, rebuilt in its own offset, with
/// `DateTime::format("%Y-%m-%d %H:%M")` (empty when it cannot be rebuilt);
/// the result is named `minute_text`.
#[verifier::external_body]
fn format_minute(t: &RoutineInstant) -> (r: String)
    ensures
        r@ == minute_text(t.secs as int, t.nanos as int, t.offset as int),
{
    match FixedOffset::east_opt(t.offset).and_then(|o| Some(DateTime::from_timestamp(t.secs, t.nanos)?.with_timezone(&o))) {
        Some(at) => at.format("%Y-%m-%d %H:%M").to_string(),
        None => String::new(),
    }
}

/// Formats the local date (`DateTime::date_naive`) of the moment, rebuilt in
/// its own offset, with `Display` (empty when it cannot be rebuilt); the
/// result is named `local_date_text`.
#[verifier::external_body]
fn format_local_date(t: &RoutineInstant) -> (r: String)
    ensures
        r@ == local_date_text(t.secs as int, t.nanos as int, t.offset as int),
{
    match FixedOffset::east_opt(t.offset).and_then(|o| Some(DateTime::from_timestamp(t.secs, t.nanos)?.with_timezone(&o))) {
        Some(at) => at.date_naive().to_string(),
        None => String::new(),
    }
}

/// The text of the moment: to the minute when it carries a clock time, else
/// its local date.
pub(crate) fn format_instant(t: &RoutineInstant) -> (r: String)
    ensures
        r@ == instant_text(t.secs as int, t.nanos as int, t.offset as int, t.has_time),
{
    if t.has_time {
        format_minute(t)
    } else {
        format_local_date(t)
    }
}

/// Calls `with_second(0)` and `with_nanosecond(0)`; the result is named `minute_start`.
#[verifier::external_body]
pub(crate) fn start_of_minute(t: &RoutineInstant) -> (r: (i64, u32))
    ensures
        (r.0 as int, r.1 as int) == minute_start(t.secs as int, t.nanos as int, t.offset as int),
{
    match FixedOffset::east_opt(t.offset).and_then(|o| Some(DateTime::from_timestamp(t.secs, t.nanos)?.with_timezone(&o))) {
        Some(now) => {
            let at = now.with_second(0).and_then(|at| at.with_nanosecond(0)).unwrap_or(now);
            (at.timestamp(), at.timestamp_subsec_nanos())
        },
        None => (t.secs, t.nanos),
    }
}

/// Calls `Local::from_local_datetime` on the date with day number `day` at
/// `seconds` after midnight and takes `earliest`, as a moment with a clock
/// time. `from_local_datetime` subtracts the local offset it finds from that
/// wall-clock time, so whatever moment comes back shows that date and time in
/// its own offset, with no fraction of a second, and a `FixedOffset` lies
/// within a day. Which offset that is, and whether the local time exists at
/// all, depends on the machine's time zone and is left unstated.
#[verifier::external_body]
pub(crate) fn local_earliest(day: i32, seconds: u32) -> (r: Option<RoutineInstant>)
    ensures
        r matches Some(t) ==> t.has_time,
        r matches Some(t) ==> t.nanos == 0 && -86400 < t.offset < 86400,
        r matches Some(t) ==> t.secs + t.offset == (day - 719163) * 86400 + seconds,
{
    let naive = NaiveDate::from_num_days_from_ce_opt(day)?.and_time(chrono::NaiveTime::from_num_seconds_from_midnight_opt(seconds, 0)?);
    let at = Local.from_local_datetime(&naive).earliest()?.fixed_offset();
    Some(RoutineInstant { secs: at.timestamp(), nanos: at.timestamp_subsec_nanos(), offset: at.offset().local_minus_utc(), has_time: true })
}

/// A date and time of day read with a `chrono` format: its day number and
/// seconds after midnight.
pub uninterp spec fn parsed_naive(value: Seq<char>, format: Seq<char>) -> Option<(int, int)>;

/// Calls `NaiveDateTime::parse_from_str(value, format)` and takes the day
/// number and the seconds after midnight; the result is named `parsed_naive`.
#[verifier::external_body]
pub(crate) fn parse_naive(value: &str, format: &str) -> (r: Option<(i32, u32)>)
    ensures
        match r {
            Some((d, s)) => parsed_naive(value@, format@) == Some((d as int, s as int)),
            None => parsed_naive(value@, format@) is None,
        },
{
    chrono::NaiveDateTime::parse_from_str(value, format).ok().map(|n| (chrono::Datelike::num_days_from_ce(&n.date()), n.time().num_seconds_from_midnight()))
}

} // verus!

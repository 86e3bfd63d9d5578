//! Routines: independently recurring obligations, one Markdown file each
//! under `_routines/`, with a repeat interval, a next due moment, a lead
//! time during which they are available, and a history of completions.

use vstd::prelude::*;

use crate::dates::{parse_date, parse_rfc3339, parsed_date, parsed_rfc3339, valid_deferral, valid_deferred_until};
use crate::frontmatter::{frontmatter_fields, parse_frontmatter_fields, Fields};
use crate::naming::{candidate_name, first_free, free_filename, slug_of};
use crate::project::{field, field_or_empty};
use crate::project_file::{body_of, cat2, cat3, cat4, format_value_chars, formatted_value, project_body};
use crate::routine_time::{
    days_added, days_subtracted, months_added, months_subtracted, seconds_added, add_days,
    add_months, add_seconds, format_instant, instant_text, is_later, later, local_day,
    local_earliest, parse_naive, parsed_naive, representable, start_of_minute, sub_days, sub_months,
    RoutineInstant,
};
use crate::text::{
    append, chars_of, eq, has_prefix, join, join_with, lines, lines_of, slice, string_of, trim,
    trim_end, trimmed, trimmed_end,
};
use crate::tokens::{split_whitespace, words};

verus! {

#[derive(Debug)]
pub enum RoutineError {
    InvalidPath(String),
    InvalidField { field: &'static str, message: &'static str },
    Read { file: String, source: std::io::Error },
    Write { file: String, source: std::io::Error },
    AlreadyExists(String),
    Malformed(String),
}

impl RoutineError {
    /// The human-readable message of the error.
    pub fn message(&self) -> (r: String)
        ensures
            self matches RoutineError::InvalidPath(f) ==> r@ == "Invalid routine path: "@ + f@,
            self matches RoutineError::InvalidField { field, message } ==> r@ == "Invalid "@
                + field@ + ": "@ + message@,
            self matches RoutineError::Read { file, source } ==> r@.len() >= file@.len() + 2
                && r@.subrange(0, file@.len() + 2int) == file@ + ": "@,
            self matches RoutineError::Write { file, source } ==> r@.len() >= file@.len() + 2
                && r@.subrange(0, file@.len() + 2int) == file@ + ": "@,
            self matches RoutineError::AlreadyExists(f) ==> r@ == "Routine already exists: "@ + f@,
            self matches RoutineError::Malformed(f) ==> r@ == "Invalid routine frontmatter in "@
                + f@,
    {
        match self {
            RoutineError::InvalidPath(f) => cat2("Invalid routine path: ", f.as_str()),
            RoutineError::InvalidField { field, message } => cat4("Invalid ", field, ": ", message),
            RoutineError::Read { file, source } | RoutineError::Write { file, source } => {
                let t = crate::project_file::io_error_text(source);
                let r = cat3(file.as_str(), ": ", t.as_str());
                proof {
                    reveal_strlit(": ");
                    assert(r@.subrange(0, file@.len() + 2int) =~= file@ + ": "@);
                }
                r
            },
            RoutineError::AlreadyExists(f) => cat2("Routine already exists: ", f.as_str()),
            RoutineError::Malformed(f) => cat2("Invalid routine frontmatter in ", f.as_str()),
        }
    }
}

fn invalid_field(field: &'static str, message: &'static str) -> (r: RoutineError)
    ensures
        r == (RoutineError::InvalidField { field, message }),
{
    RoutineError::InvalidField { field, message }
}

/// Where the next occurrence counts from.
#[derive(Debug, Clone, Copy, PartialEq, Eq, Structural)]
pub enum RepeatFrom {
    Completion,
    Schedule,
}

pub open spec fn repeat_from_named(value: Seq<char>) -> Option<RepeatFrom> {
    let t = trim(value);
    if t == "completion"@ {
        Some(RepeatFrom::Completion)
    } else if t == "schedule"@ || t == "fixed"@ {
        Some(RepeatFrom::Schedule)
    } else {
        None
    }
}

impl RepeatFrom {
    pub fn parse(value: &str) -> (r: Option<Self>)
        ensures
            r == repeat_from_named(value@),
    {
        let t = trimmed(&chars_of(value));
        if eq(&t, &chars_of("completion")) {
            Some(RepeatFrom::Completion)
        } else if eq(&t, &chars_of("schedule")) || eq(&t, &chars_of("fixed")) {
            Some(RepeatFrom::Schedule)
        } else {
            None
        }
    }

    pub fn as_str(self) -> (r: &'static str)
        ensures
            self == RepeatFrom::Completion ==> r == "completion",
            self == RepeatFrom::Schedule ==> r == "schedule",
    {
        match self {
            RepeatFrom::Completion => "completion",
            RepeatFrom::Schedule => "schedule",
        }
    }
}

/// Where an occurrence stands at a given moment.
#[derive(Debug, Clone, Copy, PartialEq, Eq, Structural)]
pub enum RoutineTiming {
    Deferred,
    Upcoming,
    Available,
    Due,
    Overdue,
}

#[derive(Debug, Clone, Copy, PartialEq, Eq, Structural)]
pub enum RepeatUnit {
    Hour,
    Day,
    Week,
    Month,
    Year,
}

/// An interval: a count of hours, days, weeks, months or years.
#[derive(Debug, Clone, Copy, PartialEq, Eq, Structural)]
pub struct RepeatSpec {
    pub count: u32,
    pub unit: RepeatUnit,
}

// ---------------------------------------------------------------------------
// Intervals
// ---------------------------------------------------------------------------

pub open spec fn digit_value(c: char) -> int {
    (c as int) - ('0' as int)
}

pub open spec fn all_digits(s: Seq<char>) -> bool {
    forall|i: int| 0 <= i < s.len() ==> '0' <= #[trigger] s[i] && s[i] <= '9'
}

/// The number the decimal digits `s` spell.
pub open spec fn digits_value(s: Seq<char>) -> int
    decreases s.len(),
{
    if s.len() == 0 {
        0
    } else {
        digits_value(s.drop_last()) * 10 + digit_value(s.last())
    }
}

/// `u32::from_str`: an optional `+`, then at least one decimal digit, the
/// value fitting in a `u32`.
pub open spec fn parsed_u32(s: Seq<char>) -> Option<int> {
    let d = if s.len() > 0 && s[0] == '+' {
        s.drop_first()
    } else {
        s
    };
    if d.len() > 0 && all_digits(d) && digits_value(d) <= u32::MAX {
        Some(digits_value(d))
    } else {
        None
    }
}

pub proof fn lemma_digits_value_nonneg(s: Seq<char>)
    requires
        all_digits(s),
    ensures
        digits_value(s) >= 0,
    decreases s.len(),
{
    if s.len() > 0 {
        lemma_digits_value_nonneg(s.drop_last());
    }
}

pub proof fn lemma_digits_value_grows(s: Seq<char>, i: int)
    requires
        all_digits(s),
        0 <= i <= s.len(),
    ensures
        digits_value(s.subrange(0, i)) <= digits_value(s),
    decreases s.len() - i,
{
    if i < s.len() {
        lemma_digits_value_grows(s, i + 1);
        let p = s.subrange(0, i + 1);
        assert(p.drop_last() =~= s.subrange(0, i));
        lemma_digits_value_nonneg(s.subrange(0, i));
        assert(all_digits(p));
    } else {
        assert(s.subrange(0, i) =~= s);
    }
}

fn parse_u32(s: &Vec<char>) -> (r: Option<u32>)
    ensures
        match r {
            Some(v) => parsed_u32(s@) == Some(v as int),
            None => parsed_u32(s@) is None,
        },
{
    let start: usize = if s.len() > 0 && s[0] == '+' {
        1
    } else {
        0
    };
    let d = slice(s, start, s.len());
    assert(d@ =~= (if s@.len() > 0 && s@[0] == '+' {
        s@.drop_first()
    } else {
        s@
    }));
    if d.len() == 0 {
        return None;
    }
    let ghost dd = d@;
    assert(parsed_u32(s@) == (if dd.len() > 0 && all_digits(dd) && digits_value(dd) <= u32::MAX {
        Some(digits_value(dd))
    } else {
        None
    }));
    let mut v: u32 = 0;
    let mut i: usize = 0;
    assert(d@.subrange(0, 0) =~= Seq::<char>::empty());
    while i < d.len()
        invariant
            i <= d.len(),
            dd == d@,
            dd.len() > 0,
            parsed_u32(s@) == (if all_digits(dd) && digits_value(dd) <= u32::MAX {
                Some(digits_value(dd))
            } else {
                None
            }),
            all_digits(d@.subrange(0, i as int)),
            v as int == digits_value(d@.subrange(0, i as int)),
        decreases d.len() - i,
    {
        let c = d[i];
        assert(d@.subrange(0, i + 1).drop_last() =~= d@.subrange(0, i as int));
        if !('0' <= c && c <= '9') {
            assert(!all_digits(d@)) by {
                assert(d@[i as int] == c);
            }
            return None;
        }
        let dv: u32 = (c as u32) - ('0' as u32);
        if v > (u32::MAX - dv) / 10 {
            proof {
                assert(all_digits(d@.subrange(0, i + 1)));
                assert(dv <= 9);
                assert(v * 10 + dv > u32::MAX) by (nonlinear_arith)
                    requires
                        v > (u32::MAX - dv) / 10,
                        dv <= 9,
                ;
                assert(digits_value(d@.subrange(0, i + 1)) == v * 10 + dv);
                if all_digits(d@) {
                    lemma_digits_value_grows(d@, i + 1);
                }
            }
            return None;
        }
        v = v * 10 + dv;
        i = i + 1;
    }
    assert(d@.subrange(0, d.len() as int) =~= d@);
    Some(v)
}

/// Every trailing `c` removed (`str::trim_end_matches(c)`).
pub open spec fn trim_end_char(s: Seq<char>, c: char) -> Seq<char>
    decreases s.len(),
{
    if s.len() > 0 && s.last() == c {
        trim_end_char(s.drop_last(), c)
    } else {
        s
    }
}

pub open spec fn ascii_lowered(s: Seq<char>) -> Seq<char> {
    s.map_values(|c: char| crate::naming::ascii_lower(c))
}

/// The unit a word names: `hour`, `day`, `week`, `month` or `year`, with
/// any trailing `s` dropped and ASCII letters lowercased.
pub open spec fn unit_named(w: Seq<char>) -> Option<RepeatUnit> {
    let u = ascii_lowered(trim_end_char(w, 's'));
    if u == "hour"@ {
        Some(RepeatUnit::Hour)
    } else if u == "day"@ {
        Some(RepeatUnit::Day)
    } else if u == "week"@ {
        Some(RepeatUnit::Week)
    } else if u == "month"@ {
        Some(RepeatUnit::Month)
    } else if u == "year"@ {
        Some(RepeatUnit::Year)
    } else {
        None
    }
}

/// An interval written as a number and a unit (`1 year`, `2 hours`); zero
/// only where allowed.
pub open spec fn interval_named(value: Seq<char>, allow_zero: bool) -> Option<RepeatSpec> {
    let ws = words(value);
    if ws.len() == 0 {
        None
    } else {
        match parsed_u32(ws[0]) {
            None => None,
            Some(n) => if (!allow_zero && n == 0) || ws.len() != 2 {
                None
            } else {
                match unit_named(ws[1]) {
                    Some(u) => Some(RepeatSpec { count: n as u32, unit: u }),
                    None => None,
                }
            },
        }
    }
}

fn unit_of(w: &Vec<char>) -> (r: Option<RepeatUnit>)
    ensures
        r == unit_named(w@),
{
    let mut n = w.len();
    assert(w@.subrange(0, w.len() as int) =~= w@);
    while n > 0 && w[n - 1] == 's'
        invariant
            n <= w.len(),
            trim_end_char(w@, 's') == trim_end_char(w@.subrange(0, n as int), 's'),
        decreases n,
    {
        assert(w@.subrange(0, n as int).drop_last() =~= w@.subrange(0, n - 1));
        n = n - 1;
    }
    let mut u: Vec<char> = Vec::new();
    let mut i: usize = 0;
    while i < n
        invariant
            i <= n <= w.len(),
            u@ == ascii_lowered(w@.subrange(0, i as int)),
        decreases n - i,
    {
        let c = w[i];
        let l = if 'A' <= c && c <= 'Z' {
            let b: u8 = (c as u8) + 32;
            b as char
        } else {
            c
        };
        u.push(l);
        assert(u@ =~= ascii_lowered(w@.subrange(0, i + 1)));
        i = i + 1;
    }
    if !(n > 0 && w[n - 1] == 's') {
        assert(trim_end_char(w@.subrange(0, n as int), 's') == w@.subrange(0, n as int));
    }
    if eq(&u, &chars_of("hour")) {
        Some(RepeatUnit::Hour)
    } else if eq(&u, &chars_of("day")) {
        Some(RepeatUnit::Day)
    } else if eq(&u, &chars_of("week")) {
        Some(RepeatUnit::Week)
    } else if eq(&u, &chars_of("month")) {
        Some(RepeatUnit::Month)
    } else if eq(&u, &chars_of("year")) {
        Some(RepeatUnit::Year)
    } else {
        None
    }
}

/// The moment one interval after `t`, as `chrono` computes it.
pub open spec fn shift_forward(spec: RepeatSpec, t: RoutineInstant) -> Option<RoutineInstant> {
    let moved = match spec.unit {
        RepeatUnit::Hour => seconds_added(t.secs as int, t.nanos as int, t.offset as int, spec.count * 3600),
        RepeatUnit::Day => days_added(t.secs as int, t.nanos as int, t.offset as int, spec.count as int),
        RepeatUnit::Week => days_added(t.secs as int, t.nanos as int, t.offset as int, spec.count * 7),
        RepeatUnit::Month => months_added(t.secs as int, t.nanos as int, t.offset as int, spec.count as int),
        RepeatUnit::Year => if spec.count * 12 <= u32::MAX {
            months_added(t.secs as int, t.nanos as int, t.offset as int, spec.count * 12)
        } else {
            None
        },
    };
    match moved {
        Some((s, n)) => Some(
            RoutineInstant {
                secs: s as i64,
                nanos: n as u32,
                offset: t.offset,
                has_time: t.has_time || spec.unit == RepeatUnit::Hour,
            },
        ),
        None => None,
    }
}

/// The moment one interval before `t`, as `chrono` computes it.
pub open spec fn shift_back(spec: RepeatSpec, t: RoutineInstant) -> Option<RoutineInstant> {
    let moved = match spec.unit {
        RepeatUnit::Hour => seconds_added(t.secs as int, t.nanos as int, t.offset as int, -(spec.count * 3600)),
        RepeatUnit::Day => days_subtracted(t.secs as int, t.nanos as int, t.offset as int, spec.count as int),
        RepeatUnit::Week => days_subtracted(t.secs as int, t.nanos as int, t.offset as int, spec.count * 7),
        RepeatUnit::Month => months_subtracted(t.secs as int, t.nanos as int, t.offset as int, spec.count as int),
        RepeatUnit::Year => if spec.count * 12 <= u32::MAX {
            months_subtracted(t.secs as int, t.nanos as int, t.offset as int, spec.count * 12)
        } else {
            None
        },
    };
    match moved {
        Some((s, n)) => Some(
            RoutineInstant {
                secs: s as i64,
                nanos: n as u32,
                offset: t.offset,
                has_time: t.has_time || spec.unit == RepeatUnit::Hour,
            },
        ),
        None => None,
    }
}

impl RepeatSpec {
    /// Read an interval; zero only where allowed.
    pub fn parse(value: &str, allow_zero: bool) -> (r: Option<Self>)
        ensures
            r == interval_named(value@, allow_zero),
    {
        let ws = split_whitespace(&chars_of(value));
        if ws.len() == 0 {
            return None;
        }
        let n = parse_u32(&ws[0])?;
        if (!allow_zero && n == 0) || ws.len() != 2 {
            return None;
        }
        let u = unit_of(&ws[1])?;
        Some(RepeatSpec { count: n, unit: u })
    }

    /// Sub-day intervals force the schedule to carry a clock time.
    pub fn is_intraday(self) -> (r: bool)
        ensures
            r == (self.unit == RepeatUnit::Hour),
    {
        self.unit == RepeatUnit::Hour
    }

    /// The moment one interval later; `None` out of range.
    pub fn add_to(self, t: &RoutineInstant) -> (r: Option<RoutineInstant>)
        ensures
            r == shift_forward(self, *t),
            r matches Some(n) ==> (self.count > 0 ==> later(n, *t)),
    {
        let moved = match self.unit {
            RepeatUnit::Hour => add_seconds(t, (self.count as i64) * 3600),
            RepeatUnit::Day => add_days(t, self.count as u64),
            RepeatUnit::Week => add_days(t, (self.count as u64) * 7),
            RepeatUnit::Month => add_months(t, self.count),
            RepeatUnit::Year => match self.count.checked_mul(12) {
                Some(m) => add_months(t, m),
                None => None,
            },
        };
        match moved {
            Some((s, n)) => Some(
                RoutineInstant {
                    secs: s,
                    nanos: n,
                    offset: t.offset,
                    has_time: t.has_time || self.unit == RepeatUnit::Hour,
                },
            ),
            None => None,
        }
    }

    /// The moment one interval earlier; `None` out of range.
    pub fn subtract_from(self, t: &RoutineInstant) -> (r: Option<RoutineInstant>)
        ensures
            r == shift_back(self, *t),
    {
        let moved = match self.unit {
            RepeatUnit::Hour => add_seconds(t, -((self.count as i64) * 3600)),
            RepeatUnit::Day => sub_days(t, self.count as u64),
            RepeatUnit::Week => sub_days(t, (self.count as u64) * 7),
            RepeatUnit::Month => sub_months(t, self.count),
            RepeatUnit::Year => match self.count.checked_mul(12) {
                Some(m) => sub_months(t, m),
                None => None,
            },
        };
        match moved {
            Some((s, n)) => Some(
                RoutineInstant {
                    secs: s,
                    nanos: n,
                    offset: t.offset,
                    has_time: t.has_time || self.unit == RepeatUnit::Hour,
                },
            ),
            None => None,
        }
    }
}

// ---------------------------------------------------------------------------
// Moments
// ---------------------------------------------------------------------------

/// The wall-clock layouts a moment may be written in, tried in this order
/// after a date and an RFC 3339 timestamp.
pub open spec fn wall_clock_format(i: int) -> Seq<char> {
    if i == 0 {
        "%Y-%m-%d %H:%M"@
    } else if i == 1 {
        "%Y-%m-%d %H:%M:%S"@
    } else if i == 2 {
        "%Y-%m-%dT%H:%M:%S"@
    } else {
        "%Y-%m-%dT%H:%M"@
    }
}

fn wall_clock_format_at(i: usize) -> (r: &'static str)
    requires
        i < 4,
    ensures
        r@ == wall_clock_format(i as int),
{
    if i == 0 {
        "%Y-%m-%d %H:%M"
    } else if i == 1 {
        "%Y-%m-%d %H:%M:%S"
    } else if i == 2 {
        "%Y-%m-%dT%H:%M:%S"
    } else {
        "%Y-%m-%dT%H:%M"
    }
}

/// The local date (day number) and time of day (seconds after midnight)
/// that the first of the wall-clock layouts from the `i`-th on reads in `v`.
pub open spec fn first_wall_clock(v: Seq<char>, i: int) -> Option<(int, int)>
    decreases 4 - i,
{
    if 0 <= i < 4 {
        match parsed_naive(v, wall_clock_format(i)) {
            Some(p) => Some(p),
            None => first_wall_clock(v, i + 1),
        }
    } else {
        None
    }
}

/// `t` is what the (trimmed) text `v` reads as: a date is the start of that
/// day in the moment's own offset, without a clock time; a timestamp is
/// exactly that instant; a wall-clock time is that local date and time of
/// day in the moment's own offset. Which offset a date or a wall-clock time
/// gets is the machine's time zone's to say.
pub open spec fn reads_as(v: Seq<char>, t: RoutineInstant) -> bool {
    match parsed_date(v) {
        Some(d) => {
            &&& !t.has_time
            &&& t.nanos == 0
            &&& t.secs + t.offset == (d - 719163) * 86400
            &&& local_day(t) == d
        },
        None => match parsed_rfc3339(v) {
            Some((s, n, o)) => t.has_time && t.secs == s && t.nanos == n && t.offset == o,
            None => match first_wall_clock(v, 0) {
                Some((d, s)) => {
                    &&& t.has_time
                    &&& t.nanos == 0
                    &&& t.secs + t.offset == (d - 719163) * 86400 + s
                },
                None => false,
            },
        },
    }
}

/// Texts that read as a moment whatever the time zone: dates and RFC 3339
/// timestamps.
pub open spec fn reads_surely(v: Seq<char>) -> bool {
    parsed_date(v) is Some || parsed_rfc3339(v) is Some
}

impl RoutineInstant {
    /// The text of the moment: `YYYY-MM-DD HH:MM` in its own offset when it
    /// carries a clock time, else its local date.
    pub fn display(&self) -> (r: String)
        ensures
            r@ == instant_text(self.secs as int, self.nanos as int, self.offset as int, self.has_time),
    {
        format_instant(self)
    }

    /// A date as local midnight (UTC midnight when that local time does not
    /// exist), without a clock time: in its own offset the moment is the start
    /// of the day `day`.
    pub fn from_date(day: i32) -> (r: Self)
        ensures
            !r.has_time,
            r.nanos == 0,
            r.secs + r.offset == (day - 719163) * 86400,
            local_day(r) == day,
    {
        let r = match local_earliest(day, 0) {
            Some(t) => RoutineInstant { secs: t.secs, nanos: t.nanos, offset: t.offset, has_time: false },
            None => {
                let secs: i64 = ((day as i64) - 719163) * 86400;
                RoutineInstant { secs, nanos: 0, offset: 0, has_time: false }
            },
        };
        proof {
            let k = day - 719163;
            assert((k * 86400) / 86400 == k) by (nonlinear_arith);
        }
        r
    }

    /// Read a moment: a `YYYY-MM-DD` date (local midnight), an RFC 3339
    /// timestamp, or a local wall-clock time (`YYYY-MM-DD HH:MM`, with
    /// seconds, or with a `T`). Whatever comes back is what the trimmed text
    /// reads as; dates and timestamps always read, while a wall-clock time
    /// that does not exist in the local time zone reads as nothing.
    pub fn parse(value: &str) -> (r: Option<Self>)
        ensures
            match r {
                Some(t) => reads_as(trim(value@), t),
                None => !reads_surely(trim(value@)),
            },
    {
        let v = string_of(&trimmed(&chars_of(value)));
        if let Some(d) = parse_date(v.as_str()) {
            return Some(RoutineInstant::from_date(d));
        }
        if let Some((s, n, o)) = parse_rfc3339(v.as_str()) {
            return Some(RoutineInstant { secs: s, nanos: n, offset: o, has_time: true });
        }
        let mut i: usize = 0;
        while i < 4
            invariant
                i <= 4,
                v@ == trim(value@),
                parsed_date(trim(value@)) is None,
                parsed_rfc3339(trim(value@)) is None,
                first_wall_clock(v@, 0) == first_wall_clock(v@, i as int),
            decreases 4 - i,
        {
            if let Some((d, sec)) = parse_naive(v.as_str(), wall_clock_format_at(i)) {
                return match local_earliest(d, sec) {
                    Some(t) => Some(t),
                    None => None,
                };
            }
            i = i + 1;
        }
        None
    }

    /// The moment a completion or skip happened, kept to the precision the
    /// cadence needs: to the minute for intraday ones, else the local date.
    pub fn from_now(now: &RoutineInstant, with_time: bool) -> (r: Self)
        requires
            representable(*now),
        ensures
            r.has_time == with_time,
            with_time ==> r.offset == now.offset && (r.secs as int, r.nanos as int)
                == crate::routine_time::minute_start(
                now.secs as int,
                now.nanos as int,
                now.offset as int,
            ),
    {
        if with_time {
            let (s, n) = start_of_minute(now);
            RoutineInstant { secs: s, nanos: n, offset: now.offset, has_time: true }
        } else {
            let d = RoutineInstant::date(now);
            RoutineInstant::from_date(d as i32)
        }
    }

    /// The day number of the local date of the moment (`date_naive`).
    pub fn date(t: &RoutineInstant) -> (r: i64)
        ensures
            r as int == local_day(*t),
    {
        let total: i128 = (t.secs as i128) + (t.offset as i128);
        let shift: i128 = 86400 * 0x8000_0000_0000;
        let shifted: i128 = total + shift;
        assert(shifted > 0);
        let q: i128 = shifted / 86400;
        proof {
            let a = total as int;
            let k: int = 0x8000_0000_0000;
            vstd::arithmetic::div_mod::lemma_fundamental_div_mod(a, 86400);
            let q0 = a / 86400;
            let r0 = a % 86400;
            assert(a + 86400 * k == 86400 * (q0 + k) + r0) by (nonlinear_arith)
                requires
                    a == 86400 * q0 + r0,
            ;
            vstd::arithmetic::div_mod::lemma_div_multiples_vanish_fancy(q0 + k, r0, 86400);
            assert((a + 86400 * k) / 86400 == q0 + k);
        }
        let day: i128 = q - 0x8000_0000_0000 + 719163;
        day as i64
    }
}


// ---------------------------------------------------------------------------
// Timing
// ---------------------------------------------------------------------------

/// A deferral that has not been reached at `now`: a date after today, or a
/// timestamp after `now` (an unreadable one defers nothing).
pub open spec fn deferred_at(value: Option<Seq<char>>, now: RoutineInstant) -> bool {
    match value {
        None => false,
        Some(v) => match parsed_date(v) {
            Some(d) => d > local_day(now),
            None => match parsed_rfc3339(v) {
                Some((s, n, _)) => s > now.secs || (s == now.secs && n > now.nanos),
                None => false,
            },
        },
    }
}

/// Where an occurrence stands at `now`: deferred, not yet available, available
/// before its due moment, due until `due_until`, then overdue.
pub open spec fn timing_of(
    available_on: RoutineInstant,
    next_due: RoutineInstant,
    due_until: Option<RoutineInstant>,
    deferred: Option<Seq<char>>,
    now: RoutineInstant,
) -> RoutineTiming {
    if deferred_at(deferred, now) {
        RoutineTiming::Deferred
    } else if later(available_on, now) {
        RoutineTiming::Upcoming
    } else if later(next_due, now) {
        RoutineTiming::Available
    } else if due_until matches Some(u) && later(u, now) {
        RoutineTiming::Due
    } else {
        RoutineTiming::Overdue
    }
}

/// Where an occurrence stands at `now`, given when it stops being merely due.
pub fn timing_at(
    available_on: &RoutineInstant,
    next_due: &RoutineInstant,
    due_until: Option<RoutineInstant>,
    deferred_until: Option<&str>,
    now: &RoutineInstant,
) -> (r: RoutineTiming)
    ensures
        r == timing_of(
            *available_on,
            *next_due,
            due_until,
            match deferred_until {
                Some(v) => Some(v@),
                None => None,
            },
            *now,
        ),
{
    let deferred = match deferred_until {
        None => false,
        Some(v) => match parse_date(v) {
            Some(d) => (d as i64) > RoutineInstant::date(now),
            None => match parse_rfc3339(v) {
                Some((s, n, _)) => s > now.secs || (s == now.secs && n > now.nanos),
                None => false,
            },
        },
    };
    if deferred {
        RoutineTiming::Deferred
    } else if is_later(available_on, now) {
        RoutineTiming::Upcoming
    } else if is_later(next_due, now) {
        RoutineTiming::Available
    } else if match &due_until {
        Some(u) => is_later(u, now),
        None => false,
    } {
        RoutineTiming::Due
    } else {
        RoutineTiming::Overdue
    }
}

/// When an occurrence due at `next_due` stops being merely due: one
/// interval later for moments with a clock time; else at the start of the
/// next local day, in that moment's own offset (none past the last date).
pub open spec fn due_end(repeat: RepeatSpec, next_due: RoutineInstant, end: Option<RoutineInstant>) -> bool {
    if next_due.has_time {
        end == shift_forward(repeat, next_due)
    } else {
        match crate::dates::next_day(local_day(next_due)) {
            None => end is None,
            Some(d) => end matches Some(t) && {
                &&& !t.has_time
                &&& t.nanos == 0
                &&& local_day(t) == d
                &&& t.secs + t.offset == (d - 719163) * 86400
            },
        }
    }
}

/// How long an occurrence stays merely due: one interval for moments with a
/// clock time, else until the start of the next day.
pub fn due_until(next_due: &RoutineInstant, repeat: RepeatSpec) -> (r: Option<RoutineInstant>)
    ensures
        due_end(repeat, *next_due, r),
{
    if next_due.has_time {
        repeat.add_to(next_due)
    } else {
        match crate::dates::day_after(RoutineInstant::date(next_due)) {
            Some(d) => Some(RoutineInstant::from_date(d)),
            None => None,
        }
    }
}

// ---------------------------------------------------------------------------
// Routine files
// ---------------------------------------------------------------------------

/// What a routine form submits.
#[derive(Debug, Clone)]
pub struct RoutineInput {
    pub title: String,
    pub area: String,
    pub repeat: String,
    pub repeat_from: RepeatFrom,
    pub available_before: String,
    pub next_due: RoutineInstant,
    pub body: String,
}

/// A routine read from its file.
#[derive(Debug, Clone)]
pub struct Routine {
    pub title: String,
    pub area: String,
    pub repeat: String,
    pub repeat_from: RepeatFrom,
    pub available_before: String,
    pub next_due: RoutineInstant,
    pub available_on: RoutineInstant,
    pub last_completed: Option<RoutineInstant>,
    pub deferred_until: Option<String>,
    pub timing: RoutineTiming,
    pub body: String,
    pub file: String,
}

/// A value on one line that is not blank.
pub open spec fn one_line(value: Seq<char>) -> bool {
    trim(value).len() > 0 && !value.contains('\n') && !value.contains('\r')
}

fn contains_char(v: &Vec<char>, c: char) -> (r: bool)
    ensures
        r == v@.contains(c),
{
    let mut i: usize = 0;
    while i < v.len()
        invariant
            i <= v.len(),
            forall|j: int| 0 <= j < i ==> v@[j] != c,
        decreases v.len() - i,
    {
        if v[i] == c {
            assert(v@[i as int] == c);
            return true;
        }
        i = i + 1;
    }
    false
}

/// A title or area must be one non-empty line.
pub fn validate_one_line(field: &'static str, value: &str) -> (r: Result<(), RoutineError>)
    ensures
        one_line(value@) ==> r is Ok,
        !one_line(value@) ==> r == Err::<(), _>(
            RoutineError::InvalidField { field, message: "must be one non-empty line" },
        ),
{
    let v = chars_of(value);
    if trimmed(&v).len() == 0 || contains_char(&v, '\n') || contains_char(&v, '\r') {
        return Err(invalid_field(field, "must be one non-empty line"));
    }
    Ok(())
}

/// An interval for `field`, or the error that names the field.
pub fn parse_interval(field: &'static str, value: &str, allow_zero: bool) -> (r: Result<
    RepeatSpec,
    RoutineError,
>)
    ensures
        match interval_named(value@, allow_zero) {
            Some(spec) => r == Ok::<_, RoutineError>(spec),
            None => r == Err::<RepeatSpec, _>(
                RoutineError::InvalidField {
                    field,
                    message: "expected a number and day, week, month, or year",
                },
            ),
        },
{
    match RepeatSpec::parse(value, allow_zero) {
        Some(spec) => Ok(spec),
        None => Err(invalid_field(field, "expected a number and day, week, month, or year")),
    }
}

/// The check of a routine form: title and area on one line each, a repeat
/// interval and a lead time (which may be zero).
/// The first thing wrong with a routine form, in the order the fields are checked.
pub open spec fn input_problem(input: RoutineInput) -> Option<RoutineError> {
    let interval = "expected a number and day, week, month, or year";
    if !one_line(input.title@) {
        Some(RoutineError::InvalidField { field: "title", message: "must be one non-empty line" })
    } else if !one_line(input.area@) {
        Some(RoutineError::InvalidField { field: "area", message: "must be one non-empty line" })
    } else if interval_named(input.repeat@, false) is None {
        Some(RoutineError::InvalidField { field: "repeat", message: interval })
    } else if interval_named(input.available_before@, true) is None {
        Some(RoutineError::InvalidField { field: "available_before", message: interval })
    } else {
        None
    }
}

pub fn validate_input(input: &RoutineInput) -> (r: Result<(), RoutineError>)
    ensures
        r == match input_problem(*input) {
            Some(e) => Err(e),
            None => Ok::<(), RoutineError>(()),
        },
{
    validate_one_line("title", input.title.as_str())?;
    validate_one_line("area", input.area.as_str())?;
    parse_interval("repeat", input.repeat.as_str(), false)?;
    parse_interval("available_before", input.available_before.as_str(), true)?;
    Ok(())
}

/// A routine file lives directly in `_routines/` and ends in `.md`.
pub open spec fn routine_path_ok(file: Seq<char>) -> bool {
    let p = "_routines/"@;
    &&& file.len() > p.len() && file.subrange(0, p.len() as int) == p
    &&& !file.subrange(p.len() as int, file.len() as int).contains('/')
    &&& file.len() >= p.len() + 3 && file.subrange(file.len() - 3, file.len() as int) == ".md"@
}

/// Check the shape of a routine path.
pub fn routine_path_shape(file: &str) -> (r: Result<(), RoutineError>)
    ensures
        r is Ok <==> routine_path_ok(file@),
        r matches Err(e) ==> e matches RoutineError::InvalidPath(f) && f@ == file@,
{
    proof {
        reveal_strlit("_routines/");
        reveal_strlit(".md");
    }
    let f = chars_of(file);
    let p = chars_of("_routines/");
    if !has_prefix(&f, &p) || f.len() == p.len() {
        return Err(RoutineError::InvalidPath(string_of(&f)));
    }
    let name = slice(&f, p.len(), f.len());
    if contains_char(&name, '/') {
        return Err(RoutineError::InvalidPath(string_of(&f)));
    }
    let n = f.len();
    if !(n >= p.len() + 3 && f[n - 3] == '.' && f[n - 2] == 'm' && f[n - 1] == 'd') {
        assert(!(f@.subrange(n - 3, n as int) == ".md"@) || n < p.len() + 3) by {
            if n >= p.len() + 3 && f@.subrange(n - 3, n as int) == ".md"@ {
                assert(f@.subrange(n - 3, n as int)[0] == f@[n - 3]);
                assert(f@.subrange(n - 3, n as int)[1] == f@[n - 2]);
                assert(f@.subrange(n - 3, n as int)[2] == f@[n - 1]);
            }
        }
        return Err(RoutineError::InvalidPath(string_of(&f)));
    }
    assert(f@.subrange(n - 3, n as int) =~= ".md"@);
    Ok(())
}

/// A history entry: `- {when} — completed` or `— skipped`.
pub open spec fn history_entry(when: Seq<char>, completed: bool) -> Seq<char> {
    "- "@ + when + " — "@ + (if completed {
        "completed"@
    } else {
        "skipped"@
    })
}

/// The first line at or after `k` that is the `## History` heading, or the
/// number of lines.
pub open spec fn find_history(ls: Seq<Seq<char>>, k: int) -> int
    decreases ls.len() - k,
{
    if k < 0 || k >= ls.len() {
        ls.len() as int
    } else if trim(ls[k]) == "## History"@ {
        k
    } else {
        find_history(ls, k + 1)
    }
}

/// The first line at or after `k` that starts a level-two section, or the
/// number of lines.
pub open spec fn find_heading(ls: Seq<Seq<char>>, k: int) -> int
    decreases ls.len() - k,
{
    if k < 0 || k >= ls.len() {
        ls.len() as int
    } else if crate::text::starts_with(ls[k], "## "@) {
        k
    } else {
        find_heading(ls, k + 1)
    }
}

/// The body with a history entry added: at the end of the `## History`
/// section when there is one, else in a new section at the end.
pub open spec fn appended_history(body: Seq<char>, when: Seq<char>, completed: bool) -> Seq<char> {
    let entry = history_entry(when, completed);
    let t = trim_end(body);
    if t.len() == 0 {
        "## History\n\n"@ + entry + "\n"@
    } else {
        let ls = lines(t);
        let h = find_history(ls, 0);
        if h < ls.len() {
            join(ls.insert(find_heading(ls, h + 1), entry), "\n"@) + "\n"@
        } else {
            t + "\n\n## History\n\n"@ + entry + "\n"@
        }
    }
}

proof fn lemma_find_range(ls: Seq<Seq<char>>, k: int)
    requires
        0 <= k,
    ensures
        k <= find_history(ls, k) <= ls.len() || find_history(ls, k) == ls.len(),
        k <= find_heading(ls, k) <= ls.len() || find_heading(ls, k) == ls.len(),
    decreases ls.len() - k,
{
    if k < ls.len() {
        lemma_find_range(ls, k + 1);
    }
}

/// Add a history entry to a routine body.
pub fn append_history(body: &str, when: &str, completed: bool) -> (r: String)
    ensures
        r@ == appended_history(body@, when@, completed),
{
    let mut entry = chars_of("- ");
    append(&mut entry, &chars_of(when));
    append(&mut entry, &chars_of(" — "));
    append(&mut entry, &chars_of(if completed { "completed" } else { "skipped" }));
    let t = trimmed_end(&chars_of(body));
    if t.len() == 0 {
        let mut r = chars_of("## History\n\n");
        append(&mut r, &entry);
        append(&mut r, &chars_of("\n"));
        return string_of(&r);
    }
    let mut ls = lines_of(&t);
    let ghost lv = ls@.map_values(|l: Vec<char>| l@);
    let mut h: usize = 0;
    while h < ls.len() && !eq(&trimmed(&ls[h]), &chars_of("## History"))
        invariant
            h <= ls.len(),
            lv == ls@.map_values(|l: Vec<char>| l@),
            find_history(lv, 0) == find_history(lv, h as int),
        decreases ls.len() - h,
    {
        h = h + 1;
    }
    if h < ls.len() {
        let mut at = h + 1;
        proof {
            reveal_strlit("## ");
        }
        while at < ls.len() && !has_prefix(&ls[at], &chars_of("## "))
            invariant
                h + 1 <= at <= ls.len(),
                lv == ls@.map_values(|l: Vec<char>| l@),
                find_heading(lv, h + 1) == find_heading(lv, at as int),
            decreases ls.len() - at,
        {
            at = at + 1;
        }
        let ghost ev = entry@;
        ls.insert(at, entry);
        assert(ls@.map_values(|l: Vec<char>| l@) =~= lv.insert(at as int, ev));
        let sep = vec!['\n'];
        assert(sep@ =~= "\n"@) by {
            reveal_strlit("\n");
        }
        let mut r = join_with(&ls, &sep);
        r.push('\n');
        proof {
            reveal_strlit("\n");
        }
        return string_of(&r);
    }
    let mut r = t;
    append(&mut r, &chars_of("\n\n## History\n\n"));
    append(&mut r, &entry);
    append(&mut r, &chars_of("\n"));
    string_of(&r)
}

pub open spec fn opt_instant_text(t: Option<RoutineInstant>) -> Option<Seq<char>> {
    match t {
        Some(i) => Some(instant_text(i.secs as int, i.nanos as int, i.offset as int, i.has_time)),
        None => None,
    }
}

pub open spec fn repeat_from_text(r: RepeatFrom) -> Seq<char> {
    match r {
        RepeatFrom::Completion => "completion"@,
        RepeatFrom::Schedule => "schedule"@,
    }
}

/// The frontmatter lines of a routine file.
pub open spec fn routine_lines(
    input: RoutineInput,
    last_completed: Option<Seq<char>>,
    deferred_until: Option<Seq<char>>,
) -> Seq<Seq<char>> {
    let base = seq![
        "type: routine"@,
        "title: "@ + formatted_value(trim(input.title@)),
        "area: "@ + formatted_value(trim(input.area@)),
        "repeat: "@ + formatted_value(trim(input.repeat@)),
        "repeat_from: "@ + repeat_from_text(input.repeat_from),
        "available_before: "@ + formatted_value(trim(input.available_before@)),
        "next_due: "@ + instant_text(
            input.next_due.secs as int,
            input.next_due.nanos as int,
            input.next_due.offset as int,
            input.next_due.has_time,
        ),
    ];
    let with_last = match last_completed {
        Some(t) => base.push("last_completed: "@ + t),
        None => base,
    };
    match deferred_until {
        Some(v) => with_last.push("deferred_until: "@ + v),
        None => with_last,
    }
}

/// The text of a routine file with the frontmatter of `input` and the body `body`.
pub open spec fn routine_document(
    input: RoutineInput,
    body: Seq<char>,
    last_completed: Option<Seq<char>>,
    deferred_until: Option<Seq<char>>,
) -> Seq<char> {
    let fm = join(routine_lines(input, last_completed, deferred_until), "\n"@);
    let b = trim_end(body);
    if b.len() == 0 {
        "---\n"@ + fm + "\n---\n"@
    } else {
        "---\n"@ + fm + "\n---\n\n"@ + b + "\n"@
    }
}

/// The text of a routine file.
pub open spec fn routine_file_text(
    input: RoutineInput,
    last_completed: Option<Seq<char>>,
    deferred_until: Option<Seq<char>>,
) -> Seq<char> {
    routine_document(input, input.body@, last_completed, deferred_until)
}

fn labelled(label: &str, value: &Vec<char>) -> (r: Vec<char>)
    ensures
        r@ == label@ + value@,
{
    let mut r = chars_of(label);
    append(&mut r, value);
    r
}

/// Write a routine file from a form, its last completion and its deferral.
pub fn routine_text(
    input: &RoutineInput,
    last_completed: Option<&RoutineInstant>,
    deferred_until: Option<&str>,
) -> (r: String)
    ensures
        r@ == routine_file_text(
            *input,
            match last_completed {
                Some(t) => Some(
                    instant_text(t.secs as int, t.nanos as int, t.offset as int, t.has_time),
                ),
                None => None,
            },
            match deferred_until {
                Some(v) => Some(v@),
                None => None,
            },
        ),
{
    let mut ls: Vec<Vec<char>> = Vec::new();
    ls.push(chars_of("type: routine"));
    ls.push(labelled("title: ", &format_value_chars(&trimmed(&chars_of(input.title.as_str())))));
    ls.push(labelled("area: ", &format_value_chars(&trimmed(&chars_of(input.area.as_str())))));
    ls.push(labelled("repeat: ", &format_value_chars(&trimmed(&chars_of(input.repeat.as_str())))));
    ls.push(labelled("repeat_from: ", &chars_of(input.repeat_from.as_str())));
    ls.push(
        labelled(
            "available_before: ",
            &format_value_chars(&trimmed(&chars_of(input.available_before.as_str()))),
        ),
    );
    ls.push(labelled("next_due: ", &chars_of(format_instant(&input.next_due).as_str())));
    match last_completed {
        Some(t) => ls.push(labelled("last_completed: ", &chars_of(format_instant(t).as_str()))),
        None => {},
    }
    match deferred_until {
        Some(v) => ls.push(labelled("deferred_until: ", &chars_of(v))),
        None => {},
    }
    proof {
        reveal_strlit("completion");
        reveal_strlit("schedule");
    }
    let sep = chars_of("\n");
    let fm = join_with(&ls, &sep);
    let body = trimmed_end(&chars_of(input.body.as_str()));
    let mut r = chars_of("---\n");
    append(&mut r, &fm);
    if body.len() == 0 {
        append(&mut r, &chars_of("\n---\n"));
    } else {
        append(&mut r, &chars_of("\n---\n\n"));
        append(&mut r, &body);
        append(&mut r, &chars_of("\n"));
    }
    assert(ls@.map_values(|l: Vec<char>| l@) =~= routine_lines(
        *input,
        match last_completed {
            Some(t) => Some(instant_text(t.secs as int, t.nanos as int, t.offset as int, t.has_time)),
            None => None,
        },
        match deferred_until {
            Some(v) => Some(v@),
            None => None,
        },
    ));
    string_of(&r)
}


// ---------------------------------------------------------------------------
// Reading a routine
// ---------------------------------------------------------------------------

/// A field that is present and not blank.
pub open spec fn present(m: Map<Seq<char>, Seq<char>>, key: Seq<char>) -> bool {
    m.contains_key(key) && trim(m[key]).len() > 0
}

/// The lead time a routine asks for: `0 days` when absent.
pub open spec fn available_before_value(m: Map<Seq<char>, Seq<char>>) -> Seq<char> {
    if m.contains_key("available_before"@) {
        m["available_before"@]
    } else {
        "0 days"@
    }
}

/// The error of a moment field whose text does not read.
pub open spec fn unreadable_moment(key: &'static str) -> RoutineError {
    RoutineError::InvalidField { field: key, message: "expected YYYY-MM-DD or an RFC 3339 timestamp" }
}

/// The fields of a routine before its moments are there and read: it is a
/// routine with a title, a cadence, where it repeats from, a lead time and
/// a `next_due`.
pub open spec fn routine_head_ok(m: Map<Seq<char>, Seq<char>>) -> bool {
    &&& field(m, "type"@) == Some("routine"@)
    &&& present(m, "title"@)
    &&& present(m, "repeat"@)
    &&& interval_named(m["repeat"@], false) is Some
    &&& present(m, "repeat_from"@)
    &&& repeat_from_named(m["repeat_from"@]) is Some
    &&& interval_named(available_before_value(m), true) is Some
    &&& present(m, "next_due"@)
}

/// The lead time of a routine whose head reads.
pub open spec fn lead_of(m: Map<Seq<char>, Seq<char>>) -> RepeatSpec {
    interval_named(available_before_value(m), true)->0
}

/// `next_due` can read as a moment from which the lead time can be taken.
pub open spec fn next_due_fits(m: Map<Seq<char>, Seq<char>>) -> bool {
    exists|t: RoutineInstant|
        #[trigger] reads_as(trim(m["next_due"@]), t) && shift_back(lead_of(m), t) is Some
}

/// The moments of a routine read in some time zone, and its deferral is valid.
pub open spec fn moments_may_read(m: Map<Seq<char>, Seq<char>>) -> bool {
    &&& next_due_fits(m)
    &&& m.contains_key("last_completed"@) ==> exists|t: RoutineInstant|
        #[trigger] reads_as(trim(m["last_completed"@]), t)
    &&& m.contains_key("deferred_until"@) ==> valid_deferral(m["deferred_until"@])
}

/// The moments of a routine read in every time zone (they are dates or
/// timestamps, and the lead time can be taken from whatever `next_due`
/// reads as), and its deferral is valid.
pub open spec fn moments_read_surely(m: Map<Seq<char>, Seq<char>>) -> bool {
    &&& reads_surely(trim(m["next_due"@]))
    &&& forall|t: RoutineInstant|
        #[trigger] reads_as(trim(m["next_due"@]), t) ==> shift_back(lead_of(m), t) is Some
    &&& m.contains_key("last_completed"@) ==> reads_surely(trim(m["last_completed"@]))
    &&& m.contains_key("deferred_until"@) ==> valid_deferral(m["deferred_until"@])
}

/// A text that can read as a routine (in some time zone).
pub open spec fn routine_may_read(text: Seq<char>) -> bool {
    match frontmatter_fields(text) {
        Some(m) => routine_head_ok(m) && moments_may_read(m),
        None => false,
    }
}

/// A text that reads as a routine whatever the time zone.
pub open spec fn routine_reads_surely(text: Seq<char>) -> bool {
    match frontmatter_fields(text) {
        Some(m) => routine_head_ok(m) && moments_read_surely(m),
        None => false,
    }
}

fn required(fields: &Fields, key: &'static str) -> (r: Result<String, RoutineError>)
    ensures
        present(fields@, key@) ==> (r matches Ok(v) && v@ == fields@[key@]),
        !present(fields@, key@) ==> r == Err::<String, _>(
            RoutineError::InvalidField { field: key, message: "is required" },
        ),
{
    match fields.get(key) {
        Some(v) => {
            if trimmed(&chars_of(v.as_str())).len() == 0 {
                Err(invalid_field(key, "is required"))
            } else {
                Ok(v)
            }
        },
        None => Err(invalid_field(key, "is required")),
    }
}

fn parse_instant_field(fields: &Fields, key: &'static str) -> (r: Result<RoutineInstant, RoutineError>)
    ensures
        !present(fields@, key@) ==> r == Err::<RoutineInstant, _>(
            RoutineError::InvalidField { field: key, message: "is required" },
        ),
        present(fields@, key@) ==> match r {
            Ok(t) => reads_as(trim(fields@[key@]), t),
            Err(e) => e == unreadable_moment(key) && !reads_surely(trim(fields@[key@])),
        },
{
    let v = required(fields, key)?;
    match RoutineInstant::parse(v.as_str()) {
        Some(t) => Ok(t),
        None => Err(invalid_field(key, "expected YYYY-MM-DD or an RFC 3339 timestamp")),
    }
}

impl Routine {
    /// Read a routine file at the moment `now`.
    pub fn from_text_at(text: &str, file: &str, now: &RoutineInstant) -> (r: Result<
        Routine,
        RoutineError,
    >)
        ensures
            match frontmatter_fields(text@) {
                None => r matches Err(RoutineError::Malformed(f)) && f@ == file@,
                Some(m) => if field(m, "type"@) != Some("routine"@) {
                    r matches Err(RoutineError::Malformed(f)) && f@ == file@
                } else if !present(m, "title"@) {
                    r == Err::<Routine, _>(RoutineError::InvalidField { field: "title", message: "is required" })
                } else if !present(m, "repeat"@) {
                    r == Err::<Routine, _>(RoutineError::InvalidField { field: "repeat", message: "is required" })
                } else if interval_named(m["repeat"@], false) is None {
                    r == Err::<Routine, _>(
                        RoutineError::InvalidField {
                            field: "repeat",
                            message: "expected a number and day, week, month, or year",
                        },
                    )
                } else if !present(m, "repeat_from"@) {
                    r == Err::<Routine, _>(
                        RoutineError::InvalidField { field: "repeat_from", message: "is required" },
                    )
                } else if repeat_from_named(m["repeat_from"@]) is None {
                    r == Err::<Routine, _>(
                        RoutineError::InvalidField {
                            field: "repeat_from",
                            message: "expected completion or schedule",
                        },
                    )
                } else if interval_named(available_before_value(m), true) is None {
                    r == Err::<Routine, _>(
                        RoutineError::InvalidField {
                            field: "available_before",
                            message: "expected a number and day, week, month, or year",
                        },
                    )
                } else if !present(m, "next_due"@) {
                    r == Err::<Routine, _>(
                        RoutineError::InvalidField { field: "next_due", message: "is required" },
                    )
                } else {
                    let repeat = interval_named(m["repeat"@], false)->0;
                    let nd = trim(m["next_due"@]);
                    match r {
                        Ok(rt) => {
                            &&& rt.title@ == m["title"@]
                            &&& rt.area@ == (if m.contains_key("area"@) {
                                m["area"@]
                            } else {
                                "general"@
                            })
                            &&& rt.repeat@ == m["repeat"@]
                            &&& rt.repeat_from == repeat_from_named(m["repeat_from"@])->0
                            &&& rt.available_before@ == available_before_value(m)
                            &&& reads_as(nd, rt.next_due)
                            &&& Some(rt.available_on) == shift_back(lead_of(m), rt.next_due)
                            &&& match rt.last_completed {
                                Some(lc) => m.contains_key("last_completed"@) && reads_as(
                                    trim(m["last_completed"@]),
                                    lc,
                                ),
                                None => !m.contains_key("last_completed"@),
                            }
                            &&& field(m, "deferred_until"@) == match rt.deferred_until {
                                Some(d) => Some(d@),
                                None => None,
                            }
                            &&& (m.contains_key("deferred_until"@) ==> valid_deferral(
                                m["deferred_until"@],
                            ))
                            &&& exists|du: Option<RoutineInstant>| #[trigger]
                                due_end(repeat, rt.next_due, du) && rt.timing == timing_of(
                                    rt.available_on,
                                    rt.next_due,
                                    du,
                                    field(m, "deferred_until"@),
                                    *now,
                                )
                            &&& rt.body@ == body_of(text@)
                            &&& rt.file@ == file@
                        },
                        Err(e) => {
                            ||| e == unreadable_moment("next_due") && !reads_surely(nd)
                            ||| e == (RoutineError::InvalidField {
                                field: "available_before",
                                message: "date is out of range",
                            }) && exists|t: RoutineInstant| #[trigger] reads_as(nd, t) && shift_back(
                                lead_of(m),
                                t,
                            ) is None
                            ||| e == unreadable_moment("last_completed") && next_due_fits(m)
                                && m.contains_key("last_completed"@) && !reads_surely(
                                trim(m["last_completed"@]),
                            )
                            ||| e == unreadable_moment("deferred_until") && next_due_fits(m) && (
                            m.contains_key("last_completed"@) ==> exists|t: RoutineInstant|
                                #[trigger] reads_as(trim(m["last_completed"@]), t)) && m.contains_key(
                                "deferred_until"@,
                            ) && !valid_deferral(m["deferred_until"@])
                        },
                    }
                },
            },
            r is Ok ==> routine_may_read(text@),
            routine_reads_surely(text@) ==> r is Ok,
    {
        proof {
            reveal_strlit("type");
        }
        let fields = match parse_frontmatter_fields(text) {
            Some(f) => f,
            None => {
                return Err(RoutineError::Malformed(string_of(&chars_of(file))));
            },
        };
        let is_routine = match fields.get("type") {
            Some(t) => eq(&chars_of(t.as_str()), &chars_of("routine")),
            None => false,
        };
        if !is_routine {
            return Err(RoutineError::Malformed(string_of(&chars_of(file))));
        }
        let title = required(&fields, "title")?;
        let area = match fields.get("area") {
            Some(a) => a,
            None => string_of(&chars_of("general")),
        };
        let repeat = required(&fields, "repeat")?;
        let repeat_spec = parse_interval("repeat", repeat.as_str(), false)?;
        let rf = required(&fields, "repeat_from")?;
        let repeat_from = match RepeatFrom::parse(rf.as_str()) {
            Some(x) => x,
            None => {
                return Err(invalid_field("repeat_from", "expected completion or schedule"));
            },
        };
        let available_before = match fields.get("available_before") {
            Some(a) => a,
            None => string_of(&chars_of("0 days")),
        };
        let available_spec = parse_interval("available_before", available_before.as_str(), true)?;
        let next_due = parse_instant_field(&fields, "next_due")?;
        let available_on = match available_spec.subtract_from(&next_due) {
            Some(a) => a,
            None => {
                return Err(invalid_field("available_before", "date is out of range"));
            },
        };
        let last_completed = match fields.get("last_completed") {
            Some(v) => match RoutineInstant::parse(v.as_str()) {
                Some(t) => Some(t),
                None => {
                    return Err(
                        invalid_field("last_completed", "expected YYYY-MM-DD or an RFC 3339 timestamp"),
                    );
                },
            },
            None => None,
        };
        let deferred_until = match fields.get("deferred_until") {
            Some(v) => {
                if valid_deferred_until(v.as_str()) {
                    Some(v)
                } else {
                    return Err(
                        invalid_field("deferred_until", "expected YYYY-MM-DD or an RFC 3339 timestamp"),
                    );
                }
            },
            None => None,
        };
        let du = due_until(&next_due, repeat_spec);
        let timing = match &deferred_until {
            Some(d) => timing_at(&available_on, &next_due, du, Some(d.as_str()), now),
            None => timing_at(&available_on, &next_due, du, None, now),
        };
        Ok(
            Routine {
                title,
                area,
                repeat,
                repeat_from,
                available_before,
                next_due,
                available_on,
                last_completed,
                deferred_until,
                timing,
                body: project_body(text),
                file: string_of(&chars_of(file)),
            },
        )
    }

    /// The form a routine was written from.
    pub fn input(&self) -> (r: RoutineInput)
        ensures
            r.title@ == self.title@,
            r.area@ == self.area@,
            r.repeat@ == self.repeat@,
            r.repeat_from == self.repeat_from,
            r.available_before@ == self.available_before@,
            r.next_due == self.next_due,
            r.body@ == self.body@,
    {
        RoutineInput {
            title: string_of(&chars_of(self.title.as_str())),
            area: string_of(&chars_of(self.area.as_str())),
            repeat: string_of(&chars_of(self.repeat.as_str())),
            repeat_from: self.repeat_from,
            available_before: string_of(&chars_of(self.available_before.as_str())),
            next_due: self.next_due,
            body: string_of(&chars_of(self.body.as_str())),
        }
    }

    /// The text of the routine's file.
    pub fn to_text(&self) -> (r: String)
        ensures
            r@ == routine_file_text(
                RoutineInput {
                    title: self.title,
                    area: self.area,
                    repeat: self.repeat,
                    repeat_from: self.repeat_from,
                    available_before: self.available_before,
                    next_due: self.next_due,
                    body: self.body,
                },
                opt_instant_text(self.last_completed),
                match self.deferred_until {
                    Some(d) => Some(d@),
                    None => None,
                },
            ),
    {
        let input = self.input();
        let r = match &self.deferred_until {
            Some(d) => routine_text(&input, self.last_completed.as_ref(), Some(d.as_str())),
            None => routine_text(&input, self.last_completed.as_ref(), None),
        };
        assert(routine_lines(input, opt_instant_text(self.last_completed), match self.deferred_until {
            Some(d) => Some(d@),
            None => None,
        }) =~= routine_lines(
            RoutineInput {
                title: self.title,
                area: self.area,
                repeat: self.repeat,
                repeat_from: self.repeat_from,
                available_before: self.available_before,
                next_due: self.next_due,
                body: self.body,
            },
            opt_instant_text(self.last_completed),
            match self.deferred_until {
                Some(d) => Some(d@),
                None => None,
            },
        ));
        r
    }
}

// ---------------------------------------------------------------------------
// Completing, skipping, deferring
// ---------------------------------------------------------------------------

/// The `k`-th occurrence of a schedule: `start`, then one interval after
/// another (`None` once a step leaves the range `chrono` holds).
pub open spec fn occurrence(repeat: RepeatSpec, start: RoutineInstant, k: nat) -> Option<RoutineInstant>
    decreases k,
{
    if k == 0 {
        Some(start)
    } else {
        match occurrence(repeat, start, (k - 1) as nat) {
            Some(t) => shift_forward(repeat, t),
            None => None,
        }
    }
}

/// Occurrences `1 .. k - 1` exist and none is later than `now`.
pub open spec fn passed_before(repeat: RepeatSpec, start: RoutineInstant, now: RoutineInstant, k: nat) -> bool {
    forall|j: nat|
        1 <= j < k ==> ((#[trigger] occurrence(repeat, start, j)) matches Some(t) && !later(t, now))
}

/// `n` is the first occurrence after `start` that is later than `now`.
pub open spec fn is_next_occurrence(
    repeat: RepeatSpec,
    start: RoutineInstant,
    now: RoutineInstant,
    n: RoutineInstant,
) -> bool {
    exists|k: nat|
        k >= 1 && passed_before(repeat, start, now, k) && #[trigger] occurrence(repeat, start, k)
            == Some(n) && later(n, now)
}

/// The schedule leaves the range `chrono` holds before it passes `now`.
pub open spec fn chain_breaks(repeat: RepeatSpec, start: RoutineInstant, now: RoutineInstant) -> bool {
    exists|k: nat|
        k >= 1 && passed_before(repeat, start, now, k) && #[trigger] occurrence(repeat, start, k) is None
}

/// The next occurrence of a schedule is unique, and there is none when the
/// schedule runs out of range first.
pub proof fn lemma_next_occurrence_unique(
    repeat: RepeatSpec,
    start: RoutineInstant,
    now: RoutineInstant,
    n1: RoutineInstant,
    n2: RoutineInstant,
)
    ensures
        is_next_occurrence(repeat, start, now, n1) && is_next_occurrence(repeat, start, now, n2)
            ==> n1 == n2,
        is_next_occurrence(repeat, start, now, n1) ==> !chain_breaks(repeat, start, now),
{
    if is_next_occurrence(repeat, start, now, n1) {
        let k1 = choose|k: nat|
            k >= 1 && passed_before(repeat, start, now, k) && #[trigger] occurrence(repeat, start, k)
                == Some(n1) && later(n1, now);
        if is_next_occurrence(repeat, start, now, n2) {
            let k2 = choose|k: nat|
                k >= 1 && passed_before(repeat, start, now, k) && #[trigger] occurrence(
                    repeat,
                    start,
                    k,
                ) == Some(n2) && later(n2, now);
            if k1 < k2 {
                assert(occurrence(repeat, start, k1) matches Some(t) && !later(t, now));
            } else if k2 < k1 {
                assert(occurrence(repeat, start, k2) matches Some(t) && !later(t, now));
            }
        }
        if chain_breaks(repeat, start, now) {
            let k = choose|k: nat|
                k >= 1 && passed_before(repeat, start, now, k) && #[trigger] occurrence(repeat, start, k)
                    is None;
            if k < k1 {
                assert(occurrence(repeat, start, k) matches Some(t) && !later(t, now));
            } else if k1 < k {
                assert(occurrence(repeat, start, k1) matches Some(t) && !later(t, now));
            }
        }
    }
}

/// The first occurrence of a fixed schedule later than `now`, stepping from
/// `next_due` one interval at a time: missed occurrences are passed over,
/// never queued.
pub fn next_scheduled(repeat: RepeatSpec, next_due: &RoutineInstant, now: &RoutineInstant) -> (r: Result<
    RoutineInstant,
    RoutineError,
>)
    requires
        repeat.count > 0,
    ensures
        match r {
            Ok(n) => is_next_occurrence(repeat, *next_due, *now, n),
            Err(e) => e == (RoutineError::InvalidField {
                field: "repeat",
                message: "next date is out of range",
            }) && chain_breaks(repeat, *next_due, *now),
        },
{
    let mut next = *next_due;
    let ghost mut k: nat = 0;
    loop
        invariant
            repeat.count > 0,
            occurrence(repeat, *next_due, k) == Some(next),
            passed_before(repeat, *next_due, *now, k + 1),
            k == 0 ==> next == *next_due,
            k > 0 ==> !later(next, *now),
        decreases (now.secs - next.secs) * 0x1_0000_0000 + (now.nanos - next.nanos) + (if k == 0 {
            0x1_0000_0000_0000_0000_0000_0000_0000_0000int
        } else {
            0int
        }),
    {
        let prev = next;
        let ghost k1: nat = k + 1;
        assert(occurrence(repeat, *next_due, k1) == shift_forward(repeat, prev));
        next = match repeat.add_to(&prev) {
            Some(n) => n,
            None => {
                assert(passed_before(repeat, *next_due, *now, k1));
                assert(chain_breaks(repeat, *next_due, *now));
                return Err(invalid_field("repeat", "next date is out of range"));
            },
        };
        if is_later(&next, now) {
            assert(passed_before(repeat, *next_due, *now, k1));
            assert(is_next_occurrence(repeat, *next_due, *now, next));
            return Ok(next);
        }
        proof {
            if k > 0 {
                assert(later(next, prev));
            }
            assert forall|j: nat| 1 <= j < k1 + 1 implies ((#[trigger] occurrence(
                repeat,
                *next_due,
                j,
            )) matches Some(t) && !later(t, *now)) by {
                if j < k1 {
                    assert(passed_before(repeat, *next_due, *now, k1));
                }
            }
            k = k1;
        }
    }
}

/// The moment a completion or skip at `now` is recorded as: to the minute
/// for intraday cadences, else a moment without a clock time.
pub open spec fn completion_stamp(now: RoutineInstant, stamp: RoutineInstant, with_time: bool) -> bool {
    &&& stamp.has_time == with_time
    &&& with_time ==> stamp.offset == now.offset && (stamp.secs as int, stamp.nanos as int)
        == crate::routine_time::minute_start(now.secs as int, now.nanos as int, now.offset as int)
}

/// The text of a routine advanced to `next` by a completion (or a skip)
/// recorded at `stamp`: the deferral is cleared, a completion becomes the
/// last one, and the history gains an entry.
pub open spec fn advanced_text(
    routine: Routine,
    next: RoutineInstant,
    stamp: RoutineInstant,
    completed: bool,
) -> Seq<char> {
    let input = RoutineInput {
        title: routine.title,
        area: routine.area,
        repeat: routine.repeat,
        repeat_from: routine.repeat_from,
        available_before: routine.available_before,
        next_due: next,
        body: routine.body,
    };
    let when = instant_text(stamp.secs as int, stamp.nanos as int, stamp.offset as int, stamp.has_time);
    let last = if completed {
        Some(when)
    } else {
        opt_instant_text(routine.last_completed)
    };
    routine_document(input, appended_history(routine.body@, when, completed), last, None)
}

/// What advancing a routine at `now`, recorded at `stamp`, gives: a
/// completion-based cadence counts one interval from `stamp`, a fixed one
/// moves to its first occurrence after `now`.
pub open spec fn advance_outcome(
    routine: Routine,
    stamp: RoutineInstant,
    now: RoutineInstant,
    completed: bool,
    r: Result<String, RoutineError>,
) -> bool {
    let out_of_range = RoutineError::InvalidField {
        field: "repeat",
        message: "next date is out of range",
    };
    match interval_named(routine.repeat@, false) {
        None => r == Err::<String, _>(
            RoutineError::InvalidField {
                field: "repeat",
                message: "expected a number and day, week, month, or year",
            },
        ),
        Some(repeat) => match routine.repeat_from {
            RepeatFrom::Completion => match shift_forward(repeat, stamp) {
                Some(n) => r matches Ok(t) && t@ == advanced_text(routine, n, stamp, completed),
                None => r == Err::<String, _>(out_of_range),
            },
            RepeatFrom::Schedule => match r {
                Ok(t) => exists|n: RoutineInstant|
                    is_next_occurrence(repeat, routine.next_due, now, n) && t@ == advanced_text(
                        routine,
                        n,
                        stamp,
                        completed,
                    ),
                Err(e) => e == out_of_range && chain_breaks(repeat, routine.next_due, now),
            },
        },
    }
}

/// The text of a routine after a completion (or a skip) at `now`, recorded
/// at `stamp`.
pub fn advance_routine_at(
    routine: &Routine,
    stamp: &RoutineInstant,
    now: &RoutineInstant,
    completed: bool,
) -> (r: Result<String, RoutineError>)
    ensures
        advance_outcome(*routine, *stamp, *now, completed, r),
{
    let repeat = parse_interval("repeat", routine.repeat.as_str(), false)?;
    proof {
        let ws = words(routine.repeat@);
        assert(ws.len() > 0);
        assert(parsed_u32(ws[0]) is Some);
        assert(parsed_u32(ws[0])->0 != 0);
        assert(0 <= parsed_u32(ws[0])->0 <= u32::MAX) by {
            let w = ws[0];
            let d = if w.len() > 0 && w[0] == '+' {
                w.drop_first()
            } else {
                w
            };
            lemma_digits_value_nonneg(d);
        }
        assert(repeat.count as int == parsed_u32(ws[0])->0);
    }
    let next = match routine.repeat_from {
        RepeatFrom::Completion => match repeat.add_to(stamp) {
            Some(n) => n,
            None => {
                return Err(invalid_field("repeat", "next date is out of range"));
            },
        },
        RepeatFrom::Schedule => next_scheduled(repeat, &routine.next_due, now)?,
    };
    let last = if completed {
        Some(*stamp)
    } else {
        routine.last_completed
    };
    let when = format_instant(stamp);
    let body = append_history(routine.body.as_str(), when.as_str(), completed);
    let input = RoutineInput {
        title: string_of(&chars_of(routine.title.as_str())),
        area: string_of(&chars_of(routine.area.as_str())),
        repeat: string_of(&chars_of(routine.repeat.as_str())),
        repeat_from: routine.repeat_from,
        available_before: string_of(&chars_of(routine.available_before.as_str())),
        next_due: next,
        body,
    };
    let t = routine_text(&input, last.as_ref(), None);
    proof {
        let spec_input = RoutineInput {
            title: routine.title,
            area: routine.area,
            repeat: routine.repeat,
            repeat_from: routine.repeat_from,
            available_before: routine.available_before,
            next_due: next,
            body: routine.body,
        };
        assert(routine_lines(input, opt_instant_text(last), None) == routine_lines(
            spec_input,
            opt_instant_text(last),
            None,
        ));
        assert(t@ == advanced_text(*routine, next, *stamp, completed));
        if routine.repeat_from == RepeatFrom::Schedule {
            assert(is_next_occurrence(repeat, routine.next_due, *now, next));
        }
    }
    Ok(t)
}

/// The text of a routine after a completion (or a skip) at `now`: the moment
/// is recorded to the minute for intraday cadences, else as the local date.
pub fn advance_routine(routine: &Routine, now: &RoutineInstant, completed: bool) -> (r: Result<
    String,
    RoutineError,
>)
    requires
        representable(*now),
    ensures
        match interval_named(routine.repeat@, false) {
            None => r == Err::<String, _>(
                RoutineError::InvalidField {
                    field: "repeat",
                    message: "expected a number and day, week, month, or year",
                },
            ),
            Some(repeat) => exists|stamp: RoutineInstant|
                completion_stamp(*now, stamp, repeat.unit == RepeatUnit::Hour) && advance_outcome(
                    *routine,
                    stamp,
                    *now,
                    completed,
                    r,
                ),
        },
{
    let repeat = parse_interval("repeat", routine.repeat.as_str(), false)?;
    let stamp = RoutineInstant::from_now(now, repeat.is_intraday());
    let r = advance_routine_at(routine, &stamp, now, completed);
    assert(completion_stamp(*now, stamp, repeat.unit == RepeatUnit::Hour));
    r
}

/// The text of a routine deferred until a date or timestamp.
pub fn defer_routine(routine: &Routine, until: &str) -> (r: Result<String, RoutineError>)
    ensures
        !valid_deferral(until@) ==> r == Err::<String, _>(
            RoutineError::InvalidField {
                field: "deferred_until",
                message: "expected YYYY-MM-DD or an RFC 3339 timestamp",
            },
        ),
        valid_deferral(until@) ==> (r matches Ok(t) && t@ == routine_file_text(
            RoutineInput {
                title: routine.title,
                area: routine.area,
                repeat: routine.repeat,
                repeat_from: routine.repeat_from,
                available_before: routine.available_before,
                next_due: routine.next_due,
                body: routine.body,
            },
            opt_instant_text(routine.last_completed),
            Some(until@),
        )),
{
    if !valid_deferred_until(until) {
        return Err(
            invalid_field("deferred_until", "expected YYYY-MM-DD or an RFC 3339 timestamp"),
        );
    }
    let input = routine.input();
    let r = routine_text(&input, routine.last_completed.as_ref(), Some(until));
    assert(routine_lines(input, opt_instant_text(routine.last_completed), Some(until@))
        =~= routine_lines(
        RoutineInput {
            title: routine.title,
            area: routine.area,
            repeat: routine.repeat,
            repeat_from: routine.repeat_from,
            available_before: routine.available_before,
            next_due: routine.next_due,
            body: routine.body,
        },
        opt_instant_text(routine.last_completed),
        Some(until@),
    ));
    Ok(r)
}

/// The text of a routine rewritten from a form, keeping its last completion
/// and its deferral.
pub fn update_routine(current: &Routine, input: &RoutineInput) -> (r: Result<String, RoutineError>)
    ensures
        r is Ok <==> one_line(input.title@) && one_line(input.area@) && interval_named(
            input.repeat@,
            false,
        ) is Some && interval_named(input.available_before@, true) is Some,
        r matches Ok(t) ==> t@ == routine_file_text(
            *input,
            opt_instant_text(current.last_completed),
            match current.deferred_until {
                Some(d) => Some(d@),
                None => None,
            },
        ),
{
    validate_input(input)?;
    match &current.deferred_until {
        Some(d) => Ok(routine_text(input, current.last_completed.as_ref(), Some(d.as_str()))),
        None => Ok(routine_text(input, current.last_completed.as_ref(), None)),
    }
}

/// A new routine: its file name (the first free one of `{slug}.md`,
/// `{slug}-2.md`, ... among the `taken` names in `_routines/`) and its text.
pub fn create_routine(input: &RoutineInput, taken: &Vec<String>) -> (r: Result<
    (String, String),
    RoutineError,
>)
    ensures
        input_problem(*input) matches Some(e) ==> r == Err::<(String, String), _>(e),
        input_problem(*input) is None && slug_of(input.title@).len() == 0 ==> r == Err::<
            (String, String),
            _,
        >(RoutineError::InvalidField { field: "title", message: "must contain a letter or number" }),
        input_problem(*input) is None && slug_of(input.title@).len() > 0 ==> r is Ok,
        r matches Ok((file, text)) ==> file@ == "_routines/"@ + file@.subrange(10, file@.len() as int)
            && first_free(
            taken@.map_values(|t: String| t@),
            slug_of(input.title@),
            file@.subrange(10, file@.len() as int),
        ),
        r matches Ok((file, text)) ==> text@ == routine_file_text(*input, None, None),
{
    validate_input(input)?;
    let slug = crate::naming::slugify(input.title.as_str());
    let sc = chars_of(slug.as_str());
    if sc.len() == 0 {
        return Err(invalid_field("title", "must contain a letter or number"));
    }
    let name = free_filename(taken, &sc);
    let mut file = chars_of("_routines/");
    let nc = chars_of(name.as_str());
    append(&mut file, &nc);
    proof {
        reveal_strlit("_routines/");
        assert(file@.subrange(10, file@.len() as int) =~= nc@);
        assert(file@ =~= "_routines/"@ + nc@);
    }
    let text = routine_text(input, None, None);
    Ok((string_of(&file), text))
}

/// The check before a routine file is rewritten with `replacement`: the
/// path must be a routine path, the new text a readable routine at `now`,
/// and the file must still hold `expected` (`current` is what it holds).
pub fn write_routine_text_if_unchanged(
    file: &str,
    expected: &str,
    current: &str,
    replacement: &str,
    now: &RoutineInstant,
) -> (r: Result<(), RoutineError>)
    ensures
        !routine_path_ok(file@) ==> (r matches Err(RoutineError::InvalidPath(f)) && f@ == file@),
        r is Ok ==> routine_path_ok(file@) && current@ == expected@ && routine_may_read(
            replacement@,
        ),
        routine_path_ok(file@) && current@ == expected@ && routine_reads_surely(replacement@) ==> r is Ok,
        routine_path_ok(file@) && frontmatter_fields(replacement@) is None ==> (r matches Err(
            RoutineError::Malformed(f),
        ) && f@ == file@),
        routine_path_ok(file@) && current@ != expected@ ==> r is Err,
        r matches Err(RoutineError::Write { file: f, source }) ==> f@ == file@ && routine_path_ok(
            file@,
        ) && current@ != expected@,
        r is Err ==> r matches Err(RoutineError::InvalidPath(_)) || r matches Err(
            RoutineError::Malformed(_),
        ) || r matches Err(RoutineError::InvalidField { .. }) || r matches Err(
            RoutineError::Write { .. },
        ),
{
    routine_path_shape(file)?;
    Routine::from_text_at(replacement, file, now)?;
    if !eq(&chars_of(current), &chars_of(expected)) {
        let message = cat2(file, " changed after the agent session started; reload and retry");
        return Err(RoutineError::Write { file: string_of(&chars_of(file)), source: io_error_other(message) });
    }
    Ok(())
}

/// Calls `std::io::Error::other` with a message; nothing is stated of the error value.
#[verifier::external_body]
fn io_error_other(message: String) -> (r: std::io::Error) {
    std::io::Error::other(message)
}

/// What an interval does to a moment: an hourly one adds 3600 seconds per
/// hour and gives a clock time; daily, weekly, monthly and yearly ones move
/// the calendar by days or months (`checked_add_days`, `checked_add_months`
/// and their inverses), keeping the offset and whether there is a clock time;
/// a week is seven days and a year twelve months.
pub proof fn lemma_interval_units(count: u32, t: RoutineInstant)
    ensures
        ({
            let month = RepeatSpec { count, unit: RepeatUnit::Month };
            let ahead = months_added(t.secs as int, t.nanos as int, t.offset as int, count as int);
            let behind = months_subtracted(t.secs as int, t.nanos as int, t.offset as int, count as int);
            &&& shift_forward(month, t) is Some <==> ahead is Some
            &&& shift_forward(month, t) matches Some(n) ==> ahead matches Some((s, ns)) && n.secs == s as i64
                && n.nanos == ns as u32 && n.offset == t.offset && n.has_time == t.has_time
            &&& shift_back(month, t) is Some <==> behind is Some
            &&& shift_back(month, t) matches Some(n) ==> behind matches Some((s, ns)) && n.secs == s as i64
                && n.nanos == ns as u32 && n.offset == t.offset && n.has_time == t.has_time
        }),
        ({
            let day = RepeatSpec { count, unit: RepeatUnit::Day };
            let ahead = days_added(t.secs as int, t.nanos as int, t.offset as int, count as int);
            &&& shift_forward(day, t) is Some <==> ahead is Some
            &&& shift_forward(day, t) matches Some(n) ==> ahead matches Some((s, ns)) && n.secs == s as i64
                && n.nanos == ns as u32 && n.offset == t.offset && n.has_time == t.has_time
        }),
        ({
            let hour = RepeatSpec { count, unit: RepeatUnit::Hour };
            let ahead = seconds_added(t.secs as int, t.nanos as int, t.offset as int, count * 3600);
            &&& shift_forward(hour, t) is Some <==> ahead is Some
            &&& shift_forward(hour, t) matches Some(n) ==> ahead matches Some((s, ns)) && n.secs == s as i64
                && n.nanos == ns as u32 && n.offset == t.offset && n.has_time
        }),
        count * 12 <= u32::MAX ==> shift_forward(RepeatSpec { count, unit: RepeatUnit::Year }, t) == shift_forward(
            RepeatSpec { count: (count * 12) as u32, unit: RepeatUnit::Month },
            t,
        ),
        count * 12 <= u32::MAX ==> shift_back(RepeatSpec { count, unit: RepeatUnit::Year }, t) == shift_back(
            RepeatSpec { count: (count * 12) as u32, unit: RepeatUnit::Month },
            t,
        ),
        count * 7 <= u32::MAX ==> shift_forward(RepeatSpec { count, unit: RepeatUnit::Week }, t) == shift_forward(
            RepeatSpec { count: (count * 7) as u32, unit: RepeatUnit::Day },
            t,
        ),
        count * 7 <= u32::MAX ==> shift_back(RepeatSpec { count, unit: RepeatUnit::Week }, t) == shift_back(
            RepeatSpec { count: (count * 7) as u32, unit: RepeatUnit::Day },
            t,
        ),
{
}

} // verus!

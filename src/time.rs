//! Date and time values as plain numbers, and the calendar arithmetic on them.
//!
//! An instant is a count of seconds since 1970-01-01T00:00:00 on the wall clock it
//! was written in; a date is a count of days since 1970-01-01. The representable
//! range is the one of chrono's `NaiveDateTime`.
use vstd::prelude::*;

verus! {

/// First representable day (-262143-01-01).
pub const MIN_DAY: i64 = -96465292;

/// Last representable day (+262142-12-31).
pub const MAX_DAY: i64 = 95026236;

/// First representable second.
pub const MIN_INSTANT: i64 = -8334601228800;

/// Last representable second.
pub const MAX_INSTANT: i64 = 8210266876799;

pub const SECONDS_PER_DAY: i64 = 86400;

pub open spec fn valid_day(d: int) -> bool {
    MIN_DAY <= d <= MAX_DAY
}

pub open spec fn valid_instant(s: int) -> bool {
    MIN_INSTANT <= s <= MAX_INSTANT
}

/// The day an instant falls on.
pub open spec fn day_of(s: int) -> int {
    s / 86400
}

/// Seconds since midnight of an instant.
pub open spec fn time_of_day(s: int) -> int {
    s % 86400
}

/// Day of the week of a day number, Monday being 0 (1970-01-01 was a Thursday).
pub open spec fn weekday_index(d: int) -> int {
    (d + 3) % 7
}

/// The text `YYYYMMDDTHHMMSSZ` of an instant read as UTC.
pub uninterp spec fn utc_stamp(secs: int) -> Seq<char>;

/// A date-time value in one of the three iCalendar forms.
#[derive(Clone, Debug, PartialEq, Eq)]
pub enum CalendarDateTime {
    /// A wall-clock value with no zone.
    Floating(i64),
    /// A UTC instant.
    Utc(i64),
    /// A wall-clock value in a named zone.
    WithTimezone { date_time: i64, tzid: String },
}

impl CalendarDateTime {
    /// The value as a comparable instant, floating and zoned values read as local.
    pub open spec fn instant(&self) -> int {
        match self {
            CalendarDateTime::Floating(s) => *s as int,
            CalendarDateTime::Utc(s) => *s as int,
            CalendarDateTime::WithTimezone { date_time, .. } => *date_time as int,
        }
    }

    pub open spec fn wf(&self) -> bool {
        valid_instant(self.instant())
    }
}

/// A start or end value: a date-time, or a whole date.
#[derive(Clone, Debug, PartialEq, Eq)]
pub enum DatePerhapsTime {
    DateTime(CalendarDateTime),
    Date(i64),
}

impl DatePerhapsTime {
    pub open spec fn wf(&self) -> bool {
        match self {
            DatePerhapsTime::DateTime(c) => c.wf(),
            DatePerhapsTime::Date(d) => valid_day(*d as int),
        }
    }

    /// The instant a value stands for; a date stands for its midnight.
    pub open spec fn instant(&self) -> int {
        match self {
            DatePerhapsTime::DateTime(c) => c.instant(),
            DatePerhapsTime::Date(d) => *d as int * 86400,
        }
    }

    /// The day a value falls on.
    pub open spec fn date(&self) -> int {
        match self {
            DatePerhapsTime::DateTime(c) => day_of(c.instant()),
            DatePerhapsTime::Date(d) => *d as int,
        }
    }
}

/// The day an instant falls on.
pub fn day_of_instant(s: i64) -> (r: i64)
    requires
        valid_instant(s as int),
    ensures
        r == day_of(s as int),
        valid_day(r as int),
{
    let base: i64 = MIN_DAY * SECONDS_PER_DAY;
    let shifted: u64 = (s - base) as u64;
    let q: u64 = shifted / (SECONDS_PER_DAY as u64);
    proof {
        let si = s as int;
        let m = MIN_DAY as int;
        let q0 = si / 86400;
        let r0 = si % 86400;
        vstd::arithmetic::div_mod::lemma_fundamental_div_mod(si, 86400);
        assert(si - m * 86400 == 86400 * (q0 - m) + r0);
        vstd::arithmetic::div_mod::lemma_div_multiples_vanish_fancy(q0 - m, r0, 86400);
        assert(si / 86400 <= MAX_DAY) by (nonlinear_arith)
            requires
                si <= 8210266876799,
        {}
    }
    q as i64 + MIN_DAY
}

/// The instant of midnight on a day.
pub fn day_start(d: i64) -> (r: i64)
    requires
        valid_day(d as int),
    ensures
        r == d * 86400,
        valid_instant(r as int),
        day_of(r as int) == d,
        time_of_day(r as int) == 0,
{
    d * SECONDS_PER_DAY
}

/// Seconds since midnight of an instant.
pub fn time_of_day_secs(s: i64) -> (r: i64)
    requires
        valid_instant(s as int),
    ensures
        r == time_of_day(s as int),
        0 <= r < 86400,
{
    let d = day_of_instant(s);
    proof {
        vstd::arithmetic::div_mod::lemma_fundamental_div_mod(s as int, 86400);
    }
    s - d * SECONDS_PER_DAY
}

/// Resolves a start or end value to a comparable instant.
pub fn resolve_instant(dt: &DatePerhapsTime) -> (r: i64)
    requires
        dt.wf(),
    ensures
        r == dt.instant(),
{
    match dt {
        DatePerhapsTime::DateTime(CalendarDateTime::Floating(s)) => *s,
        DatePerhapsTime::DateTime(CalendarDateTime::Utc(s)) => *s,
        DatePerhapsTime::DateTime(CalendarDateTime::WithTimezone { date_time, .. }) => *date_time,
        DatePerhapsTime::Date(d) => day_start(*d),
    }
}

/// Resolves a start value to the day it falls on.
pub fn resolve_date(dt: &DatePerhapsTime) -> (r: i64)
    requires
        dt.wf(),
    ensures
        r == dt.date(),
        valid_day(r as int),
{
    match dt {
        DatePerhapsTime::DateTime(c) => {
            let s = match c {
                CalendarDateTime::Floating(s) => *s,
                CalendarDateTime::Utc(s) => *s,
                CalendarDateTime::WithTimezone { date_time, .. } => *date_time,
            };
            day_of_instant(s)
        },
        DatePerhapsTime::Date(d) => *d,
    }
}

/// Relies on chrono's `DateTime::from_timestamp`, `TimeDelta::try_hours` and
/// `NaiveDateTime::checked_add_signed`:
/// the instant moved by whole hours, or `None` when that leaves chrono's range.
#[verifier::external_body]
pub(crate) fn checked_add_hours(secs: i64, hours: i64) -> (r: Option<i64>)
    requires
        valid_instant(secs as int),
    ensures
        valid_instant(secs + 3600 * hours) ==> r == Some((secs + 3600 * hours) as i64),
        !valid_instant(secs + 3600 * hours) ==> r is None,
{
    let dt = chrono::DateTime::from_timestamp(secs, 0)?.naive_utc();
    let delta = chrono::TimeDelta::try_hours(hours)?;
    dt.checked_add_signed(delta).map(|d| d.and_utc().timestamp())
}

/// Relies on chrono's `NaiveDate::from_epoch_days`, `Datelike::weekday` and
/// `Weekday::num_days_from_monday`: the day of the week, Monday being 0.
#[verifier::external_body]
pub(crate) fn weekday_of_day(day: i64) -> (r: u8)
    requires
        valid_day(day as int),
    ensures
        r == weekday_index(day as int),
{
    let date = chrono::NaiveDate::from_epoch_days(day as i32).unwrap();
    chrono::Datelike::weekday(&date).num_days_from_monday() as u8
}

/// Relies on chrono's `DateTime::from_timestamp` and its `%Y%m%dT%H%M%SZ` formatting:
/// the UTC text of an instant, made of digits, a year's sign, `T` and `Z`.
#[verifier::external_body]
pub(crate) fn utc_stamp_text(secs: i64) -> (r: String)
    requires
        valid_instant(secs as int),
    ensures
        r@ == utc_stamp(secs as int),
        forall|i: int| 0 <= i < r@.len() ==> r@[i] != ';',
{
    let dt = chrono::DateTime::from_timestamp(secs, 0).unwrap();
    dt.format("%Y%m%dT%H%M%SZ").to_string()
}

/// The last second of a day.
pub open spec fn end_of_day(d: int) -> int {
    d * 86400 + 86399
}

/// The last second of a day.
pub fn end_of_day_instant(d: i64) -> (r: i64)
    requires
        valid_day(d as int),
    ensures
        r == end_of_day(d as int),
        valid_instant(r as int),
        day_of(r as int) == d,
{
    let r = day_start(d) + (SECONDS_PER_DAY - 1);
    assert(day_of(r as int) == d) by {
        vstd::arithmetic::div_mod::lemma_div_multiples_vanish_fancy(d as int, 86399, 86400);
    }
    r
}

/// Relies on chrono's `Local::now`: the local wall clock, in whole seconds.
#[verifier::external_body]
pub(crate) fn local_now() -> (r: i64)
    ensures
        valid_instant(r as int),
{
    chrono::Local::now().naive_local().and_utc().timestamp()
}

/// Relies on chrono's `Local::now`: the local date.
#[verifier::external_body]
pub(crate) fn local_today() -> (r: i64)
    ensures
        valid_day(r as int),
{
    chrono::Local::now().date_naive().to_epoch_days() as i64
}

} // verus!

//! Moving an event's date-times by a whole number of hours.
use vstd::prelude::*;

use crate::event::{components_wf, Calendar, Component, Event};
use crate::time::{checked_add_hours, valid_instant, CalendarDateTime, DatePerhapsTime};

verus! {

/// A date-time moved by `hours`, in its own form; unchanged where the move leaves
/// the representable range.
pub open spec fn shifted_date_time(c: CalendarDateTime, hours: int) -> CalendarDateTime {
    let s = c.instant() + 3600 * hours;
    if hours == 0 || !valid_instant(s) {
        c
    } else {
        match c {
            CalendarDateTime::Floating(_) => CalendarDateTime::Floating(s as i64),
            CalendarDateTime::Utc(_) => CalendarDateTime::Utc(s as i64),
            CalendarDateTime::WithTimezone { tzid, .. } => CalendarDateTime::WithTimezone {
                date_time: s as i64,
                tzid,
            },
        }
    }
}

/// A start or end value moved by `hours`; whole dates do not move.
pub open spec fn shifted_value(d: DatePerhapsTime, hours: int) -> DatePerhapsTime {
    match d {
        DatePerhapsTime::DateTime(c) => DatePerhapsTime::DateTime(shifted_date_time(c, hours)),
        DatePerhapsTime::Date(day) => DatePerhapsTime::Date(day),
    }
}

/// A UTC instant moved by `hours`, unchanged where that leaves the range.
pub open spec fn shifted_instant(t: i64, hours: int) -> i64 {
    if hours == 0 || !valid_instant(t + 3600 * hours) {
        t
    } else {
        (t + 3600 * hours) as i64
    }
}

pub open spec fn shifted_opt(d: Option<DatePerhapsTime>, hours: int) -> Option<DatePerhapsTime> {
    match d {
        Some(v) => Some(shifted_value(v, hours)),
        None => None,
    }
}

/// An event with start, end and creation stamp moved by `hours`, all else kept.
pub open spec fn shifted_event(e: Event, hours: int) -> Event {
    Event {
        start: shifted_opt(e.start, hours),
        end: shifted_opt(e.end, hours),
        timestamp: match e.timestamp {
            Some(t) => Some(shifted_instant(t, hours)),
            None => None,
        },
        ..e
    }
}

pub open spec fn shifted_component(c: Component, hours: int) -> Component {
    match c {
        Component::Event(e) => Component::Event(shifted_event(e, hours)),
        Component::Other(o) => Component::Other(o),
    }
}

/// Shifting by zero hours changes no event.
pub proof fn lemma_zero_shift_is_identity(e: Event)
    ensures
        shifted_event(e, 0) == e,
{
}

/// Moves a date-time by whole hours, keeping its form and zone.
fn adjust_calendar_datetime_with_offset(c: &CalendarDateTime, offset_hours: i64) -> (r:
    CalendarDateTime)
    requires
        c.wf(),
    ensures
        r == shifted_date_time(*c, offset_hours as int),
        r.wf(),
{
    match c {
        CalendarDateTime::Floating(s) => {
            if offset_hours == 0 {
                return CalendarDateTime::Floating(*s);
            }
            match checked_add_hours(*s, offset_hours) {
                Some(t) => CalendarDateTime::Floating(t),
                None => CalendarDateTime::Floating(*s),
            }
        },
        CalendarDateTime::Utc(s) => {
            if offset_hours == 0 {
                return CalendarDateTime::Utc(*s);
            }
            match checked_add_hours(*s, offset_hours) {
                Some(t) => CalendarDateTime::Utc(t),
                None => CalendarDateTime::Utc(*s),
            }
        },
        CalendarDateTime::WithTimezone { date_time, tzid } => {
            let adjusted = if offset_hours == 0 {
                *date_time
            } else {
                match checked_add_hours(*date_time, offset_hours) {
                    Some(t) => t,
                    None => *date_time,
                }
            };
            CalendarDateTime::WithTimezone { date_time: adjusted, tzid: tzid.clone() }
        },
    }
}

/// Moves a start or end value by whole hours; a whole date stays.
fn adjust_dateperhapstime_with_offset(d: &DatePerhapsTime, offset_hours: i64) -> (r:
    DatePerhapsTime)
    requires
        d.wf(),
    ensures
        r == shifted_value(*d, offset_hours as int),
        r.wf(),
{
    match d {
        DatePerhapsTime::DateTime(c) => DatePerhapsTime::DateTime(
            adjust_calendar_datetime_with_offset(c, offset_hours),
        ),
        DatePerhapsTime::Date(day) => DatePerhapsTime::Date(*day),
    }
}

/// Moves one event by whole hours.
pub fn shift_event(e: Event, offset_hours: i64) -> (r: Event)
    requires
        e.wf(),
    ensures
        r == shifted_event(e, offset_hours as int),
        r.wf(),
{
    let mut e = e;
    let start = match &e.start {
        Some(s) => Some(adjust_dateperhapstime_with_offset(s, offset_hours)),
        None => None,
    };
    let end = match &e.end {
        Some(s) => Some(adjust_dateperhapstime_with_offset(s, offset_hours)),
        None => None,
    };
    let timestamp = match e.timestamp {
        Some(t) => {
            if offset_hours == 0 {
                Some(t)
            } else {
                match checked_add_hours(t, offset_hours) {
                    Some(u) => Some(u),
                    None => Some(t),
                }
            }
        },
        None => None,
    };
    e.start = start;
    e.end = end;
    e.timestamp = timestamp;
    e
}

/// Moves every event of a feed by `offset` hours; other components pass through.
pub fn shift_timezone(components: Vec<Component>, offset: i64) -> (r: Calendar)
    requires
        components_wf(components@),
    ensures
        r.components@.len() == components@.len(),
        forall|i: int|
            0 <= i < components@.len() ==> r.components@[i] == shifted_component(
                #[trigger] components@[i],
                offset as int,
            ),
        offset == 0 ==> r.components@ == components@,
        r.wf(),
{
    let ghost input = components@;
    let mut out: Vec<Component> = Vec::new();
    for c in it: components.into_iter()
        invariant
            it.seq() == input,
            components_wf(input),
            out@.len() == it.index(),
            forall|j: int|
                0 <= j < it.index() ==> out@[j] == shifted_component(
                    #[trigger] input[j],
                    offset as int,
                ),
            components_wf(out@),
    {
        let ghost k = it.index();
        assert(input[k].wf());
        let next = match c {
            Component::Event(e) => Component::Event(shift_event(e, offset)),
            Component::Other(o) => Component::Other(o),
        };
        out.push(next);
    }
    proof {
        if offset == 0 {
            assert(out@ =~= input);
        }
    }
    Calendar { components: out }
}

} // verus!

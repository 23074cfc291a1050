//! The calendar model the engine works on.
use vstd::prelude::*;

use crate::time::{valid_instant, DatePerhapsTime};

verus! {

/// A calendar component this engine does not read: carried through unchanged.
#[verifier::external_type_specification]
#[verifier::external_body]
pub struct ExCalendarComponent(icalendar::CalendarComponent);

/// The STATUS of an event.
#[derive(Clone, Copy, Debug, PartialEq, Eq, Structural)]
pub enum EventStatus {
    Tentative,
    Confirmed,
    Cancelled,
}

/// A property the engine does not interpret, kept by name and value.
#[derive(Clone, Debug, PartialEq, Eq)]
pub struct Property {
    pub name: String,
    pub value: String,
}

/// One VEVENT.
#[derive(Clone, Debug, PartialEq)]
pub struct Event {
    pub uid: Option<String>,
    pub summary: Option<String>,
    pub description: Option<String>,
    pub location: Option<String>,
    pub status: Option<EventStatus>,
    pub start: Option<DatePerhapsTime>,
    pub end: Option<DatePerhapsTime>,
    /// DTSTAMP, a UTC instant.
    pub timestamp: Option<i64>,
    /// The RRULE text; an event with one is recurring.
    pub rrule: Option<String>,
    /// Every other property.
    pub properties: Vec<Property>,
}

impl Event {
    /// An event with no properties.
    pub fn new() -> (r: Event)
        ensures
            r.uid is None && r.summary is None && r.description is None && r.location is None,
            r.status is None && r.start is None && r.end is None && r.timestamp is None,
            r.rrule is None && r.properties@.len() == 0,
    {
        Event {
            uid: None,
            summary: None,
            description: None,
            location: None,
            status: None,
            start: None,
            end: None,
            timestamp: None,
            rrule: None,
            properties: Vec::new(),
        }
    }

    /// All date values lie in the representable range.
    pub open spec fn wf(&self) -> bool {
        &&& (self.start matches Some(s) ==> s.wf())
        &&& (self.end matches Some(e) ==> e.wf())
        &&& (self.timestamp matches Some(t) ==> valid_instant(t as int))
    }
}

/// A component of a calendar: an event, or anything else.
#[derive(Debug)]
pub enum Component {
    Event(Event),
    Other(icalendar::CalendarComponent),
}

impl Component {
    pub open spec fn wf(&self) -> bool {
        match self {
            Component::Event(e) => e.wf(),
            Component::Other(_) => true,
        }
    }
}

pub open spec fn components_wf(cs: Seq<Component>) -> bool {
    forall|i: int| 0 <= i < cs.len() ==> (#[trigger] cs[i]).wf()
}

/// A calendar: its components in order.
#[derive(Debug)]
pub struct Calendar {
    pub components: Vec<Component>,
}

impl Calendar {
    pub open spec fn wf(&self) -> bool {
        components_wf(self.components@)
    }
}

} // verus!

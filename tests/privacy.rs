use ical_merger::event::{Calendar, Component, Event, EventStatus, Property};
use ical_merger::redact::{hide_details, hide_details_at, redact_calendar, redact_event};
use ical_merger::time::{CalendarDateTime, DatePerhapsTime};

fn at(d: u32, h: u32, mi: u32) -> i64 {
    chrono::NaiveDate::from_ymd_opt(2024, 1, d)
        .unwrap()
        .and_hms_opt(h, mi, 0)
        .unwrap()
        .and_utc()
        .timestamp()
}

fn floating(s: i64) -> Option<DatePerhapsTime> {
    Some(DatePerhapsTime::DateTime(CalendarDateTime::Floating(s)))
}

fn detailed(uid: Option<&str>, status: Option<EventStatus>) -> Event {
    let mut e = Event::new();
    e.uid = uid.map(|u| u.to_string());
    e.summary = Some("Dentist".to_string());
    e.description = Some("bring card".to_string());
    e.location = Some("Main St".to_string());
    e.status = status;
    e.start = floating(at(2, 9, 0));
    e.end = floating(at(2, 10, 0));
    e.timestamp = Some(at(1, 0, 0));
    e.properties = vec![Property { name: "CATEGORIES".to_string(), value: "health".to_string() }];
    e
}

#[test]
fn labels_follow_status() {
    let cases = [
        (Some(EventStatus::Confirmed), "Blocked"),
        (Some(EventStatus::Tentative), "Tentative"),
        (Some(EventStatus::Cancelled), "Cancelled"),
        (None, "Blocked"),
    ];
    for (status, label) in cases {
        let r = redact_event(detailed(Some("id-1"), status));
        assert_eq!(r.summary.as_deref(), Some(label));
        assert_eq!(r.status, status);
    }
}

#[test]
fn redaction_drops_details_and_keeps_times() {
    let mut e = detailed(Some("id-2"), None);
    e.rrule = Some("FREQ=WEEKLY".to_string());
    let r = redact_event(e);
    assert_eq!(r.uid.as_deref(), Some("id-2"));
    assert_eq!(r.start, floating(at(2, 9, 0)));
    assert_eq!(r.end, floating(at(2, 10, 0)));
    assert_eq!(r.rrule.as_deref(), Some("FREQ=WEEKLY"));
    assert_eq!(r.description, None);
    assert_eq!(r.location, None);
    assert_eq!(r.timestamp, None);
    assert!(r.properties.is_empty());
}

#[test]
fn redaction_synthesizes_missing_identity() {
    let r = redact_event(detailed(None, None));
    let uid = r.uid.unwrap();
    assert!(uid.starts_with("generated-uid-"));
    assert_eq!(uid.len(), "generated-uid-".len() + 36);
}

#[test]
fn redact_calendar_keeps_other_components() {
    let todo = icalendar::CalendarComponent::Todo(icalendar::Todo::new());
    let cal = Calendar {
        components: vec![Component::Other(todo.clone()), Component::Event(detailed(Some("a"), None))],
    };
    let r = redact_calendar(cal);
    assert_eq!(r.components.len(), 2);
    match &r.components[0] {
        Component::Other(c) => assert_eq!(*c, todo),
        _ => panic!("Expected other component"),
    }
    match &r.components[1] {
        Component::Event(e) => assert_eq!(e.summary.as_deref(), Some("Blocked")),
        _ => panic!("Expected event component"),
    }
}

#[test]
fn hiding_merges_events_into_blocks() {
    let mut a = detailed(Some("a"), Some(EventStatus::Tentative));
    a.start = floating(at(9, 10, 0));
    a.end = floating(at(9, 12, 0));
    let mut b = detailed(Some("b"), None);
    b.start = floating(at(9, 11, 0));
    b.end = floating(at(9, 13, 0));
    let mut no_end = detailed(Some("c"), None);
    no_end.end = None;
    let todo = icalendar::CalendarComponent::Todo(icalendar::Todo::new());
    let cal = Calendar {
        components: vec![
            Component::Event(a),
            Component::Other(todo),
            Component::Event(b),
            Component::Event(no_end),
        ],
    };
    let r = hide_details_at(cal, at(8, 0, 0));
    assert_eq!(r.components.len(), 3);
    assert!(matches!(r.components[0], Component::Other(_)));
    match &r.components[1] {
        Component::Event(e) => {
            assert_eq!(e.uid.as_deref(), Some("c"));
            assert_eq!(e.end, None);
            assert_eq!(e.description, None);
        }
        _ => panic!("Expected event component"),
    }
    match &r.components[2] {
        Component::Event(e) => {
            assert_eq!(e.uid.as_deref(), Some("a"));
            assert_eq!(e.start, floating(at(9, 10, 0)));
            assert_eq!(e.end, floating(at(9, 13, 0)));
            assert_eq!(e.summary.as_deref(), Some("Tentative"));
            assert_eq!(e.status, Some(EventStatus::Tentative));
            assert_eq!(e.location, None);
        }
        _ => panic!("Expected event component"),
    }
}

#[test]
fn hiding_expands_recurring_events_in_window() {
    let mut weekly = detailed(Some("w"), None);
    weekly.start = floating(at(1, 9, 0));
    weekly.end = floating(at(1, 10, 0));
    weekly.rrule = Some("FREQ=WEEKLY;BYDAY=MO,WE".to_string());
    let cal = Calendar { components: vec![Component::Event(weekly)] };
    let r = hide_details_at(cal, at(7, 0, 0));
    let starts: Vec<Option<DatePerhapsTime>> = r
        .components
        .iter()
        .map(|c| match c {
            Component::Event(e) => e.start.clone(),
            _ => None,
        })
        .collect();
    assert_eq!(
        starts,
        vec![floating(at(8, 9, 0)), floating(at(10, 9, 0)), floating(at(15, 9, 0)), floating(at(17, 9, 0))]
    );
}

#[test]
fn hiding_with_the_clock_labels_every_event() {
    let cal = Calendar { components: vec![Component::Event(detailed(Some("x"), None))] };
    let r = hide_details(cal);
    for c in &r.components {
        if let Component::Event(e) = c {
            assert_eq!(e.summary.as_deref(), Some("Blocked"));
        }
    }
}

#[test]
fn lone_tentative_event_keeps_its_label_when_merged() {
    let cal = Calendar {
        components: vec![Component::Event(detailed(Some("t"), Some(EventStatus::Tentative)))],
    };
    let r = hide_details_at(cal, at(1, 0, 0));
    assert_eq!(r.components.len(), 1);
    match &r.components[0] {
        Component::Event(e) => {
            assert_eq!(e.summary.as_deref(), Some("Tentative"));
            assert_eq!(e.status, Some(EventStatus::Tentative));
            assert_eq!(e.uid.as_deref(), Some("t"));
        }
        _ => panic!("Expected event component"),
    }
}

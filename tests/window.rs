use ical_merger::event::{Calendar, Component, Event};
use ical_merger::time::{CalendarDateTime, DatePerhapsTime};
use ical_merger::window::{filter_future_days, filter_future_days_at};

fn day(m: u32, d: u32) -> i64 {
    let y = if m == 12 { 2023 } else { 2024 };
    chrono::NaiveDate::from_ymd_opt(y, m, d).unwrap().to_epoch_days() as i64
}

fn event(uid: &str, m: u32, d: u32, rrule: Option<&str>) -> Event {
    let mut e = Event::new();
    e.uid = Some(uid.to_string());
    e.summary = Some(uid.to_string());
    e.start = Some(DatePerhapsTime::DateTime(CalendarDateTime::Floating(day(m, d) * 86400 + 9 * 3600)));
    e.rrule = rrule.map(|r| r.to_string());
    e
}

fn uids(c: &Calendar) -> Vec<String> {
    c.components
        .iter()
        .map(|c| match c {
            Component::Event(e) => e.uid.clone().unwrap_or_default(),
            Component::Other(_) => "other".to_string(),
        })
        .collect()
}

#[test]
fn single_events_kept_only_inside_window() {
    let mut no_start = Event::new();
    no_start.uid = Some("nostart".to_string());
    let cal = Calendar {
        components: vec![
            Component::Event(event("before", 1, 9, None)),
            Component::Event(event("today", 1, 10, None)),
            Component::Event(event("inside", 1, 12, None)),
            Component::Event(event("horizon", 1, 17, None)),
            Component::Event(event("after", 1, 18, None)),
            Component::Event(no_start),
            Component::Other(icalendar::CalendarComponent::Todo(icalendar::Todo::new())),
        ],
    };
    let r = filter_future_days_at(cal, 7, day(1, 10), false);
    assert_eq!(uids(&r), vec!["today", "inside", "horizon", "nostart", "other"]);
}

#[test]
fn recurring_events_use_lookback() {
    let make = || Calendar {
        components: vec![
            Component::Event(event("old", 12, 1, Some("FREQ=WEEKLY"))),
            Component::Event(event("yesterday", 1, 9, Some("FREQ=WEEKLY"))),
            Component::Event(event("ancient", 9, 1, Some("FREQ=WEEKLY"))),
            Component::Event(event("future", 1, 20, Some("FREQ=WEEKLY"))),
        ],
    };
    let normal = filter_future_days_at(make(), 7, day(1, 10), false);
    assert_eq!(uids(&normal), vec!["old", "yesterday"]);
    let strict = filter_future_days_at(make(), 7, day(1, 10), true);
    assert_eq!(uids(&strict), vec!["yesterday"]);
}

#[test]
fn kept_recurring_rule_ends_at_horizon() {
    let mut e = event("r", 1, 8, Some("FREQ=WEEKLY;UNTIL=20250101T000000Z;BYDAY=MO"));
    e.location = Some("Room 1".to_string());
    let mut f = event("s", 1, 9, Some("FREQ=WEEKLY"));
    f.uid = None;
    let cal = Calendar { components: vec![Component::Event(e), Component::Event(f)] };
    let r = filter_future_days_at(cal, 7, day(1, 10), false);
    match &r.components[0] {
        Component::Event(x) => {
            assert_eq!(x.rrule.as_deref(), Some("FREQ=WEEKLY;UNTIL=20240117T235959Z;BYDAY=MO"));
            assert_eq!(x.location.as_deref(), Some("Room 1"));
            assert_eq!(x.uid.as_deref(), Some("r"));
        }
        _ => panic!("Expected event component"),
    }
    match &r.components[1] {
        Component::Event(x) => {
            assert_eq!(x.rrule.as_deref(), Some("FREQ=WEEKLY;UNTIL=20240117T235959Z"));
            assert!(x.uid.as_deref().unwrap().starts_with("generated-uid-"));
        }
        _ => panic!("Expected event component"),
    }
}

#[test]
fn whole_date_events_use_their_date() {
    let mut e = Event::new();
    e.uid = Some("allday".to_string());
    e.start = Some(DatePerhapsTime::Date(day(1, 11)));
    let cal = Calendar { components: vec![Component::Event(e)] };
    let r = filter_future_days_at(cal, 1, day(1, 10), false);
    assert_eq!(uids(&r), vec!["allday"]);
}

#[test]
fn filter_with_the_clock_keeps_undated_events() {
    let mut no_start = Event::new();
    no_start.uid = Some("nostart".to_string());
    let cal = Calendar { components: vec![Component::Event(no_start)] };
    let r = filter_future_days(cal, 30, false);
    assert_eq!(uids(&r), vec!["nostart"]);
}

use ical_merger::cache::{CacheGate, GateAction};
use ical_merger::config::{
    default_hide_details, default_host, default_merge_overlapping_events, default_port,
    default_tz_offsets, Config,
};
use ical_merger::error::Error;
use ical_merger::event::{Calendar, Component, Event};
use ical_merger::sources::{calendars_to_merged_calendar, merge_feeds, offset_for_source};
use ical_merger::time::{CalendarDateTime, DatePerhapsTime};

fn config(hide: bool, merge: bool) -> Config {
    Config {
        urls: vec!["http://example.invalid/a.ics".to_string()],
        tz_offsets: default_tz_offsets(),
        host: default_host(),
        port: default_port(),
        hide_details: hide,
        merge_overlapping_events: merge,
        future_days_limit: None,
    }
}

#[test]
fn defaults() {
    assert_eq!(default_port(), 3000);
    assert_eq!(default_host(), "0.0.0.0");
    assert!(default_hide_details());
    assert!(default_merge_overlapping_events());
    assert!(default_tz_offsets().is_empty());
}

#[test]
fn merging_without_hiding_is_rejected() {
    assert_eq!(
        config(false, true).validate(),
        Err(Error::Config("MERGE_OVERLAPPING_EVENTS cannot be used without HIDE DETAILS".to_string()))
    );
    assert_eq!(config(true, true).validate(), Ok(()));
    assert_eq!(config(true, false).validate(), Ok(()));
    assert_eq!(config(false, false).validate(), Ok(()));
}

#[test]
fn concurrent_requests_build_once() {
    let mut gate = CacheGate::new();
    assert_eq!(gate.request("k", 10), GateAction::Build);
    assert_eq!(gate.request("k", 11), GateAction::Wait);
    gate.finish("k", &Ok("CAL".to_string()), 12);
    assert_eq!(gate.request("k", 13), GateAction::Serve("CAL".to_string()));
}

#[test]
fn cache_expires_after_fifteen_minutes() {
    let mut gate = CacheGate::new();
    assert_eq!(gate.request("k", 0), GateAction::Build);
    gate.finish("k", &Ok("CAL".to_string()), 100);
    assert_eq!(gate.request("k", 999), GateAction::Serve("CAL".to_string()));
    assert_eq!(gate.request("k", 1000), GateAction::Build);
}

#[test]
fn failed_build_is_not_cached() {
    let mut gate = CacheGate::new();
    assert_eq!(gate.request("k", 0), GateAction::Build);
    gate.finish("k", &Err(Error::Reqwest("down".to_string())), 1);
    assert!(gate.entry.is_none());
    assert_eq!(gate.request("k", 2), GateAction::Build);
}

#[test]
fn other_key_is_a_miss() {
    let mut gate = CacheGate::new();
    assert_eq!(gate.request("a", 0), GateAction::Build);
    gate.finish("a", &Ok("A".to_string()), 0);
    assert_eq!(gate.request("b", 1), GateAction::Build);
}

#[test]
fn offsets_by_position_then_last() {
    assert_eq!(offset_for_source(&vec![1, -2], 0), 1);
    assert_eq!(offset_for_source(&vec![1, -2], 1), -2);
    assert_eq!(offset_for_source(&vec![1, -2], 5), -2);
    assert_eq!(offset_for_source(&vec![], 3), 0);
}

fn at_hour(uid: &str, h: i64) -> Component {
    let mut e = Event::new();
    e.uid = Some(uid.to_string());
    e.start = Some(DatePerhapsTime::DateTime(CalendarDateTime::Floating(1_700_000_000 + h * 3600)));
    Component::Event(e)
}

fn start_of(c: &Component) -> (String, Option<DatePerhapsTime>) {
    match c {
        Component::Event(e) => (e.uid.clone().unwrap(), e.start.clone()),
        Component::Other(_) => (String::new(), None),
    }
}

#[test]
fn feeds_are_shifted_and_joined_in_order() {
    let r = merge_feeds(vec![vec![at_hour("a", 0)], vec![at_hour("b", 0), at_hour("c", 1)]], &vec![2]);
    let got: Vec<(String, Option<DatePerhapsTime>)> = r.components.iter().map(start_of).collect();
    let want: Vec<(String, Option<DatePerhapsTime>)> = vec![
        ("a".to_string(), start_of(&at_hour("a", 2)).1),
        ("b".to_string(), start_of(&at_hour("b", 2)).1),
        ("c".to_string(), start_of(&at_hour("c", 3)).1),
    ];
    assert_eq!(got, want);
}

#[test]
fn calendars_are_joined_in_order() {
    let r = calendars_to_merged_calendar(vec![
        Calendar { components: vec![at_hour("a", 0)] },
        Calendar { components: vec![] },
        Calendar { components: vec![at_hour("b", 0)] },
    ]);
    let got: Vec<String> = r.components.iter().map(|c| start_of(c).0).collect();
    assert_eq!(got, vec!["a", "b"]);
}

use ical_merger::event::{Component, Event};
use ical_merger::shift::{shift_event, shift_timezone};
use ical_merger::time::{CalendarDateTime, DatePerhapsTime, MAX_INSTANT, MIN_DAY, MIN_INSTANT};

fn at(y: i32, m: u32, d: u32, h: u32, mi: u32) -> i64 {
    chrono::NaiveDate::from_ymd_opt(y, m, d)
        .unwrap()
        .and_hms_opt(h, mi, 0)
        .unwrap()
        .and_utc()
        .timestamp()
}

fn floating_event(uid: &str, summary: &str, start: i64) -> Event {
    let mut event = Event::new();
    event.uid = Some(uid.to_string());
    event.summary = Some(summary.to_string());
    event.start = Some(DatePerhapsTime::DateTime(CalendarDateTime::Floating(start)));
    event
}

#[test]
fn test_timezone_shift_positive_offset() {
    let event = floating_event("test-event-1", "Test Meeting", at(2024, 1, 1, 10, 0));
    let shifted_calendar = shift_timezone(vec![Component::Event(event)], 2);
    assert_eq!(shifted_calendar.components.len(), 1);
    if let Component::Event(shifted_event) = &shifted_calendar.components[0] {
        if let Some(DatePerhapsTime::DateTime(CalendarDateTime::Floating(shifted_dt))) =
            shifted_event.start
        {
            assert_eq!(shifted_dt, at(2024, 1, 1, 12, 0));
        } else {
            panic!("Expected floating datetime");
        }
    } else {
        panic!("Expected event component");
    }
}

#[test]
fn test_timezone_shift_negative_offset() {
    let event = floating_event("test-event-2", "Test Meeting 2", at(2024, 1, 1, 10, 0));
    let shifted_calendar = shift_timezone(vec![Component::Event(event)], -3);
    if let Component::Event(shifted_event) = &shifted_calendar.components[0] {
        if let Some(DatePerhapsTime::DateTime(CalendarDateTime::Floating(shifted_dt))) =
            shifted_event.start
        {
            assert_eq!(shifted_dt, at(2024, 1, 1, 7, 0));
        } else {
            panic!("Expected floating datetime");
        }
    } else {
        panic!("Expected event component");
    }
}

#[test]
fn test_timezone_shift_zero_offset() {
    let naive_dt = at(2024, 1, 1, 10, 0);
    let event = floating_event("test-event-3", "Test Meeting 3", naive_dt);
    let shifted_calendar = shift_timezone(vec![Component::Event(event)], 0);
    if let Component::Event(shifted_event) = &shifted_calendar.components[0] {
        if let Some(DatePerhapsTime::DateTime(CalendarDateTime::Floating(shifted_dt))) =
            shifted_event.start
        {
            assert_eq!(shifted_dt, naive_dt);
        } else {
            panic!("Expected floating datetime");
        }
    } else {
        panic!("Expected event component");
    }
}

#[test]
fn test_timezone_shift_with_utc_datetime() {
    let mut event = Event::new();
    event.uid = Some("test-event-4".to_string());
    event.summary = Some("UTC Test Meeting".to_string());
    event.start = Some(DatePerhapsTime::DateTime(CalendarDateTime::Utc(at(2024, 1, 1, 10, 0))));
    let shifted_calendar = shift_timezone(vec![Component::Event(event)], 1);
    if let Component::Event(shifted_event) = &shifted_calendar.components[0] {
        if let Some(DatePerhapsTime::DateTime(CalendarDateTime::Utc(shifted_dt))) =
            shifted_event.start
        {
            assert_eq!(shifted_dt, at(2024, 1, 1, 11, 0));
        } else {
            panic!("Expected UTC datetime");
        }
    } else {
        panic!("Expected event component");
    }
}

#[test]
fn zero_shift_returns_event_unchanged() {
    let mut event = floating_event("z", "Zero", at(2024, 3, 5, 8, 30));
    event.end = Some(DatePerhapsTime::Date(19000));
    event.timestamp = Some(at(2024, 3, 1, 0, 0));
    event.rrule = Some("FREQ=WEEKLY".to_string());
    let shifted = shift_event(event.clone(), 0);
    assert_eq!(shifted, event);
}

#[test]
fn zoned_shift_keeps_zone_and_moves_wall_clock() {
    let mut event = Event::new();
    event.start = Some(DatePerhapsTime::DateTime(CalendarDateTime::WithTimezone {
        date_time: at(2024, 6, 1, 23, 0),
        tzid: "Europe/Berlin".to_string(),
    }));
    event.timestamp = Some(at(2024, 5, 1, 12, 0));
    let shifted = shift_event(event, 2);
    assert_eq!(
        shifted.start,
        Some(DatePerhapsTime::DateTime(CalendarDateTime::WithTimezone {
            date_time: at(2024, 6, 2, 1, 0),
            tzid: "Europe/Berlin".to_string(),
        }))
    );
    assert_eq!(shifted.timestamp, Some(at(2024, 5, 1, 14, 0)));
}

#[test]
fn whole_dates_do_not_move() {
    let mut event = Event::new();
    event.start = Some(DatePerhapsTime::Date(19723));
    let shifted = shift_event(event, 5);
    assert_eq!(shifted.start, Some(DatePerhapsTime::Date(19723)));
}

#[test]
fn shift_past_range_keeps_value_unshifted() {
    let mut event = Event::new();
    event.start = Some(DatePerhapsTime::DateTime(CalendarDateTime::Floating(MAX_INSTANT - 100)));
    let shifted = shift_event(event, 1);
    assert_eq!(
        shifted.start,
        Some(DatePerhapsTime::DateTime(CalendarDateTime::Floating(MAX_INSTANT - 100)))
    );
}

#[test]
fn other_components_pass_through_shift() {
    let todo = icalendar::CalendarComponent::Todo(icalendar::Todo::new());
    let shifted = shift_timezone(vec![Component::Other(todo.clone())], 3);
    match &shifted.components[0] {
        Component::Other(c) => assert_eq!(*c, todo),
        _ => panic!("Expected other component"),
    }
}

#[test]
fn shift_before_first_day_keeps_value_unshifted() {
    let first = chrono::NaiveDate::MIN.and_hms_opt(0, 30, 0).unwrap().and_utc().timestamp();
    assert_eq!(first, MIN_INSTANT + 1800);
    assert_eq!(chrono::NaiveDate::MIN.to_epoch_days() as i64, MIN_DAY);
    let mut event = Event::new();
    event.start = Some(DatePerhapsTime::DateTime(CalendarDateTime::Floating(first)));
    let shifted = shift_event(event, -1);
    assert_eq!(shifted.start, Some(DatePerhapsTime::DateTime(CalendarDateTime::Floating(first))));
}

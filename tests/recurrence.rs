use ical_merger::recur::expand_recurring_event;
use ical_merger::rule::{parse_weekday, rule_is_weekly, truncate_rule};

fn at(d: u32, h: u32, mi: u32) -> i64 {
    chrono::NaiveDate::from_ymd_opt(2024, 1, d)
        .unwrap()
        .and_hms_opt(h, mi, 0)
        .unwrap()
        .and_utc()
        .timestamp()
}

#[test]
fn weekly_byday_over_two_weeks_from_sunday() {
    // 2024-01-07 is a Sunday; the event itself is on Monday 2024-01-01.
    let occ = expand_recurring_event(
        at(1, 9, 0),
        at(1, 10, 0),
        "FREQ=WEEKLY;BYDAY=MO,WE",
        at(7, 0, 0),
        at(21, 0, 0),
        None,
    );
    let spans: Vec<(i64, i64)> = occ.iter().map(|o| (o.start, o.end)).collect();
    assert_eq!(
        spans,
        vec![
            (at(8, 9, 0), at(8, 10, 0)),
            (at(15, 9, 0), at(15, 10, 0)),
            (at(10, 9, 0), at(10, 10, 0)),
            (at(17, 9, 0), at(17, 10, 0)),
        ]
    );
}

#[test]
fn occurrences_get_fresh_identities() {
    let occ = expand_recurring_event(
        at(1, 9, 0),
        at(1, 10, 0),
        "FREQ=WEEKLY;BYDAY=MO,WE",
        at(7, 0, 0),
        at(21, 0, 0),
        None,
    );
    for o in &occ {
        assert!(o.uid.starts_with("expanded-"));
        assert_eq!(o.uid.len(), "expanded-".len() + 36);
        let id: Vec<char> = o.uid["expanded-".len()..].chars().collect();
        for (i, c) in id.iter().enumerate() {
            if [8, 13, 18, 23].contains(&i) {
                assert_eq!(*c, '-');
            } else {
                assert!(c.is_ascii_hexdigit() && !c.is_ascii_uppercase());
            }
        }
        assert_eq!(id[14], '4');
    }
    assert_ne!(occ[0].uid, occ[1].uid);
}

#[test]
fn weekly_without_byday_uses_start_weekday() {
    // 2024-01-03 is a Wednesday.
    let occ = expand_recurring_event(at(3, 18, 0), at(3, 19, 30), "FREQ=WEEKLY", at(4, 0, 0), at(18, 0, 0), None);
    let spans: Vec<(i64, i64)> = occ.iter().map(|o| (o.start, o.end)).collect();
    assert_eq!(spans, vec![(at(10, 18, 0), at(10, 19, 30)), (at(17, 18, 0), at(17, 19, 30))]);
}

#[test]
fn occurrences_stay_inside_window() {
    let ws = at(8, 12, 0);
    let we = at(15, 8, 0);
    // Monday 09:00 on the 8th starts before the window, on the 15th after it ends.
    let occ = expand_recurring_event(at(1, 9, 0), at(1, 10, 0), "FREQ=WEEKLY;BYDAY=MO,TU", ws, we, None);
    let spans: Vec<(i64, i64)> = occ.iter().map(|o| (o.start, o.end)).collect();
    assert_eq!(spans, vec![(at(9, 9, 0), at(9, 10, 0))]);
    for o in &occ {
        assert!(ws <= o.start && o.start <= we);
    }
}

#[test]
fn occurrences_carry_event_status() {
    let status = Some(ical_merger::event::EventStatus::Tentative);
    let occ = expand_recurring_event(at(1, 9, 0), at(1, 10, 0), "FREQ=WEEKLY", at(7, 0, 0), at(21, 0, 0), status);
    assert_eq!(occ.len(), 2);
    assert!(occ.iter().all(|o| o.status == status));
}

#[test]
fn non_weekly_rule_is_kept_only_inside_window() {
    let inside = expand_recurring_event(at(9, 9, 0), at(9, 10, 0), "FREQ=DAILY", at(7, 0, 0), at(21, 0, 0), None);
    assert_eq!(inside.len(), 1);
    assert_eq!((inside[0].start, inside[0].end), (at(9, 9, 0), at(9, 10, 0)));
    let outside = expand_recurring_event(at(1, 9, 0), at(1, 10, 0), "FREQ=DAILY", at(7, 0, 0), at(21, 0, 0), None);
    assert!(outside.is_empty());
}

#[test]
fn overnight_occurrence_ends_next_day() {
    let occ = expand_recurring_event(at(1, 23, 0), at(2, 1, 0), "FREQ=WEEKLY", at(7, 0, 0), at(9, 0, 0), None);
    let spans: Vec<(i64, i64)> = occ.iter().map(|o| (o.start, o.end)).collect();
    assert_eq!(spans, vec![(at(8, 23, 0), at(9, 1, 0))]);
}

#[test]
fn unknown_day_codes_are_skipped() {
    let occ = expand_recurring_event(at(1, 9, 0), at(1, 10, 0), "FREQ=WEEKLY;BYDAY=XX,FR", at(7, 0, 0), at(14, 0, 0), None);
    let spans: Vec<(i64, i64)> = occ.iter().map(|o| (o.start, o.end)).collect();
    assert_eq!(spans, vec![(at(12, 9, 0), at(12, 10, 0))]);
}

#[test]
fn day_codes_parse() {
    assert_eq!(parse_weekday("MO"), Some(0));
    assert_eq!(parse_weekday("WE"), Some(2));
    assert_eq!(parse_weekday("SU"), Some(6));
    assert_eq!(parse_weekday("Mo"), None);
    assert_eq!(parse_weekday("MON"), None);
}

#[test]
fn weekly_rules_are_recognised() {
    assert!(rule_is_weekly("FREQ=WEEKLY;BYDAY=MO"));
    assert!(rule_is_weekly("INTERVAL=2;FREQ=WEEKLY"));
    assert!(!rule_is_weekly("FREQ=DAILY"));
}

#[test]
fn until_is_replaced_or_appended() {
    assert_eq!(
        truncate_rule("FREQ=WEEKLY;UNTIL=20250101T000000Z;BYDAY=MO", "20240117T235959Z"),
        "FREQ=WEEKLY;UNTIL=20240117T235959Z;BYDAY=MO"
    );
    assert_eq!(truncate_rule("FREQ=WEEKLY", "20240117T235959Z"), "FREQ=WEEKLY;UNTIL=20240117T235959Z");
    assert_eq!(
        truncate_rule("FREQ=DAILY;X-UNTIL=1", "20240117T235959Z"),
        "FREQ=DAILY;X-UNTIL=1;UNTIL=20240117T235959Z"
    );
}

use ical_merger::merge::{merge_overlapping_events, EventTimeSlot};

fn at(h: u32, mi: u32) -> i64 {
    chrono::NaiveDate::from_ymd_opt(2024, 1, 1)
        .unwrap()
        .and_hms_opt(h, mi, 0)
        .unwrap()
        .and_utc()
        .timestamp()
}

fn slot(start: i64, end: i64, uid: &str) -> EventTimeSlot {
    EventTimeSlot { start, end, uid: uid.to_string(), status: None }
}

#[test]
fn overlapping_pair_merges_into_one_slot() {
    let merged = merge_overlapping_events(vec![
        slot(at(10, 0), at(12, 0), "a"),
        slot(at(11, 0), at(13, 0), "b"),
    ]);
    assert_eq!(merged, vec![slot(at(10, 0), at(13, 0), "a")]);
}

#[test]
fn gap_under_tolerance_merges() {
    let merged = merge_overlapping_events(vec![
        slot(at(10, 0), at(12, 0), "a"),
        slot(at(12, 2), at(14, 0), "b"),
    ]);
    assert_eq!(merged, vec![slot(at(10, 0), at(14, 0), "a")]);
}

#[test]
fn nested_and_touching_slots_collapse() {
    let merged = merge_overlapping_events(vec![
        slot(at(10, 0), at(14, 0), "a"),
        slot(at(11, 0), at(12, 0), "b"),
        slot(at(14, 0), at(18, 0), "c"),
        slot(at(15, 0), at(16, 0), "d"),
    ]);
    assert_eq!(merged, vec![slot(at(10, 0), at(18, 0), "a")]);
}

#[test]
fn gap_of_exactly_tolerance_stays_apart() {
    let merged = merge_overlapping_events(vec![
        slot(at(10, 0), at(12, 0), "a"),
        slot(at(12, 5), at(13, 0), "b"),
    ]);
    assert_eq!(merged, vec![slot(at(10, 0), at(12, 0), "a"), slot(at(12, 5), at(13, 0), "b")]);
}

#[test]
fn gap_one_second_under_tolerance_merges() {
    let merged = merge_overlapping_events(vec![
        slot(at(10, 0), at(12, 0), "a"),
        slot(at(12, 5) - 1, at(13, 0), "b"),
    ]);
    assert_eq!(merged, vec![slot(at(10, 0), at(13, 0), "a")]);
}

#[test]
fn unsorted_input_comes_out_by_start() {
    let merged = merge_overlapping_events(vec![
        slot(at(15, 0), at(16, 0), "late"),
        slot(at(8, 0), at(9, 0), "early"),
        slot(at(8, 30), at(9, 30), "overlap"),
    ]);
    assert_eq!(
        merged,
        vec![slot(at(8, 0), at(9, 30), "early"), slot(at(15, 0), at(16, 0), "late")]
    );
}

#[test]
fn empty_input_gives_no_slots() {
    assert_eq!(merge_overlapping_events(Vec::new()), Vec::new());
}

#[test]
fn merging_twice_changes_nothing() {
    let input = vec![
        slot(at(9, 0), at(10, 0), "x"),
        slot(at(9, 30), at(11, 0), "y"),
        slot(at(11, 3), at(12, 0), "z"),
        slot(at(14, 0), at(15, 0), "w"),
    ];
    let once = merge_overlapping_events(input);
    let twice = merge_overlapping_events(once.clone());
    assert_eq!(once, twice);
    assert_eq!(once, vec![slot(at(9, 0), at(12, 0), "x"), slot(at(14, 0), at(15, 0), "w")]);
}

#[test]
fn merged_slots_are_apart_by_tolerance() {
    let merged = merge_overlapping_events(vec![
        slot(at(1, 0), at(2, 0), "a"),
        slot(at(2, 4), at(3, 0), "b"),
        slot(at(3, 10), at(4, 0), "c"),
        slot(at(6, 0), at(7, 0), "d"),
    ]);
    for pair in merged.windows(2) {
        assert!(pair[1].start - pair[0].end >= 300);
    }
    assert_eq!(merged.len(), 3);
}

#[test]
fn merged_block_takes_earliest_status() {
    let mut first = slot(at(9, 0), at(10, 0), "a");
    first.status = Some(ical_merger::event::EventStatus::Tentative);
    let mut second = slot(at(9, 30), at(11, 0), "b");
    second.status = Some(ical_merger::event::EventStatus::Cancelled);
    let merged = merge_overlapping_events(vec![second, first]);
    assert_eq!(merged.len(), 1);
    assert_eq!(merged[0].uid, "a");
    assert_eq!(merged[0].status, Some(ical_merger::event::EventStatus::Tentative));
}

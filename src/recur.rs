//! Expanding a recurring event into the occurrences that fall in a window.
use vstd::prelude::*;
use vstd::string::*;

use crate::event::EventStatus;
use crate::merge::{slot_wf, EventTimeSlot};
use crate::rule::{is_weekly, rule_is_weekly, rule_weekdays, target_weekdays, as_ints};
use crate::time::{
    day_of, day_of_instant, day_start, time_of_day, time_of_day_secs, valid_day, valid_instant,
    weekday_index, weekday_of_day,
};

verus! {

/// The span of each slot.
pub open spec fn spans(s: Seq<EventTimeSlot>) -> Seq<(int, int)> {
    s.map_values(|x: EventTimeSlot| (x.start as int, x.end as int))
}

/// Start of the occurrence on day `d`: the event's own time of day on that date.
pub open spec fn occurrence_start(d: int, start: int) -> int {
    d * 86400 + time_of_day(start)
}

/// End of the occurrence on day `d`: the event's own end time of day, on the same
/// date, or on the next one where that would come before the start.
pub open spec fn occurrence_end(d: int, start: int, end: int) -> int {
    let e = d * 86400 + time_of_day(end);
    if e >= occurrence_start(d, start) {
        e
    } else {
        e + 86400
    }
}

/// The first day on or after `from` that falls on weekday `w`.
pub open spec fn first_on_weekday(from: int, w: int) -> int {
    from + (w - weekday_index(from)) % 7
}

/// Occurrences on day `d` and every seventh day after it, up to the window's last
/// day, keeping those that start inside the window.
pub open spec fn weekly_from(d: int, start: int, end: int, ws: int, we: int) -> Seq<(int, int)>
    decreases day_of(we) + 7 - d,
{
    if d > day_of(we) {
        seq![]
    } else {
        let s = occurrence_start(d, start);
        let here = if ws <= s <= we {
            seq![(s, occurrence_end(d, start, end))]
        } else {
            seq![]
        };
        here + weekly_from(d + 7, start, end, ws, we)
    }
}

/// The occurrences for each weekday of the list in turn.
pub open spec fn expand_days(days: Seq<int>, start: int, end: int, ws: int, we: int) -> Seq<
    (int, int),
>
    decreases days.len(),
{
    if days.len() == 0 {
        seq![]
    } else {
        weekly_from(first_on_weekday(day_of(ws), days[0]), start, end, ws, we) + expand_days(
            days.drop_first(),
            start,
            end,
            ws,
            we,
        )
    }
}

/// The occurrences of a recurring event within `[ws, we]`: for a weekly rule, one on
/// each target weekday of each week; for any other rule the event itself, if it
/// starts inside the window.
pub open spec fn expansion(rule: Seq<char>, start: int, end: int, ws: int, we: int) -> Seq<
    (int, int),
> {
    if !is_weekly(rule) {
        if ws <= start <= we {
            seq![(start, end)]
        } else {
            seq![]
        }
    } else {
        expand_days(target_weekdays(rule, start), start, end, ws, we)
    }
}

/// Whether a character is a lower-case hexadecimal digit.
pub open spec fn is_hex_lower(c: char) -> bool {
    ('0' <= c <= '9') || ('a' <= c <= 'f')
}

/// The hyphenated text of a version-4 UUID: 36 characters, hyphens at 8, 13, 18
/// and 23, lower-case hex digits elsewhere, the version digit `4` at 14.
pub open spec fn uuid_v4_text(t: Seq<char>) -> bool {
    &&& t.len() == 36
    &&& forall|i: int|
        0 <= i < 36 ==> if i == 8 || i == 13 || i == 18 || i == 23 {
            t[i] == '-'
        } else {
            is_hex_lower(t[i])
        }
    &&& t[14] == '4'
}

/// An identity made of `prefix` and a fresh random UUID.
pub open spec fn synthesized_from(r: Seq<char>, prefix: Seq<char>) -> bool {
    &&& r.len() == prefix.len() + 36
    &&& r.subrange(0, prefix.len() as int) == prefix
    &&& uuid_v4_text(r.subrange(prefix.len() as int, r.len() as int))
}

/// Relies on uuid's `Uuid::new_v4` and its `Display`, the lower-case hyphenated form.
#[verifier::external_body]
fn new_uuid_text() -> (r: String)
    ensures
        uuid_v4_text(r@),
{
    uuid::Uuid::new_v4().to_string()
}

/// A fresh identity: `prefix` followed by a random UUID.
pub fn synthesize_uid(prefix: &str) -> (r: String)
    ensures
        synthesized_from(r@, prefix@),
{
    let id = new_uuid_text();
    let mut out = String::from_str(prefix);
    out.append(id.as_str());
    assert(out@.subrange(0, prefix@.len() as int) =~= prefix@);
    assert(out@.subrange(prefix@.len() as int, out@.len() as int) =~= id@);
    out
}

pub open spec fn expanded_prefix() -> Seq<char> {
    seq!['e', 'x', 'p', 'a', 'n', 'd', 'e', 'd', '-']
}

/// Occurrence slots are well formed, start in the window, carry fresh identities
/// and the recurring event's status.
pub open spec fn occurrence_slots_ok(
    r: Seq<EventTimeSlot>,
    ws: int,
    we: int,
    status: Option<EventStatus>,
) -> bool {
    forall|i: int|
        0 <= i < r.len() ==> {
            &&& slot_wf(#[trigger] r[i])
            &&& ws <= r[i].start <= we
            &&& synthesized_from(r[i].uid@, expanded_prefix())
            &&& r[i].status == status
        }
}

fn expanded_uid() -> (r: String)
    ensures
        synthesized_from(r@, expanded_prefix()),
{
    let p = "expanded-";
    proof {
        reveal_strlit("expanded-");
        assert(p@ =~= expanded_prefix());
    }
    synthesize_uid(p)
}

/// Expands one recurring event over the window `[window_start, window_end]`; each
/// occurrence carries the event's `status`.
pub fn expand_recurring_event(
    start_dt: i64,
    end_dt: i64,
    rrule: &str,
    window_start: i64,
    window_end: i64,
    status: Option<EventStatus>,
) -> (r: Vec<EventTimeSlot>)
    requires
        valid_instant(start_dt as int),
        valid_instant(end_dt as int),
        start_dt <= end_dt,
        valid_instant(window_start as int),
        valid_instant(window_end as int),
        valid_day(day_of(window_end as int) + 1),
    ensures
        spans(r@) == expansion(rrule@, start_dt as int, end_dt as int, window_start as int, window_end as int),
        occurrence_slots_ok(r@, window_start as int, window_end as int, status),
{
    let ghost total = expansion(rrule@, start_dt as int, end_dt as int, window_start as int, window_end as int);
    let mut occurrences: Vec<EventTimeSlot> = Vec::new();
    if !rule_is_weekly(rrule) {
        if window_start <= start_dt && start_dt <= window_end {
            occurrences.push(EventTimeSlot { start: start_dt, end: end_dt, uid: expanded_uid(), status });
            assert(spans(occurrences@) =~= total);
        } else {
            assert(spans(occurrences@) =~= total);
        }
        return occurrences;
    }
    let start_day = day_of_instant(start_dt);
    let weekdays = rule_weekdays(rrule, weekday_of_day(start_day), Ghost(start_dt as int));
    let ghost wl = as_ints(weekdays@);
    let first_day = day_of_instant(window_start);
    let last_day = day_of_instant(window_end);
    let first_weekday = weekday_of_day(first_day);
    let tod_start = time_of_day_secs(start_dt);
    let tod_end = time_of_day_secs(end_dt);
    assert(wl.skip(0) =~= wl);
    assert(spans(occurrences@) =~= Seq::<(int, int)>::empty());
    assert(total == expand_days(wl, start_dt as int, end_dt as int, window_start as int, window_end as int));
    assert(spans(occurrences@) + expand_days(wl.skip(0), start_dt as int, end_dt as int, window_start as int, window_end as int) =~= total);
    let mut k: usize = 0;
    while k < weekdays.len()
        invariant
            k <= weekdays.len(),
            wl == as_ints(weekdays@),
            total == expand_days(wl, start_dt as int, end_dt as int, window_start as int, window_end as int),
            spans(occurrences@) + expand_days(wl.skip(k as int), start_dt as int, end_dt as int, window_start as int, window_end as int) == total,
            occurrence_slots_ok(occurrences@, window_start as int, window_end as int, status),
            valid_instant(window_start as int),
            valid_instant(window_end as int),
            valid_day(day_of(window_end as int) + 1),
            first_day == day_of(window_start as int),
            last_day == day_of(window_end as int),
            first_weekday == weekday_index(first_day as int),
            tod_start == time_of_day(start_dt as int),
            tod_end == time_of_day(end_dt as int),
            0 <= tod_start < 86400,
            0 <= tod_end < 86400,
        decreases weekdays.len() - k,
    {
        let w = weekdays[k];
        let ghost rest = wl.skip(k as int + 1);
        assert(wl.skip(k as int).drop_first() =~= rest);
        assert(wl.skip(k as int)[0] == w as int);
        let delta: u64 = ((w as u64) + 7 - (first_weekday as u64)) % 7;
        assert(delta == (w as int - weekday_index(first_day as int)) % 7) by {
            let a = w as int - weekday_index(first_day as int);
            vstd::arithmetic::div_mod::lemma_mod_add_multiples_vanish(a, 7);
        }
        let mut d: i64 = first_day + delta as i64;
        let ghost d0 = d as int;
        let ghost before = spans(occurrences@);
        assert(spans(occurrences@) + weekly_from(d as int, start_dt as int, end_dt as int, window_start as int, window_end as int)
            + expand_days(rest, start_dt as int, end_dt as int, window_start as int, window_end as int) == total);
        while d <= last_day
            invariant
                total == expand_days(wl, start_dt as int, end_dt as int, window_start as int, window_end as int),
                spans(occurrences@) + weekly_from(d as int, start_dt as int, end_dt as int, window_start as int, window_end as int)
                    + expand_days(rest, start_dt as int, end_dt as int, window_start as int, window_end as int) == total,
                occurrence_slots_ok(occurrences@, window_start as int, window_end as int, status),
                valid_instant(window_start as int),
                valid_instant(window_end as int),
                valid_day(day_of(window_end as int) + 1),
                last_day == day_of(window_end as int),
                tod_start == time_of_day(start_dt as int),
                tod_end == time_of_day(end_dt as int),
                0 <= tod_start < 86400,
                0 <= tod_end < 86400,
                d >= first_day,
                valid_day(first_day as int),
            decreases last_day + 7 - d,
        {
            let midnight = day_start(d);
            let occ_start = midnight + tod_start;
            let occ_end0 = midnight + tod_end;
            let occ_end = if occ_end0 >= occ_start {
                occ_end0
            } else {
                occ_end0 + 86400
            };
            let ghost prev = occurrences@;
            if window_start <= occ_start && occ_start <= window_end {
                let slot = EventTimeSlot { start: occ_start, end: occ_end, uid: expanded_uid(), status };
                occurrences.push(slot);
                assert(spans(occurrences@) =~= spans(prev).push((occ_start as int, occ_end as int)));
                assert forall|i: int| 0 <= i < occurrences@.len() implies {
                    &&& slot_wf(#[trigger] occurrences@[i])
                    &&& window_start <= occurrences@[i].start <= window_end
                    &&& crate::recur::synthesized_from(occurrences@[i].uid@, expanded_prefix())
                    &&& occurrences@[i].status == status
                } by {
                    if i < prev.len() {
                        assert(occurrences@[i] == prev[i]);
                    }
                }
            }
            assert(spans(occurrences@) + weekly_from(d + 7, start_dt as int, end_dt as int, window_start as int, window_end as int)
                + expand_days(rest, start_dt as int, end_dt as int, window_start as int, window_end as int) =~= total);
            d = d + 7;
        }
        assert(weekly_from(d as int, start_dt as int, end_dt as int, window_start as int, window_end as int) =~= Seq::<(int, int)>::empty());
        assert(spans(occurrences@) + expand_days(wl.skip(k as int + 1), start_dt as int, end_dt as int, window_start as int, window_end as int) =~= total);
        k = k + 1;
    }
    assert(wl.skip(k as int) =~= Seq::<int>::empty());
    assert(spans(occurrences@) =~= total);
    occurrences
}

proof fn lemma_weekly_in_window(d: int, start: int, end: int, ws: int, we: int)
    ensures
        forall|i: int|
            0 <= i < weekly_from(d, start, end, ws, we).len() ==> ws <= (#[trigger] weekly_from(
                d,
                start,
                end,
                ws,
                we,
            )[i]).0 <= we,
    decreases day_of(we) + 7 - d,
{
    if d <= day_of(we) {
        lemma_weekly_in_window(d + 7, start, end, ws, we);
        let w = weekly_from(d, start, end, ws, we);
        let rest = weekly_from(d + 7, start, end, ws, we);
        let s = occurrence_start(d, start);
        let here = if ws <= s <= we {
            seq![(s, occurrence_end(d, start, end))]
        } else {
            seq![]
        };
        assert(w == here + rest);
        assert forall|i: int| 0 <= i < w.len() implies ws <= (#[trigger] w[i]).0 <= we by {
            if i >= here.len() {
                assert(w[i] == rest[i - here.len()]);
            }
        }
    }
}

proof fn lemma_days_in_window(days: Seq<int>, start: int, end: int, ws: int, we: int)
    ensures
        forall|i: int|
            0 <= i < expand_days(days, start, end, ws, we).len() ==> ws <= (
            #[trigger] expand_days(days, start, end, ws, we)[i]).0 <= we,
    decreases days.len(),
{
    if days.len() > 0 {
        let a = weekly_from(first_on_weekday(day_of(ws), days[0]), start, end, ws, we);
        let b = expand_days(days.drop_first(), start, end, ws, we);
        lemma_weekly_in_window(first_on_weekday(day_of(ws), days[0]), start, end, ws, we);
        lemma_days_in_window(days.drop_first(), start, end, ws, we);
        let w = expand_days(days, start, end, ws, we);
        assert(w == a + b);
        assert forall|i: int| 0 <= i < w.len() implies ws <= (#[trigger] w[i]).0 <= we by {
            if i < a.len() {
                assert(w[i] == a[i]);
            } else {
                assert(w[i] == b[i - a.len()]);
            }
        }
    }
}

/// No occurrence starts outside the window.
pub proof fn lemma_expansion_in_window(rule: Seq<char>, start: int, end: int, ws: int, we: int)
    ensures
        forall|i: int|
            0 <= i < expansion(rule, start, end, ws, we).len() ==> ws <= (
            #[trigger] expansion(rule, start, end, ws, we)[i]).0 <= we,
{
    if is_weekly(rule) {
        lemma_days_in_window(target_weekdays(rule, start), start, end, ws, we);
    }
}

} // verus!

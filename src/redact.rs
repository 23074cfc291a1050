//! Hiding event details: each event keeps only its times, status, identity and
//! rule, under a label chosen by its status; with merging, the events become
//! busy blocks, each under the identity and status of its earliest event.
use vstd::prelude::*;
use vstd::string::*;

use crate::event::{components_wf, Calendar, Component, Event, EventStatus};
use crate::merge::{merge_overlapping_events, merged, slots_wf, slot_wf, EventTimeSlot};
use crate::recur::{
    expand_recurring_event, expanded_prefix, expansion, spans, synthesize_uid,
    synthesized_from,
};
use crate::time::{
    day_of, local_now, resolve_instant, valid_day, valid_instant, CalendarDateTime,
    DatePerhapsTime, MAX_INSTANT,
};

verus! {

/// Length of the window over which recurring events are expanded: fourteen days.
pub const EXPANSION_WINDOW: i64 = 1209600;

/// The latest window start whose expansion window stays in the representable range.
pub const LATEST_WINDOW_START: i64 = MAX_INSTANT - 1382400;

pub open spec fn blocked_label() -> Seq<char> {
    seq!['B', 'l', 'o', 'c', 'k', 'e', 'd']
}

pub open spec fn tentative_label() -> Seq<char> {
    seq!['T', 'e', 'n', 't', 'a', 't', 'i', 'v', 'e']
}

pub open spec fn cancelled_label() -> Seq<char> {
    seq!['C', 'a', 'n', 'c', 'e', 'l', 'l', 'e', 'd']
}

pub open spec fn generated_prefix() -> Seq<char> {
    seq!['g', 'e', 'n', 'e', 'r', 'a', 't', 'e', 'd', '-', 'u', 'i', 'd', '-']
}

/// The summary that replaces an event's own, chosen by its status alone.
pub open spec fn status_label(s: Option<EventStatus>) -> Seq<char> {
    match s {
        Some(EventStatus::Tentative) => tentative_label(),
        Some(EventStatus::Cancelled) => cancelled_label(),
        _ => blocked_label(),
    }
}

/// `r` keeps the identity of `e`, or a synthesized one where `e` has none.
pub open spec fn identity_kept(r: Option<String>, e: Option<String>) -> bool {
    match e {
        Some(u) => r == Some(u),
        None => r matches Some(v) && synthesized_from(v@, generated_prefix()),
    }
}

/// `r` is `e` with its details hidden.
pub open spec fn redacted_from(r: Event, e: Event) -> bool {
    &&& r.start == e.start
    &&& r.end == e.end
    &&& r.status == e.status
    &&& r.rrule == e.rrule
    &&& identity_kept(r.uid, e.uid)
    &&& r.summary matches Some(s) && s@ == status_label(e.status)
    &&& r.description is None
    &&& r.location is None
    &&& r.timestamp is None
    &&& r.properties@.len() == 0
}

/// The busy block published for a merged slot, labelled by its status.
pub open spec fn is_block_event(r: Event, x: EventTimeSlot) -> bool {
    &&& r.uid == Some(x.uid)
    &&& r.start == Some(DatePerhapsTime::DateTime(CalendarDateTime::Floating(x.start)))
    &&& r.end == Some(DatePerhapsTime::DateTime(CalendarDateTime::Floating(x.end)))
    &&& r.status == x.status
    &&& r.summary matches Some(s) && s@ == status_label(x.status)
    &&& r.description is None
    &&& r.location is None
    &&& r.timestamp is None
    &&& r.rrule is None
    &&& r.properties@.len() == 0
}

pub open spec fn component_is_block(c: Component, x: EventTimeSlot) -> bool {
    match c {
        Component::Event(e) => is_block_event(e, x),
        Component::Other(_) => false,
    }
}

/// Every label is one of the three fixed ones.
pub proof fn lemma_label_is_fixed(s: Option<EventStatus>)
    ensures
        status_label(s) == blocked_label() || status_label(s) == tentative_label()
            || status_label(s) == cancelled_label(),
        s is None ==> status_label(s) == blocked_label(),
{
}

fn label_text(status: Option<EventStatus>) -> (r: String)
    ensures
        r@ == status_label(status),
{
    match status {
        Some(EventStatus::Tentative) => {
            let t = "Tentative";
            proof {
                reveal_strlit("Tentative");
                assert(t@ =~= tentative_label());
            }
            String::from_str(t)
        },
        Some(EventStatus::Cancelled) => {
            let t = "Cancelled";
            proof {
                reveal_strlit("Cancelled");
                assert(t@ =~= cancelled_label());
            }
            String::from_str(t)
        },
        _ => {
            let t = "Blocked";
            proof {
                reveal_strlit("Blocked");
                assert(t@ =~= blocked_label());
            }
            String::from_str(t)
        },
    }
}

fn generated_uid() -> (r: String)
    ensures
        synthesized_from(r@, generated_prefix()),
{
    let p = "generated-uid-";
    proof {
        reveal_strlit("generated-uid-");
        assert(p@ =~= generated_prefix());
    }
    synthesize_uid(p)
}

/// The identity of an event, synthesized where it has none.
pub(crate) fn ensure_uid(uid: &Option<String>) -> (r: String)
    ensures
        identity_kept(Some(r), *uid),
{
    match uid {
        Some(u) => u.clone(),
        None => generated_uid(),
    }
}

/// Hides the details of one event.
pub fn redact_event(e: Event) -> (r: Event)
    ensures
        redacted_from(r, e),
        e.wf() ==> r.wf(),
{
    let uid = ensure_uid(&e.uid);
    let summary = label_text(e.status);
    Event {
        uid: Some(uid),
        summary: Some(summary),
        description: None,
        location: None,
        status: e.status,
        start: e.start,
        end: e.end,
        timestamp: None,
        rrule: e.rrule,
        properties: Vec::new(),
    }
}

/// `r` is `c` after hiding: other components unchanged, events redacted.
pub open spec fn passed_through(r: Component, c: Component) -> bool {
    match c {
        Component::Other(_) => r == c,
        Component::Event(e) => r matches Component::Event(x) && redacted_from(x, e),
    }
}

/// Hides the details of every event of a calendar.
pub fn redact_calendar(calendar: Calendar) -> (r: Calendar)
    requires
        calendar.wf(),
    ensures
        r.components@.len() == calendar.components@.len(),
        forall|i: int|
            0 <= i < r.components@.len() ==> passed_through(
                #[trigger] r.components@[i],
                calendar.components@[i],
            ),
        r.wf(),
{
    let ghost input = calendar.components@;
    let mut out: Vec<Component> = Vec::new();
    for c in it: calendar.components.into_iter()
        invariant
            it.seq() == input,
            components_wf(input),
            out@.len() == it.index(),
            forall|j: int| 0 <= j < it.index() ==> passed_through(#[trigger] out@[j], input[j]),
            components_wf(out@),
    {
        let ghost k = it.index();
        assert(input[k].wf());
        let next = match c {
            Component::Event(e) => Component::Event(redact_event(e)),
            Component::Other(o) => Component::Other(o),
        };
        out.push(next);
    }
    Calendar { components: out }
}

/// The span of an event: both ends present, the start not after the end.
pub open spec fn event_span(e: Event) -> Option<(int, int)> {
    match (e.start, e.end) {
        (Some(a), Some(b)) => if a.instant() <= b.instant() {
            Some((a.instant(), b.instant()))
        } else {
            None
        },
        _ => None,
    }
}

/// The slots an event contributes: its recurrences inside the window, or itself.
pub open spec fn event_slots(e: Event, ws: int, we: int) -> Seq<(int, int)> {
    match event_span(e) {
        None => seq![],
        Some(sp) => match e.rrule {
            Some(r) => expansion(r@, sp.0, sp.1, ws, we),
            None => seq![sp],
        },
    }
}

pub open spec fn component_slots(c: Component, ws: int, we: int) -> Seq<(int, int)> {
    match c {
        Component::Event(e) => event_slots(e, ws, we),
        Component::Other(_) => seq![],
    }
}

/// The slots of all events, in calendar order.
pub open spec fn calendar_slots(cs: Seq<Component>, ws: int, we: int) -> Seq<(int, int)>
    decreases cs.len(),
{
    if cs.len() == 0 {
        seq![]
    } else {
        calendar_slots(cs.drop_last(), ws, we) + component_slots(cs.last(), ws, we)
    }
}

/// Where the identity of each slot of an event comes from, with the event's status:
/// `Some(uid)` for the event itself, whose identity it keeps, or `None` for an
/// occurrence, which gets a fresh one.
pub open spec fn component_origins(c: Component, ws: int, we: int) -> Seq<(Option<Option<String>>, Option<EventStatus>)> {
    match c {
        Component::Event(e) => match event_span(e) {
            None => seq![],
            Some(sp) => match e.rrule {
                Some(r) => Seq::new(
                    expansion(r@, sp.0, sp.1, ws, we).len(),
                    |i: int| (None::<Option<String>>, e.status),
                ),
                None => seq![(Some(e.uid), e.status)],
            },
        },
        Component::Other(_) => seq![],
    }
}

/// The origins of all slots, in calendar order.
pub open spec fn calendar_origins(cs: Seq<Component>, ws: int, we: int) -> Seq<(Option<Option<String>>, Option<EventStatus>)>
    decreases cs.len(),
{
    if cs.len() == 0 {
        seq![]
    } else {
        calendar_origins(cs.drop_last(), ws, we) + component_origins(cs.last(), ws, we)
    }
}

/// The identity of slot `x` is the one its origin asks for, and its status is the
/// event's.
pub open spec fn slot_id_ok(x: EventTimeSlot, o: (Option<Option<String>>, Option<EventStatus>)) -> bool {
    &&& x.status == o.1
    &&& match o.0 {
        Some(u) => identity_kept(Some(x.uid), u),
        None => synthesized_from(x.uid@, expanded_prefix()),
    }
}

pub open spec fn slot_ids_ok(sl: Seq<EventTimeSlot>, os: Seq<(Option<Option<String>>, Option<EventStatus>)>) -> bool {
    sl.len() == os.len() && forall|k: int| 0 <= k < sl.len() ==> slot_id_ok(#[trigger] sl[k], os[k])
}

/// Whether a component is kept out of merging: anything but an event with a span.
pub open spec fn kept_aside(c: Component) -> bool {
    match c {
        Component::Event(e) => event_span(e) is None,
        Component::Other(_) => true,
    }
}

/// The components kept out of merging, in order.
pub open spec fn aside(cs: Seq<Component>) -> Seq<Component>
    decreases cs.len(),
{
    if cs.len() == 0 {
        seq![]
    } else if kept_aside(cs.last()) {
        aside(cs.drop_last()).push(cs.last())
    } else {
        aside(cs.drop_last())
    }
}

/// `r` is the calendar `cs` with details hidden and events merged into blocks, the
/// window for recurring events being `[ws, we]`.
pub open spec fn hidden_and_merged(r: Seq<Component>, cs: Seq<Component>, ws: int, we: int) -> bool {
    let kept = aside(cs);
    exists|sl: Seq<EventTimeSlot>|
        {
            &&& slots_wf(sl)
            &&& spans(sl) == calendar_slots(cs, ws, we)
            &&& slot_ids_ok(sl, calendar_origins(cs, ws, we))
            &&& r.len() == kept.len() + merged(sl).len()
            &&& forall|i: int| 0 <= i < kept.len() ==> passed_through(#[trigger] r[i], kept[i])
            &&& forall|j: int|
                0 <= j < merged(sl).len() ==> component_is_block(r[kept.len() + j], #[trigger] merged(sl)[j])
        }
}

fn block_event(x: EventTimeSlot) -> (r: Event)
    ensures
        is_block_event(r, x),
{
    Event {
        uid: Some(x.uid),
        summary: Some(label_text(x.status)),
        description: None,
        location: None,
        status: x.status,
        start: Some(DatePerhapsTime::DateTime(CalendarDateTime::Floating(x.start))),
        end: Some(DatePerhapsTime::DateTime(CalendarDateTime::Floating(x.end))),
        timestamp: None,
        rrule: None,
        properties: Vec::new(),
    }
}

/// Hides details and merges overlapping events into blocks, each labelled by the
/// status of its earliest event. Recurring
/// events are expanded over the fourteen days from `window_start`. Components that
/// are not events, and events without a span, are kept (events redacted) ahead of
/// the blocks.
pub fn hide_details_at(calendar: Calendar, window_start: i64) -> (r: Calendar)
    requires
        calendar.wf(),
        valid_instant(window_start as int),
        window_start <= LATEST_WINDOW_START,
    ensures
        hidden_and_merged(
            r.components@,
            calendar.components@,
            window_start as int,
            window_start + EXPANSION_WINDOW,
        ),
{
    let window_end = window_start + EXPANSION_WINDOW;
    let ghost ws = window_start as int;
    let ghost we = window_end as int;
    assert(valid_day(day_of(we) + 1));
    let ghost input = calendar.components@;
    let mut kept: Vec<Component> = Vec::new();
    let mut slots: Vec<EventTimeSlot> = Vec::new();
    for c in it: calendar.components.into_iter()
        invariant
            it.seq() == input,
            components_wf(input),
            ws == window_start,
            we == window_end,
            window_end == window_start + EXPANSION_WINDOW,
            valid_instant(window_start as int),
            valid_instant(window_end as int),
            valid_day(day_of(we) + 1),
            slots_wf(slots@),
            spans(slots@) == calendar_slots(input.take(it.index() as int), ws, we),
            slot_ids_ok(slots@, calendar_origins(input.take(it.index() as int), ws, we)),
            kept@.len() == aside(input.take(it.index() as int)).len(),
            forall|i: int|
                0 <= i < kept@.len() ==> passed_through(
                    #[trigger] kept@[i],
                    aside(input.take(it.index() as int))[i],
                ),
    {
        let ghost k = it.index() as int;
        let ghost pre = input.take(k);
        let ghost now = input.take(k + 1);
        assert(now.drop_last() =~= pre);
        assert(now.last() == c);
        assert(input[k].wf());
        let ghost kept0 = kept@;
        let ghost slots0 = slots@;
        match c {
            Component::Other(o) => {
                kept.push(Component::Other(o));
                assert(spans(slots@) =~= calendar_slots(now, ws, we));
            },
            Component::Event(e) => {
                let ghost ev = e;
                let spanned = match (&e.start, &e.end) {
                    (Some(a), Some(b)) => resolve_instant(a) <= resolve_instant(b),
                    _ => false,
                };
                if spanned {
                    let s = resolve_instant(e.start.as_ref().unwrap());
                    let t = resolve_instant(e.end.as_ref().unwrap());
                    assert(event_span(ev) == Some((s as int, t as int)));
                    match &e.rrule {
                        Some(rule) => {
                            let mut occ = expand_recurring_event(
                                s,
                                t,
                                rule.as_str(),
                                window_start,
                                window_end,
                                e.status,
                            );
                            let ghost occ0 = occ@;
                            slots.append(&mut occ);
                            assert(spans(slots@) =~= spans(slots0) + spans(occ0));
                            let ghost os0 = calendar_origins(pre, ws, we);
                            let ghost osn = component_origins(Component::Event(ev), ws, we);
                            assert(calendar_origins(now, ws, we) == os0 + osn);
                            assert(spans(occ0).len() == occ0.len());
                            assert(osn.len() == occ0.len());
                            assert forall|i: int| 0 <= i < slots@.len() implies slot_id_ok(
                                #[trigger] slots@[i],
                                (os0 + osn)[i],
                            ) by {
                                if i < slots0.len() {
                                    assert(slots@[i] == slots0[i]);
                                    assert(slot_id_ok(slots0[i], os0[i]));
                                } else {
                                    assert(slots@[i] == occ0[i - slots0.len()]);
                                    assert(osn[i - slots0.len()] == (None::<Option<String>>, ev.status));
                                }
                            }
                            assert forall|i: int| 0 <= i < slots@.len() implies slot_wf(
                                #[trigger] slots@[i],
                            ) by {
                                if i < slots0.len() {
                                    assert(slots@[i] == slots0[i]);
                                } else {
                                    assert(slots@[i] == occ0[i - slots0.len()]);
                                }
                            }
                        },
                        None => {
                            let uid = ensure_uid(&e.uid);
                            slots.push(EventTimeSlot { start: s, end: t, uid, status: e.status });
                            assert(spans(slots@) =~= spans(slots0).push((s as int, t as int)));
                            let ghost os0 = calendar_origins(pre, ws, we);
                            let ghost osn = component_origins(Component::Event(ev), ws, we);
                            assert(calendar_origins(now, ws, we) == os0 + osn);
                            assert(osn == seq![(Some(ev.uid), ev.status)]);
                            assert forall|i: int| 0 <= i < slots@.len() implies slot_id_ok(
                                #[trigger] slots@[i],
                                (os0 + osn)[i],
                            ) by {
                                if i < slots0.len() {
                                    assert(slots@[i] == slots0[i]);
                                    assert(slot_id_ok(slots0[i], os0[i]));
                                }
                            }
                            assert forall|i: int| 0 <= i < slots@.len() implies slot_wf(
                                #[trigger] slots@[i],
                            ) by {
                                if i < slots0.len() {
                                    assert(slots@[i] == slots0[i]);
                                }
                            }
                        },
                    }
                    assert(spans(slots@) =~= calendar_slots(now, ws, we));
                    assert(aside(now) == aside(pre));
                } else {
                    assert(event_span(ev) is None);
                    kept.push(Component::Event(redact_event(e)));
                    assert(spans(slots@) =~= calendar_slots(now, ws, we));
                }
            },
        }
        assert forall|i: int| 0 <= i < kept@.len() implies passed_through(
            #[trigger] kept@[i],
            aside(now)[i],
        ) by {
            if i < kept0.len() {
                assert(kept@[i] == kept0[i]);
            }
        }
    }
    assert(input.take(input.len() as int) =~= input);
    let ghost sl = slots@;
    let blocks = merge_overlapping_events(slots);
    let ghost kept_len = kept@.len();
    let ghost kept_all = kept@;
    for x in it: blocks.into_iter()
        invariant
            it.seq() == merged(sl),
            kept@.len() == kept_len + it.index(),
            forall|i: int| 0 <= i < kept_len ==> kept@[i] == kept_all[i],
            forall|j: int|
                0 <= j < it.index() ==> component_is_block(kept@[kept_len + j], #[trigger] merged(sl)[j]),
    {
        kept.push(Component::Event(block_event(x)));
    }
    let r = Calendar { components: kept };
    assert(r.components@.len() == aside(input).len() + merged(sl).len());
    assert forall|i: int| 0 <= i < aside(input).len() implies passed_through(
        #[trigger] r.components@[i],
        aside(input)[i],
    ) by {
        assert(r.components@[i] == kept_all[i]);
        assert(passed_through(kept_all[i], aside(input)[i]));
    }
    assert({
        &&& slots_wf(sl)
        &&& spans(sl) == calendar_slots(input, ws, we)
        &&& slot_ids_ok(sl, calendar_origins(input, ws, we))
        &&& r.components@.len() == aside(input).len() + merged(sl).len()
        &&& forall|i: int| 0 <= i < aside(input).len() ==> passed_through(#[trigger] r.components@[i], aside(input)[i])
        &&& forall|j: int|
            0 <= j < merged(sl).len() ==> component_is_block(r.components@[aside(input).len() + j], #[trigger] merged(sl)[j])
    });
    r
}

/// Hides details and merges overlapping events, expanding recurring events over the
/// fourteen days from now (local clock). Where now lies too close to the end of the
/// representable range, the window starts at the latest start that fits.
pub fn hide_details(calendar: Calendar) -> (r: Calendar)
    requires
        calendar.wf(),
    ensures
        exists|ws: int|
            valid_instant(ws) && ws <= LATEST_WINDOW_START && hidden_and_merged(
                r.components@,
                calendar.components@,
                ws,
                ws + EXPANSION_WINDOW,
            ),
{
    let now = local_now();
    let start = if now <= LATEST_WINDOW_START {
        now
    } else {
        LATEST_WINDOW_START
    };
    hide_details_at(calendar, start)
}

} // verus!

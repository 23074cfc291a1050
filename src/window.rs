//! Keeping only the events of a future window, and making recurring events stop
//! at its horizon.
use vstd::prelude::*;

use crate::event::{components_wf, Calendar, Component, Event};
use crate::redact::{ensure_uid, identity_kept};
use crate::rule::{has_until_part, lemma_truncated_has_until, lemma_truncated_until, no_semi, truncate_rule, truncated_rule, until_values_are};
use crate::time::{end_of_day, end_of_day_instant, utc_stamp, utc_stamp_text, local_today, resolve_date, valid_day, MAX_DAY};

verus! {

/// How many days back a recurring event may start and still be kept.
pub const LOOKBACK_DAYS: i64 = 90;

/// The same, under strict privacy.
pub const STRICT_LOOKBACK_DAYS: i64 = 1;

pub open spec fn lookback(strict: bool) -> int {
    if strict {
        STRICT_LOOKBACK_DAYS as int
    } else {
        LOOKBACK_DAYS as int
    }
}

/// Whether a component stays: an event with a start date stays when that date lies in
/// `[today, horizon]`, or for a recurring event in `[today - lookback, horizon]`;
/// everything else stays.
pub open spec fn retained(c: Component, today: int, horizon: int, strict: bool) -> bool {
    match c {
        Component::Event(e) => match e.start {
            Some(s) => if e.rrule is Some {
                today - lookback(strict) <= s.date() <= horizon
            } else {
                today <= s.date() <= horizon
            },
            None => true,
        },
        Component::Other(_) => true,
    }
}

/// The retained components, in order.
pub open spec fn retained_seq(cs: Seq<Component>, today: int, horizon: int, strict: bool) -> Seq<
    Component,
>
    decreases cs.len(),
{
    if cs.len() == 0 {
        seq![]
    } else if retained(cs.last(), today, horizon, strict) {
        retained_seq(cs.drop_last(), today, horizon, strict).push(cs.last())
    } else {
        retained_seq(cs.drop_last(), today, horizon, strict)
    }
}

/// `r` is the retained component `c` as emitted: a recurring event with a start gets
/// an identity if it had none and a rule that ends at `stamp`; all else is unchanged.
pub open spec fn emitted_as(r: Component, c: Component, stamp: Seq<char>) -> bool {
    match c {
        Component::Event(e) => if e.start is Some && e.rrule is Some {
            r matches Component::Event(x) && truncated_from(x, e, stamp)
        } else {
            r == c
        },
        Component::Other(_) => r == c,
    }
}

/// `x` is `e` with an identity ensured and its rule made to end at `stamp`.
pub open spec fn truncated_from(x: Event, e: Event, stamp: Seq<char>) -> bool {
    &&& identity_kept(x.uid, e.uid)
    &&& x.rrule matches Some(nr) && e.rrule matches Some(or) && nr@ == truncated_rule(or@, stamp)
    &&& x.summary == e.summary
    &&& x.description == e.description
    &&& x.location == e.location
    &&& x.status == e.status
    &&& x.start == e.start
    &&& x.end == e.end
    &&& x.timestamp == e.timestamp
    &&& x.properties == e.properties
}

/// Where `c` is a recurring event with a start, the rule `r` carries has an UNTIL
/// part, and every UNTIL value in it is `stamp`.
pub open spec fn until_bounded(r: Component, c: Component, stamp: Seq<char>) -> bool {
    (c matches Component::Event(e) && e.start is Some && e.rrule is Some) ==> (r matches Component::Event(x)
        && x.rrule matches Some(nr) && has_until_part(nr@) && until_values_are(nr@, stamp))
}

/// `r` is `cs` filtered to the window that ends at `horizon`.
pub open spec fn window_filtered(
    r: Seq<Component>,
    cs: Seq<Component>,
    today: int,
    horizon: int,
    strict: bool,
) -> bool {
    let kept = retained_seq(cs, today, horizon, strict);
    &&& r.len() == kept.len()
    &&& forall|i: int|
        0 <= i < r.len() ==> emitted_as(#[trigger] r[i], kept[i], utc_stamp(end_of_day(horizon)))
}

/// Keeps the events of the next `days_limit` days, counted from `today`. Recurring
/// events may have started up to the lookback before today (one day under `strict`
/// privacy, else ninety); their rules are made to end on the horizon's last second.
pub fn filter_future_days_at(calendar: Calendar, days_limit: u32, today: i64, strict: bool) -> (r:
    Calendar)
    requires
        calendar.wf(),
        valid_day(today as int),
        valid_day(today + days_limit),
    ensures
        window_filtered(
            r.components@,
            calendar.components@,
            today as int,
            today + days_limit,
            strict,
        ),
        forall|i: int|
            0 <= i < r.components@.len() ==> until_bounded(
                #[trigger] r.components@[i],
                retained_seq(calendar.components@, today as int, today + days_limit, strict)[i],
                utc_stamp(end_of_day(today + days_limit)),
            ),
        r.wf(),
{
    let horizon = today + days_limit as i64;
    let back = if strict {
        STRICT_LOOKBACK_DAYS
    } else {
        LOOKBACK_DAYS
    };
    let earliest = today - back;
    let stamp = utc_stamp_text(end_of_day_instant(horizon));
    let ghost input = calendar.components@;
    let mut out: Vec<Component> = Vec::new();
    for c in it: calendar.components.into_iter()
        invariant
            it.seq() == input,
            components_wf(input),
            horizon == today + days_limit,
            earliest == today - lookback(strict),
            stamp@ == utc_stamp(end_of_day(horizon as int)),
            out@.len() == retained_seq(input.take(it.index() as int), today as int, horizon as int, strict).len(),
            forall|i: int|
                0 <= i < out@.len() ==> emitted_as(
                    #[trigger] out@[i],
                    retained_seq(input.take(it.index() as int), today as int, horizon as int, strict)[i],
                    stamp@,
                ),
            components_wf(out@),
    {
        let ghost k = it.index() as int;
        let ghost pre = input.take(k);
        let ghost now = input.take(k + 1);
        assert(now.drop_last() =~= pre);
        assert(now.last() == c);
        assert(input[k].wf());
        let ghost out0 = out@;
        let ghost cc = c;
        match c {
            Component::Other(o) => {
                out.push(Component::Other(o));
            },
            Component::Event(e) => {
                let date = match &e.start {
                    Some(s) => Some(resolve_date(s)),
                    None => None,
                };
                match date {
                    None => {
                        out.push(Component::Event(e));
                    },
                    Some(d) => {
                        if e.rrule.is_some() {
                            if earliest <= d && d <= horizon {
                                let ghost ev = e;
                                let mut e = e;
                                let uid = ensure_uid(&e.uid);
                                let rule = truncate_rule(e.rrule.as_ref().unwrap().as_str(), stamp.as_str());
                                e.uid = Some(uid);
                                e.rrule = Some(rule);
                                assert(truncated_from(e, ev, stamp@));
                                out.push(Component::Event(e));
                            }
                        } else if today <= d && d <= horizon {
                            out.push(Component::Event(e));
                        }
                    },
                }
            },
        }
        assert forall|i: int| 0 <= i < out@.len() implies emitted_as(
            #[trigger] out@[i],
            retained_seq(now, today as int, horizon as int, strict)[i],
            stamp@,
        ) by {
            if i < out0.len() {
                assert(out@[i] == out0[i]);
            }
        }
        assert forall|i: int| 0 <= i < out@.len() implies (#[trigger] out@[i]).wf() by {
            if i < out0.len() {
                assert(out@[i] == out0[i]);
            }
        }
    }
    assert(input.take(input.len() as int) =~= input);
    let ghost kept = retained_seq(input, today as int, horizon as int, strict);
    assert forall|i: int| 0 <= i < out@.len() implies until_bounded(
        #[trigger] out@[i],
        kept[i],
        utc_stamp(end_of_day(horizon as int)),
    ) by {
        assert(emitted_as(out@[i], kept[i], stamp@));
        if let Component::Event(e) = kept[i] {
            if e.start is Some && e.rrule is Some {
                assert(no_semi(stamp@));
                lemma_truncated_until(e.rrule->0@, stamp@);
                lemma_truncated_has_until(e.rrule->0@, stamp@);
            }
        }
    }
    Calendar { components: out }
}

/// The horizon `n` days after `today`, or the last representable day if that comes
/// first.
pub open spec fn capped_horizon(today: int, n: int) -> int {
    if today + n <= MAX_DAY {
        today + n
    } else {
        MAX_DAY as int
    }
}

/// Keeps the events of the next `days_limit` days from today (local clock), the
/// horizon being capped at the last representable day.
pub fn filter_future_days(calendar: Calendar, days_limit: u32, strict: bool) -> (r: Calendar)
    requires
        calendar.wf(),
    ensures
        r.wf(),
        exists|today: int|
            #[trigger] valid_day(today) && window_filtered(
                r.components@,
                calendar.components@,
                today,
                capped_horizon(today, days_limit as int),
                strict,
            ) && (forall|i: int|
                0 <= i < r.components@.len() ==> until_bounded(
                    #[trigger] r.components@[i],
                    retained_seq(
                        calendar.components@,
                        today,
                        capped_horizon(today, days_limit as int),
                        strict,
                    )[i],
                    utc_stamp(end_of_day(capped_horizon(today, days_limit as int))),
                )),
{
    let today = local_today();
    let limit: u32 = if today <= MAX_DAY - days_limit as i64 {
        days_limit
    } else {
        (MAX_DAY - today) as u32
    };
    let r = filter_future_days_at(calendar, limit, today, strict);
    assert(capped_horizon(today as int, days_limit as int) == today + limit);
    r
}

proof fn lemma_retained_prefix(cs: Seq<Component>, today: int, horizon: int, strict: bool, j: int, k: int)
    requires
        0 <= j <= k <= cs.len(),
    ensures
        retained_seq(cs.take(j), today, horizon, strict).len() <= retained_seq(
            cs.take(k),
            today,
            horizon,
            strict,
        ).len(),
        forall|x: int|
            0 <= x < retained_seq(cs.take(j), today, horizon, strict).len() ==> retained_seq(
                cs.take(k),
                today,
                horizon,
                strict,
            )[x] == #[trigger] retained_seq(cs.take(j), today, horizon, strict)[x],
    decreases k - j,
{
    if j < k {
        lemma_retained_prefix(cs, today, horizon, strict, j, k - 1);
        assert(cs.take(k).drop_last() =~= cs.take(k - 1));
    }
}

/// The window filter keeps each component in place or drops it: the `i`-th
/// component is emitted at the position that counts the retained ones before it
/// exactly when it is retained, and adds nothing otherwise. For an event with a start
/// date `d`, being retained means `today <= d <= horizon`, or for a recurring event
/// `today - lookback <= d <= horizon`; a kept single event is emitted unchanged.
pub proof fn lemma_window_membership(
    r: Seq<Component>,
    cs: Seq<Component>,
    today: int,
    horizon: int,
    strict: bool,
    i: int,
)
    requires
        window_filtered(r, cs, today, horizon, strict),
        0 <= i < cs.len(),
    ensures
        retained(cs[i], today, horizon, strict) ==> {
            let p = retained_seq(cs.take(i), today, horizon, strict).len() as int;
            &&& p < r.len()
            &&& emitted_as(r[p], cs[i], utc_stamp(end_of_day(horizon)))
        },
        !retained(cs[i], today, horizon, strict) ==> retained_seq(cs.take(i + 1), today, horizon, strict)
            == retained_seq(cs.take(i), today, horizon, strict),
        cs[i] is Event && (cs[i]->Event_0).start is Some && (cs[i]->Event_0).rrule is None ==> (retained(
            cs[i],
            today,
            horizon,
            strict,
        ) <==> today <= (cs[i]->Event_0).start->0.date() <= horizon),
        cs[i] is Event && (cs[i]->Event_0).start is Some && (cs[i]->Event_0).rrule is Some ==> (retained(
            cs[i],
            today,
            horizon,
            strict,
        ) <==> today - lookback(strict) <= (cs[i]->Event_0).start->0.date() <= horizon),
{
    assert(cs.take(i + 1).drop_last() =~= cs.take(i));
    assert(cs.take(i + 1).last() == cs[i]);
    assert(cs.take(cs.len() as int) =~= cs);
    lemma_retained_prefix(cs, today, horizon, strict, i + 1, cs.len() as int);
    if retained(cs[i], today, horizon, strict) {
        let p = retained_seq(cs.take(i), today, horizon, strict).len() as int;
        assert(retained_seq(cs.take(i + 1), today, horizon, strict)[p] == cs[i]);
        assert(retained_seq(cs, today, horizon, strict)[p] == cs[i]);
    }
}

} // verus!

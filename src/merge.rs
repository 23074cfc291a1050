//! Merging time slots that overlap, or nearly touch, into single blocks.
use vstd::prelude::*;

use crate::event::EventStatus;
use crate::time::valid_instant;

verus! {

/// Gap, in seconds, under which two slots count as overlapping.
pub const MERGE_TOLERANCE: i64 = 300;

/// A busy block: a closed span of instants, and the identity and status it is
/// published under.
#[derive(Clone, Debug, PartialEq, Eq)]
pub struct EventTimeSlot {
    pub start: i64,
    pub end: i64,
    pub uid: String,
    pub status: Option<EventStatus>,
}

/// A slot starts no later than it ends, within the representable range.
pub open spec fn slot_wf(x: EventTimeSlot) -> bool {
    &&& valid_instant(x.start as int)
    &&& valid_instant(x.end as int)
    &&& x.start <= x.end
}

pub open spec fn slots_wf(s: Seq<EventTimeSlot>) -> bool {
    forall|i: int| 0 <= i < s.len() ==> slot_wf(#[trigger] s[i])
}

/// Starts never decrease along the sequence.
pub open spec fn sorted_by_start(s: Seq<EventTimeSlot>) -> bool {
    forall|i: int, j: int| 0 <= i <= j < s.len() ==> s[i].start <= s[j].start
}

/// Each slot ends at least the tolerance before the next one starts.
pub open spec fn separated(s: Seq<EventTimeSlot>) -> bool {
    &&& slots_wf(s)
    &&& forall|i: int|
        0 <= i < s.len() - 1 ==> #[trigger] s[i].end + MERGE_TOLERANCE <= s[i + 1].start
}

/// Whether an instant lies in some slot of the sequence.
pub open spec fn covered(s: Seq<EventTimeSlot>, t: int) -> bool {
    exists|i: int| 0 <= i < s.len() && s[i].start <= t <= #[trigger] s[i].end
}

/// `x` placed after every slot of the sorted `s` that starts no later than it.
pub open spec fn insert_by_start(s: Seq<EventTimeSlot>, x: EventTimeSlot) -> Seq<EventTimeSlot>
    decreases s.len(),
{
    if s.len() == 0 {
        seq![x]
    } else if s.last().start <= x.start {
        s.push(x)
    } else {
        insert_by_start(s.drop_last(), x).push(s.last())
    }
}

/// Stable sort by start.
pub open spec fn sort_by_start(s: Seq<EventTimeSlot>) -> Seq<EventTimeSlot>
    decreases s.len(),
{
    if s.len() == 0 {
        s
    } else {
        insert_by_start(sort_by_start(s.drop_last()), s.last())
    }
}

/// Whether `next` overlaps `cur` or starts less than the tolerance after it ends.
pub open spec fn joins(cur: EventTimeSlot, next: EventTimeSlot) -> bool {
    next.start < cur.end + MERGE_TOLERANCE
}

/// The block spanning two slots, under the first one's identity and status.
pub open spec fn span(cur: EventTimeSlot, next: EventTimeSlot) -> EventTimeSlot {
    EventTimeSlot {
        start: if cur.start <= next.start { cur.start } else { next.start },
        end: if cur.end >= next.end { cur.end } else { next.end },
        uid: cur.uid,
        status: cur.status,
    }
}

/// One pass over sorted slots: `acc` is emitted, `cur` the block being grown.
pub open spec fn merge_run(
    acc: Seq<EventTimeSlot>,
    cur: EventTimeSlot,
    rest: Seq<EventTimeSlot>,
) -> Seq<EventTimeSlot>
    decreases rest.len(),
{
    if rest.len() == 0 {
        acc.push(cur)
    } else if joins(cur, rest[0]) {
        merge_run(acc, span(cur, rest[0]), rest.drop_first())
    } else {
        merge_run(acc.push(cur), rest[0], rest.drop_first())
    }
}

/// Merges slots already sorted by start.
pub open spec fn merge_sorted(s: Seq<EventTimeSlot>) -> Seq<EventTimeSlot> {
    if s.len() == 0 {
        s
    } else {
        merge_run(Seq::empty(), s[0], s.drop_first())
    }
}

/// The merged blocks of a set of slots.
pub open spec fn merged(s: Seq<EventTimeSlot>) -> Seq<EventTimeSlot> {
    merge_sorted(sort_by_start(s))
}

proof fn lemma_insert_at(s: Seq<EventTimeSlot>, x: EventTimeSlot, p: int)
    requires
        0 <= p <= s.len(),
        forall|j: int| p <= j < s.len() ==> s[j].start > x.start,
        p > 0 ==> s[p - 1].start <= x.start,
    ensures
        insert_by_start(s, x) == s.insert(p, x),
    decreases s.len(),
{
    if s.len() == 0 {
        assert(s.insert(p, x) =~= seq![x]);
    } else if p == s.len() {
        assert(s.insert(p, x) =~= s.push(x));
    } else {
        lemma_insert_at(s.drop_last(), x, p);
        assert(s.drop_last().insert(p, x).push(s.last()) =~= s.insert(p, x));
    }
}

proof fn lemma_insert_contents(s: Seq<EventTimeSlot>, x: EventTimeSlot)
    ensures
        insert_by_start(s, x).len() == s.len() + 1,
        forall|y: EventTimeSlot| #[trigger]
            insert_by_start(s, x).contains(y) <==> (s.contains(y) || y == x),
    decreases s.len(),
{
    if s.len() == 0 {
        assert(insert_by_start(s, x) =~= seq![x]);
        assert forall|y: EventTimeSlot| #[trigger]
            insert_by_start(s, x).contains(y) <==> (s.contains(y) || y == x) by {
            if insert_by_start(s, x).contains(y) {
                assert(insert_by_start(s, x)[0] == x);
            }
            if y == x {
                assert(insert_by_start(s, x)[0] == x);
            }
        }
    } else if s.last().start <= x.start {
        assert forall|y: EventTimeSlot| #[trigger]
            insert_by_start(s, x).contains(y) <==> (s.contains(y) || y == x) by {
            let r = s.push(x);
            if r.contains(y) {
                let k = choose|k: int| 0 <= k < r.len() && r[k] == y;
                if k < s.len() {
                    assert(s[k] == y);
                }
            }
            if s.contains(y) {
                let k = choose|k: int| 0 <= k < s.len() && s[k] == y;
                assert(r[k] == y);
            }
            if y == x {
                assert(r[s.len() as int] == x);
            }
        }
    } else {
        let d = s.drop_last();
        lemma_insert_contents(d, x);
        let r = insert_by_start(d, x).push(s.last());
        assert forall|y: EventTimeSlot| #[trigger]
            insert_by_start(s, x).contains(y) <==> (s.contains(y) || y == x) by {
            let m = insert_by_start(d, x);
            if r.contains(y) {
                let k = choose|k: int| 0 <= k < r.len() && r[k] == y;
                if k < m.len() {
                    assert(m.contains(y));
                    if d.contains(y) {
                        let k2 = choose|k2: int| 0 <= k2 < d.len() && d[k2] == y;
                        assert(s[k2] == y);
                    }
                } else {
                    assert(s[s.len() - 1] == y);
                }
            }
            if s.contains(y) {
                let k = choose|k: int| 0 <= k < s.len() && s[k] == y;
                if k < s.len() - 1 {
                    assert(d[k] == y);
                    assert(m.contains(y));
                    let k2 = choose|k2: int| 0 <= k2 < m.len() && m[k2] == y;
                    assert(r[k2] == y);
                } else {
                    assert(r[r.len() - 1] == y);
                }
            }
            if y == x {
                assert(m.contains(x));
                let k2 = choose|k2: int| 0 <= k2 < m.len() && m[k2] == x;
                assert(r[k2] == x);
            }
        }
    }
}

proof fn lemma_insert_sorted(s: Seq<EventTimeSlot>, x: EventTimeSlot)
    requires
        sorted_by_start(s),
    ensures
        sorted_by_start(insert_by_start(s, x)),
    decreases s.len(),
{
    if s.len() == 0 {
    } else if s.last().start <= x.start {
    } else {
        let d = s.drop_last();
        lemma_insert_sorted(d, x);
        lemma_insert_contents(d, x);
        let m = insert_by_start(d, x);
        assert forall|i: int| 0 <= i < m.len() implies m[i].start <= s.last().start by {
            assert(m.contains(m[i]));
            if d.contains(m[i]) {
                let k = choose|k: int| 0 <= k < d.len() && d[k] == m[i];
                assert(s[k] == m[i]);
            }
        }
    }
}

/// Sorting keeps exactly the slots it was given, in start order.
pub proof fn lemma_sort_by_start(s: Seq<EventTimeSlot>)
    ensures
        sort_by_start(s).len() == s.len(),
        sorted_by_start(sort_by_start(s)),
        forall|y: EventTimeSlot| #[trigger] sort_by_start(s).contains(y) <==> s.contains(y),
    decreases s.len(),
{
    if s.len() > 0 {
        let d = s.drop_last();
        lemma_sort_by_start(d);
        lemma_insert_sorted(sort_by_start(d), s.last());
        lemma_insert_contents(sort_by_start(d), s.last());
        assert forall|y: EventTimeSlot| #[trigger]
            sort_by_start(s).contains(y) <==> s.contains(y) by {
            if s.contains(y) {
                let k = choose|k: int| 0 <= k < s.len() && s[k] == y;
                if k < s.len() - 1 {
                    assert(d[k] == y);
                }
            }
            if d.contains(y) {
                let k = choose|k: int| 0 <= k < d.len() && d[k] == y;
                assert(s[k] == y);
            }
        }
    }
}

/// Sorting an already sorted sequence leaves it as it is.
pub proof fn lemma_sort_sorted(s: Seq<EventTimeSlot>)
    requires
        sorted_by_start(s),
    ensures
        sort_by_start(s) == s,
    decreases s.len(),
{
    if s.len() > 0 {
        let d = s.drop_last();
        lemma_sort_sorted(d);
        assert(d.push(s.last()) =~= s);
    }
}

/// Inserting every slot in turn.
fn sort_slots(v: Vec<EventTimeSlot>) -> (r: Vec<EventTimeSlot>)
    ensures
        r@ == sort_by_start(v@),
{
    let ghost input = v@;
    let mut out: Vec<EventTimeSlot> = Vec::new();
    for x in it: v.into_iter()
        invariant
            it.seq() == input,
            out@ == sort_by_start(input.take(it.index() as int)),
    {
        let ghost k = it.index() as int;
        proof {
            lemma_sort_by_start(input.take(k));
            assert(input.take(k + 1).drop_last() =~= input.take(k));
            assert(input.take(k + 1).last() == x);
        }
        let mut p: usize = out.len();
        while p > 0 && out[p - 1].start > x.start
            invariant
                p <= out.len(),
                forall|j: int| p <= j < out.len() ==> out@[j].start > x.start,
            decreases p,
        {
            p = p - 1;
        }
        proof {
            lemma_insert_at(out@, x, p as int);
        }
        out.insert(p, x);
    }
    proof {
        assert(input.take(input.len() as int) =~= input);
    }
    out
}

/// Merges a set of slots: sorted by start, each slot that overlaps the block being
/// grown, or starts less than the tolerance after it ends, widens it; otherwise the
/// block is emitted and the slot starts the next one.
pub fn merge_overlapping_events(events: Vec<EventTimeSlot>) -> (r: Vec<EventTimeSlot>)
    requires
        slots_wf(events@),
    ensures
        r@ == merged(events@),
        separated(r@),
{
    let ghost input = events@;
    let sorted = sort_slots(events);
    let ghost s = sorted@;
    proof {
        lemma_sort_by_start(input);
        lemma_sorted_slots_wf(input);
    }
    let mut out: Vec<EventTimeSlot> = Vec::new();
    let mut cur: Option<EventTimeSlot> = None;
    for x in it: sorted.into_iter()
        invariant
            it.seq() == s,
            s == sort_by_start(input),
            slots_wf(s),
            it.index() == 0 ==> cur is None && out@.len() == 0,
            it.index() > 0 ==> cur is Some && merge_run(
                out@,
                cur->0,
                s.skip(it.index() as int),
            ) == merge_sorted(s),
            it.index() > 0 ==> slot_wf(cur->0),
    {
        let ghost k = it.index() as int;
        assert(slot_wf(s[k]));
        cur = match cur {
            None => {
                assert(s.skip(1) =~= s.drop_first());
                assert(s[0] == x);
                assert(out@ =~= Seq::<EventTimeSlot>::empty());
                Some(x)
            },
            Some(c) => {
                assert(s.skip(k).drop_first() =~= s.skip(k + 1));
                assert(s.skip(k)[0] == x);
                if x.start < c.end + MERGE_TOLERANCE {
                    let start = if c.start <= x.start {
                        c.start
                    } else {
                        x.start
                    };
                    let end = if c.end >= x.end {
                        c.end
                    } else {
                        x.end
                    };
                    let ghost old_c = c;
                    let next = EventTimeSlot { start, end, uid: c.uid, status: c.status };
                    assert(next == span(old_c, x));
                    assert(merge_run(out@, old_c, s.skip(k)) == merge_run(out@, next, s.skip(k + 1)));
                    Some(next)
                } else {
                    let ghost old_out = out@;
                    assert(merge_run(old_out, c, s.skip(k)) == merge_run(old_out.push(c), x, s.skip(k + 1)));
                    out.push(c);
                    Some(x)
                }
            },
        };
    }
    match cur {
        Some(c) => {
            assert(s.skip(s.len() as int).len() == 0);
            out.push(c);
        },
        None => {},
    }
    proof {
        lemma_merged_separated(input);
    }
    out
}

/// Sorting keeps every slot well formed.
proof fn lemma_sorted_slots_wf(s: Seq<EventTimeSlot>)
    requires
        slots_wf(s),
    ensures
        slots_wf(sort_by_start(s)),
{
    lemma_sort_by_start(s);
    let t = sort_by_start(s);
    assert forall|i: int| 0 <= i < t.len() implies slot_wf(#[trigger] t[i]) by {
        assert(t.contains(t[i]));
        let k = choose|k: int| 0 <= k < s.len() && s[k] == t[i];
        assert(slot_wf(s[k]));
    }
}

proof fn lemma_run_separated(acc: Seq<EventTimeSlot>, cur: EventTimeSlot, rest: Seq<EventTimeSlot>)
    requires
        separated(acc),
        acc.len() > 0 ==> acc.last().end + MERGE_TOLERANCE <= cur.start,
        slot_wf(cur),
        slots_wf(rest),
        sorted_by_start(rest),
        rest.len() > 0 ==> cur.start <= rest[0].start,
    ensures
        separated(merge_run(acc, cur, rest)),
    decreases rest.len(),
{
    if rest.len() == 0 {
        assert(separated(acc.push(cur))) by {
            assert forall|i: int| 0 <= i < acc.len() + 1 implies slot_wf(
                #[trigger] acc.push(cur)[i],
            ) by {
                if i < acc.len() {
                    assert(slot_wf(acc[i]));
                }
            }
        }
    } else {
        assert(slot_wf(rest[0]));
        if joins(cur, rest[0]) {
            lemma_run_separated(acc, span(cur, rest[0]), rest.drop_first());
        } else {
            let a = acc.push(cur);
            assert(separated(a)) by {
                assert forall|i: int| 0 <= i < a.len() implies slot_wf(#[trigger] a[i]) by {
                    if i < acc.len() {
                        assert(slot_wf(acc[i]));
                    }
                }
                assert forall|i: int| 0 <= i < a.len() - 1 implies #[trigger] a[i].end
                    + MERGE_TOLERANCE <= a[i + 1].start by {
                    if i < acc.len() - 1 {
                        assert(acc[i].end + MERGE_TOLERANCE <= acc[i + 1].start);
                    }
                }
            }
            if rest.len() > 1 {
                assert(rest[0].start <= rest[1].start);
            }
            lemma_run_separated(a, rest[0], rest.drop_first());
        }
    }
}

/// Merged blocks are well formed, in start order, and apart by at least the tolerance.
pub proof fn lemma_merged_separated(s: Seq<EventTimeSlot>)
    requires
        slots_wf(s),
    ensures
        separated(merged(s)),
{
    let t = sort_by_start(s);
    lemma_sort_by_start(s);
    lemma_sorted_slots_wf(s);
    if t.len() > 0 {
        assert(slot_wf(t[0]));
        if t.len() > 1 {
            assert(t[0].start <= t[1].start);
        }
        lemma_run_separated(Seq::empty(), t[0], t.drop_first());
    }
}

proof fn lemma_run_keeps_separated(
    acc: Seq<EventTimeSlot>,
    cur: EventTimeSlot,
    rest: Seq<EventTimeSlot>,
)
    requires
        separated(rest),
        rest.len() > 0 ==> cur.end + MERGE_TOLERANCE <= rest[0].start,
    ensures
        merge_run(acc, cur, rest) == acc.push(cur) + rest,
    decreases rest.len(),
{
    if rest.len() == 0 {
        assert(acc.push(cur) + rest =~= acc.push(cur));
    } else {
        let r = rest.drop_first();
        assert(separated(r)) by {
            assert forall|i: int| 0 <= i < r.len() implies slot_wf(#[trigger] r[i]) by {
                assert(slot_wf(rest[i + 1]));
            }
            assert forall|i: int| 0 <= i < r.len() - 1 implies #[trigger] r[i].end
                + MERGE_TOLERANCE <= r[i + 1].start by {
                assert(rest[i + 1].end + MERGE_TOLERANCE <= rest[i + 2].start);
            }
        }
        if r.len() > 0 {
            assert(rest[0].end + MERGE_TOLERANCE <= rest[1].start);
        }
        lemma_run_keeps_separated(acc.push(cur), rest[0], r);
        assert(acc.push(cur).push(rest[0]) + r =~= acc.push(cur) + rest);
    }
}

/// Merging is idempotent: merging merged blocks again changes nothing.
pub proof fn lemma_merge_idempotent(s: Seq<EventTimeSlot>)
    requires
        slots_wf(s),
    ensures
        merged(merged(s)) == merged(s),
{
    let t = merged(s);
    lemma_merged_separated(s);
    assert(sorted_by_start(t)) by {
        assert forall|i: int, j: int| 0 <= i <= j < t.len() implies t[i].start
            <= t[j].start by {
            lemma_separated_ordered(t, i, j);
        }
    }
    lemma_sort_sorted(t);
    if t.len() > 0 {
        let r = t.drop_first();
        assert(separated(r)) by {
            assert forall|i: int| 0 <= i < r.len() implies slot_wf(#[trigger] r[i]) by {
                assert(slot_wf(t[i + 1]));
            }
            assert forall|i: int| 0 <= i < r.len() - 1 implies #[trigger] r[i].end
                + MERGE_TOLERANCE <= r[i + 1].start by {
                assert(t[i + 1].end + MERGE_TOLERANCE <= t[i + 2].start);
            }
        }
        if r.len() > 0 {
            assert(t[0].end + MERGE_TOLERANCE <= t[1].start);
        }
        lemma_run_keeps_separated(Seq::empty(), t[0], r);
        assert(Seq::<EventTimeSlot>::empty().push(t[0]) + r =~= t);
    }
}

/// Any two blocks of a separated sequence, not only neighbours, are apart by the tolerance.
pub proof fn lemma_separated_ordered(t: Seq<EventTimeSlot>, i: int, j: int)
    requires
        separated(t),
        0 <= i <= j < t.len(),
    ensures
        t[i].start <= t[j].start,
        i < j ==> t[i].end + MERGE_TOLERANCE <= t[j].start,
    decreases j - i,
{
    if i < j {
        lemma_separated_ordered(t, i, j - 1);
        assert(slot_wf(t[j - 1]));
        assert(t[j - 1].end + MERGE_TOLERANCE <= t[j].start);
    }
}

/// Whether instant `t` lies in slot `x`.
pub open spec fn in_slot(x: EventTimeSlot, t: int) -> bool {
    x.start <= t <= x.end
}

/// No slot starts after another ends but less than the tolerance after it.
pub open spec fn no_near_gap(s: Seq<EventTimeSlot>) -> bool {
    forall|i: int, j: int|
        0 <= i < s.len() && 0 <= j < s.len() ==> !(s[i].end < #[trigger] s[j].start
            < #[trigger] s[i].end + MERGE_TOLERANCE)
}

pub open spec fn end_in(all: Seq<EventTimeSlot>, e: i64) -> bool {
    exists|k: int| 0 <= k < all.len() && #[trigger] all[k].end == e
}

proof fn lemma_covered_push(acc: Seq<EventTimeSlot>, x: EventTimeSlot, t: int)
    ensures
        covered(acc.push(x), t) <==> (covered(acc, t) || in_slot(x, t)),
{
    let a = acc.push(x);
    if covered(a, t) {
        let i = choose|i: int| 0 <= i < a.len() && a[i].start <= t <= #[trigger] a[i].end;
        if i < acc.len() {
            assert(acc[i].start <= t <= acc[i].end);
        }
    }
    if covered(acc, t) {
        let i = choose|i: int| 0 <= i < acc.len() && acc[i].start <= t <= #[trigger] acc[i].end;
        assert(a[i].start <= t <= a[i].end);
    }
    if in_slot(x, t) {
        assert(a[acc.len() as int].start <= t <= a[acc.len() as int].end);
    }
}

proof fn lemma_covered_first(rest: Seq<EventTimeSlot>, t: int)
    requires
        rest.len() > 0,
    ensures
        covered(rest, t) <==> (in_slot(rest[0], t) || covered(rest.drop_first(), t)),
{
    let r = rest.drop_first();
    if covered(rest, t) {
        let i = choose|i: int| 0 <= i < rest.len() && rest[i].start <= t <= #[trigger] rest[i].end;
        if i > 0 {
            assert(r[i - 1].start <= t <= r[i - 1].end);
        }
    }
    if covered(r, t) {
        let i = choose|i: int| 0 <= i < r.len() && r[i].start <= t <= #[trigger] r[i].end;
        assert(rest[i + 1].start <= t <= rest[i + 1].end);
    }
    if in_slot(rest[0], t) {
        assert(rest[0].start <= t <= rest[0].end);
    }
}

proof fn lemma_run_covers(acc: Seq<EventTimeSlot>, cur: EventTimeSlot, rest: Seq<EventTimeSlot>, t: int)
    requires
        sorted_by_start(rest),
        rest.len() > 0 ==> cur.start <= rest[0].start,
    ensures
        (covered(acc, t) || in_slot(cur, t) || covered(rest, t)) ==> covered(
            merge_run(acc, cur, rest),
            t,
        ),
    decreases rest.len(),
{
    if rest.len() == 0 {
        lemma_covered_push(acc, cur, t);
    } else {
        let r0 = rest[0];
        let r = rest.drop_first();
        lemma_covered_first(rest, t);
        if r.len() > 0 {
            assert(rest[0].start <= rest[1].start);
        }
        if joins(cur, r0) {
            lemma_run_covers(acc, span(cur, r0), r, t);
        } else {
            lemma_covered_push(acc, cur, t);
            lemma_run_covers(acc.push(cur), r0, r, t);
        }
    }
}

proof fn lemma_run_exact(
    acc: Seq<EventTimeSlot>,
    cur: EventTimeSlot,
    rest: Seq<EventTimeSlot>,
    all: Seq<EventTimeSlot>,
    t: int,
)
    requires
        no_near_gap(all),
        end_in(all, cur.end),
        forall|j: int| 0 <= j < rest.len() ==> all.contains(#[trigger] rest[j]),
        sorted_by_start(rest),
        rest.len() > 0 ==> cur.start <= rest[0].start,
    ensures
        covered(merge_run(acc, cur, rest), t) ==> (covered(acc, t) || in_slot(cur, t) || covered(
            rest,
            t,
        )),
    decreases rest.len(),
{
    if rest.len() == 0 {
        lemma_covered_push(acc, cur, t);
    } else {
        let r0 = rest[0];
        let r = rest.drop_first();
        lemma_covered_first(rest, t);
        if r.len() > 0 {
            assert(rest[0].start <= rest[1].start);
        }
        assert forall|j: int| 0 <= j < r.len() implies all.contains(#[trigger] r[j]) by {
            assert(all.contains(rest[j + 1]));
        }
        assert(all.contains(rest[0]));
        let jr = choose|jr: int| 0 <= jr < all.len() && all[jr] == r0;
        assert(end_in(all, r0.end)) by {
            assert(all[jr].end == r0.end);
        }
        if joins(cur, r0) {
            let kc = choose|kc: int| 0 <= kc < all.len() && #[trigger] all[kc].end == cur.end;
            assert(!(all[kc].end < all[jr].start < all[kc].end + MERGE_TOLERANCE));
            assert(r0.start <= cur.end);
            let c2 = span(cur, r0);
            assert(end_in(all, c2.end)) by {
                if cur.end >= r0.end {
                    assert(all[kc].end == c2.end);
                } else {
                    assert(all[jr].end == c2.end);
                }
            }
            lemma_run_exact(acc, c2, r, all, t);
        } else {
            lemma_covered_push(acc, cur, t);
            lemma_run_exact(acc.push(cur), r0, r, all, t);
        }
    }
}

/// Merging keeps every instant that an input slot covers; and where no slot starts
/// less than the tolerance after another ends, the blocks cover exactly the instants
/// the inputs cover.
pub proof fn lemma_merge_covers(s: Seq<EventTimeSlot>, t: int)
    requires
        slots_wf(s),
    ensures
        covered(s, t) ==> covered(merged(s), t),
        no_near_gap(s) ==> (covered(merged(s), t) <==> covered(s, t)),
{
    let q = sort_by_start(s);
    lemma_sort_by_start(s);
    assert(covered(s, t) <==> covered(q, t)) by {
        if covered(s, t) {
            let i = choose|i: int| 0 <= i < s.len() && s[i].start <= t <= #[trigger] s[i].end;
            assert(s.contains(s[i]));
            assert(q.contains(s[i]));
            let k = choose|k: int| 0 <= k < q.len() && q[k] == s[i];
            assert(q[k].start <= t <= q[k].end);
        }
        if covered(q, t) {
            let i = choose|i: int| 0 <= i < q.len() && q[i].start <= t <= #[trigger] q[i].end;
            assert(q.contains(q[i]));
            let k = choose|k: int| 0 <= k < s.len() && s[k] == q[i];
            assert(s[k].start <= t <= s[k].end);
        }
    }
    if q.len() > 0 {
        let r = q.drop_first();
        lemma_covered_first(q, t);
        if r.len() > 0 {
            assert(q[0].start <= q[1].start);
        }
        lemma_run_covers(Seq::empty(), q[0], r, t);
        if no_near_gap(s) {
            assert(no_near_gap(q)) by {
                assert forall|i: int, j: int| 0 <= i < q.len() && 0 <= j < q.len() implies !(q[i].end
                    < #[trigger] q[j].start < #[trigger] q[i].end + MERGE_TOLERANCE) by {
                    assert(q.contains(q[i]));
                    assert(q.contains(q[j]));
                    let a = choose|a: int| 0 <= a < s.len() && s[a] == q[i];
                    let b = choose|b: int| 0 <= b < s.len() && s[b] == q[j];
                    assert(!(s[a].end < s[b].start < s[a].end + MERGE_TOLERANCE));
                }
            }
            assert forall|j: int| 0 <= j < r.len() implies q.contains(#[trigger] r[j]) by {
                assert(q[j + 1] == r[j]);
            }
            assert(q[0].end == q[0].end);
            assert(end_in(q, q[0].end));
            lemma_run_exact(Seq::empty(), q[0], r, q, t);
            assert(!covered(Seq::<EventTimeSlot>::empty(), t));
        }
    } else {
        assert(!covered(q, t));
    }
}

/// Whether slot `x` lies inside some slot of `s`.
pub open spec fn within_some(s: Seq<EventTimeSlot>, x: EventTimeSlot) -> bool {
    exists|j: int| 0 <= j < s.len() && s[j].start <= x.start && x.end <= #[trigger] s[j].end
}

proof fn lemma_within_push(acc: Seq<EventTimeSlot>, y: EventTimeSlot, x: EventTimeSlot)
    ensures
        (within_some(acc, x) || (y.start <= x.start && x.end <= y.end)) ==> within_some(
            acc.push(y),
            x,
        ),
{
    let a = acc.push(y);
    if within_some(acc, x) {
        let j = choose|j: int| 0 <= j < acc.len() && acc[j].start <= x.start && x.end <= #[trigger] acc[j].end;
        assert(a[j].start <= x.start && x.end <= a[j].end);
    } else if y.start <= x.start && x.end <= y.end {
        assert(a[acc.len() as int].start <= x.start && x.end <= a[acc.len() as int].end);
    }
}

proof fn lemma_run_contains(
    acc: Seq<EventTimeSlot>,
    cur: EventTimeSlot,
    rest: Seq<EventTimeSlot>,
    x: EventTimeSlot,
)
    requires
        sorted_by_start(rest),
        rest.len() > 0 ==> cur.start <= rest[0].start,
    ensures
        (within_some(acc, x) || (cur.start <= x.start && x.end <= cur.end) || rest.contains(x))
            ==> within_some(merge_run(acc, cur, rest), x),
    decreases rest.len(),
{
    if rest.len() == 0 {
        lemma_within_push(acc, cur, x);
    } else {
        let r0 = rest[0];
        let r = rest.drop_first();
        if r.len() > 0 {
            assert(rest[0].start <= rest[1].start);
        }
        if rest.contains(x) && x != r0 {
            let k = choose|k: int| 0 <= k < rest.len() && rest[k] == x;
            assert(r[k - 1] == x);
        }
        if joins(cur, r0) {
            lemma_run_contains(acc, span(cur, r0), r, x);
        } else {
            lemma_within_push(acc, cur, x);
            lemma_run_contains(acc.push(cur), r0, r, x);
        }
    }
}

/// Every input slot lies inside one merged block.
pub proof fn lemma_merge_contains_inputs(s: Seq<EventTimeSlot>, i: int)
    requires
        0 <= i < s.len(),
    ensures
        within_some(merged(s), s[i]),
{
    let q = sort_by_start(s);
    lemma_sort_by_start(s);
    assert(s.contains(s[i]));
    assert(q.contains(s[i]));
    let k = choose|k: int| 0 <= k < q.len() && q[k] == s[i];
    let r = q.drop_first();
    if k > 0 {
        assert(r[k - 1] == s[i]);
        assert(r.contains(s[i]));
    }
    if r.len() > 0 {
        assert(q[0].start <= q[1].start);
    }
    lemma_run_contains(Seq::empty(), q[0], r, s[i]);
}

/// Whether instant `t` lies in some slot of `s` or less than the tolerance after
/// its end.
pub open spec fn near_covered(s: Seq<EventTimeSlot>, t: int) -> bool {
    exists|i: int| 0 <= i < s.len() && s[i].start <= t < #[trigger] s[i].end + MERGE_TOLERANCE
}

/// Every instant of block `b` is near-covered by `all`.
pub open spec fn block_near(all: Seq<EventTimeSlot>, b: EventTimeSlot) -> bool {
    forall|t: int| b.start <= t <= b.end ==> #[trigger] near_covered(all, t)
}

proof fn lemma_run_near(
    acc: Seq<EventTimeSlot>,
    cur: EventTimeSlot,
    rest: Seq<EventTimeSlot>,
    all: Seq<EventTimeSlot>,
)
    requires
        slots_wf(all),
        forall|j: int| 0 <= j < acc.len() ==> block_near(all, #[trigger] acc[j]),
        block_near(all, cur),
        end_in(all, cur.end),
        forall|j: int| 0 <= j < rest.len() ==> all.contains(#[trigger] rest[j]),
        sorted_by_start(rest),
        rest.len() > 0 ==> cur.start <= rest[0].start,
    ensures
        forall|j: int|
            0 <= j < merge_run(acc, cur, rest).len() ==> block_near(
                all,
                #[trigger] merge_run(acc, cur, rest)[j],
            ),
    decreases rest.len(),
{
    let out = merge_run(acc, cur, rest);
    if rest.len() == 0 {
        assert(out == acc.push(cur));
        assert forall|j: int| 0 <= j < out.len() implies block_near(all, #[trigger] out[j]) by {
            if j < acc.len() {
                assert(out[j] == acc[j]);
            } else {
                assert(out[j] == cur);
            }
        }
    } else {
        let r0 = rest[0];
        let r = rest.drop_first();
        if r.len() > 0 {
            assert(rest[0].start <= rest[1].start);
        }
        assert forall|j: int| 0 <= j < r.len() implies all.contains(#[trigger] r[j]) by {
            assert(all.contains(rest[j + 1]));
        }
        assert(all.contains(rest[0]));
        let jr = choose|jr: int| 0 <= jr < all.len() && all[jr] == r0;
        assert(end_in(all, r0.end)) by {
            assert(all[jr].end == r0.end);
        }
        assert forall|t: int| r0.start <= t <= r0.end implies #[trigger] near_covered(all, t) by {
            assert(all[jr].start <= t < all[jr].end + MERGE_TOLERANCE);
        }
        if joins(cur, r0) {
            let c2 = span(cur, r0);
            let kc = choose|kc: int| 0 <= kc < all.len() && #[trigger] all[kc].end == cur.end;
            assert(block_near(all, r0));
            assert forall|t: int| c2.start <= t <= c2.end implies #[trigger] near_covered(all, t) by {
                if t > cur.end && t < r0.start {
                    assert(slot_wf(all[kc]));
                    assert(all[kc].start <= t < all[kc].end + MERGE_TOLERANCE);
                }
            }
            assert(end_in(all, c2.end)) by {
                if cur.end >= r0.end {
                    assert(all[kc].end == c2.end);
                } else {
                    assert(all[jr].end == c2.end);
                }
            }
            assert(block_near(all, c2));
            lemma_run_near(acc, c2, r, all);
            assert(out == merge_run(acc, c2, r));
        } else {
            let a = acc.push(cur);
            assert forall|j: int| 0 <= j < a.len() implies block_near(all, #[trigger] a[j]) by {
                if j < acc.len() {
                    assert(a[j] == acc[j]);
                }
            }
            lemma_run_near(a, r0, r, all);
            assert(out == merge_run(a, r0, r));
        }
    }
}

/// Every instant of a merged block lies in an input slot, or less than the tolerance
/// after an input's end. Together with the blocks being apart by the tolerance and
/// each input lying in one block, the blocks are the tolerance-joined spans of the
/// inputs.
pub proof fn lemma_merge_blocks_joined(s: Seq<EventTimeSlot>, j: int, t: int)
    requires
        slots_wf(s),
        0 <= j < merged(s).len(),
        merged(s)[j].start <= t <= merged(s)[j].end,
    ensures
        near_covered(s, t),
{
    let q = sort_by_start(s);
    lemma_sort_by_start(s);
    lemma_sorted_slots_wf(s);
    let r = q.drop_first();
    if r.len() > 0 {
        assert(q[0].start <= q[1].start);
    }
    assert forall|k: int| 0 <= k < r.len() implies q.contains(#[trigger] r[k]) by {
        assert(q[k + 1] == r[k]);
    }
    assert(q[0].end == q[0].end);
    assert(end_in(q, q[0].end));
    assert forall|u: int| q[0].start <= u <= q[0].end implies #[trigger] near_covered(q, u) by {
        assert(q[0].start <= u < q[0].end + MERGE_TOLERANCE);
    }
    lemma_run_near(Seq::empty(), q[0], r, q);
    assert(block_near(q, merged(s)[j]));
    assert(near_covered(q, t));
    let i = choose|i: int| 0 <= i < q.len() && q[i].start <= t < #[trigger] q[i].end + MERGE_TOLERANCE;
    assert(q.contains(q[i]));
    let k = choose|k: int| 0 <= k < s.len() && s[k] == q[i];
    assert(s[k].start <= t < s[k].end + MERGE_TOLERANCE);
}

} // verus!

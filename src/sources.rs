//! Combining the feeds of several sources into one calendar.
use vstd::prelude::*;

use crate::event::{components_wf, Calendar, Component};
use crate::shift::{shift_timezone, shifted_component};

verus! {

/// The hour offset for the source at `index`: its own, else the last one given,
/// else zero.
pub open spec fn offset_for(offsets: Seq<i64>, index: int) -> int {
    if offsets.len() == 0 {
        0
    } else if index < offsets.len() {
        offsets[index] as int
    } else {
        offsets.last() as int
    }
}

/// The offset the source at `index` is shifted by.
pub fn offset_for_source(offsets: &Vec<i64>, index: usize) -> (r: i64)
    ensures
        r == offset_for(offsets@, index as int),
{
    if offsets.len() == 0 {
        0
    } else if index < offsets.len() {
        offsets[index]
    } else {
        offsets[offsets.len() - 1]
    }
}

/// A feed with every component shifted by `hours`.
pub open spec fn shifted_feed(cs: Seq<Component>, hours: int) -> Seq<Component> {
    cs.map_values(|c: Component| shifted_component(c, hours))
}

/// The first `n` feeds, each shifted by its source's offset, one after the other.
pub open spec fn combined(feeds: Seq<Seq<Component>>, offsets: Seq<i64>, n: int) -> Seq<Component>
    decreases n,
{
    if n <= 0 {
        seq![]
    } else {
        combined(feeds, offsets, n - 1) + shifted_feed(feeds[n - 1], offset_for(offsets, n - 1))
    }
}

/// Shifts each source's feed by its offset and joins them in source order.
pub fn merge_feeds(feeds: Vec<Vec<Component>>, offsets: &Vec<i64>) -> (r: Calendar)
    requires
        forall|i: int| 0 <= i < feeds@.len() ==> components_wf(#[trigger] feeds@[i]@),
    ensures
        r.components@ == combined(feeds@.map_values(|f: Vec<Component>| f@), offsets@, feeds@.len() as int),
        r.wf(),
{
    let ghost fs = feeds@.map_values(|f: Vec<Component>| f@);
    let mut out: Vec<Component> = Vec::new();
    let mut index: usize = 0;
    let n = feeds.len();
    for feed in it: feeds.into_iter()
        invariant
            it.seq().len() == n,
            it.seq().map_values(|f: Vec<Component>| f@) == fs,
            forall|i: int| 0 <= i < fs.len() ==> components_wf(#[trigger] fs[i]),
            index == it.index(),
            out@ == combined(fs, offsets@, index as int),
            components_wf(out@),
    {
        assert(index < n);
        assert(fs[index as int] == feed@);
        let offset = offset_for_source(offsets, index);
        let shifted = shift_timezone(feed, offset);
        let mut part = shifted.components;
        let ghost out0 = out@;
        let ghost part0 = part@;
        assert(part0 =~= shifted_feed(fs[index as int], offset as int));
        out.append(&mut part);
        assert(out@ =~= combined(fs, offsets@, index + 1));
        assert forall|i: int| 0 <= i < out@.len() implies (#[trigger] out@[i]).wf() by {
            if i < out0.len() {
                assert(out@[i] == out0[i]);
            } else {
                assert(out@[i] == part0[i - out0.len()]);
            }
        }
        index = index + 1;
    }
    Calendar { components: out }
}

/// The components of several calendars, one calendar after the other.
pub open spec fn concatenated(cals: Seq<Seq<Component>>, n: int) -> Seq<Component>
    decreases n,
{
    if n <= 0 {
        seq![]
    } else {
        concatenated(cals, n - 1) + cals[n - 1]
    }
}

/// Joins calendars in order.
pub fn calendars_to_merged_calendar(calendars: Vec<Calendar>) -> (r: Calendar)
    ensures
        r.components@ == concatenated(
            calendars@.map_values(|c: Calendar| c.components@),
            calendars@.len() as int,
        ),
{
    let ghost cs = calendars@.map_values(|c: Calendar| c.components@);
    let mut out: Vec<Component> = Vec::new();
    for cal in it: calendars.into_iter()
        invariant
            it.seq().map_values(|c: Calendar| c.components@) == cs,
            out@ == concatenated(cs, it.index() as int),
    {
        let ghost k = it.index() as int;
        assert(cs[k] == cal.components@);
        let mut part = cal.components;
        out.append(&mut part);
        assert(out@ =~= concatenated(cs, k + 1));
    }
    Calendar { components: out }
}

} // verus!

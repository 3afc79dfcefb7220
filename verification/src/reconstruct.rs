//! From gathered times to events: which entries become events, with what
//! span, and in what order.

use vstd::prelude::*;
use crate::accumulate::EntryView;
use crate::event::{Event, EventView, Timespan, DEFAULT_DURATION, event_views};

verus! {

/// An entry whose event ends before it starts.
pub open spec fn inverted(e: EntryView) -> bool {
    e.start is Some && e.end is Some && e.end->0 < e.start->0
}

/// The first position at or after `from` that holds an inverted entry;
/// `entries.len()` where there is none.
pub open spec fn first_inverted(entries: Seq<EntryView>, from: int) -> int
    decreases entries.len() - from,
{
    if from < 0 || from >= entries.len() {
        entries.len() as int
    } else if inverted(entries[from]) {
        from
    } else {
        first_inverted(entries, from + 1)
    }
}

pub proof fn lemma_first_inverted(entries: Seq<EntryView>, from: int)
    requires
        0 <= from <= entries.len(),
    ensures
        from <= first_inverted(entries, from) <= entries.len(),
        first_inverted(entries, from) < entries.len() ==> inverted(
            entries[first_inverted(entries, from)],
        ),
        forall|i: int|
            from <= i < first_inverted(entries, from) ==> !inverted(#[trigger] entries[i]),
    decreases entries.len() - from,
{
    if from < entries.len() && !inverted(entries[from]) {
        lemma_first_inverted(entries, from + 1);
    }
}

/// The least start among the entries that have one.
pub open spec fn least_start(entries: Seq<EntryView>) -> Option<u64>
    decreases entries.len(),
{
    if entries.len() == 0 {
        None
    } else {
        let rest = least_start(entries.drop_last());
        match (entries.last().start, rest) {
            (None, _) => rest,
            (Some(s), None) => Some(s),
            (Some(s), Some(m)) => if s < m {
                Some(s)
            } else {
                Some(m)
            },
        }
    }
}

/// The time that becomes zero: the least start, or zero where no entry has a
/// start.
pub open spec fn min_start(entries: Seq<EntryView>) -> u64 {
    match least_start(entries) {
        Some(m) => m,
        None => 0,
    }
}

/// `least_start` is the start of some entry and no entry starts earlier; it
/// is `None` only where no entry has a start.
pub proof fn lemma_least_start(entries: Seq<EntryView>)
    ensures
        match least_start(entries) {
            Some(m) => {
                &&& exists|i: int| 0 <= i < entries.len() && #[trigger] entries[i].start == Some(m)
                &&& forall|i: int|
                    0 <= i < entries.len() && (#[trigger] entries[i]).start is Some ==> m
                        <= entries[i].start->0
            },
            None => forall|i: int| 0 <= i < entries.len() ==> (#[trigger] entries[i]).start is None,
        },
    decreases entries.len(),
{
    if entries.len() > 0 {
        let rest = entries.drop_last();
        lemma_least_start(rest);
        let n = entries.len() - 1;
        assert(forall|i: int| 0 <= i < n ==> rest[i] == entries[i]);
        match least_start(entries) {
            Some(m) => {
                if entries.last().start == Some(m) {
                    assert(entries[n].start == Some(m));
                } else {
                    let i = choose|i: int| 0 <= i < rest.len() && #[trigger] rest[i].start == Some(m);
                    assert(entries[i].start == Some(m));
                }
                assert forall|i: int|
                    0 <= i < entries.len() && (#[trigger] entries[i]).start is Some implies m
                    <= entries[i].start->0 by {
                    if i < n {
                        assert(rest[i].start is Some);
                    }
                }
            },
            None => {
                assert forall|i: int| 0 <= i < entries.len() implies (
                #[trigger] entries[i]).start is None by {
                    if i < n {
                        assert(rest[i].start is None);
                    }
                }
            },
        }
    }
}

/// How long the event of an entry with a start lasts: until its end, or the
/// default where no end was logged.
pub open spec fn duration_of(e: EntryView) -> u64 {
    match e.end {
        Some(end) => (end - e.start->0) as u64,
        None => DEFAULT_DURATION,
    }
}

/// The event of an entry with a start, counted from `min`.
pub open spec fn event_of(e: EntryView, min: u64) -> EventView {
    EventView {
        label: e.label,
        id: e.seqno,
        span: Timespan { start: (e.start->0 - min) as u64, duration: duration_of(e) },
    }
}

/// The events of the entries that have a start, in the entries' order. An
/// entry without a start gives none.
pub open spec fn emitted(entries: Seq<EntryView>, min: u64) -> Seq<EventView>
    decreases entries.len(),
{
    if entries.len() == 0 {
        Seq::empty()
    } else if entries.last().start is Some {
        emitted(entries.drop_last(), min).push(event_of(entries.last(), min))
    } else {
        emitted(entries.drop_last(), min)
    }
}

/// Where an event that starts at `start` goes among the first `upto` events:
/// behind the last of them that starts no later, or to the front where all of
/// them start later.
pub open spec fn slot(events: Seq<EventView>, start: u64, upto: int) -> int
    recommends
        upto <= events.len(),
    decreases upto,
{
    if upto <= 0 {
        0
    } else if events[upto - 1].span.start <= start {
        upto
    } else {
        slot(events, start, upto - 1)
    }
}

pub proof fn lemma_slot(events: Seq<EventView>, start: u64, upto: int)
    requires
        0 <= upto <= events.len(),
    ensures
        0 <= slot(events, start, upto) <= upto,
        slot(events, start, upto) > 0 ==> events[slot(events, start, upto) - 1].span.start
            <= start,
        forall|i: int|
            slot(events, start, upto) <= i < upto ==> (#[trigger] events[i]).span.start > start,
    decreases upto,
{
    if upto > 0 && events[upto - 1].span.start > start {
        lemma_slot(events, start, upto - 1);
    }
}

/// `e` put into `events` behind the last event that starts no later than it.
pub open spec fn insert_by_start(events: Seq<EventView>, e: EventView) -> Seq<EventView> {
    events.insert(slot(events, e.span.start, events.len() as int), e)
}

/// The events ordered by start; events with the same start keep their order.
pub open spec fn sorted_by_start(events: Seq<EventView>) -> Seq<EventView>
    decreases events.len(),
{
    if events.len() == 0 {
        Seq::empty()
    } else {
        insert_by_start(sorted_by_start(events.drop_last()), events.last())
    }
}

/// No event starts before one that stands earlier.
pub open spec fn ordered_by_start(events: Seq<EventView>) -> bool {
    forall|i: int, j: int|
        0 <= i <= j < events.len() ==> (#[trigger] events[i]).span.start <= (
        #[trigger] events[j]).span.start
}

pub proof fn lemma_insert_by_start(events: Seq<EventView>, e: EventView)
    ensures
        insert_by_start(events, e).len() == events.len() + 1,
        insert_by_start(events, e).to_multiset() == events.to_multiset().insert(e),
        ordered_by_start(events) ==> ordered_by_start(insert_by_start(events, e)),
{
    broadcast use vstd::seq_lib::group_to_multiset_ensures;

    lemma_slot(events, e.span.start, events.len() as int);
    let k = slot(events, e.span.start, events.len() as int);
    let after = insert_by_start(events, e);
    assert(after.remove(k) =~= events);
    assert(after[k] == e);
    assert(after.to_multiset() =~= events.to_multiset().insert(e));
    if ordered_by_start(events) {
        assert forall|i: int, j: int| 0 <= i <= j < after.len() implies (
        #[trigger] after[i]).span.start <= (#[trigger] after[j]).span.start by {
            if i < k && j > k {
                assert(events[i].span.start <= events[k - 1].span.start);
                assert(events[j - 1].span.start > e.span.start);
            } else if i < k && j < k {
                assert(events[i].span.start <= events[j].span.start);
            } else if i > k {
                assert(events[i - 1].span.start <= events[j - 1].span.start);
            } else if i == k && j > k {
                assert(events[j - 1].span.start > e.span.start);
            } else if i < k && j == k {
                assert(events[i].span.start <= events[k - 1].span.start);
            }
        }
    }
}

/// Ordering keeps every event, each as often as it stood, and leaves them
/// ordered by start.
pub proof fn lemma_sorted_by_start(events: Seq<EventView>)
    ensures
        sorted_by_start(events).len() == events.len(),
        sorted_by_start(events).to_multiset() == events.to_multiset(),
        ordered_by_start(sorted_by_start(events)),
    decreases events.len(),
{
    broadcast use vstd::seq_lib::group_to_multiset_ensures;

    if events.len() > 0 {
        lemma_sorted_by_start(events.drop_last());
        lemma_insert_by_start(sorted_by_start(events.drop_last()), events.last());
        assert(events.drop_last().push(events.last()) =~= events);
    } else {
        assert(events =~= Seq::<EventView>::empty());
    }
}

/// Puts `event` into `events` behind the last event that starts no later.
/// The search runs from the back, so that events that come in the order of
/// their starts are placed at once.
pub fn insert_event(events: &mut Vec<Event>, event: Event)
    ensures
        event_views(final(events)@) == insert_by_start(event_views(old(events)@), event@),
{
    let ghost before = event_views(events@);
    let start = event.span.start;
    let mut i: usize = events.len();
    proof {
        lemma_slot(before, start, before.len() as int);
    }
    while i > 0 && events[i - 1].span.start > start
        invariant
            i <= events.len(),
            *events == *old(events),
            before == event_views(events@),
            slot(before, start, before.len() as int) == slot(before, start, i as int),
        decreases i,
    {
        assert(before[i - 1].span.start > start);
        i -= 1;
    }
    assert(i > 0 ==> before[i - 1].span.start <= start);
    events.insert(i, event);
    assert(event_views(events@) =~= insert_by_start(before, event@));
}

} // verus!

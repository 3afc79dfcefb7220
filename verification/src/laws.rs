//! What holds of every log that is read.

use vstd::prelude::*;
use crate::accumulate::{
    AccumulatorView, EntryView, distinct_keys, fed, has_key, key_index, lemma_key_index,
    lemma_put_distinct, lemma_see_label_distinct, put,
};
use crate::error::ErrorView;
use crate::event::{EventView, Timespan, DEFAULT_DURATION};
use crate::events::{EventsView, lemma_scan_prefix, outcome, read_spec, scan};
use crate::line::{Action, LineView, RecordView, label_of, line_spec, participates};
use crate::reconstruct::{
    emitted, event_of, first_inverted, insert_by_start, inverted, least_start,
    lemma_first_inverted, lemma_least_start, lemma_slot, lemma_sorted_by_start, min_start,
    ordered_by_start, slot, sorted_by_start,
};
use crate::text::lines;

verus! {

/// Whether `x` is the event of an entry that has a start.
pub open spec fn comes_from(entries: Seq<EntryView>, min: u64, x: EventView) -> bool {
    exists|i: int|
        0 <= i < entries.len() && (#[trigger] entries[i]).start is Some && x == event_of(
            entries[i],
            min,
        )
}

/// Every entry with a start has its event among the emitted ones, and every
/// emitted event is that of an entry with a start.
pub proof fn lemma_emitted(entries: Seq<EntryView>, min: u64)
    ensures
        forall|i: int|
            0 <= i < entries.len() && (#[trigger] entries[i]).start is Some ==> emitted(
                entries,
                min,
            ).contains(event_of(entries[i], min)),
        forall|k: int|
            0 <= k < emitted(entries, min).len() ==> comes_from(
                entries,
                min,
                #[trigger] emitted(entries, min)[k],
            ),
    decreases entries.len(),
{
    if entries.len() > 0 {
        let rest = entries.drop_last();
        let n = entries.len() - 1;
        let all = emitted(entries, min);
        let before = emitted(rest, min);
        lemma_emitted(rest, min);
        assert forall|i: int| 0 <= i < entries.len() && (#[trigger] entries[i]).start is Some
            implies all.contains(event_of(entries[i], min)) by {
            if i < n {
                assert(rest[i] == entries[i]);
                assert(before.contains(event_of(rest[i], min)));
                let k = choose|k: int| 0 <= k < before.len() && before[k] == event_of(rest[i], min);
                assert(all[k] == event_of(entries[i], min));
            } else {
                assert(all[all.len() - 1] == event_of(entries[i], min));
            }
        }
        assert forall|k: int| 0 <= k < all.len() implies comes_from(
            entries,
            min,
            #[trigger] all[k],
        ) by {
            if k < before.len() {
                assert(comes_from(rest, min, before[k]));
                let i = choose|i: int|
                    0 <= i < rest.len() && (#[trigger] rest[i]).start is Some && before[k]
                        == event_of(rest[i], min);
                assert(entries[i] == rest[i]);
                assert(entries[i].start is Some && all[k] == event_of(entries[i], min));
            } else {
                assert(entries[n].start is Some && all[k] == event_of(entries[n], min));
            }
        }
    }
}

/// The events of a log stand in the order of their starts.
pub proof fn law_ordering(text: Seq<char>)
    ensures
        read_spec(text) matches Ok(v) ==> ordered_by_start(v.events),
{
    if let Ok(acc) = scan(lines(text)) {
        lemma_sorted_by_start(emitted(acc.entries, min_start(acc.entries)));
    }
}

/// Where a log has an event at all, its first event starts at zero: with the
/// ordering, zero is the least start.
pub proof fn law_normalization(text: Seq<char>)
    ensures
        read_spec(text) matches Ok(v) ==> v.events.len() > 0 ==> v.events[0].span.start == 0,
{
    if let Ok(acc) = scan(lines(text)) {
        lemma_first_start_is_zero(acc);
    }
}

pub proof fn lemma_first_start_is_zero(acc: AccumulatorView)
    ensures
        outcome(acc) matches Ok(v) ==> v.events.len() > 0 ==> v.events[0].span.start == 0,
{
    broadcast use vstd::seq_lib::group_to_multiset_ensures;

    if let Ok(v) = outcome(acc) {
        if v.events.len() > 0 {
            let entries = acc.entries;
            let min = min_start(entries);
            let raw = emitted(entries, min);
            lemma_sorted_by_start(raw);
            lemma_emitted(entries, min);
            lemma_least_start(entries);
            assert(raw.len() > 0);
            assert(comes_from(entries, min, raw[0]));
            let some = choose|i: int|
                0 <= i < entries.len() && (#[trigger] entries[i]).start is Some && raw[0]
                    == event_of(entries[i], min);
            assert(entries[some].start is Some);
            assert(least_start(entries) is Some);
            let i = choose|i: int| 0 <= i < entries.len() && #[trigger] entries[i].start == Some(min);
            assert(entries[i].start is Some);
            let zero = event_of(entries[i], min);
            assert(zero.span.start == 0);
            assert(raw.contains(zero));
            assert(raw.to_multiset().count(zero) > 0);
            assert(v.events.to_multiset().count(zero) > 0);
            assert(v.events.contains(zero));
            let k = choose|k: int| 0 <= k < v.events.len() && v.events[k] == zero;
            assert(v.events[0].span.start <= v.events[k].span.start);
        }
    }
}

/// The events of a log are those of the entries with a start, each as often
/// as it was emitted: ordering adds none, loses none and repeats none.
pub proof fn law_events_are_emitted(acc: AccumulatorView)
    ensures
        outcome(acc) matches Ok(v) ==> {
            &&& v.events.to_multiset() == emitted(
                acc.entries,
                min_start(acc.entries),
            ).to_multiset()
            &&& forall|i: int|
                0 <= i < acc.entries.len() && (#[trigger] acc.entries[i]).start is Some
                    ==> v.events.contains(event_of(acc.entries[i], min_start(acc.entries)))
            &&& forall|k: int|
                0 <= k < v.events.len() ==> comes_from(
                    acc.entries,
                    min_start(acc.entries),
                    #[trigger] v.events[k],
                )
        },
{
    broadcast use vstd::seq_lib::group_to_multiset_ensures;

    if let Ok(v) = outcome(acc) {
        let entries = acc.entries;
        let min = min_start(entries);
        let raw = emitted(entries, min);
        lemma_sorted_by_start(raw);
        lemma_emitted(entries, min);
        assert forall|i: int| 0 <= i < entries.len() && (#[trigger] entries[i]).start is Some
            implies v.events.contains(event_of(entries[i], min)) by {
            let x = event_of(entries[i], min);
            assert(raw.contains(x));
            assert(raw.to_multiset().count(x) > 0);
            assert(v.events.to_multiset().count(x) > 0);
        }
        assert forall|k: int| 0 <= k < v.events.len() implies comes_from(
            entries,
            min,
            #[trigger] v.events[k],
        ) by {
            let x = v.events[k];
            assert(v.events.contains(x));
            assert(v.events.to_multiset().count(x) > 0);
            assert(raw.to_multiset().count(x) > 0);
            assert(raw.contains(x));
            let j = choose|j: int| 0 <= j < raw.len() && raw[j] == x;
            assert(comes_from(entries, min, raw[j]));
        }
    }
}

/// Whether two events are occurrences of the same logged event.
pub open spec fn same_event(a: EventView, b: EventView) -> bool {
    a.label == b.label && a.id == b.id
}

/// No two of the events have the same label and number.
pub open spec fn distinct_events(events: Seq<EventView>) -> bool {
    forall|j: int, k: int|
        0 <= j < k < events.len() ==> !same_event(#[trigger] events[j], #[trigger] events[k])
}

proof fn lemma_emitted_distinct(entries: Seq<EntryView>, min: u64)
    requires
        distinct_keys(entries),
    ensures
        distinct_events(emitted(entries, min)),
    decreases entries.len(),
{
    if entries.len() > 0 {
        let rest = entries.drop_last();
        let n = entries.len() - 1;
        assert forall|i: int, j: int| 0 <= i < j < rest.len() implies !has_key(
            #[trigger] rest[i],
            (#[trigger] rest[j]).label,
            rest[j].seqno,
        ) by {
            assert(rest[i] == entries[i] && rest[j] == entries[j]);
        }
        lemma_emitted_distinct(rest, min);
        lemma_emitted(rest, min);
        let before = emitted(rest, min);
        let all = emitted(entries, min);
        if entries.last().start is Some {
            assert forall|j: int, k: int| 0 <= j < k < all.len() implies !same_event(
                #[trigger] all[j],
                #[trigger] all[k],
            ) by {
                if k < before.len() {
                    assert(!same_event(before[j], before[k]));
                } else {
                    assert(comes_from(rest, min, before[j]));
                    let i = choose|i: int|
                        0 <= i < rest.len() && (#[trigger] rest[i]).start is Some && before[j]
                            == event_of(rest[i], min);
                    assert(rest[i] == entries[i]);
                    assert(!has_key(entries[i], entries[n].label, entries[n].seqno));
                }
            }
        }
    }
}

proof fn lemma_sorted_distinct(events: Seq<EventView>)
    requires
        distinct_events(events),
    ensures
        distinct_events(sorted_by_start(events)),
    decreases events.len(),
{
    broadcast use vstd::seq_lib::group_to_multiset_ensures;

    if events.len() > 0 {
        let rest = events.drop_last();
        let e = events.last();
        let n = events.len() - 1;
        assert forall|j: int, k: int| 0 <= j < k < rest.len() implies !same_event(
            #[trigger] rest[j],
            #[trigger] rest[k],
        ) by {
            assert(rest[j] == events[j] && rest[k] == events[k]);
        }
        lemma_sorted_distinct(rest);
        lemma_sorted_by_start(rest);
        let t = sorted_by_start(rest);
        lemma_slot(t, e.span.start, t.len() as int);
        let at = slot(t, e.span.start, t.len() as int);
        let after = insert_by_start(t, e);
        assert forall|i: int| 0 <= i < t.len() implies !same_event(#[trigger] t[i], e) by {
            assert(t.contains(t[i]));
            assert(t.to_multiset().count(t[i]) > 0);
            assert(rest.to_multiset().count(t[i]) > 0);
            assert(rest.contains(t[i]));
            let m = choose|m: int| 0 <= m < rest.len() && rest[m] == t[i];
            assert(!same_event(events[m], events[n]));
        }
        assert forall|j: int, k: int| 0 <= j < k < after.len() implies !same_event(
            #[trigger] after[j],
            #[trigger] after[k],
        ) by {
            let j0 = if j < at {
                j
            } else {
                j - 1
            };
            let k0 = if k < at {
                k
            } else {
                k - 1
            };
            if j == at {
                assert(after[k] == t[k0]);
                assert(!same_event(t[k0], e));
            } else if k == at {
                assert(after[j] == t[j0]);
                assert(!same_event(t[j0], e));
            } else {
                assert(after[j] == t[j0] && after[k] == t[k0]);
                assert(!same_event(t[j0], t[k0]));
            }
        }
    }
}

/// No event stands twice in what is reconstructed: where the entries are one
/// for each event, so are the events.
pub proof fn law_one_event_per_key(acc: AccumulatorView)
    requires
        distinct_keys(acc.entries),
    ensures
        outcome(acc) matches Ok(v) ==> distinct_events(v.events),
{
    let raw = emitted(acc.entries, min_start(acc.entries));
    lemma_emitted_distinct(acc.entries, min_start(acc.entries));
    lemma_sorted_distinct(raw);
}

/// The events of a log are distinct: each pair of label and number has at
/// most one.
pub proof fn law_events_distinct(text: Seq<char>)
    ensures
        read_spec(text) matches Ok(v) ==> distinct_events(v.events),
{
    if let Ok(acc) = scan(lines(text)) {
        lemma_scan_labels(lines(text));
        law_one_event_per_key(acc);
    }
}

/// A record's time replaces what its event had for the same action and
/// leaves everything else as it was: of two `start` lines for one event the
/// later one counts, and likewise of two `end` lines.
pub proof fn law_last_write_wins(entries: Seq<EntryView>, r: RecordView)
    ensures
        ({
            let at = key_index(entries, r.label, r.seqno, 0);
            let after = put(entries, r);
            let known = at < entries.len();
            &&& 0 <= at <= entries.len()
            &&& after.len() == if known {
                entries.len()
            } else {
                entries.len() + 1
            }
            &&& has_key(after[at], r.label, r.seqno)
            &&& after[at].start == match r.action {
                Action::Start => Some(r.time),
                Action::End => if known {
                    entries[at].start
                } else {
                    None
                },
            }
            &&& after[at].end == match r.action {
                Action::End => Some(r.time),
                Action::Start => if known {
                    entries[at].end
                } else {
                    None
                },
            }
            &&& forall|i: int| 0 <= i < entries.len() && i != at ==> after[i] == entries[i]
        }),
{
    lemma_key_index(entries, r.label, r.seqno, 0);
}

/// Whether some occurrence of `a` stands before some occurrence of `b`.
pub open spec fn precedes(events: Seq<EventView>, a: EventView, b: EventView) -> bool {
    exists|p: int, q: int|
        0 <= p < q < events.len() && #[trigger] events[p] == a && #[trigger] events[q] == b
}

/// Ordering is stable: an event that stood before another and starts no
/// later still stands before it afterwards. Events with the same start keep
/// the order in which they were first met.
pub proof fn law_stable_order(events: Seq<EventView>)
    ensures
        forall|i: int, j: int|
            0 <= i < j < events.len() && (#[trigger] events[i]).span.start <= (
            #[trigger] events[j]).span.start ==> precedes(
                sorted_by_start(events),
                events[i],
                events[j],
            ),
    decreases events.len(),
{
    broadcast use vstd::seq_lib::group_to_multiset_ensures;

    if events.len() > 0 {
        let rest = events.drop_last();
        let e = events.last();
        let n = events.len() - 1;
        law_stable_order(rest);
        lemma_sorted_by_start(rest);
        let t = sorted_by_start(rest);
        lemma_slot(t, e.span.start, t.len() as int);
        let at = slot(t, e.span.start, t.len() as int);
        let after = sorted_by_start(events);
        assert(after == t.insert(at, e));
        assert forall|i: int, j: int|
            0 <= i < j < events.len() && (#[trigger] events[i]).span.start <= (
            #[trigger] events[j]).span.start implies precedes(after, events[i], events[j]) by {
            if j < n {
                assert(rest[i] == events[i] && rest[j] == events[j]);
                assert(precedes(t, rest[i], rest[j]));
                let (p, q) = choose|p: int, q: int|
                    0 <= p < q < t.len() && #[trigger] t[p] == rest[i] && #[trigger] t[q]
                        == rest[j];
                let p1 = if p < at {
                    p
                } else {
                    p + 1
                };
                let q1 = if q < at {
                    q
                } else {
                    q + 1
                };
                assert(after[p1] == events[i] && after[q1] == events[j]);
            } else {
                assert(rest[i] == events[i]);
                assert(rest.contains(rest[i]));
                assert(rest.to_multiset().count(rest[i]) > 0);
                assert(t.to_multiset().count(rest[i]) > 0);
                assert(t.contains(rest[i]));
                let p = choose|p: int| 0 <= p < t.len() && t[p] == rest[i];
                if p >= at {
                    assert(t[p].span.start > e.span.start);
                }
                assert(after[p] == events[i] && after[at] == events[j]);
            }
        }
    }
}

/// The log of one event.
pub open spec fn single(label: Seq<char>, id: u32, duration: u64) -> EventsView {
    EventsView {
        events: seq![EventView { label, id, span: Timespan { start: 0, duration } }],
        labels: seq![label],
    }
}

pub open spec fn is_record(
    line: Seq<char>,
    label: Seq<char>,
    seqno: u32,
    action: Action,
    time: u64,
) -> bool {
    line_spec(line) == LineView::Record(RecordView { label, seqno, action, time })
}

proof fn lemma_scan_one(line: Seq<char>)
    ensures
        scan(seq![line]) == match line_spec(line) {
            LineView::Invalid { label, kind } => Err::<AccumulatorView, ErrorView>(
                ErrorView::FormatError { line_number: 0, kind },
            ),
            other => Ok(
                fed(AccumulatorView { entries: Seq::empty(), labels: Seq::empty() }, other),
            ),
        },
{
    let one = seq![line];
    assert(one.drop_last() =~= Seq::<Seq<char>>::empty());
    assert(one.last() == line);
    assert(scan(one.drop_last()) == Ok::<AccumulatorView, ErrorView>(
        AccumulatorView { entries: Seq::empty(), labels: Seq::empty() },
    ));
}

/// A log of one `start` line and one `end` line for the same event, in either
/// order and with the end not before the start, holds that one event, and it
/// lasts from the start to the end.
pub proof fn law_pairing(
    text: Seq<char>,
    label: Seq<char>,
    seqno: u32,
    start: u64,
    end: u64,
)
    requires
        lines(text).len() == 2,
        start <= end,
        (is_record(lines(text)[0], label, seqno, Action::Start, start) && is_record(
            lines(text)[1],
            label,
            seqno,
            Action::End,
            end,
        )) || (is_record(lines(text)[0], label, seqno, Action::End, end) && is_record(
            lines(text)[1],
            label,
            seqno,
            Action::Start,
            start,
        )),
    ensures
        read_spec(text) == Ok::<EventsView, ErrorView>(
            single(label, seqno, (end - start) as u64),
        ),
{
    let ls = lines(text);
    let first = seq![ls[0]];
    lemma_scan_one(ls[0]);
    assert(ls.drop_last() =~= first);
    let acc1 = scan(first)->Ok_0;
    let acc = scan(ls)->Ok_0;
    assert(acc1.labels =~= seq![label]);
    assert(acc1.labels[0] == label);
    assert(acc1.entries.len() == 1);
    assert(acc.labels == acc1.labels);
    let entry = EntryView { label, seqno, start: Some(start), end: Some(end) };
    assert(acc.entries =~= seq![entry]);
    lemma_outcome_of_one(entry, acc.labels);
}

/// A log of one `start` line holds that one event, with the default duration.
pub proof fn law_default_duration(text: Seq<char>, label: Seq<char>, seqno: u32, start: u64)
    requires
        lines(text).len() == 1,
        is_record(lines(text)[0], label, seqno, Action::Start, start),
    ensures
        read_spec(text) == Ok::<EventsView, ErrorView>(single(label, seqno, DEFAULT_DURATION)),
{
    let ls = lines(text);
    lemma_scan_one(ls[0]);
    assert(ls =~= seq![ls[0]]);
    let acc = scan(ls)->Ok_0;
    assert(acc.labels =~= seq![label]);
    let entry = EntryView { label, seqno, start: Some(start), end: None };
    assert(acc.entries =~= seq![entry]);
    lemma_outcome_of_one(entry, acc.labels);
}

/// A log of one `end` line holds no event; its label is still known.
pub proof fn law_orphan_end(text: Seq<char>, label: Seq<char>, seqno: u32, end: u64)
    requires
        lines(text).len() == 1,
        is_record(lines(text)[0], label, seqno, Action::End, end),
    ensures
        read_spec(text) == Ok::<EventsView, ErrorView>(
            EventsView { events: Seq::empty(), labels: seq![label] },
        ),
{
    let ls = lines(text);
    lemma_scan_one(ls[0]);
    assert(ls =~= seq![ls[0]]);
    let acc = scan(ls)->Ok_0;
    assert(acc.labels =~= seq![label]);
    let entry = EntryView { label, seqno, start: None, end: Some(end) };
    assert(acc.entries =~= seq![entry]);
    lemma_outcome_of_one(entry, acc.labels);
}

proof fn lemma_outcome_of_one(entry: EntryView, labels: Seq<Seq<char>>)
    requires
        !inverted(entry),
    ensures
        outcome(AccumulatorView { entries: seq![entry], labels }) == Ok::<EventsView, ErrorView>(
            EventsView {
                events: if entry.start is Some {
                    seq![
                        EventView {
                            label: entry.label,
                            id: entry.seqno,
                            span: Timespan {
                                start: 0,
                                duration: match entry.end {
                                    Some(end) => (end - entry.start->0) as u64,
                                    None => DEFAULT_DURATION,
                                },
                            },
                        },
                    ]
                } else {
                    Seq::empty()
                },
                labels,
            },
        ),
{
    let entries = seq![entry];
    lemma_first_inverted(entries, 0);
    assert(first_inverted(entries, 0) == 1) by {
        reveal_with_fuel(first_inverted, 3);
    }
    assert(entries.drop_last() =~= Seq::<EntryView>::empty());
    assert(least_start(entries.drop_last()) == None::<u64>);
    assert(least_start(entries) == entry.start);
    let min = min_start(entries);
    assert(emitted(entries.drop_last(), min) =~= Seq::<EventView>::empty());
    let raw = emitted(entries, min);
    if entry.start is Some {
        let e = event_of(entry, min);
        assert(raw =~= seq![e]);
        assert(raw.drop_last() =~= Seq::<EventView>::empty());
        assert(sorted_by_start(raw.drop_last()) =~= Seq::<EventView>::empty());
        assert(slot(Seq::<EventView>::empty(), e.span.start, 0) == 0);
        assert(sorted_by_start(raw) =~= seq![e]);
    } else {
        assert(raw =~= Seq::<EventView>::empty());
        assert(sorted_by_start(raw) =~= Seq::<EventView>::empty());
    }
}

/// The labels of a log are the labels of its lines that hold a colon, each
/// once, whatever else those lines hold.
pub proof fn law_label_completeness(text: Seq<char>)
    ensures
        read_spec(text) matches Ok(v) ==> {
            &&& v.labels.no_duplicates()
            &&& forall|l: Seq<char>| v.labels.contains(l) <==> labels_of_lines(lines(text), l)
        },
{
    lemma_scan_labels(lines(text));
}

/// Whether `l` is the label of one of the lines: what stands before the first
/// colon of a line that holds one.
pub open spec fn labels_of_lines(ls: Seq<Seq<char>>, l: Seq<char>) -> bool {
    exists|i: int| 0 <= i < ls.len() && participates(#[trigger] ls[i]) && label_of(ls[i]) == l
}

pub proof fn lemma_scan_labels(ls: Seq<Seq<char>>)
    ensures
        scan(ls) matches Ok(acc) ==> {
            &&& acc.labels.no_duplicates()
            &&& distinct_keys(acc.entries)
            &&& forall|l: Seq<char>| acc.labels.contains(l) <==> labels_of_lines(ls, l)
        },
    decreases ls.len(),
{
    if ls.len() == 0 {
    } else {
        let rest = ls.drop_last();
        let n = ls.len() - 1;
        lemma_scan_labels(rest);
        if let Ok(acc) = scan(ls) {
            let prev = scan(rest)->Ok_0;
            let line = line_spec(ls.last());
            assert(acc == fed(prev, line));
            match line {
                LineView::Record(r) => {
                    lemma_put_distinct(prev.entries, r);
                    lemma_see_label_distinct(prev.labels, r.label);
                },
                _ => {},
            }
            assert forall|l: Seq<char>| acc.labels.contains(l) <==> labels_of_lines(ls, l) by {
                if acc.labels.contains(l) {
                    if prev.labels.contains(l) {
                        assert(labels_of_lines(rest, l));
                        let i = choose|i: int|
                            0 <= i < rest.len() && participates(#[trigger] rest[i]) && label_of(
                                rest[i],
                            ) == l;
                        assert(participates(ls[i]) && label_of(ls[i]) == l);
                    } else {
                        let k = choose|k: int| 0 <= k < acc.labels.len() && acc.labels[k] == l;
                        assert(line is Record);
                        assert(acc.labels == prev.labels.push(line->Record_0.label));
                        if k < prev.labels.len() {
                            assert(prev.labels[k] == l);
                        }
                        assert(participates(ls[n]) && label_of(ls[n]) == l);
                    }
                }
                if labels_of_lines(ls, l) {
                    let i = choose|i: int|
                        0 <= i < ls.len() && participates(#[trigger] ls[i]) && label_of(ls[i])
                            == l;
                    if i < n {
                        assert(participates(rest[i]) && label_of(rest[i]) == l);
                        assert(labels_of_lines(rest, l));
                        assert(prev.labels.contains(l));
                        let k = choose|k: int| 0 <= k < prev.labels.len() && prev.labels[k] == l;
                        assert(acc.labels[k] == l);
                    } else {
                        assert(line is Record);
                        assert(line->Record_0.label == l);
                        if prev.labels.contains(l) {
                        } else {
                            assert(acc.labels[acc.labels.len() - 1] == l);
                        }
                    }
                }
            }
        }
    }
}

/// A pass over lines of which none is malformed succeeds.
pub proof fn lemma_scan_ok(ls: Seq<Seq<char>>)
    requires
        forall|i: int| 0 <= i < ls.len() ==> !(line_spec(#[trigger] ls[i]) is Invalid),
    ensures
        scan(ls) is Ok,
    decreases ls.len(),
{
    if ls.len() > 0 {
        let rest = ls.drop_last();
        assert forall|i: int| 0 <= i < rest.len() implies !(line_spec(#[trigger] rest[i])
            is Invalid) by {
            assert(rest[i] == ls[i]);
        }
        lemma_scan_ok(rest);
        assert(!(line_spec(ls[ls.len() - 1]) is Invalid));
    }
}

/// The first malformed line of a log decides: the log is refused with that
/// line's number and the reason for which that line is refused, whatever
/// follows it. A log without a malformed line is not refused for its format.
pub proof fn law_fail_fast(text: Seq<char>, n: int)
    requires
        0 <= n <= lines(text).len(),
        forall|i: int| 0 <= i < n ==> !(line_spec(#[trigger] lines(text)[i]) is Invalid),
        n < lines(text).len() ==> line_spec(lines(text)[n]) is Invalid,
    ensures
        n < lines(text).len() ==> read_spec(text) == Err::<EventsView, ErrorView>(
            ErrorView::FormatError {
                line_number: n as nat,
                kind: line_spec(lines(text)[n])->Invalid_kind,
            },
        ),
        n == lines(text).len() ==> !(read_spec(text) matches Err(
            ErrorView::FormatError { .. },
        )),
{
    let ls = lines(text);
    let head = ls.take(n);
    assert forall|i: int| 0 <= i < head.len() implies !(line_spec(#[trigger] head[i])
        is Invalid) by {
        assert(head[i] == ls[i]);
    }
    lemma_scan_ok(head);
    if n < ls.len() {
        let upto = ls.take(n + 1);
        assert(upto.drop_last() =~= head);
        assert(upto.last() == ls[n]);
        assert(scan(upto) is Err);
        lemma_scan_prefix(upto, ls.skip(n + 1));
        assert(upto + ls.skip(n + 1) =~= ls);
    } else {
        assert(head =~= ls);
    }
}

} // verus!

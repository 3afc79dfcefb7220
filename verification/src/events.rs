//! The result of reading a log, and the reading itself.

use vstd::prelude::*;
use crate::accumulate::{Accumulator, AccumulatorView, entry_views, fed, string_views};
use crate::error::{Error, ErrorView};
use crate::event::{Event, EventView, Timespan, DEFAULT_DURATION, event_views};
use crate::laws::lemma_first_start_is_zero;
use crate::line::{LineView, line_spec, parse_line};
use crate::reconstruct::{
    emitted, event_of, first_inverted, insert_event, inverted, least_start, lemma_first_inverted,
    lemma_least_start, lemma_sorted_by_start, min_start, ordered_by_start, sorted_by_start,
};
use crate::text::{chars_of, find_from, line_end, lines, lines_from, slice_of};

verus! {

/// The events of a log, ordered by start, and the labels met in it, each once.
#[derive(Debug)]
pub struct Events {
    pub events: Vec<Event>,
    pub labels: Vec<String>,
}

pub struct EventsView {
    pub events: Seq<EventView>,
    pub labels: Seq<Seq<char>>,
}

impl View for Events {
    type V = EventsView;

    open spec fn view(&self) -> EventsView {
        EventsView { events: event_views(self.events@), labels: string_views(self.labels@) }
    }
}

impl Default for Events {
    fn default() -> (r: Events)
        ensures
            r@.events == Seq::<EventView>::empty(),
            r@.labels == Seq::<Seq<char>>::empty(),
            r.wf(),
    {
        let r = Events { events: Vec::new(), labels: Vec::new() };
        assert(r@.events =~= Seq::<EventView>::empty());
        assert(r@.labels =~= Seq::<Seq<char>>::empty());
        r
    }
}

/// What gathered times amount to. Where an entry is inverted, the first such
/// entry is reported. Otherwise every entry with a start gives an event,
/// counted from the least start, and the events are ordered by start; the
/// labels pass through.
pub open spec fn outcome(acc: AccumulatorView) -> Result<EventsView, ErrorView> {
    let bad = first_inverted(acc.entries, 0);
    if bad < acc.entries.len() {
        Err(
            ErrorView::ReconstructionFault {
                label: acc.entries[bad].label,
                seqno: acc.entries[bad].seqno,
            },
        )
    } else {
        Ok(
            EventsView {
                events: sorted_by_start(emitted(acc.entries, min_start(acc.entries))),
                labels: acc.labels,
            },
        )
    }
}

/// What the lines of a log amount to, taken in order from nothing. The first
/// malformed line ends the pass and is reported with its number, counted
/// from zero.
pub open spec fn scan(lines: Seq<Seq<char>>) -> Result<AccumulatorView, ErrorView>
    decreases lines.len(),
{
    if lines.len() == 0 {
        Ok(AccumulatorView { entries: Seq::empty(), labels: Seq::empty() })
    } else {
        match scan(lines.drop_last()) {
            Err(e) => Err(e),
            Ok(acc) => match line_spec(lines.last()) {
                LineView::Invalid { label, kind } => Err(
                    ErrorView::FormatError { line_number: (lines.len() - 1) as nat, kind },
                ),
                line => Ok(fed(acc, line)),
            },
        }
    }
}

/// What a log amounts to.
pub open spec fn read_spec(text: Seq<char>) -> Result<EventsView, ErrorView> {
    match scan(lines(text)) {
        Err(e) => Err(e),
        Ok(acc) => outcome(acc),
    }
}

/// Whether a result is the one that a model names.
pub open spec fn agrees(r: Result<Events, Error>, model: Result<EventsView, ErrorView>) -> bool {
    match model {
        Ok(v) => r matches Ok(events) && events@ == v,
        Err(e) => r matches Err(error) && error@ == e,
    }
}

impl Events {
    /// The events stand in the order of their starts, the first of them
    /// starts at zero, and no label stands twice.
    pub open spec fn wf(&self) -> bool {
        &&& ordered_by_start(self@.events)
        &&& self@.events.len() > 0 ==> self@.events[0].span.start == 0
        &&& self@.labels.no_duplicates()
    }

    /// Turns gathered times into events.
    pub fn reconstruct(acc: Accumulator) -> (r: Result<Events, Error>)
        ensures
            agrees(r, outcome(acc@)),
            r matches Ok(events) ==> (acc.wf() ==> events.wf()),
    {
        proof {
            lemma_first_start_is_zero(acc@);
            lemma_sorted_by_start(emitted(acc@.entries, min_start(acc@.entries)));
            if acc.wf() {
                acc.lemma_wf();
            }
        }
        let ghost model = acc@;
        let (entries, labels) = acc.into_parts();
        let ghost ev = entry_views(entries@);
        let mut least: Option<u64> = None;
        let mut i: usize = 0;
        proof {
            lemma_first_inverted(ev, 0);
        }
        while i < entries.len()
            invariant
                i <= entries.len(),
                ev == entry_views(entries@),
                ev == model.entries,
                model == acc@,
                first_inverted(ev, 0) == first_inverted(ev, i as int),
                least == least_start(ev.take(i as int)),
            decreases entries.len() - i,
        {
            proof {
                assert(ev.take(i + 1).drop_last() =~= ev.take(i as int));
                assert(ev.take(i + 1).last() == entries@[i as int]@);
                lemma_first_inverted(ev, i as int);
            }
            if let Some(start) = entries[i].start {
                if let Some(end) = entries[i].end {
                    if end < start {
                        let label = entries[i].label.clone();
                        let seqno = entries[i].seqno;
                        assert(inverted(ev[i as int]));
                        assert(first_inverted(ev, 0) == i);
                        return Err(Error::ReconstructionFault { label, seqno });
                    }
                }
                least = match least {
                    None => Some(start),
                    Some(m) => if start < m {
                        Some(start)
                    } else {
                        Some(m)
                    },
                };
            }
            assert(!inverted(ev[i as int]));
            i += 1;
        }
        let min: u64 = match least {
            Some(m) => m,
            None => 0,
        };
        proof {
            assert(ev.take(entries.len() as int) =~= ev);
            lemma_least_start(ev);
            lemma_first_inverted(ev, 0);
        }
        let mut events: Vec<Event> = Vec::new();
        let mut i: usize = 0;
        assert(event_views(events@) =~= sorted_by_start(emitted(ev.take(0), min)));
        while i < entries.len()
            invariant
                i <= entries.len(),
                ev == entry_views(entries@),
                min == min_start(ev),
                forall|k: int| 0 <= k < ev.len() ==> !inverted(#[trigger] ev[k]),
                forall|k: int|
                    0 <= k < ev.len() && (#[trigger] ev[k]).start is Some ==> min
                        <= ev[k].start->0,
                event_views(events@) == sorted_by_start(emitted(ev.take(i as int), min)),
            decreases entries.len() - i,
        {
            proof {
                assert(ev.take(i + 1).drop_last() =~= ev.take(i as int));
                assert(ev.take(i + 1).last() == ev[i as int]);
                assert(!inverted(ev[i as int]));
            }
            if let Some(start) = entries[i].start {
                let duration: u64 = match entries[i].end {
                    Some(end) => end - start,
                    None => DEFAULT_DURATION,
                };
                let event = Event {
                    label: entries[i].label.clone(),
                    id: entries[i].seqno,
                    span: Timespan { start: start - min, duration },
                };
                proof {
                    let earlier = emitted(ev.take(i as int), min);
                    assert(event@ == event_of(ev[i as int], min));
                    assert(emitted(ev.take(i + 1), min) == earlier.push(event@));
                    assert(earlier.push(event@).drop_last() =~= earlier);
                }
                insert_event(&mut events, event);
            }
            i += 1;
        }
        assert(ev.take(entries.len() as int) =~= ev);
        Ok(Events { events, labels })
    }

    /// Reads a log: every line with a colon is taken in, and what was
    /// gathered is turned into events.
    pub fn read(data: &str) -> (r: Result<Events, Error>)
        ensures
            agrees(r, read_spec(data@)),
            r matches Ok(events) ==> events.wf(),
    {
        let text = chars_of(data);
        let mut acc = Accumulator::new();
        let mut from: usize = 0;
        let mut line_number: usize = 0;
        let ghost done: Seq<Seq<char>> = Seq::empty();
        assert(done + lines_from(text@, 0) =~= lines(text@));
        while from < text.len()
            invariant
                from <= text.len(),
                text@ == data@,
                line_number == done.len(),
                line_number <= from,
                lines(text@) == done + lines_from(text@, from as int),
                scan(done) == Ok::<AccumulatorView, ErrorView>(acc@),
                acc.wf(),
            decreases text.len() - from,
        {
            let nl = find_from(&text, '\n', from);
            let end = if nl < text.len() && from < nl && text[nl - 1] == '\r' {
                nl - 1
            } else {
                nl
            };
            let line = slice_of(&text, from, end);
            proof {
                assert(line@ == text@.subrange(from as int, line_end(text@, from as int, nl as int)));
                assert(done.push(line@) + lines_from(text@, nl + 1) =~= done + lines_from(
                    text@,
                    from as int,
                ));
                assert(done.push(line@).drop_last() =~= done);
                assert(lines_from(text@, nl + 1) =~= lines_from(
                    text@,
                    if nl < text.len() {
                        nl + 1
                    } else {
                        nl as int
                    },
                ));
            }
            match acc.feed(parse_line(&line)) {
                Ok(_) => {},
                Err(kind) => {
                    proof {
                        lemma_scan_prefix(done.push(line@), lines_from(text@, nl + 1));
                    }
                    return Err(Error::FormatError { line_number, kind });
                },
            }
            proof {
                done = done.push(line@);
            }
            line_number += 1;
            from = if nl < text.len() {
                nl + 1
            } else {
                nl
            };
        }
        assert(lines_from(text@, from as int) =~= Seq::<Seq<char>>::empty());
        assert(done =~= lines(text@));
        Events::reconstruct(acc)
    }
}

/// A pass that fails on the first lines of a log fails in the same way on the
/// whole log.
pub proof fn lemma_scan_prefix(head: Seq<Seq<char>>, tail: Seq<Seq<char>>)
    requires
        scan(head) is Err,
    ensures
        scan(head + tail) == scan(head),
    decreases tail.len(),
{
    if tail.len() == 0 {
        assert(head + tail =~= head);
    } else {
        lemma_scan_prefix(head, tail.drop_last());
        assert((head + tail).drop_last() =~= head + tail.drop_last());
    }
}

} // verus!

//! The start and end times gathered for each event while a log is read, and
//! the labels met on the way.

use std::collections::HashMap;
use vstd::prelude::*;
use vstd::std_specs::hash::*;
use crate::error::FmtErrorKind;
use crate::line::{Action, Line, LineView, Record, RecordView};

verus! {

/// The times logged so far for the event `(label, seqno)`.
#[derive(Debug)]
pub struct Entry {
    pub label: String,
    pub seqno: u32,
    pub start: Option<u64>,
    pub end: Option<u64>,
}

pub struct EntryView {
    pub label: Seq<char>,
    pub seqno: u32,
    pub start: Option<u64>,
    pub end: Option<u64>,
}

impl View for Entry {
    type V = EntryView;

    open spec fn view(&self) -> EntryView {
        EntryView { label: self.label@, seqno: self.seqno, start: self.start, end: self.end }
    }
}

pub open spec fn entry_views(entries: Seq<Entry>) -> Seq<EntryView> {
    Seq::new(entries.len(), |i: int| entries[i]@)
}

pub open spec fn string_views(strings: Seq<String>) -> Seq<Seq<char>> {
    Seq::new(strings.len(), |i: int| strings[i]@)
}

pub open spec fn has_key(e: EntryView, label: Seq<char>, seqno: u32) -> bool {
    e.label == label && e.seqno == seqno
}

/// The first position at or after `from` whose entry is that of
/// `(label, seqno)`; `entries.len()` where there is none.
pub open spec fn key_index(entries: Seq<EntryView>, label: Seq<char>, seqno: u32, from: int) -> int
    decreases entries.len() - from,
{
    if from < 0 || from >= entries.len() {
        entries.len() as int
    } else if has_key(entries[from], label, seqno) {
        from
    } else {
        key_index(entries, label, seqno, from + 1)
    }
}

pub proof fn lemma_key_index(entries: Seq<EntryView>, label: Seq<char>, seqno: u32, from: int)
    requires
        0 <= from <= entries.len(),
    ensures
        from <= key_index(entries, label, seqno, from) <= entries.len(),
        key_index(entries, label, seqno, from) < entries.len() ==> has_key(
            entries[key_index(entries, label, seqno, from)],
            label,
            seqno,
        ),
        forall|i: int|
            from <= i < key_index(entries, label, seqno, from) ==> !has_key(
                #[trigger] entries[i],
                label,
                seqno,
            ),
    decreases entries.len() - from,
{
    if from < entries.len() && !has_key(entries[from], label, seqno) {
        lemma_key_index(entries, label, seqno, from + 1);
    }
}

/// No two entries are for the same event.
pub open spec fn distinct_keys(entries: Seq<EntryView>) -> bool {
    forall|i: int, j: int|
        0 <= i < j < entries.len() ==> !has_key(
            #[trigger] entries[i],
            (#[trigger] entries[j]).label,
            entries[j].seqno,
        )
}

/// An entry with nothing logged yet.
pub open spec fn blank(label: Seq<char>, seqno: u32) -> EntryView {
    EntryView { label, seqno, start: None, end: None }
}

/// The entry after a line has reported `time` for `action`: the time logged
/// before for that action, if any, is replaced.
pub open spec fn with_time(e: EntryView, action: Action, time: u64) -> EntryView {
    match action {
        Action::Start => EntryView { start: Some(time), ..e },
        Action::End => EntryView { end: Some(time), ..e },
    }
}

/// The entries after a record: its event's entry, made at the end if there
/// was none, takes the record's time.
pub open spec fn put(entries: Seq<EntryView>, r: RecordView) -> Seq<EntryView> {
    let i = key_index(entries, r.label, r.seqno, 0);
    if i < entries.len() {
        entries.update(i, with_time(entries[i], r.action, r.time))
    } else {
        entries.push(with_time(blank(r.label, r.seqno), r.action, r.time))
    }
}

/// The labels after `label` was met: it is added at the end if it is new.
pub open spec fn see_label(labels: Seq<Seq<char>>, label: Seq<char>) -> Seq<Seq<char>> {
    if labels.contains(label) {
        labels
    } else {
        labels.push(label)
    }
}

pub struct AccumulatorView {
    pub entries: Seq<EntryView>,
    pub labels: Seq<Seq<char>>,
}

/// What a line leaves behind. A line without a colon leaves nothing. Any
/// other line leaves its label, malformed or not; a well-formed one also
/// leaves its time.
pub open spec fn fed(acc: AccumulatorView, line: LineView) -> AccumulatorView {
    match line {
        LineView::Skipped => acc,
        LineView::Record(r) => AccumulatorView {
            entries: put(acc.entries, r),
            labels: see_label(acc.labels, r.label),
        },
        LineView::Invalid { label, kind } => AccumulatorView {
            entries: acc.entries,
            labels: see_label(acc.labels, label),
        },
    }
}

/// `put` keeps the entries' events distinct.
pub proof fn lemma_put_distinct(entries: Seq<EntryView>, r: RecordView)
    requires
        distinct_keys(entries),
    ensures
        distinct_keys(put(entries, r)),
{
    lemma_key_index(entries, r.label, r.seqno, 0);
}

/// `see_label` keeps the labels free of repetition.
pub proof fn lemma_see_label_distinct(labels: Seq<Seq<char>>, label: Seq<char>)
    requires
        labels.no_duplicates(),
    ensures
        see_label(labels, label).no_duplicates(),
{
}

/// The first position at or after `from` at which `labels` holds `label`;
/// `labels.len()` where there is none.
pub open spec fn place(labels: Seq<Seq<char>>, label: Seq<char>, from: int) -> int
    decreases labels.len() - from,
{
    if from < 0 || from >= labels.len() {
        labels.len() as int
    } else if labels[from] == label {
        from
    } else {
        place(labels, label, from + 1)
    }
}

pub proof fn lemma_place(labels: Seq<Seq<char>>, label: Seq<char>, from: int)
    requires
        0 <= from <= labels.len(),
    ensures
        from <= place(labels, label, from) <= labels.len(),
        place(labels, label, from) < labels.len() ==> labels[place(labels, label, from)] == label,
        forall|i: int| from <= i < place(labels, label, from) ==> #[trigger] labels[i] != label,
    decreases labels.len() - from,
{
    if from < labels.len() && labels[from] != label {
        lemma_place(labels, label, from + 1);
    }
}

/// A label that is added at the end leaves the places of the others.
proof fn lemma_place_push(labels: Seq<Seq<char>>, added: Seq<char>, label: Seq<char>, from: int)
    requires
        0 <= from <= labels.len(),
        place(labels, label, from) < labels.len(),
    ensures
        place(labels.push(added), label, from) == place(labels, label, from),
    decreases labels.len() - from,
{
    assert(labels.push(added)[from] == labels[from]);
    if labels[from] != label {
        lemma_place_push(labels, added, label, from + 1);
    }
}

/// The number under which an event is indexed: the place of its label and
/// its sequence number, side by side.
pub open spec fn code(at: int, seqno: u32) -> int {
    at * 0x1_0000_0000 + seqno
}

pub open spec fn entry_code(labels: Seq<Seq<char>>, e: EntryView) -> int {
    code(place(labels, e.label, 0), e.seqno)
}

/// The index names, for each entry and for nothing else, the entry's
/// position under the entry's code.
pub open spec fn indexes(
    index: Map<u128, usize>,
    labels: Seq<Seq<char>>,
    entries: Seq<EntryView>,
) -> bool {
    &&& labels.len() <= usize::MAX
    &&& forall|i: int|
        0 <= i < entries.len() ==> place(labels, (#[trigger] entries[i]).label, 0) < labels.len()
    &&& forall|i: int|
        0 <= i < entries.len() ==> index.contains_key(
            entry_code(labels, #[trigger] entries[i]) as u128,
        ) && index[entry_code(labels, entries[i]) as u128] == i
    &&& forall|k: u128| #[trigger]
        index.contains_key(k) ==> index[k] < entries.len() && k == entry_code(
            labels,
            entries[index[k] as int],
        ) as u128
}

/// Under an index, the entry of an event is found by the event's code.
proof fn lemma_indexed(
    index: Map<u128, usize>,
    labels: Seq<Seq<char>>,
    entries: Seq<EntryView>,
    label: Seq<char>,
    seqno: u32,
)
    requires
        indexes(index, labels, entries),
        distinct_keys(entries),
        place(labels, label, 0) < labels.len(),
    ensures
        ({
            let k = code(place(labels, label, 0), seqno) as u128;
            key_index(entries, label, seqno, 0) == if index.contains_key(k) {
                index[k] as int
            } else {
                entries.len() as int
            }
        }),
{
    let at = place(labels, label, 0);
    let k = code(at, seqno) as u128;
    lemma_place(labels, label, 0);
    lemma_key_index(entries, label, seqno, 0);
    let found = key_index(entries, label, seqno, 0);
    if index.contains_key(k) {
        let i = index[k] as int;
        let other = place(labels, entries[i].label, 0);
        lemma_place(labels, entries[i].label, 0);
        assert(code(other, entries[i].seqno) == code(at, seqno));
        assert(other == at && entries[i].seqno == seqno);
        assert(has_key(entries[i], label, seqno));
        if found < i {
            assert(has_key(entries[found], entries[i].label, entries[i].seqno));
        }
    } else {
        if found < entries.len() {
            assert(entry_code(labels, entries[found]) == code(at, seqno));
        }
    }
}

/// The state of a reading pass: one entry for each event met, in the order in
/// which the events were first met, and each label once, in the order in
/// which the labels were first met. An index by label and sequence number
/// finds an event's entry without a search.
#[derive(Debug)]
pub struct Accumulator {
    entries: Vec<Entry>,
    labels: Vec<String>,
    index: HashMap<u128, usize>,
}

impl View for Accumulator {
    type V = AccumulatorView;

    closed spec fn view(&self) -> AccumulatorView {
        AccumulatorView {
            entries: entry_views(self.entries@),
            labels: string_views(self.labels@),
        }
    }
}

impl Accumulator {
    /// No event has two entries, no label stands twice, and the index is in
    /// step with the entries.
    pub closed spec fn wf(&self) -> bool {
        &&& distinct_keys(self@.entries)
        &&& self@.labels.no_duplicates()
        &&& indexes(self.index@, self@.labels, self@.entries)
    }

    /// A well-formed accumulator has one entry for each event and each label
    /// once.
    pub proof fn lemma_wf(&self)
        requires
            self.wf(),
        ensures
            distinct_keys(self@.entries),
            self@.labels.no_duplicates(),
    {
    }

    /// An accumulator that has met nothing.
    pub fn new() -> (r: Accumulator)
        ensures
            r@.entries == Seq::<EntryView>::empty(),
            r@.labels == Seq::<Seq<char>>::empty(),
            r.wf(),
    {
        let r = Accumulator { entries: Vec::new(), labels: Vec::new(), index: HashMap::new() };
        assert(r@.entries =~= Seq::<EntryView>::empty());
        assert(r@.labels =~= Seq::<Seq<char>>::empty());
        r
    }

    /// The entries gathered so far.
    pub fn entries(&self) -> (r: &Vec<Entry>)
        ensures
            entry_views(r@) == self@.entries,
    {
        &self.entries
    }

    /// The labels met so far.
    pub fn labels(&self) -> (r: &Vec<String>)
        ensures
            string_views(r@) == self@.labels,
    {
        &self.labels
    }

    /// Gives the entries and the labels away.
    pub fn into_parts(self) -> (r: (Vec<Entry>, Vec<String>))
        ensures
            entry_views(r.0@) == self@.entries,
            string_views(r.1@) == self@.labels,
    {
        (self.entries, self.labels)
    }

    fn note_label(&mut self, label: &String) -> (at: usize)
        requires
            old(self).wf(),
        ensures
            final(self).wf(),
            final(self)@.labels == see_label(old(self)@.labels, label@),
            final(self)@.entries == old(self)@.entries,
            at == place(final(self)@.labels, label@, 0),
            at < final(self)@.labels.len(),
    {
        let ghost before = self@.labels;
        let ghost entries = self@.entries;
        let mut i: usize = 0;
        proof {
            lemma_place(before, label@, 0);
        }
        while i < self.labels.len()
            invariant
                i <= self.labels.len(),
                *self == *old(self),
                self.wf(),
                before == self@.labels,
                entries == self@.entries,
                place(before, label@, 0) == place(before, label@, i as int),
                forall|j: int| 0 <= j < i ==> before[j] != label@,
            decreases self.labels.len() - i,
        {
            if self.labels[i] == *label {
                assert(before[i as int] == label@);
                return i;
            }
            i += 1;
        }
        self.labels.push(label.clone());
        let count = self.labels.len();
        proof {
            assert(self@.labels.len() == count);
            let after = self@.labels;
            let index = self.index@;
            assert(after =~= before.push(label@));
            lemma_place(after, label@, 0);
            let at = place(after, label@, 0);
            assert(after[i as int] == label@);
            if at < i {
                assert(before[at] != label@);
                assert(after[at] == before[at]);
            }
            assert(at == i);
            assert forall|j: int| 0 <= j < entries.len() implies entry_code(
                after,
                #[trigger] entries[j],
            ) == entry_code(before, entries[j]) && place(after, entries[j].label, 0)
                < after.len() by {
                lemma_place_push(before, label@, entries[j].label, 0);
            }
            assert forall|k: u128| #[trigger] index.contains_key(k) implies index[k]
                < entries.len() && k == entry_code(after, entries[index[k] as int]) as u128 by {
                assert(k == entry_code(before, entries[index[k] as int]) as u128);
            }
            assert(after.len() <= usize::MAX);
            assert forall|j: int| 0 <= j < entries.len() implies index.contains_key(
                entry_code(after, #[trigger] entries[j]) as u128,
            ) && index[entry_code(after, entries[j]) as u128] == j by {
                assert(entry_code(after, entries[j]) == entry_code(before, entries[j]));
            }
            assert(indexes(index, after, entries));
        }
        i
    }

    fn put(&mut self, r: Record, at: usize)
        requires
            old(self).wf(),
            at == place(old(self)@.labels, r.label@, 0),
            at < old(self)@.labels.len(),
        ensures
            final(self).wf(),
            final(self)@.entries == put(old(self)@.entries, r@),
            final(self)@.labels == old(self)@.labels,
    {
        broadcast use group_hash_axioms;

        let ghost before = self@.entries;
        let ghost labels = self@.labels;
        let ghost index = self.index@;
        let k: u128 = (at as u128) * 0x1_0000_0000u128 + (r.seqno as u128);
        proof {
            lemma_indexed(index, labels, before, r.label@, r.seqno);
            lemma_put_distinct(before, r@);
            lemma_key_index(before, r.label@, r.seqno, 0);
        }
        let found: Option<usize> = match self.index.get(&k) {
            Some(i) => Some(*i),
            None => None,
        };
        match found {
            Some(i) => {
                assert(has_key(before[i as int], r.label@, r.seqno));
                match r.action {
                    Action::Start => {
                        self.entries[i].start = Some(r.time);
                    },
                    Action::End => {
                        self.entries[i].end = Some(r.time);
                    },
                }
                proof {
                    let after = self@.entries;
                    assert(after =~= put(before, r@));
                    assert forall|j: int| 0 <= j < after.len() implies entry_code(
                        labels,
                        #[trigger] after[j],
                    ) == entry_code(labels, before[j]) by {}
                    assert(indexes(self.index@, labels, after));
                }
            },
            None => {
                let n = self.entries.len();
                let entry = match r.action {
                    Action::Start => Entry {
                        label: r.label,
                        seqno: r.seqno,
                        start: Some(r.time),
                        end: None,
                    },
                    Action::End => Entry {
                        label: r.label,
                        seqno: r.seqno,
                        start: None,
                        end: Some(r.time),
                    },
                };
                self.entries.push(entry);
                self.index.insert(k, n);
                proof {
                    let after = self@.entries;
                    assert(after =~= put(before, r@));
                    assert(entry_code(labels, after[n as int]) == k);
                    assert forall|j: int| 0 <= j < n implies after[j] == before[j] && entry_code(
                        labels,
                        #[trigger] after[j],
                    ) as u128 != k by {
                        assert(index.contains_key(entry_code(labels, before[j]) as u128));
                    }
                    assert(indexes(self.index@, labels, after));
                }
            },
        }
    }

    /// Takes one line in. The label of a line that has one is kept even where
    /// the line is refused; the refusal says why.
    pub fn feed(&mut self, line: Line) -> (r: Result<(), FmtErrorKind>)
        requires
            old(self).wf(),
        ensures
            final(self).wf(),
            final(self)@ == fed(old(self)@, line@),
            match r {
                Ok(_) => !(line@ is Invalid),
                Err(kind) => line@ is Invalid && kind@ == line@->Invalid_kind,
            },
    {
        match line {
            Line::Skipped => Ok(()),
            Line::Record(rec) => {
                let at = self.note_label(&rec.label);
                self.put(rec, at);
                Ok(())
            },
            Line::Invalid { label, kind } => {
                let _ = self.note_label(&label);
                Err(kind)
            },
        }
    }
}

} // verus!

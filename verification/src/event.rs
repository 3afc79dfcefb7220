//! The events that a log describes, and the filter that a viewer applies.

use vstd::prelude::*;
use vstd::string::*;

verus! {

/// The duration given to an event whose end was never logged.
pub const DEFAULT_DURATION: u64 = 1000;

/// When an event begins, counted from the earliest start in the log, and how
/// long it lasts.
#[derive(Debug, Clone, Copy, PartialEq, Eq, Structural)]
pub struct Timespan {
    pub start: u64,
    pub duration: u64,
}

/// One occurrence of a labelled event.
#[derive(Debug)]
pub struct Event {
    pub label: String,
    pub id: u32,
    pub span: Timespan,
}

pub struct EventView {
    pub label: Seq<char>,
    pub id: u32,
    pub span: Timespan,
}

impl View for Event {
    type V = EventView;

    open spec fn view(&self) -> EventView {
        EventView { label: self.label@, id: self.id, span: self.span }
    }
}

/// The views of a sequence of events, in the same order.
pub open spec fn event_views(events: Seq<Event>) -> Seq<EventView> {
    Seq::new(events.len(), |i: int| events[i]@)
}

/// Which events a viewer shows.
#[derive(Debug, Clone, PartialEq, Eq)]
pub enum ViewBy {
    Any,
    Label(String),
}

pub enum ViewByView {
    Any,
    Label(Seq<char>),
}

impl View for ViewBy {
    type V = ViewByView;

    open spec fn view(&self) -> ViewByView {
        match self {
            ViewBy::Any => ViewByView::Any,
            ViewBy::Label(l) => ViewByView::Label(l@),
        }
    }
}

/// Whether a filter lets an event through: `Any` lets every event through, a
/// label only the events that carry it.
pub open spec fn matches_view(by: ViewByView, event: EventView) -> bool {
    match by {
        ViewByView::Any => true,
        ViewByView::Label(l) => event.label == l,
    }
}

/// The name of a filter as a viewer lists it.
pub open spec fn view_by_text(by: ViewByView) -> Seq<char> {
    match by {
        ViewByView::Any => "Any"@,
        ViewByView::Label(l) => "Label: "@ + l,
    }
}

impl ViewBy {
    /// Whether this filter lets `other` through.
    pub fn matching(&self, other: &Event) -> (r: bool)
        ensures
            r == matches_view(self@, other@),
    {
        match self {
            ViewBy::Any => true,
            ViewBy::Label(l) => other.label == *l,
        }
    }

    /// The name of this filter as a viewer lists it.
    pub fn text(&self) -> (r: String)
        ensures
            r@ == view_by_text(self@),
    {
        match self {
            ViewBy::Any => String::from_str("Any"),
            ViewBy::Label(l) => String::from_str("Label: ").concat(l.as_str()),
        }
    }
}

} // verus!

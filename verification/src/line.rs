//! One line of a log: `label:seqno,action,timestamp`, with anything after a
//! third comma ignored. A line without a colon takes no part.

use vstd::prelude::*;
use crate::error::{FmtErrorKind, FmtErrorKindView};
use crate::text::{find_from, next_at, number, parse_number, string_of};

verus! {

/// What a line reports of its event.
#[derive(Debug, Clone, Copy, PartialEq, Eq, Structural)]
pub enum Action {
    Start,
    End,
}

/// A well-formed line.
#[derive(Debug)]
pub struct Record {
    pub label: String,
    pub seqno: u32,
    pub action: Action,
    pub time: u64,
}

pub struct RecordView {
    pub label: Seq<char>,
    pub seqno: u32,
    pub action: Action,
    pub time: u64,
}

impl View for Record {
    type V = RecordView;

    open spec fn view(&self) -> RecordView {
        RecordView { label: self.label@, seqno: self.seqno, action: self.action, time: self.time }
    }
}

/// What a line turned out to be.
#[derive(Debug)]
pub enum Line {
    /// The line holds no colon.
    Skipped,
    /// The line is well formed.
    Record(Record),
    /// The line holds a colon, and what follows the label is malformed.
    Invalid { label: String, kind: FmtErrorKind },
}

pub enum LineView {
    Skipped,
    Record(RecordView),
    Invalid { label: Seq<char>, kind: FmtErrorKindView },
}

impl View for Line {
    type V = LineView;

    open spec fn view(&self) -> LineView {
        match self {
            Line::Skipped => LineView::Skipped,
            Line::Record(r) => LineView::Record(r@),
            Line::Invalid { label, kind } => LineView::Invalid { label: label@, kind: kind@ },
        }
    }
}

/// Whether a line takes part in parsing: it holds a colon.
pub open spec fn participates(line: Seq<char>) -> bool {
    next_at(line, ':', 0) < line.len()
}

/// The label of a line that takes part: what stands before its first colon.
pub open spec fn label_of(line: Seq<char>) -> Seq<char> {
    line.subrange(0, next_at(line, ':', 0))
}

/// The action that a token names.
pub open spec fn action_of(token: Seq<char>) -> Option<Action> {
    if token == "start"@ {
        Some(Action::Start)
    } else if token == "end"@ {
        Some(Action::End)
    } else {
        None
    }
}

/// The meaning of a line. The fields after the colon are checked in order:
/// the sequence number, the presence of an action, the action's name, the
/// presence and value of the timestamp. The first check that fails decides.
pub open spec fn line_spec(line: Seq<char>) -> LineView {
    let colon = next_at(line, ':', 0);
    let end0 = next_at(line, ',', colon + 1);
    let end1 = next_at(line, ',', end0 + 1);
    let end2 = next_at(line, ',', end1 + 1);
    let label = label_of(line);
    let syntax = LineView::Invalid { label, kind: FmtErrorKindView::SyntaxError };
    if !participates(line) {
        LineView::Skipped
    } else {
        match number(line.subrange(colon + 1, end0), u32::MAX as nat) {
            None => syntax,
            Some(seqno) => if end0 >= line.len() {
                syntax
            } else {
                let token = line.subrange(end0 + 1, end1);
                match action_of(token) {
                    None => LineView::Invalid {
                        label,
                        kind: FmtErrorKindView::InvalidAction(token),
                    },
                    Some(action) => if end1 >= line.len() {
                        syntax
                    } else {
                        match number(line.subrange(end1 + 1, end2), u64::MAX as nat) {
                            None => syntax,
                            Some(time) => LineView::Record(
                                RecordView {
                                    label,
                                    seqno: seqno as u32,
                                    action,
                                    time: time as u64,
                                },
                            ),
                        }
                    },
                }
            },
        }
    }
}

/// Reads the action that `s[from..to]` names.
pub fn action_at(s: &Vec<char>, from: usize, to: usize) -> (r: Option<Action>)
    requires
        from <= to <= s.len(),
    ensures
        r == action_of(s@.subrange(from as int, to as int)),
{
    let ghost token = s@.subrange(from as int, to as int);
    proof {
        reveal_strlit("start");
        reveal_strlit("end");
    }
    if to - from == 5 && s[from] == 's' && s[from + 1] == 't' && s[from + 2] == 'a' && s[from
        + 3] == 'r' && s[from + 4] == 't' {
        assert(token =~= "start"@);
        Some(Action::Start)
    } else if to - from == 3 && s[from] == 'e' && s[from + 1] == 'n' && s[from + 2] == 'd' {
        assert(token =~= "end"@);
        Some(Action::End)
    } else {
        assert(token != "start"@) by {
            if token.len() == 5 {
                assert(token[0] == s@[from + 0] && token[1] == s@[from + 1] && token[2] == s@[from
                    + 2] && token[3] == s@[from + 3] && token[4] == s@[from + 4]);
            }
        }
        assert(token != "end"@) by {
            if token.len() == 3 {
                assert(token[0] == s@[from + 0] && token[1] == s@[from + 1] && token[2] == s@[from
                    + 2]);
            }
        }
        None
    }
}

/// Reads one line.
pub fn parse_line(line: &Vec<char>) -> (r: Line)
    ensures
        r@ == line_spec(line@),
{
    let n = line.len();
    let colon = find_from(line, ':', 0);
    if colon >= n {
        return Line::Skipped;
    }
    let label = string_of(line, 0, colon);
    let end0 = find_from(line, ',', colon + 1);
    let seqno: u32 = match parse_number(line, colon + 1, end0, 0xffff_ffff) {
        None => {
            return Line::Invalid { label, kind: FmtErrorKind::SyntaxError };
        },
        Some(v) => v as u32,
    };
    if end0 >= n {
        return Line::Invalid { label, kind: FmtErrorKind::SyntaxError };
    }
    let end1 = find_from(line, ',', end0 + 1);
    let action = match action_at(line, end0 + 1, end1) {
        None => {
            let token = string_of(line, end0 + 1, end1);
            return Line::Invalid { label, kind: FmtErrorKind::InvalidAction(token) };
        },
        Some(a) => a,
    };
    if end1 >= n {
        return Line::Invalid { label, kind: FmtErrorKind::SyntaxError };
    }
    let end2 = find_from(line, ',', end1 + 1);
    let time: u64 = match parse_number(line, end1 + 1, end2, 0xffff_ffff_ffff_ffff) {
        None => {
            return Line::Invalid { label, kind: FmtErrorKind::SyntaxError };
        },
        Some(v) => v,
    };
    Line::Record(Record { label, seqno, action, time })
}

} // verus!

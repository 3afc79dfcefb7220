//! What can go wrong while a log is read.

use vstd::prelude::*;
use vstd::string::*;

verus! {

/// `std::io::Error`, carried through for callers that read the log from a
/// file. Nothing is claimed of its contents.
#[verifier::external_type_specification]
#[verifier::external_body]
pub struct ExIoError(std::io::Error);

/// Why a line of the log was refused.
#[derive(Debug)]
pub enum FmtErrorKind {
    /// The action field holds this token, which is neither `start` nor `end`.
    InvalidAction(String),
    /// A field is missing or is not a number of the expected width.
    SyntaxError,
}

pub enum FmtErrorKindView {
    InvalidAction(Seq<char>),
    SyntaxError,
}

impl View for FmtErrorKind {
    type V = FmtErrorKindView;

    open spec fn view(&self) -> FmtErrorKindView {
        match self {
            FmtErrorKind::InvalidAction(token) => FmtErrorKindView::InvalidAction(token@),
            FmtErrorKind::SyntaxError => FmtErrorKindView::SyntaxError,
        }
    }
}

/// The text shown for a refused line.
pub open spec fn message_text(kind: FmtErrorKindView) -> Seq<char> {
    match kind {
        FmtErrorKindView::InvalidAction(token) => "invalid action: `"@ + token + "`"@,
        FmtErrorKindView::SyntaxError => "Syntax Error!"@,
    }
}

impl FmtErrorKind {
    /// The text shown for this kind of error.
    pub fn message(&self) -> (r: String)
        ensures
            r@ == message_text(self@),
    {
        match self {
            FmtErrorKind::InvalidAction(token) => {
                String::from_str("invalid action: `").concat(token.as_str()).concat("`")
            },
            FmtErrorKind::SyntaxError => String::from_str("Syntax Error!"),
        }
    }
}

/// A failure to load a log.
#[derive(Debug)]
pub enum Error {
    /// The text could not be obtained. Raised by callers, never by the reader.
    IoError(std::io::Error),
    /// The line with this number, counted from zero, is malformed.
    FormatError { line_number: usize, kind: FmtErrorKind },
    /// The event with this label and sequence number ends before it starts.
    ReconstructionFault { label: String, seqno: u32 },
}

pub enum ErrorView {
    IoError,
    FormatError { line_number: nat, kind: FmtErrorKindView },
    ReconstructionFault { label: Seq<char>, seqno: u32 },
}

impl View for Error {
    type V = ErrorView;

    open spec fn view(&self) -> ErrorView {
        match self {
            Error::IoError(_) => ErrorView::IoError,
            Error::FormatError { line_number, kind } => ErrorView::FormatError {
                line_number: *line_number as nat,
                kind: kind@,
            },
            Error::ReconstructionFault { label, seqno } => ErrorView::ReconstructionFault {
                label: label@,
                seqno: *seqno,
            },
        }
    }
}

} // verus!

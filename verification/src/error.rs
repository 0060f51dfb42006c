//! Error values shared by every phase.

use crate::scanner::{Token, TokenView};
use vstd::prelude::*;
use vstd::string::*;

verus! {

/// What went wrong. `ParseError` carries the offending token.
#[derive(Clone, Debug)]
pub enum ErrorKind {
    IoError,
    ParseError(Token),
    UnknownChip,
    UnboundGeneric,
    GenericArityError,
    InvalidWidth,
    WidthMismatch,
    MultipleDrivers,
    UnknownPort,
    Recursion,
    CombinationalLoop,
    Unsupported,
    ComparatorMismatch,
    Other,
}

/// The mathematical value of an [`ErrorKind`].
pub enum ErrorKindView {
    IoError,
    ParseError(TokenView),
    UnknownChip,
    UnboundGeneric,
    GenericArityError,
    InvalidWidth,
    WidthMismatch,
    MultipleDrivers,
    UnknownPort,
    Recursion,
    CombinationalLoop,
    Unsupported,
    ComparatorMismatch,
    Other,
}

impl View for ErrorKind {
    type V = ErrorKindView;

    open spec fn view(&self) -> ErrorKindView {
        match *self {
            ErrorKind::IoError => ErrorKindView::IoError,
            ErrorKind::ParseError(t) => ErrorKindView::ParseError(t@),
            ErrorKind::UnknownChip => ErrorKindView::UnknownChip,
            ErrorKind::UnboundGeneric => ErrorKindView::UnboundGeneric,
            ErrorKind::GenericArityError => ErrorKindView::GenericArityError,
            ErrorKind::InvalidWidth => ErrorKindView::InvalidWidth,
            ErrorKind::WidthMismatch => ErrorKindView::WidthMismatch,
            ErrorKind::MultipleDrivers => ErrorKindView::MultipleDrivers,
            ErrorKind::UnknownPort => ErrorKindView::UnknownPort,
            ErrorKind::Recursion => ErrorKindView::Recursion,
            ErrorKind::CombinationalLoop => ErrorKindView::CombinationalLoop,
            ErrorKind::Unsupported => ErrorKindView::Unsupported,
            ErrorKind::ComparatorMismatch => ErrorKindView::ComparatorMismatch,
            ErrorKind::Other => ErrorKindView::Other,
        }
    }
}

/// An error: its kind and a one-line description.
#[derive(Clone, Debug)]
pub struct N2VError {
    pub msg: String,
    pub kind: ErrorKind,
}

/// The mathematical value of an [`N2VError`].
pub struct ErrorView {
    pub msg: Seq<char>,
    pub kind: ErrorKindView,
}

impl View for N2VError {
    type V = ErrorView;

    open spec fn view(&self) -> ErrorView {
        ErrorView { msg: self.msg@, kind: self.kind@ }
    }
}

/// The error that a parser reports at `token` with the description `msg`.
pub open spec fn parse_failure(token: TokenView, msg: Seq<char>) -> ErrorView {
    ErrorView { msg, kind: ErrorKindView::ParseError(token) }
}

impl N2VError {
    /// A parse error at `token`.
    pub fn parse(token: Token, msg: &str) -> (e: N2VError)
        ensures
            e@ == parse_failure(token@, msg@),
    {
        N2VError { msg: String::from_str(msg), kind: ErrorKind::ParseError(token) }
    }

    /// The description, as an owned string.
    pub fn to_string(&self) -> (s: String)
        ensures
            s@ == self.msg@,
    {
        self.msg.clone()
    }
}

} // verus!

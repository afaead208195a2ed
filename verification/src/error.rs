//! What can go wrong.

use vstd::prelude::*;

verus! {

/// What can go wrong when wires are built, stored or resolved.
#[derive(Debug)]
pub enum Error {
    /// The text is no wire id: empty, or not all ascii lowercase.
    InvalidWireId(String),
    /// The number does not fit in 16 bits.
    TooLargeValue(u64),
    /// A wire cannot be an input to itself.
    InputMatchesOutput(String),
    /// The shift amount exceeds 15.
    TooLargeShift(u8),
    /// The circuit already has a wire with this id.
    WireIdAlreadyExists(String),
    /// The circuit has no wire with this id.
    UnknownWireId(String),
    /// The circuit has a loop.
    CircuitLoop,
    /// The text is no gate.
    ParseGate(String),
    /// The text is no shift amount.
    ParseShift(String),
    /// The text of a wire lacks the arrow `" -> "`.
    ParseArrow(String),
}

/// An [`Error`] with the texts it carries as sequences of characters.
pub enum ErrorView {
    InvalidWireId(Seq<char>),
    TooLargeValue(u64),
    InputMatchesOutput(Seq<char>),
    TooLargeShift(u8),
    WireIdAlreadyExists(Seq<char>),
    UnknownWireId(Seq<char>),
    CircuitLoop,
    ParseGate(Seq<char>),
    ParseShift(Seq<char>),
    ParseArrow(Seq<char>),
}

impl View for Error {
    type V = ErrorView;

    open spec fn view(&self) -> ErrorView {
        match self {
            Error::InvalidWireId(s) => ErrorView::InvalidWireId(s@),
            Error::TooLargeValue(v) => ErrorView::TooLargeValue(*v),
            Error::InputMatchesOutput(s) => ErrorView::InputMatchesOutput(s@),
            Error::TooLargeShift(v) => ErrorView::TooLargeShift(*v),
            Error::WireIdAlreadyExists(s) => ErrorView::WireIdAlreadyExists(s@),
            Error::UnknownWireId(s) => ErrorView::UnknownWireId(s@),
            Error::CircuitLoop => ErrorView::CircuitLoop,
            Error::ParseGate(s) => ErrorView::ParseGate(s@),
            Error::ParseShift(s) => ErrorView::ParseShift(s@),
            Error::ParseArrow(s) => ErrorView::ParseArrow(s@),
        }
    }
}

} // verus!

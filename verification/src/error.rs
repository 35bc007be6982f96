//! The failures that decoding and encoding report.

use crate::base36::{decimal, decimal_text};
use vstd::prelude::*;
use vstd::string::StringExecFns;

verus! {

/// `std::io::Error`, carried through unread.
#[verifier::external_type_specification]
#[verifier::external_body]
pub struct ExIoError(std::io::Error);

/// What can go wrong while decoding or encoding the feed.
#[derive(Debug)]
#[allow(inconsistent_fields)]
pub enum PitchError {
    /// A message or header is shorter than its layout needs.
    InsufficientData { expected: usize, actual: usize },
    /// A message carries a tag that the feed does not define.
    InvalidMessageType(u8),
    /// A frame does not continue the sequence of its unit.
    InvalidSequence { expected: u32, actual: u32 },
    /// A failure of the byte source, passed through as it came.
    Io(std::io::Error),
    /// A field holds a value outside its domain, or a value has no encoding.
    Parse(String),
}

/// The mathematical content of a `PitchError`.
#[allow(inconsistent_fields)]
pub enum ErrorView {
    InsufficientData { expected: nat, actual: nat },
    InvalidMessageType(u8),
    InvalidSequence { expected: u32, actual: u32 },
    Io(std::io::Error),
    Parse(Seq<char>),
}

impl View for PitchError {
    type V = ErrorView;

    open spec fn view(&self) -> ErrorView {
        match *self {
            PitchError::InsufficientData { expected, actual } => ErrorView::InsufficientData {
                expected: expected as nat,
                actual: actual as nat,
            },
            PitchError::InvalidMessageType(tag) => ErrorView::InvalidMessageType(tag),
            PitchError::InvalidSequence { expected, actual } => ErrorView::InvalidSequence {
                expected,
                actual,
            },
            PitchError::Io(e) => ErrorView::Io(e),
            PitchError::Parse(text) => ErrorView::Parse(text@),
        }
    }
}

/// The text of the failure that names an unknown side byte.
pub open spec fn invalid_side_text(b: u8) -> Seq<char> {
    "Invalid side: "@ + decimal_text(b as nat)
}

/// The text of the failure that names an unknown trading-status byte.
pub open spec fn invalid_status_text(b: u8) -> Seq<char> {
    "Invalid trading status: "@ + decimal_text(b as nat)
}

/// The text of the failure for a message that has no encoding.
pub open spec fn unsupported_text() -> Seq<char> {
    "Unsupported message type"@
}

/// The text of the failure for a frame whose length does not fit its header.
pub open spec fn frame_too_long_text() -> Seq<char> {
    "Frame too long"@
}

/// The failure for a side byte that is neither `B` nor `S`.
pub fn invalid_side(b: u8) -> (e: PitchError)
    ensures
        e@ == ErrorView::Parse(invalid_side_text(b)),
{
    let mut text = String::from_str("Invalid side: ");
    let number = decimal(b as u64);
    text.append(number.as_str());
    PitchError::Parse(text)
}

/// The failure for a trading-status byte outside the status alphabet.
pub fn invalid_status(b: u8) -> (e: PitchError)
    ensures
        e@ == ErrorView::Parse(invalid_status_text(b)),
{
    let mut text = String::from_str("Invalid trading status: ");
    let number = decimal(b as u64);
    text.append(number.as_str());
    PitchError::Parse(text)
}

/// The failure for a message that has no encoding.
pub fn unsupported() -> (e: PitchError)
    ensures
        e@ == ErrorView::Parse(unsupported_text()),
{
    PitchError::Parse(String::from_str("Unsupported message type"))
}

/// The failure for a frame whose length does not fit its header.
pub fn frame_too_long() -> (e: PitchError)
    ensures
        e@ == ErrorView::Parse(frame_too_long_text()),
{
    PitchError::Parse(String::from_str("Frame too long"))
}

} // verus!

//! The failure kinds of the interpreter.
//!
//! Every parse-time failure is fatal for the whole run: the caller reports
//! the offending line and stops without finalizing any output.

use vstd::prelude::*;

verus! {

/// What went wrong while interpreting a line of notation.
#[derive(Clone, Copy, Debug, PartialEq, Eq, Structural)]
pub enum ErrorKind {
    /// A token that starts with a digit is not a well-formed note length.
    InvalidLength,
    /// A token that should name a pitch (or a rest) has no such shape.
    InvalidPitch,
    /// A capture sigil whose key body is not purely alphabetic.
    InvalidCaptureToken,
    /// A replay refers to a key that was never declared.
    KeyNotFound,
    /// A replay refers to a key whose buffer holds no chord yet.
    BufferEmpty,
    /// A repeat trigger refers to a volta index that was never opened.
    VoltaNotFound,
    /// A volta that is expected to hold content is empty.
    VoltaEmpty,
    /// Chords with differing length or size were merged.
    MalformedChord,
    /// A line of zero size reached the synthesizer.
    LineEmpty,
    /// A note of zero length, or a note rendered while the tempo is unset.
    InvalidTiming,
    /// Two adjacent tokens that the chord grammar does not allow, or a
    /// repeat-control token of no recognized shape.
    InvalidTokenSequence,
}

} // verus!

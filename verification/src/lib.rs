//! A verified interpreter for a line-oriented plain-text music notation.
//!
//! Each input line either sets the tempo, controls a repeat/volta structure,
//! or describes a simultaneity of notes to render.  The library turns lines
//! into [`chords::Line`] values, tracks named chord captures and repeat
//! sessions, and folds lines into a 16-bit sample accumulator whose contents
//! are drained in notation order.  Everything that computes is specified and
//! verified; reading input, writing the output file and the floating-point
//! sine evaluation live outside the library.

pub mod captures;
pub mod chords;
pub mod errors;
pub mod input;
pub mod notes;
pub mod repeats;
pub mod wav;
pub mod waveform;

//! Recitation of a play from per-character dialogue tracks.
//!
//! Each character's lines are numbered by position. A tick sweep merges the tracks into one
//! recitation and notices silent ticks, overlapping speakers and duplicate lines per speaker; a
//! global sort by position, name and text gives a simpler recitation without those checks.

pub mod config;
pub mod diagnostics;
pub mod laws;
pub mod play;
pub mod player;
pub mod script_gen;
pub mod text;

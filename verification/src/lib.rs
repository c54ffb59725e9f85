//! Preset library, routing memory and cue scripting for a stage pad player.
//!
//! The modules hold the data model (musical keys, presets, settings), the
//! folder scan that maps pad files to keys, and the text built for the
//! speech engine. Reading folders, playing audio and running the speech
//! engine happen outside this crate; it works on the values they hand in.

pub mod clock;
pub mod cues;
pub mod key;
pub mod library;
pub mod model;
pub mod order;
pub mod pad;
pub mod text;

//! Pieces of the note grammar: buttons, modifier letters and slide segments, read from
//! a character sequence with diagnostics recorded in a `State`.
pub mod utils;

pub mod note;

//! Building blocks of the note exporter: sensor numbering, slide descriptions, the
//! grouping and merge decisions, the simultaneity check and command-line handling.
pub mod cli;
pub mod filter;
pub mod grouping;
pub mod merge;
pub mod select;
pub mod sensor;
pub mod types;

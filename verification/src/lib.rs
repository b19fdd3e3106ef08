//! Reading maidata chart files and the chart-export helpers built on them.
pub mod insn;
pub mod text;
pub mod heatmap;
pub mod note_export;
pub mod diag;
pub mod maidata_file;
pub mod container;
pub mod transform;
pub mod judge;
pub mod dataset;
pub mod parser;

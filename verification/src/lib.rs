//! Core of `aadc`, an aligner for the right-hand borders of ASCII and
//! Unicode box-drawing diagrams embedded in plain text.
//!
//! The pipeline: a quick scan decides whether a document is worth
//! processing; tabs are expanded against visual tab stops; contiguous
//! runs of boxy lines are grouped into diagram blocks with a confidence
//! score; and each block is corrected by an iterative, score-filtered,
//! insert-only revision loop until its right borders share one visual
//! column.
//!
//! All edits are monotone: a corrected line is a supersequence of the
//! line it came from, and lines without diagram structure pass through
//! byte-identical (up to tab expansion).

pub mod analyze;
pub mod blocks;
pub mod chars;
pub mod config;
pub mod correct;
pub mod hooks;
pub mod input;
pub mod laws;
pub mod num;
pub mod ranges;
pub mod revise;
pub mod scan;
pub mod style;
pub mod tabs;
pub mod text;

//! Parsing of ranked-match reports into tabular records, and the
//! per-class enrichment statistics computed from them.
pub mod error;
pub mod index;
pub mod join;
pub mod report;
pub mod sampling;
pub mod stats;
pub mod tables;
pub mod text;

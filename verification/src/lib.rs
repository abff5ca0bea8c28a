//! A single-pass ingestion-and-aggregation engine for `key;value` records.
//!
//! The library scans a byte buffer of `KEY;VALUE\n` lines in fixed-size
//! windows, decodes each fixed-point numeric value, accumulates per-key
//! minimum / average / maximum summaries in a fixed-capacity open-addressing
//! table, and renders the sorted report. Buffers may be split into
//! overlapping shards that are scanned independently and merged.

pub mod build_table;
pub mod error;
pub mod inline_string;
pub mod laws;
pub mod reading;
pub mod records;
pub mod report;
pub mod scanner;
pub mod slicer;
pub mod str_hash;
pub mod summary;
pub mod table;
pub mod table_entry;
pub mod util;

//! Log ingestion and pattern grouping.
//!
//! The library turns raw log lines into structured events (timestamp,
//! severity level, message) and clusters events whose messages differ only
//! in variable parts (numbers, UUIDs, IPv4 addresses) into frequency-ranked
//! groups with incrementally maintained aggregates.

pub mod grouper;
pub mod ingest;
pub mod models;
pub mod norm;
pub mod scan;
pub mod text;
pub mod timeparse;

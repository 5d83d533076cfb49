//! Interval-based status history for a transit status feed: change detection
//! over schema-less documents, an interval store with atomic transitions, range
//! queries, and the presentation of parsed statuses as merged spans.

pub mod change;
pub mod config;
pub mod document;
pub mod history;
pub mod lifecycle;
pub mod parser;
pub mod query;
pub mod runs;
pub mod stations;
pub mod store;
pub mod types;

//! Merges calendar feeds into one: shifts time zones, filters to a future window,
//! hides details, expands weekly recurrences and merges overlapping events.
pub mod cache;
pub mod config;
pub mod error;
pub mod event;
pub mod merge;
pub mod recur;
pub mod redact;
pub mod rule;
pub mod shift;
pub mod sources;
pub mod time;
pub mod window;

//! A file-based watch-progress tracker for television series.
//!
//! A tracked series is a plain-text record, one line per season in the form
//! `watched/episodes`. The library parses such records, advances or rewinds
//! the watched counts across season boundaries, merges freshly fetched season
//! data into an existing record, and serializes the record back to text.

pub mod digits;
pub mod episodate;
pub mod onlineserie;
pub mod serie;

//! Incremental search and aggregation engine for a launcher.
//!
//! The crate models launchable entries as [`item::Item`] values, filters them
//! with pluggable [`matcher::Matcher`] strategies, keeps a selection-stable
//! interactive [`session`], merges provider batches fail-fast in
//! [`aggregate`], and round-trips the merged list through the [`cache`]
//! text format.  A host layer supplies rendering, raw input events, HTTP
//! transport and file storage; everything here is pure in-memory logic.

pub mod aggregate;
pub mod cache;
pub mod item;
pub mod matcher;
pub mod provider;
pub mod session;
pub mod strutil;

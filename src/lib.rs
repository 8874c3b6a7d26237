//! Scans a file tree into a compact table of entries and measures how much
//! of its content is duplicated.
//!
//! - `pathstore`: each path stored once per shared prefix, under a dense index;
//! - `table`: one entry per scanned file, sorted and unique by path, with an
//!   arena for inline content;
//! - `merge`: how new entries replace old ones with the same path;
//! - `digest`: content fingerprints;
//! - `analysis`: grouping by digest and the bytes saved by deduplication;
//! - `dedup`: the session that ties a tree, its stored table and the reports.

pub mod analysis;
pub mod bimaps;
pub mod dedup;
pub mod digest;
pub mod merge;
pub mod order;
pub mod pathstore;
pub mod table;

//! Leaf storage for a rope: a gap-buffered chunk of UTF-8 text, read through
//! immutable slices that can be summarized, split by a metric, and truncated
//! at character or line-break granularity, while keeping every segment on
//! UTF-8 boundaries.

pub mod summary;
pub mod utf8_facts;
pub mod metric;
pub mod gap_slice;

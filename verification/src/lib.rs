//! Verified core of a home media library toolkit.
//!
//! The heart of the library is a filesystem tree aggregation and interactive
//! selection engine: it builds a hierarchical size model of a directory tree,
//! re-orders it under sort policies, renders reports, and maintains tri-state
//! selection semantics for safe bulk deletion. Around it stand the pure parts
//! of the neighbouring tools: a size formatter, a search-query builder, a
//! filename-cleaning and matching heuristic, and trickplay bookkeeping.

pub mod codec;
pub mod order;
pub mod progress;
pub mod query;
pub mod relink;
pub mod rename;
pub mod report;
pub mod select;
pub mod sizefmt;
pub mod text;
pub mod trickplay;
pub mod tree;

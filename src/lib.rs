//! Spatial reordering of a flat OpenStreetMap archive along a Hilbert curve.
//!
//! Entities are keyed by the Hilbert index of a representative point, sorted
//! by that key, and then copied into fresh tables in key order. Each copied
//! entity's child ranges (tags, node references) are rebuilt as contiguous
//! slices of the new index tables.

pub mod types;
pub mod hilbert;
pub mod ranges;
pub mod remap;
pub mod sort;
pub mod reorder;
pub mod geometry;
pub mod pairs;

//! Chunk residency tracking for a terrain streamed in square tiles around a
//! moving viewer.
//!
//! The world is an infinite uniform grid of square cells (`chunk_size` wide on
//! each axis). A tracker maintains which tiles are currently materialized,
//! keyed by grid coordinate. Each cycle the caller hands it the viewer's
//! position; when the viewer's tile changes, the tracker diffs the nine-tile
//! desired neighborhood against the resident set and returns the coordinates
//! to create and the entries to destroy. Creating and destroying the actual
//! renderable tiles is the caller's business: the tracker only hands out work
//! descriptions and records the handles the caller registers back.

use vstd::prelude::*;

pub mod coords;
pub mod entries;
pub mod laws;
pub mod texture;
pub mod tracker;

pub use coords::GridCoord;
pub use entries::TileHandle;
pub use tracker::ChunkTracker;

verus! {

} // verus!

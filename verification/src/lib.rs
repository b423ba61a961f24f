//! Core of a quadtree-tiled map viewer: tile-key algebra, a sparse quadtree,
//! viewport range enumeration, the in-memory drawable cache with time-based
//! eviction, the fetch deduplication state machine, and ancestor-fallback
//! clipping.

pub mod clip;
pub mod fetch;
pub mod map_state;
pub mod mem_cache;
pub mod mvt;
pub mod qtree;
pub mod tile_cache;

use vstd::prelude::*;

verus! {

/// Relies on std::time::SystemTime: milliseconds since the Unix epoch, or 0
/// when the clock reads earlier than the epoch.
#[verifier::external_body]
pub fn curr_time_millis() -> u128 {
    std::time::SystemTime::now()
        .duration_since(std::time::UNIX_EPOCH)
        .map(|d| d.as_millis())
        .unwrap_or(0)
}

} // verus!

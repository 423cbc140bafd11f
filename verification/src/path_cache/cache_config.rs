//! The settings of a cache.

use vstd::prelude::*;

verus! {

/// Settings of a [`PathCache`](super::PathCache).
#[derive(Clone, Copy, Debug)]
pub struct PathCacheConfig {
    /// The width and height of a chunk.
    pub chunk_size: usize,
    /// Whether the points of the paths between nodes are stored.
    ///
    /// Without them the cache takes less memory, and
    /// [`safe_next`](crate::abstract_path::AbstractPath::safe_next) has to be used to walk
    /// along a path.
    pub cache_paths: bool,
    /// Whether short paths are searched for on the grid itself, which makes them optimal.
    pub a_star_fallback: bool,
}

impl PathCacheConfig {
    /// The default settings with another chunk size.
    pub fn with_chunk_size(chunk_size: usize) -> (config: Self)
        ensures
            config.chunk_size == chunk_size,
            config.cache_paths,
            config.a_star_fallback,
    {
        PathCacheConfig { chunk_size, cache_paths: true, a_star_fallback: true }
    }
}

impl Default for PathCacheConfig {
    fn default() -> (config: Self)
        ensures
            config.chunk_size == 8,
            config.cache_paths,
            config.a_star_fallback,
    {
        PathCacheConfig::with_chunk_size(8)
    }
}

} // verus!

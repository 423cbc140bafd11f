//! Hierarchical pathfinding on grids.

pub mod abstract_path;
pub mod course;
pub mod dir;
pub mod graph;
mod grid;
mod heap;
pub mod key_map;
pub mod laws;
pub mod neighbors;
pub mod path;
pub mod path_cache;
pub mod prelude;
pub mod search;
pub mod terrain;
pub mod walk;

use vstd::prelude::*;

verus! {

/// A position on the grid: column first, then row.
pub type Point = (usize, usize);

/// The number of a node of the cache.
pub type NodeID = usize;

/// The cost of a path, or of walking over a tile.
pub type Cost = usize;

} // verus!

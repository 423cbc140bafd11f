//! The items that are needed to use the library.

pub use crate::abstract_path::AbstractPath;
pub use crate::neighbors::{ManhattanNeighborhood, MooreNeighborhood, Neighborhood};
pub use crate::path_cache::{PathCache, PathCacheConfig};

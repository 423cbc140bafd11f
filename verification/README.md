# Hierarchical pathfinding

Finds paths on a grid over a cache of path segments. The grid is divided into chunks; at the
borders of the chunks there are nodes, connected by cheapest paths within the chunks and by
single steps across the borders. A path is searched for from node to node, which is a lot
faster than from tile to tile, and is completed at its ends.

- A path is found if and only if there is one.
- Its cost is an upper bound of what the cheapest path costs. Where the estimates of the
  neighborhood never drop by more than a step costs, it is at most the cost of a cheapest way
  over the nodes, with the shortest ways within the chunks at its ends.
- The path is the same each time; to a single goal, `find_paths` gives that of `find_path`.
- The closest goal is the one to which the cheapest of the paths to the goals leads that
  `find_paths` gives; of several, the first one.
- After `tiles_changed` the cache is one of the changed grid, with nodes at its entrances and
  those that the change does not concern.

These are stated in the contracts of `PathCache` and proved with Verus.

```rust
use hierarchical_pathfinding::prelude::*;

let mut pathfinding = PathCache::new(
    (width, height),
    |(x, y)| walking_cost(x, y),
    ManhattanNeighborhood::new(width, height),
    PathCacheConfig::with_chunk_size(3),
);

if let Some(mut path) = pathfinding.find_path((0, 0), (4, 4), |(x, y)| walking_cost(x, y)) {
    println!("{} steps, {} in total", path.length(), path.cost());
    while let Some((x, y)) = path.next() {
        println!("go to {}, {}", x, y);
    }
}
```

## Layout

- `src/path_cache/`: the cache. `mod.rs` has its invariant, `creation.rs`, `find.rs` and
  `changes.rs` what callers use; `chunk.rs`, `connect.rs`, `resolve.rs`, `renew.rs`,
  `update.rs` and `reconnect.rs` the work behind it; `layout.rs`, `entrance.rs`, `links.rs`,
  `limits.rs`, `detour.rs` and `outcome.rs` what the contracts are stated in.
- `src/graph/`, `src/grid/`: the nodes, and the searches over nodes and over tiles, both built
  on `src/search.rs` and `src/heap.rs`; `src/course.rs` says which way a search takes.
- `src/terrain.rs`, `src/walk.rs`: the grid and walks as the specifications see them.
- `src/laws.rs`, `src/laws/`: what holds of the library as a whole, and of updates.
- `src/path_cache/parallel.rs`, `src/path_cache/index_set.rs`: the calls into rayon and
  hashbrown, whose contracts are taken on trust.
- `tests/`: tests of the compiled library.
- `app/`: printing the nodes of a cache.

The costs of the tiles have to be small enough for the cost of every path to fit in a machine
word; `fits` in `limits.rs` gives a bound that suffices.

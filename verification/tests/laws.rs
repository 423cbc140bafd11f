use hierarchical_pathfinding::prelude::{
    AbstractPath, ManhattanNeighborhood, MooreNeighborhood, PathCache, PathCacheConfig,
};

/// A grid of open ground with a wall that has a gap in its lowest row.
fn with_wall(wall: usize, size: usize) -> impl Sync + Fn((usize, usize)) -> isize {
    move |(x, y)| {
        if x == wall && y + 1 < size {
            -1
        } else {
            1 + ((x + 2 * y) % 3) as isize
        }
    }
}

fn points(mut path: AbstractPath<ManhattanNeighborhood>) -> Vec<(usize, usize)> {
    let mut points = vec![];
    while let Some(point) = path.next() {
        points.push(point);
    }
    points
}

#[test]
fn the_way_back_costs_the_other_end() {
    let get_cost = with_wall(4, 9);
    let cache = PathCache::new(
        (9, 9),
        &get_cost,
        ManhattanNeighborhood::new(9, 9),
        PathCacheConfig::with_chunk_size(9),
    );
    let (a, b) = ((0, 0), (8, 1));
    let there = cache.find_path(a, b, &get_cost).unwrap();
    let back = cache.find_path(b, a, &get_cost).unwrap();
    assert_eq!(
        there.cost() + get_cost(b) as usize,
        back.cost() + get_cost(a) as usize
    );
}

#[test]
fn short_paths_are_optimal() {
    // the way over the nodes is short, so the path is searched for on the grid itself
    for chunk_size in 4..7 {
        let cache = PathCache::new(
            (12, 12),
            |_| 1,
            MooreNeighborhood::new(12, 12),
            PathCacheConfig::with_chunk_size(chunk_size),
        );
        let path = cache.find_path((2, 2), (5, 6), |_| 1).unwrap();
        assert_eq!(path.cost(), 4);
        assert_eq!(path.length(), 4);
    }
}

#[test]
fn without_the_fallback_paths_lead_over_nodes() {
    let config = PathCacheConfig {
        chunk_size: 4,
        a_star_fallback: false,
        ..Default::default()
    };
    let around = ManhattanNeighborhood::new(8, 4);
    let cache = PathCache::new((8, 4), |_| 1, around, config);
    let path = cache.find_path((3, 1), (4, 1), |_| 1).unwrap();
    let walked = points(path.clone());
    assert_eq!(walked.len(), path.length());
    assert_eq!(walked[walked.len() - 1], (4, 1));
    // over the nodes at the ends of the border
    assert_eq!(path.cost(), 3);
    let near = PathCache::new((8, 4), |_| 1, around, PathCacheConfig::with_chunk_size(4));
    assert_eq!(near.find_path((3, 1), (4, 1), |_| 1).unwrap().cost(), 1);
}

#[test]
fn nodes_away_from_a_change_stay() {
    let size = 20;
    let config = PathCacheConfig::with_chunk_size(5);
    let around = ManhattanNeighborhood::new(size, size);
    let mut cache = PathCache::new((size, size), |_| 1, around, config);
    let mut before = vec![];
    let mut inspector = cache.inspect_nodes();
    while let Some(node) = inspector.next() {
        before.push((node.id(), node.pos()));
    }
    let get_cost = |p: (usize, usize)| if p == (4, 4) { -1 } else { 1 };
    cache.tiles_changed(&[(4, 4)], get_cost);
    let inspector = cache.inspect_nodes();
    let mut kept = 0;
    for (id, pos) in before {
        if pos.0 >= 10 || pos.1 >= 10 || (pos.0 >= 5 && pos.1 >= 5) {
            assert_eq!(inspector.get_node(id).pos(), pos);
            kept += 1;
        }
    }
    assert!(kept > 0);
}

#[test]
fn connections_are_cheapest_within_their_chunk() {
    let get_cost = with_wall(2, 6);
    let cache = PathCache::new(
        (6, 6),
        &get_cost,
        ManhattanNeighborhood::new(6, 6),
        PathCacheConfig::with_chunk_size(3),
    );
    let mut inspector = cache.inspect_nodes();
    let mut seen = 0;
    while let Some(node) = inspector.next() {
        for (other, cost) in node.connected() {
            let (a, b) = (node.pos(), other.pos());
            if a.0 / 3 != b.0 / 3 || a.1 / 3 != b.1 / 3 {
                // a single step over the border
                assert_eq!(a.0.abs_diff(b.0) + a.1.abs_diff(b.1), 1);
                assert_eq!(cost, get_cost(a) as usize);
            } else {
                let path = cache.find_path(a, b, &get_cost).unwrap();
                assert!(path.cost() <= cost);
            }
            seen += 1;
        }
    }
    assert!(seen > 0);
}

#[test]
fn stored_points_or_not() {
    let get_cost = with_wall(4, 9);
    let config = |cache_paths| PathCacheConfig {
        chunk_size: 3,
        cache_paths,
        a_star_fallback: false,
    };
    let around = ManhattanNeighborhood::new(9, 9);
    let stored = PathCache::new((9, 9), &get_cost, around, config(true));
    let searched = PathCache::new((9, 9), &get_cost, around, config(false));
    let (a, b) = ((0, 0), (8, 0));
    let one = stored.find_path(a, b, &get_cost).unwrap();
    let mut other = searched.find_path(a, b, &get_cost).unwrap();
    assert_eq!(one.cost(), other.cost());
    let mut walked = vec![];
    while let Some(point) = other.safe_next(&get_cost) {
        walked.push(point);
    }
    let known = points(one);
    assert_eq!(known[known.len() - 1], b);
    assert_eq!(walked[walked.len() - 1], b);
}

#[test]
fn chunks_have_different_indices() {
    let cache = PathCache::new(
        (7, 5),
        |_| 1,
        ManhattanNeighborhood::new(7, 5),
        PathCacheConfig::with_chunk_size(3),
    );
    for y in 0..5 {
        for x in 0..7 {
            assert_eq!(cache.get_chunk_index((x, y)), y / 3 * 3 + x / 3);
        }
    }
    // a point beyond the grid has an index as well
    assert_eq!(cache.get_chunk_index((8, 7)), 8);
    assert_eq!(cache.get_chunk_index((10, 1)), 3);
}

#[test]
fn updated_costs_are_used() {
    let mut cache = PathCache::new(
        (6, 1),
        |_| 1,
        ManhattanNeighborhood::new(6, 1),
        PathCacheConfig::with_chunk_size(2),
    );
    assert_eq!(cache.find_path((0, 0), (5, 0), |_| 1).unwrap().cost(), 5);
    let get_cost = |p: (usize, usize)| if p == (2, 0) { 10 } else { 1 };
    cache.tiles_changed(&[(2, 0)], get_cost);
    assert_eq!(cache.find_path((0, 0), (5, 0), get_cost).unwrap().cost(), 14);
    cache.tiles_changed(&[(2, 0), (3, 0)], |p| if p == (3, 0) { -1 } else { 1 });
    let get_cost = |p: (usize, usize)| if p == (3, 0) { -1 } else { 1 };
    assert!(cache.find_path((0, 0), (5, 0), get_cost).is_none());
    assert_eq!(cache.find_path((0, 0), (2, 0), get_cost).unwrap().cost(), 2);
}

#[test]
fn unaffected_paths_stay() {
    let mut cache = PathCache::new(
        (12, 12),
        |_| 1,
        ManhattanNeighborhood::new(12, 12),
        PathCacheConfig::with_chunk_size(4),
    );
    let before = points(cache.find_path((0, 0), (3, 0), |_| 1).unwrap());
    let get_cost = |p: (usize, usize)| if p == (9, 9) { -1 } else { 1 };
    cache.tiles_changed(&[(9, 9)], get_cost);
    let path = cache.find_path((0, 0), (3, 0), get_cost).unwrap();
    assert_eq!(path.cost(), 3);
    assert_eq!(points(path), before);
}

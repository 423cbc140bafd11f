use hierarchical_pathfinding::prelude::{
    ManhattanNeighborhood, MooreNeighborhood, Neighborhood, PathCache, PathCacheConfig,
};

type Point = (usize, usize);

/// A connection: the node that it leads to, and what it costs.
type Connection = (Point, usize);

/// The positions of the nodes, with their connections.
fn nodes<N: Neighborhood>(cache: &PathCache<N>) -> Vec<(Point, Vec<Connection>)> {
    let mut nodes = vec![];
    let mut inspector = cache.inspect_nodes();
    while let Some(node) = inspector.next() {
        let mut connected = vec![];
        for (other, cost) in node.connected() {
            connected.push((other.pos(), cost));
        }
        connected.sort();
        nodes.push((node.pos(), connected));
    }
    nodes.sort();
    nodes
}

/// The numbers of the nodes, with their positions.
fn numbers<N: Neighborhood>(cache: &PathCache<N>) -> Vec<(usize, Point)> {
    let mut numbers = vec![];
    let mut inspector = cache.inspect_nodes();
    while let Some(node) = inspector.next() {
        numbers.push((node.id(), node.pos()));
    }
    numbers
}

fn straight(
    size: (usize, usize),
    chunk_size: usize,
    get_cost: impl Sync + Fn(Point) -> isize,
) -> PathCache<ManhattanNeighborhood> {
    PathCache::new(
        size,
        get_cost,
        ManhattanNeighborhood::new(size.0, size.1),
        PathCacheConfig::with_chunk_size(chunk_size),
    )
}

fn only_open(open: &'static [Point]) -> impl Sync + Fn(Point) -> isize {
    move |p| if open.contains(&p) { 1 } else { -1 }
}

#[test]
fn a_tile_without_a_way_out_is_no_entrance() {
    let cache = straight((4, 4), 2, only_open(&[(1, 1)]));
    assert_eq!(nodes(&cache), vec![]);
    // the diagonal step is not one of the straight neighborhood
    let cache = straight((4, 4), 2, only_open(&[(1, 1), (2, 2)]));
    assert_eq!(nodes(&cache), vec![]);
    assert!(cache.find_path((1, 1), (2, 2), only_open(&[(1, 1), (2, 2)])).is_none());
    // neither is one along a border
    let cache = straight((6, 6), 3, only_open(&[(1, 2), (2, 3)]));
    assert_eq!(nodes(&cache), vec![]);
}

#[test]
fn diagonal_steps_lead_out() {
    let get_cost = only_open(&[(1, 1), (2, 2)]);
    let cache = PathCache::new(
        (4, 4),
        &get_cost,
        MooreNeighborhood::new(4, 4),
        PathCacheConfig::with_chunk_size(2),
    );
    assert_eq!(
        nodes(&cache),
        vec![((1, 1), vec![((2, 2), 1)]), ((2, 2), vec![((1, 1), 1)])]
    );
    assert_eq!(cache.find_path((1, 1), (2, 2), &get_cost).unwrap().cost(), 1);
    let get_cost = only_open(&[(1, 2), (2, 3)]);
    let cache = PathCache::new(
        (6, 6),
        &get_cost,
        MooreNeighborhood::new(6, 6),
        PathCacheConfig::with_chunk_size(3),
    );
    assert_eq!(
        nodes(&cache),
        vec![((1, 2), vec![((2, 3), 1)]), ((2, 3), vec![((1, 2), 1)])]
    );
}

#[test]
fn straight_nodes_lead_out() {
    let get_cost = |(x, y): Point| if (x * 5 + y * 3) % 7 < 3 { -1 } else { 1 };
    let cache = straight((11, 9), 3, get_cost);
    let mut seen = 0;
    for ((x, y), _) in nodes(&cache) {
        let mut around = vec![(x + 1, y), (x, y + 1)];
        if x > 0 {
            around.push((x - 1, y));
        }
        if y > 0 {
            around.push((x, y - 1));
        }
        assert!(around.iter().any(|q| {
            q.0 < 11 && q.1 < 9 && get_cost(*q) >= 0 && (q.0 / 3, q.1 / 3) != (x / 3, y / 3)
        }));
        seen += 1;
    }
    assert!(seen > 0);
}

#[test]
fn a_single_chunk_has_no_nodes() {
    for chunk_size in [5, 6, 100] {
        let cache = straight((5, 4), chunk_size, |_| 1);
        assert_eq!(nodes(&cache), vec![]);
        assert_eq!(cache.find_path((0, 0), (4, 3), |_| 1).unwrap().cost(), 7);
    }
    assert!(!nodes(&straight((5, 4), 4, |_| 1)).is_empty());
}

#[test]
fn an_update_of_no_tiles_changes_nothing() {
    let get_cost = |(x, y): Point| ((x + y) % 3) as isize;
    let mut cache = straight((10, 10), 4, get_cost);
    let (before, ids) = (nodes(&cache), numbers(&cache));
    cache.tiles_changed(&[], get_cost);
    assert_eq!(nodes(&cache), before);
    assert_eq!(numbers(&cache), ids);
    cache.tiles_changed_with_fn_mut(&[], get_cost);
    assert_eq!(nodes(&cache), before);
    assert_eq!(numbers(&cache), ids);
}

#[test]
fn an_update_without_a_change_keeps_the_nodes() {
    let get_cost = |(x, y): Point| if (x * y) % 5 == 2 { -1 } else { 1 };
    let mut cache = straight((10, 10), 4, get_cost);
    let before = nodes(&cache);
    cache.tiles_changed(&[(3, 3), (4, 0), (8, 9), (3, 3), (5, 5)], get_cost);
    assert_eq!(nodes(&cache), before);
}

#[test]
fn the_order_of_the_tiles_is_irrelevant() {
    let get_cost = |p: Point| if p == (3, 3) || p == (4, 1) { -1 } else { 1 };
    let cache = straight((10, 10), 4, |_| 1);
    let mut results = vec![];
    for tiles in [
        vec![(3, 3), (4, 1), (7, 7)],
        vec![(7, 7), (4, 1), (3, 3)],
        vec![(4, 1), (3, 3), (4, 1), (7, 7), (7, 7)],
    ] {
        let mut updated = cache.clone();
        updated.tiles_changed(&tiles, get_cost);
        results.push(nodes(&updated));
        let mut updated = cache.clone();
        updated.tiles_changed_with_fn_mut(&tiles, get_cost);
        results.push(nodes(&updated));
    }
    for result in results.iter() {
        assert_eq!(result, &results[0]);
    }
}

#[test]
fn nodes_that_a_change_does_not_concern_stay_or_go() {
    // the wall leaves a passage between (1, 2) and (1, 3) and one between (3, 2) and (3, 3)
    let wall = |p: Point| if p.1 == 2 && p.0 % 2 == 0 { -1 } else { 1 };
    let mut cache = straight((5, 6), 3, wall);
    let at = |cache: &PathCache<ManhattanNeighborhood>, p: Point| {
        nodes(cache).iter().any(|node| node.0 == p)
    };
    assert!(at(&cache, (1, 2)) && at(&cache, (1, 3)));
    // the tile across closes: the entrances at the border are looked at again
    let closed = |p: Point| if p == (1, 3) { -1 } else { wall(p) };
    cache.tiles_changed(&[(1, 3)], closed);
    assert!(!at(&cache, (1, 2)) && !at(&cache, (1, 3)));
    cache.tiles_changed(&[(1, 3)], wall);
    assert!(at(&cache, (1, 2)) && at(&cache, (1, 3)));
}

#[test]
fn the_closest_goal_is_the_cheapest() {
    let get_cost = |p: Point| if p == (1, 0) { 100 } else { 1 };
    let cache = straight((9, 1), 3, get_cost);
    let (goal, path) = cache
        .find_closest_goal((3, 0), &[(0, 0), (8, 0)], get_cost)
        .unwrap();
    assert_eq!(goal, (8, 0));
    assert_eq!(path.cost(), 5);
    let cache = straight((4, 1), 2, |_| 1);
    for goals in [[(2, 0), (3, 0)], [(3, 0), (2, 0)]] {
        let (goal, path) = cache.find_closest_goal((0, 0), &goals, |_| 1).unwrap();
        assert_eq!(goal, (2, 0));
        assert_eq!(path.cost(), 2);
    }
}

#[test]
fn a_single_goal_is_found_as_such() {
    let get_cost = |p: Point| if p.0 == 4 { -1 } else { 1 };
    let cache = straight((9, 3), 3, get_cost);
    for goal in [(3, 2), (8, 0), (4, 0)] {
        let path = cache.find_path((0, 0), goal, get_cost);
        let paths = cache.find_paths((0, 0), &[goal], get_cost);
        assert_eq!(path.is_some(), paths.contains_key(&goal));
        if let Some(path) = path {
            assert_eq!(path.cost(), paths.get(&goal).unwrap().cost());
        }
    }
}

#[test]
fn inspectors_can_be_copied_and_printed() {
    let cache = straight((6, 1), 3, |_| 1);
    let mut inspector = cache.inspect_nodes();
    let node = inspector.next().unwrap();
    let copy = node;
    assert_eq!(copy.id(), node.id());
    assert_eq!(copy.pos(), node.pos());
    assert!(format!("{:?}", node).contains(&format!("{:?}", node.pos())));
    assert!(format!("{:?}", inspector).contains(&format!("{:?}", node.pos())));
}

use hierarchical_pathfinding::prelude::{
    AbstractPath, ManhattanNeighborhood, MooreNeighborhood, Neighborhood, PathCache,
    PathCacheConfig,
};

type Grid = [[usize; 5]; 5];

const GRID: Grid = [
    [0, 2, 0, 0, 0],
    [0, 2, 2, 2, 2],
    [0, 1, 0, 0, 0],
    [0, 1, 0, 2, 0],
    [0, 0, 0, 2, 0],
];

fn cost_fn(grid: &Grid) -> impl '_ + Sync + Fn((usize, usize)) -> isize {
    move |(x, y)| [1, 10, -1][grid[y][x]]
}

fn create(grid: &Grid) -> PathCache<ManhattanNeighborhood> {
    PathCache::new(
        (5, 5),
        cost_fn(grid),
        ManhattanNeighborhood::new(5, 5),
        PathCacheConfig::with_chunk_size(3),
    )
}

fn collect<N: Neighborhood>(mut path: AbstractPath<N>) -> Vec<(usize, usize)> {
    let mut points = vec![];
    while let Some(point) = path.next() {
        points.push(point);
    }
    points
}

#[test]
fn get_chunk_index() {
    let grid = [
        [0, 2, 0, 0, 0],
        [0, 2, 2, 2, 2],
        [0, 1, 0, 0, 0],
        [0, 1, 0, 2, 0],
        [0, 0, 0, 2, 0],
    ];
    let (width, height) = (grid[0].len(), grid.len());
    fn cost_fn(grid: &[[usize; 5]; 5]) -> impl '_ + Fn((usize, usize)) -> isize {
        move |(x, y)| [1, 10, -1][grid[y][x]]
    }
    let pathfinding = PathCache::new(
        (width, height),
        cost_fn(&grid),
        ManhattanNeighborhood::new(width, height),
        PathCacheConfig::with_chunk_size(3),
    );

    let point = (0, 0);
    assert_eq!(pathfinding.get_chunk_index(point), 0);

    let point = (4, 0);
    assert_eq!(pathfinding.get_chunk_index(point), 1);

    let point = (3, 2);
    assert_eq!(pathfinding.get_chunk_index(point), 1);

    let point = (4, 4);
    assert_eq!(pathfinding.get_chunk_index(point), 3);

    let point = (0, 4);
    assert_eq!(pathfinding.get_chunk_index(point), 2);
}

#[test]
fn new_caches_the_grid() {
    let grid: Grid = [
        [0, 2, 0, 0, 0],
        [0, 2, 2, 2, 0],
        [0, 1, 0, 0, 0],
        [0, 1, 0, 2, 0],
        [0, 0, 0, 2, 0],
    ];
    let pathfinding = create(&grid);
    // around the wall, through the opening at the right
    let path = pathfinding.find_path((0, 0), (2, 0), cost_fn(&grid)).unwrap();
    assert_eq!(path.cost(), 14);
}

#[test]
fn find_path_has_the_expected_cost() {
    let pathfinding = create(&GRID);
    let path = pathfinding.find_path((0, 0), (4, 4), cost_fn(&GRID));
    assert!(path.is_some());
    let path = path.unwrap();
    assert_eq!(path.cost(), 12);
    assert_eq!(path.length(), 12);
}

#[test]
fn find_path_is_walked_step_by_step() {
    let pathfinding = create(&GRID);
    let mut path = pathfinding
        .find_path((0, 0), (4, 4), cost_fn(&GRID))
        .unwrap();
    assert_eq!(path.next().unwrap(), (0, 1));
    assert_eq!(path.next().unwrap(), (0, 2));
}

#[test]
fn find_path_gives_the_entire_path() {
    let pathfinding = create(&GRID);
    let path = pathfinding
        .find_path((0, 0), (4, 4), cost_fn(&GRID))
        .unwrap();
    assert_eq!(
        collect(path),
        vec![
            (0, 1),
            (0, 2),
            (0, 3),
            (0, 4),
            (1, 4),
            (2, 4),
            (2, 3),
            (2, 2),
            (3, 2),
            (4, 2),
            (4, 3),
            (4, 4)
        ],
    );
}

#[test]
fn find_path_without_a_path() {
    let pathfinding = create(&GRID);
    assert!(pathfinding.find_path((0, 0), (2, 0), cost_fn(&GRID)).is_none());
    // a solid start, a solid goal, a goal that is not on the grid
    assert!(pathfinding.find_path((1, 0), (4, 4), cost_fn(&GRID)).is_none());
    assert!(pathfinding.find_path((0, 0), (1, 0), cost_fn(&GRID)).is_none());
    assert!(pathfinding.find_path((0, 0), (5, 0), cost_fn(&GRID)).is_none());
    assert!(pathfinding.find_path((0, 0), (0, 5), cost_fn(&GRID)).is_none());
}

#[test]
fn find_path_to_the_start_itself() {
    let pathfinding = create(&GRID);
    let path = pathfinding.find_path((2, 2), (2, 2), cost_fn(&GRID)).unwrap();
    assert_eq!(path.cost(), 0);
    assert_eq!(path.length(), 1);
    assert_eq!(collect(path), vec![(2, 2)]);
    assert!(pathfinding.find_path((1, 0), (1, 0), cost_fn(&GRID)).is_none());
}

#[test]
fn find_path_within_a_cave() {
    // (2, 0) to (4, 0) is cut off from the rest, and (2, 0) and (3, 0) lie in different chunks
    let pathfinding = create(&GRID);
    let path = pathfinding.find_path((3, 0), (4, 0), cost_fn(&GRID)).unwrap();
    assert_eq!(path.cost(), 1);
    assert_eq!(collect(path), vec![(4, 0)]);

    // a cave in the middle of a chunk
    let grid: Grid = [
        [0, 0, 0, 0, 0],
        [0, 2, 2, 2, 2],
        [0, 2, 0, 0, 2],
        [0, 2, 0, 0, 2],
        [0, 2, 2, 2, 2],
    ];
    let pathfinding = PathCache::new(
        (5, 5),
        cost_fn(&grid),
        ManhattanNeighborhood::new(5, 5),
        PathCacheConfig::with_chunk_size(5),
    );
    let path = pathfinding.find_path((2, 2), (3, 3), cost_fn(&grid)).unwrap();
    assert_eq!(path.cost(), 2);
    assert!(pathfinding.find_path((2, 2), (0, 0), cost_fn(&grid)).is_none());
    let paths = pathfinding.find_paths((2, 2), &[(3, 3), (0, 0), (2, 2), (3, 2)], cost_fn(&grid));
    assert_eq!(paths.len(), 3);
    assert!(paths.contains_key(&(3, 3)));
    assert!(paths.contains_key(&(2, 2)));
    assert!(paths.contains_key(&(3, 2)));
    assert!(!paths.contains_key(&(0, 0)));
    let (goal, path) = pathfinding
        .find_closest_goal((2, 2), &[(3, 3), (0, 0), (3, 2)], cost_fn(&grid))
        .unwrap();
    assert_eq!(goal, (3, 2));
    assert_eq!(path.cost(), 1);
}

#[test]
fn find_paths_finds_what_can_be_reached() {
    let pathfinding = create(&GRID);
    let goals = [(4, 4), (2, 0)];
    let paths = pathfinding.find_paths((0, 0), &goals, cost_fn(&GRID));
    assert!(paths.contains_key(&goals[0]));
    assert!(!paths.contains_key(&goals[1]));

    assert!(pathfinding.find_paths((0, 0), &[], cost_fn(&GRID)).is_empty());
    assert!(pathfinding.find_paths((1, 0), &goals, cost_fn(&GRID)).is_empty());
}

#[test]
fn find_paths_agrees_with_find_path() {
    let pathfinding = create(&GRID);
    let goal = (4, 4);
    let paths = pathfinding.find_paths((0, 0), &[goal], cost_fn(&GRID));
    let dijkstra_path = collect(paths.get(&goal).unwrap().clone());
    let a_star_path = collect(
        pathfinding
            .find_path((0, 0), goal, cost_fn(&GRID))
            .unwrap(),
    );
    assert_eq!(dijkstra_path, a_star_path);

    // and with several goals
    let paths = pathfinding.find_paths((0, 0), &[goal, (0, 4), (4, 2)], cost_fn(&GRID));
    assert_eq!(collect(paths.get(&goal).unwrap().clone()), a_star_path);
}

#[test]
fn find_closest_goal_is_the_cheapest() {
    let pathfinding = create(&GRID);
    let start = (0, 0);
    let goals = [(4, 4), (2, 0), (2, 2)];
    let (goal, path) = pathfinding
        .find_closest_goal(start, &goals, cost_fn(&GRID))
        .unwrap();
    assert_eq!(goal, goals[2]);

    let mut naive_closest = None;
    for entry in pathfinding.find_paths(start, &goals, cost_fn(&GRID)).into_entries() {
        let is_closer = match &naive_closest {
            Some((_, cost, _)) => entry.1.cost() < *cost,
            None => true,
        };
        if is_closer {
            naive_closest = Some((entry.0, entry.1.cost(), entry.1));
        }
    }
    let naive_closest = naive_closest.unwrap();
    assert_eq!(goal, naive_closest.0);
    assert_eq!(collect(path), collect(naive_closest.2));
}

#[test]
fn find_closest_goal_edge_cases() {
    let pathfinding = create(&GRID);
    assert!(pathfinding.find_closest_goal((0, 0), &[], cost_fn(&GRID)).is_none());
    assert!(pathfinding
        .find_closest_goal((0, 0), &[(2, 0), (1, 0), (7, 7)], cost_fn(&GRID))
        .is_none());
    assert!(pathfinding
        .find_closest_goal((1, 0), &[(0, 0), (4, 4)], cost_fn(&GRID))
        .is_none());
    let (goal, path) = pathfinding
        .find_closest_goal((0, 0), &[(0, 1), (0, 0), (4, 4)], cost_fn(&GRID))
        .unwrap();
    assert_eq!(goal, (0, 0));
    assert_eq!(path.cost(), 0);
    let (goal, path) = pathfinding
        .find_closest_goal((0, 0), &[(0, 4)], cost_fn(&GRID))
        .unwrap();
    assert_eq!(goal, (0, 4));
    assert_eq!(path.cost(), 4);
}

fn change(grid: &mut Grid) {
    grid[1][2] = 0;
    grid[3][2] = 2;
    assert_eq!(
        *grid,
        [
            [0, 2, 0, 0, 0],
            [0, 2, 0, 2, 2],
            [0, 1, 0, 0, 0],
            [0, 1, 2, 2, 0],
            [0, 0, 0, 2, 0],
        ]
    );
}

#[test]
fn tiles_changed_opens_a_way() {
    let mut grid = GRID;
    let mut pathfinding = create(&grid);
    let (start, goal) = ((0, 0), (2, 0));
    assert!(pathfinding.find_path(start, goal, cost_fn(&grid)).is_none());
    change(&mut grid);
    pathfinding.tiles_changed(&[(2, 1), (2, 3)], cost_fn(&grid));
    let path = pathfinding.find_path(start, goal, cost_fn(&grid));
    assert!(path.is_some());
    assert_eq!(path.unwrap().cost(), 15);
}

#[test]
fn tiles_changed_with_fn_mut_opens_a_way() {
    let mut grid = GRID;
    let mut pathfinding = create(&grid);
    change(&mut grid);
    pathfinding.tiles_changed_with_fn_mut(&[(2, 1), (2, 3)], cost_fn(&grid));
    let path = pathfinding.find_path((0, 0), (2, 0), cost_fn(&grid)).unwrap();
    assert_eq!(path.cost(), 15);
}

#[test]
fn tiles_changed_without_tiles() {
    let mut pathfinding = create(&GRID);
    pathfinding.tiles_changed(&[], cost_fn(&GRID));
    let path = pathfinding.find_path((0, 0), (4, 4), cost_fn(&GRID)).unwrap();
    assert_eq!(path.cost(), 12);
}

#[test]
fn config_is_kept() {
    let pathfinding = create(&GRID);
    assert_eq!(pathfinding.config().chunk_size, 3);
    assert!(pathfinding.config().cache_paths);
    assert!(pathfinding.config().a_star_fallback);
    let config = PathCacheConfig::default();
    assert_eq!(config.chunk_size, 8);
    assert!(config.cache_paths);
    assert!(config.a_star_fallback);
    let config = PathCacheConfig {
        chunk_size: 4,
        ..Default::default()
    };
    assert_eq!(config.chunk_size, 4);
}

#[test]
fn inspect_nodes_hands_out_each_node_once() {
    let pathfinding = create(&GRID);
    let mut inspector = pathfinding.inspect_nodes();
    let mut ids = vec![];
    let mut positions = vec![];
    while let Some(node) = inspector.next() {
        ids.push(node.id());
        positions.push(node.pos());
        assert_eq!(inspector.get_node(node.id()).pos(), node.pos());
        for (neighbor, cost) in node.connected() {
            assert_ne!(neighbor.id(), node.id());
            // the way back is there too
            let mut back = None;
            for (other, other_cost) in neighbor.connected() {
                if other.id() == node.id() {
                    back = Some(other_cost);
                }
            }
            let first = cost_fn(&GRID)(node.pos()) as usize;
            let last = cost_fn(&GRID)(neighbor.pos()) as usize;
            assert_eq!(back.unwrap() + first, cost + last);
        }
    }
    let mut sorted = ids.clone();
    sorted.sort();
    sorted.dedup();
    assert_eq!(sorted, ids);
    positions.sort();
    assert_eq!(
        positions,
        vec![
            (0, 2),
            (0, 3),
            (2, 0),
            (2, 2),
            (2, 3),
            (3, 0),
            (3, 2),
            (4, 2),
            (4, 3)
        ]
    );
}

#[test]
fn clones_are_independent() {
    let mut grid = GRID;
    let mut pathfinding = create(&grid);
    let copy = pathfinding.clone();
    change(&mut grid);
    pathfinding.tiles_changed(&[(2, 1), (2, 3)], cost_fn(&grid));
    assert!(pathfinding.find_path((0, 0), (2, 0), cost_fn(&grid)).is_some());
    assert!(copy.find_path((0, 0), (2, 0), cost_fn(&GRID)).is_none());
    let path = copy.find_path((0, 0), (4, 4), cost_fn(&GRID)).unwrap();
    assert_eq!(path.cost(), 12);
    let mut walked = path.clone();
    walked.next();
    assert_eq!(collect(path).len(), 12);
    assert_eq!(collect(walked.clone()).len(), 11);
}

#[test]
fn moore_neighborhood_goes_diagonally() {
    let grid: Grid = [
        [0, 2, 2, 2, 2],
        [2, 0, 2, 2, 2],
        [2, 2, 0, 2, 2],
        [2, 2, 2, 0, 2],
        [2, 2, 2, 2, 0],
    ];
    for chunk_size in 1..7 {
        let pathfinding = PathCache::new_parallel(
            (5, 5),
            cost_fn(&grid),
            MooreNeighborhood::new(5, 5),
            PathCacheConfig::with_chunk_size(chunk_size),
        );
        let path = pathfinding.find_path((0, 0), (4, 4), cost_fn(&grid)).unwrap();
        assert_eq!(path.cost(), 4);
        assert_eq!(collect(path), vec![(1, 1), (2, 2), (3, 3), (4, 4)]);
        let straight = PathCache::new(
            (5, 5),
            cost_fn(&grid),
            ManhattanNeighborhood::new(5, 5),
            PathCacheConfig::with_chunk_size(chunk_size),
        );
        assert!(straight.find_path((0, 0), (4, 4), cost_fn(&grid)).is_none());
    }
}

#[test]
fn stateful_cost_functions() {
    let mut calls = 0;
    let pathfinding = PathCache::new_with_fn_mut(
        (5, 5),
        |p| {
            calls += 1;
            cost_fn(&GRID)(p)
        },
        ManhattanNeighborhood::new(5, 5),
        PathCacheConfig::with_chunk_size(3),
    );
    assert!(calls > 0);
    let mut looked_at = vec![];
    let path = pathfinding
        .find_path((0, 0), (4, 4), |p| {
            looked_at.push(p);
            cost_fn(&GRID)(p)
        })
        .unwrap();
    assert_eq!(path.cost(), 12);
    assert_eq!(looked_at[0], (0, 0));
}

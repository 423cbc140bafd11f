use hierarchical_pathfinding::prelude::{
    AbstractPath, ManhattanNeighborhood, MooreNeighborhood, Neighborhood, PathCache,
    PathCacheConfig,
};

type Point = (usize, usize);

/// Open ground with a few walls, on which many paths cost the same.
fn ground((x, y): Point) -> isize {
    if (x % 7 == 3 && y % 5 != 1) || (y % 6 == 4 && x % 5 == 2) {
        -1
    } else {
        1
    }
}

fn configs() -> Vec<PathCacheConfig> {
    let mut configs = vec![];
    for chunk_size in [3, 5, 8] {
        for cache_paths in [true, false] {
            for a_star_fallback in [true, false] {
                configs.push(PathCacheConfig {
                    chunk_size,
                    cache_paths,
                    a_star_fallback,
                    ..Default::default()
                });
            }
        }
    }
    configs
}

fn walked<N: Neighborhood>(mut path: AbstractPath<N>) -> Vec<Point> {
    let mut points = vec![];
    while let Some(point) = path.safe_next(ground) {
        points.push(point);
    }
    points
}

fn check_repeated<N: Neighborhood>(cache: &PathCache<N>, start: Point, goal: Point) {
    let one = cache.find_path(start, goal, ground);
    let other = cache.find_path(start, goal, ground);
    let mut alone = cache.find_paths(start, &[goal], ground);
    match one {
        Some(one) => {
            let (other, alone) = (other.unwrap(), alone.remove(&goal).unwrap());
            assert_eq!(one.cost(), other.cost());
            assert_eq!(one.cost(), alone.cost());
            assert_eq!(one.length(), alone.length());
            let points = walked(one.clone());
            assert_eq!(points, walked(one));
            assert_eq!(points, walked(other));
            assert_eq!(points, walked(alone));
        }
        None => {
            assert!(other.is_none());
            assert_eq!(alone.len(), 0);
        }
    }
}

#[test]
fn the_same_path_is_found_each_time() {
    let ends = [(0, 0), (14, 13), (2, 9), (11, 1), (5, 5), (6, 12), (3, 0)];
    for config in configs() {
        let straight = PathCache::new((15, 14), ground, ManhattanNeighborhood::new(15, 14), config);
        let diagonal = PathCache::new((15, 14), ground, MooreNeighborhood::new(15, 14), config);
        for start in ends {
            for goal in ends {
                check_repeated(&straight, start, goal);
                check_repeated(&diagonal, start, goal);
            }
        }
    }
}

#[test]
fn the_paths_to_several_goals_are_the_same_each_time() {
    let goals = [(14, 13), (2, 9), (11, 1), (2, 9), (5, 5), (3, 0), (20, 20)];
    for config in configs() {
        let around = MooreNeighborhood::new(15, 14);
        let cache = PathCache::new((15, 14), ground, around, config);
        for start in [(0, 0), (12, 6), (6, 12)] {
            let mut one = cache.find_paths(start, &goals, ground);
            let mut other = cache.find_paths(start, &goals, ground);
            assert_eq!(one.len(), other.len());
            let (closest, path) = cache.find_closest_goal(start, &goals, ground).unwrap();
            assert_eq!(path.cost(), one.get(&closest).unwrap().cost());
            let to_closest = walked(path.clone());
            for goal in goals {
                if let Some(a) = one.remove(&goal) {
                    let b = other.remove(&goal).unwrap();
                    assert_eq!(a.cost(), b.cost());
                    assert!(path.cost() <= a.cost());
                    let points = walked(a);
                    assert_eq!(points, walked(b));
                    if goal == closest {
                        assert_eq!(points, to_closest);
                    }
                }
            }
            assert_eq!(one.len(), 0);
        }
    }
}

#[test]
fn one_path_or_all_of_them() {
    let goals = [(14, 13), (2, 9), (3, 0), (11, 1)];
    let around = ManhattanNeighborhood::new(15, 14);
    let config = PathCacheConfig::with_chunk_size(5);
    let cache = PathCache::new((15, 14), ground, around, config);
    let mut all = cache.find_paths_internal((0, 0), &goals, ground, false);
    assert_eq!(all.len(), 3);
    let mut closest = cache.find_paths_internal((0, 0), &goals, ground, true);
    assert_eq!(closest.len(), 1);
    let path = closest.remove(&(2, 9)).unwrap();
    assert_eq!(path.cost(), all.remove(&(2, 9)).unwrap().cost());
    // neither if no goal can be reached
    for only_closest in [true, false] {
        let none = cache.find_paths_internal((0, 0), &[(3, 0), (15, 0)], ground, only_closest);
        assert_eq!(none.len(), 0);
        let nothing = cache.find_paths_internal((0, 0), &[], ground, only_closest);
        assert_eq!(nothing.len(), 0);
    }
}

#[test]
fn chunk_positions() {
    let around = ManhattanNeighborhood::new(11, 7);
    let cache = PathCache::new((11, 7), |_| 1, around, PathCacheConfig::with_chunk_size(4));
    assert_eq!(cache.get_chunk_pos((0, 0)), (0, 0));
    assert_eq!(cache.get_chunk_pos((10, 3)), (8, 0));
    assert_eq!(cache.get_chunk_pos((7, 6)), (4, 4));
    assert!(cache.in_bounds((10, 6)));
    assert!(!cache.in_bounds((11, 6)));
    assert!(!cache.in_bounds((10, 7)));
    assert!(cache.same_chunk((4, 0), (7, 3)));
    assert!(!cache.same_chunk((3, 0), (4, 0)));
    assert!(!cache.same_chunk((0, 3), (0, 4)));
    for x in 0..11 {
        for y in 0..7 {
            let p = (x, y);
            let q = cache.get_chunk_pos(p);
            assert!(q.0 % 4 == 0 && q.1 % 4 == 0);
            assert!(q.0 <= x && x - q.0 < 4);
            assert!(q.1 <= y && y - q.1 < 4);
            assert_eq!(cache.get_chunk_pos(q), q);
            assert!(cache.same_chunk(p, q));
            assert!(cache.in_bounds(q));
        }
    }
}

#[test]
fn one_goes_directly_within_the_chunks_at_the_ends() {
    let config = PathCacheConfig {
        chunk_size: 5,
        a_star_fallback: false,
        ..Default::default()
    };
    let around = ManhattanNeighborhood::new(15, 5);
    let cache = PathCache::new((15, 5), |_| 1, around, config);
    // the node nearest to (6, 1) is at (5, 0), from where the way leads over (9, 0) and (10, 0)
    let there = cache.find_path((6, 1), (14, 1), |_| 1).unwrap();
    assert_eq!(there.cost(), 4 + 1 + 5);
    let back = cache.find_path((14, 1), (6, 1), |_| 1).unwrap();
    assert_eq!(back.cost(), 5 + 1 + 4);
    // both lie in one chunk, near different nodes
    let inside = cache.find_path((6, 1), (8, 1), |_| 1).unwrap();
    assert_eq!(inside.cost(), 2);
}

#[test]
fn of_equally_close_goals_the_first_one_is_closest() {
    for chunk_size in [3, 11] {
        let around = ManhattanNeighborhood::new(11, 11);
        let config = PathCacheConfig::with_chunk_size(chunk_size);
        let cache = PathCache::new((11, 11), |_| 1, around, config);
        let goals = [(10, 0), (8, 5), (2, 5), (5, 8), (8, 5)];
        for first in 1..4 {
            let mut turned = goals;
            turned.swap(1, first);
            let (goal, path) = cache.find_closest_goal((5, 5), &turned, |_| 1).unwrap();
            assert_eq!(goal, goals[first]);
            assert_eq!(path.cost(), 3);
        }
        // the start is the closest goal, even if walking costs nothing
        let free = PathCache::new((11, 11), |_| 0, around, config);
        let (goal, path) = free.find_closest_goal((5, 5), &[(5, 4), (5, 5)], |_| 0).unwrap();
        assert_eq!(goal, (5, 5));
        assert_eq!(path.cost(), 0);
    }
}

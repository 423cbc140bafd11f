use hierarchical_pathfinding::prelude::{
    AbstractPath, ManhattanNeighborhood, MooreNeighborhood, Neighborhood, PathCache,
    PathCacheConfig,
};

type Point = (usize, usize);

/// A linear congruential generator.
struct Random(u64);

impl Random {
    fn next(&mut self, bound: usize) -> usize {
        self.0 = self
            .0
            .wrapping_mul(6364136223846793005)
            .wrapping_add(1442695040888963407);
        ((self.0 >> 33) % bound as u64) as usize
    }
}

#[derive(Clone)]
struct Terrain {
    width: usize,
    height: usize,
    costs: Vec<isize>,
    diagonal: bool,
}

impl Terrain {
    fn random(random: &mut Random, diagonal: bool) -> Terrain {
        let width = 1 + random.next(13);
        let height = 1 + random.next(13);
        let walls = random.next(60);
        let mut costs = vec![];
        for _ in 0..width * height {
            costs.push(random_cost(random, walls));
        }
        Terrain {
            width,
            height,
            costs,
            diagonal,
        }
    }

    fn cost(&self, p: Point) -> isize {
        self.costs[p.1 * self.width + p.0]
    }

    fn point(&self, random: &mut Random) -> Point {
        (random.next(self.width), random.next(self.height))
    }

    fn is_next_to(&self, a: Point, b: Point) -> bool {
        let dx = a.0.abs_diff(b.0);
        let dy = a.1.abs_diff(b.1);
        if self.diagonal {
            dx <= 1 && dy <= 1 && a != b
        } else {
            dx + dy == 1
        }
    }

    /// The costs of the cheapest paths from `start`, found by relaxing until nothing changes.
    fn distances(&self, start: Point) -> Vec<Option<usize>> {
        let mut found: Vec<Option<usize>> = vec![None; self.width * self.height];
        if self.cost(start) < 0 {
            return found;
        }
        found[start.1 * self.width + start.0] = Some(0);
        let mut open = vec![start];
        while let Some(p) = open.pop() {
            let so_far = found[p.1 * self.width + p.0].unwrap() + self.cost(p) as usize;
            for y in p.1.saturating_sub(1)..self.height.min(p.1 + 2) {
                for x in p.0.saturating_sub(1)..self.width.min(p.0 + 2) {
                    if !self.is_next_to(p, (x, y)) || self.cost((x, y)) < 0 {
                        continue;
                    }
                    let index = y * self.width + x;
                    let better = match found[index] {
                        Some(old) => so_far < old,
                        None => true,
                    };
                    if better {
                        found[index] = Some(so_far);
                        open.push((x, y));
                    }
                }
            }
        }
        found
    }
}

fn random_cost(random: &mut Random, walls: usize) -> isize {
    if random.next(100) < walls {
        -1
    } else {
        1 + random.next(4) as isize
    }
}

fn check_path<N: Neighborhood>(
    map: &Terrain,
    start: Point,
    goal: Point,
    mut path: AbstractPath<N>,
    cached: bool,
    optimum: usize,
) {
    let total = path.cost();
    let length = path.length();
    let mut points = vec![];
    loop {
        let next = if cached {
            path.next()
        } else {
            path.safe_next(|p| map.cost(p))
        };
        match next {
            Some(p) => points.push(p),
            None => break,
        }
    }
    assert_eq!(points[points.len() - 1], goal);
    if start == goal {
        assert_eq!(points, vec![start]);
        assert_eq!(total, 0);
        return;
    }
    let mut previous = start;
    let mut cost = 0;
    for p in points.iter() {
        assert!(map.is_next_to(previous, *p));
        assert!(map.cost(*p) >= 0);
        cost += map.cost(previous) as usize;
        previous = *p;
    }
    assert!(optimum <= total);
    if cached {
        assert_eq!(cost, total);
        assert_eq!(points.len(), length);
    } else {
        assert!(optimum <= cost && cost <= total);
    }
}

fn check_cache<N: Neighborhood + Sync>(
    map: &Terrain,
    cache: &PathCache<N>,
    random: &mut Random,
    queries: usize,
) {
    let cached = cache.config().cache_paths;
    for _ in 0..queries {
        let start = map.point(random);
        let distances = map.distances(start);
        let distance = |p: Point| distances[p.1 * map.width + p.0];
        let mut goals = vec![];
        for _ in 0..1 + random.next(4) {
            goals.push(map.point(random));
        }
        for goal in goals.iter() {
            let path = cache.find_path(start, *goal, |p| map.cost(p));
            match (path, distance(*goal)) {
                (Some(path), Some(optimum)) => {
                    check_path(map, start, *goal, path, cached, optimum)
                }
                (None, None) => {}
                (path, optimum) => panic!("{:?} {:?}: {} {:?}", start, goal, path.is_some(), optimum),
            }
        }
        let paths = cache.find_paths(start, &goals, |p| map.cost(p));
        for goal in goals.iter() {
            assert_eq!(paths.contains_key(goal), distance(*goal).is_some());
        }
        let mut cheapest = None;
        for (goal, path) in paths.into_entries() {
            assert!(goals.contains(&goal));
            if cheapest.map_or(true, |cost| path.cost() < cost) {
                cheapest = Some(path.cost());
            }
            check_path(map, start, goal, path, cached, distance(goal).unwrap());
        }
        let closest = cache.find_closest_goal(start, &goals, |p| map.cost(p));
        match closest {
            Some((goal, path)) => {
                assert!(goals.contains(&goal));
                if goals.contains(&start) {
                    assert_eq!(goal, start);
                }
                assert_eq!(Some(path.cost()), cheapest);
                check_path(map, start, goal, path, cached, distance(goal).unwrap());
            }
            None => assert!(goals.iter().all(|g| distance(*g).is_none())),
        }
    }
}

fn config(random: &mut Random) -> PathCacheConfig {
    PathCacheConfig {
        chunk_size: 1 + random.next(8),
        cache_paths: random.next(3) > 0,
        a_star_fallback: random.next(2) == 0,
    }
}

fn positions<N: Neighborhood>(cache: &PathCache<N>) -> Vec<(Point, Vec<Point>)> {
    let mut nodes = vec![];
    let mut inspector = cache.inspect_nodes();
    while let Some(node) = inspector.next() {
        let mut connected = vec![];
        for (other, _) in node.connected() {
            connected.push(other.pos());
        }
        connected.sort();
        nodes.push((node.pos(), connected));
    }
    nodes.sort();
    nodes
}

/// Whether a node at the tile is created anew after a change of the given tiles: at a corner
/// of its chunk if the tile itself has changed, elsewhere if a tile at the same border has.
fn is_renewed(map: &Terrain, chunk_size: usize, tiles: &[Point], p: Point) -> bool {
    let chunk = |q: Point| (q.0 / chunk_size, q.1 / chunk_size);
    let (x, y) = (p.0 as isize, p.1 as isize);
    let on_grid = |x: isize, y: isize| {
        x >= 0 && y >= 0 && (x as usize) < map.width && (y as usize) < map.height
    };
    // the chunk ends in a direction where the next tile is missing or lies in another chunk
    let ends = |dx: isize, dy: isize| {
        !on_grid(x + dx, y + dy) || chunk(((x + dx) as usize, (y + dy) as usize)) != chunk(p)
    };
    let corner = (ends(1, 0) || ends(-1, 0)) && (ends(0, 1) || ends(0, -1));
    for (dx, dy) in [(1, 0), (-1, 0), (0, 1), (0, -1)] {
        if !ends(dx, dy) || !on_grid(x + dx, y + dy) {
            continue;
        }
        let across = ((x + dx) as usize, (y + dy) as usize);
        let at_border = |q: &Point| {
            if dx != 0 {
                (q.0 == p.0 || q.0 == across.0) && q.1 / chunk_size == p.1 / chunk_size
            } else {
                (q.1 == p.1 || q.1 == across.1) && q.0 / chunk_size == p.0 / chunk_size
            }
        };
        if corner && tiles.contains(&p) || !corner && tiles.iter().any(at_border) {
            return true;
        }
    }
    false
}

fn check_random<N: Neighborhood + Sync>(
    seed: u64,
    rounds: usize,
    diagonal: bool,
    neighborhood: fn(usize, usize) -> N,
) {
    let mut random = Random(seed);
    for round in 0..rounds {
        let mut map = Terrain::random(&mut random, diagonal);
        let size = (map.width, map.height);
        let config = config(&mut random);
        let around = neighborhood(map.width, map.height);
        let parallel = PathCache::new(size, |p| map.cost(p), around.clone(), config);
        let mut cache = PathCache::new_with_fn_mut(size, |p| map.cost(p), around.clone(), config);
        assert_eq!(positions(&parallel), positions(&cache));
        check_cache(&map, &cache, &mut random, 6);
        check_cache(&map, &parallel, &mut random, 3);
        for change in 0..4 {
            let walls = random.next(60);
            let mut tiles = vec![];
            for _ in 0..random.next(6) {
                let p = map.point(&mut random);
                map.costs[p.1 * map.width + p.0] = random_cost(&mut random, walls);
                tiles.push(p);
            }
            let before = positions(&cache);
            if (round + change) % 2 == 0 {
                cache.tiles_changed(&tiles, |p| map.cost(p));
            } else {
                cache.tiles_changed_with_fn_mut(&tiles, |p| map.cost(p));
            }
            let created = PathCache::new(size, |p| map.cost(p), around.clone(), config);
            let mut expected: Vec<Point> = positions(&created).iter().map(|node| node.0).collect();
            for (p, _) in before {
                if !expected.contains(&p) && !is_renewed(&map, config.chunk_size, &tiles, p) {
                    expected.push(p);
                }
            }
            expected.sort();
            let found: Vec<Point> = positions(&cache).iter().map(|node| node.0).collect();
            assert_eq!(found, expected);
            check_cache(&map, &cache, &mut random, 6);
        }
    }
}

#[test]
fn straight_paths_on_random_grids() {
    check_random(1, 60, false, ManhattanNeighborhood::new);
}

#[test]
fn diagonal_paths_on_random_grids() {
    check_random(2, 60, true, MooreNeighborhood::new);
}

#[test]
fn path_cost_is_an_upper_bound() {
    // the direct way is not taken by the cache, but no path is cheaper than the optimum
    let mut random = Random(3);
    for _ in 0..20 {
        let map = Terrain::random(&mut random, true);
        let cache = PathCache::new(
            (map.width, map.height),
            |p| map.cost(p),
            MooreNeighborhood::new(map.width, map.height),
            PathCacheConfig::with_chunk_size(4),
        );
        let (start, goal) = (map.point(&mut random), map.point(&mut random));
        let optimum = map.distances(start)[goal.1 * map.width + goal.0];
        if let Some(path) = cache.find_path(start, goal, |p| map.cost(p)) {
            assert!(optimum.unwrap() <= path.cost());
        }
    }
}

#[test]
fn paths_lead_both_ways() {
    let mut random = Random(4);
    for _ in 0..20 {
        let map = Terrain::random(&mut random, false);
        let cache = PathCache::new(
            (map.width, map.height),
            |p| map.cost(p),
            ManhattanNeighborhood::new(map.width, map.height),
            PathCacheConfig::with_chunk_size(3),
        );
        let (a, b) = (map.point(&mut random), map.point(&mut random));
        let there = cache.find_path(a, b, |p| map.cost(p));
        let back = cache.find_path(b, a, |p| map.cost(p));
        assert_eq!(there.is_some(), back.is_some());
    }
}

#[test]
fn an_update_gives_the_answers_of_a_new_cache() {
    let mut random = Random(5);
    for _ in 0..20 {
        let mut map = Terrain::random(&mut random, false);
        let size = (map.width, map.height);
        let config = PathCacheConfig::with_chunk_size(3);
        let around = ManhattanNeighborhood::new(map.width, map.height);
        let mut updated = PathCache::new(size, |p| map.cost(p), around, config);
        let p = map.point(&mut random);
        let index = p.1 * map.width + p.0;
        map.costs[index] = if map.costs[index] < 0 { 1 } else { -1 };
        updated.tiles_changed(&[p], |p| map.cost(p));
        let created = PathCache::new(size, |p| map.cost(p), around, config);
        for _ in 0..10 {
            let (a, b) = (map.point(&mut random), map.point(&mut random));
            let one = updated.find_path(a, b, |p| map.cost(p));
            let other = created.find_path(a, b, |p| map.cost(p));
            assert_eq!(one.is_some(), other.is_some());
        }
    }
}

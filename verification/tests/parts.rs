use hierarchical_pathfinding::dir::{jump_in_dir, Dir};
use hierarchical_pathfinding::graph::NodeList;
use hierarchical_pathfinding::key_map::{NodeIDMap, PointMap};
use hierarchical_pathfinding::neighbors::{ManhattanNeighborhood, MooreNeighborhood, Neighborhood};
use hierarchical_pathfinding::path::{Path, PathSegment};
use hierarchical_pathfinding::path_cache::{PathCache, PathCacheConfig};
use hierarchical_pathfinding::terrain::Region;

#[test]
fn straight_neighbors() {
    let around = ManhattanNeighborhood::new(5, 4);
    assert_eq!(around.dimensions(), (5, 4));
    let mut target = vec![(9, 9)];
    around.get_all_neighbors((0, 2), &mut target);
    assert_eq!(target, vec![(9, 9), (0, 1), (1, 2), (0, 3)]);
    target.clear();
    around.get_all_neighbors((4, 3), &mut target);
    assert_eq!(target, vec![(4, 2), (3, 3)]);
    assert_eq!(around.heuristic((3, 1), (0, 0)), 4);
    assert_eq!(around.heuristic((2, 2), (2, 2)), 0);
}

#[test]
fn neighbors_with_diagonals() {
    let around = MooreNeighborhood::new(5, 5);
    let mut target = vec![];
    around.get_all_neighbors((0, 2), &mut target);
    target.sort();
    assert_eq!(target, vec![(0, 1), (0, 3), (1, 1), (1, 2), (1, 3)]);
    target.clear();
    around.get_all_neighbors((2, 2), &mut target);
    assert_eq!(target.len(), 8);
    assert_eq!(around.heuristic((3, 1), (0, 0)), 3);
    assert_eq!(around.heuristic((1, 4), (0, 0)), 4);
}

#[test]
fn single_tile() {
    let around = MooreNeighborhood::new(1, 1);
    let mut target = vec![];
    around.get_all_neighbors((0, 0), &mut target);
    assert!(target.is_empty());
}

#[test]
fn directions() {
    let all = Dir::all();
    for i in 0..4 {
        assert_eq!(all[i].num(), i);
        assert_eq!(all[i].opposite().num(), (i + 2) % 4);
        assert_eq!(all[i].clockwise().num(), (i + 1) % 4);
    }
}

#[test]
fn jumping() {
    assert_eq!(jump_in_dir((2, 3), Dir::UP, 3, (0, 0), (5, 5)), Some((2, 0)));
    assert_eq!(jump_in_dir((2, 2), Dir::UP, 3, (0, 0), (5, 5)), None);
    assert_eq!(jump_in_dir((1, 2), Dir::RIGHT, 3, (0, 0), (5, 5)), Some((4, 2)));
    assert_eq!(jump_in_dir((2, 2), Dir::RIGHT, 3, (0, 0), (5, 5)), None);
    assert_eq!(jump_in_dir((2, 1), Dir::DOWN, 3, (0, 0), (5, 5)), Some((2, 4)));
    assert_eq!(jump_in_dir((2, 2), Dir::DOWN, 3, (0, 0), (5, 5)), None);
    assert_eq!(jump_in_dir((3, 2), Dir::LEFT, 3, (0, 0), (5, 5)), Some((0, 2)));
    assert_eq!(jump_in_dir((3, 2), Dir::LEFT, 3, (1, 0), (5, 5)), None);
}

#[test]
fn regions() {
    let region = Region {
        left: 1,
        top: 2,
        right: 3,
        bottom: 4,
    };
    assert!(region.has((1, 2)));
    assert!(region.has((2, 3)));
    assert!(!region.has((3, 2)));
    assert!(!region.has((2, 4)));
    assert!(!region.has((0, 2)));
}

#[test]
fn maps_of_points() {
    let mut map: PointMap<u32> = PointMap::new();
    assert!(map.is_empty());
    map.insert((1, 2), 3);
    map.insert((2, 1), 4);
    map.insert((1, 2), 5);
    assert_eq!(map.len(), 2);
    assert_eq!(map.get(&(1, 2)), Some(&5));
    assert_eq!(map.get(&(0, 0)), None);
    assert_eq!(*map.entry_at(1), ((2, 1), 4));
    let copy = map.clone();
    assert_eq!(map.remove(&(1, 2)), Some(5));
    assert_eq!(map.remove(&(1, 2)), None);
    assert!(!map.contains_key(&(1, 2)));
    assert!(map.contains_key(&(2, 1)));
    assert_eq!(copy.into_entries(), vec![((1, 2), 5), ((2, 1), 4)]);
    map.clear();
    assert!(map.is_empty());
    // the two coordinates are not mixed up
    let mut map: PointMap<u32> = PointMap::new();
    map.insert((0, 1), 1);
    assert!(!map.contains_key(&(1, 0)));
    assert!(!map.contains_key(&(usize::MAX, 0)));
}

#[test]
fn maps_of_ids() {
    let mut map: NodeIDMap<char> = NodeIDMap::new();
    for i in 0..100 {
        map.insert(i, 'a');
    }
    for i in 0..50 {
        assert_eq!(map.remove(&(2 * i)), Some('a'));
    }
    for i in 0..100 {
        assert_eq!(map.contains_key(&i), i % 2 == 1);
    }
    assert_eq!(map.len(), 50);
}

#[test]
fn segments() {
    let path = Path::from_slice(&[(0, 0), (1, 0), (1, 1)], 7);
    assert_eq!(path.cost(), 7);
    assert_eq!(path.len(), 3);
    for known in [true, false] {
        let segment = PathSegment::new(path.clone(), known);
        assert_eq!(segment.cost(), 7);
        assert_eq!(segment.len(), 3);
        assert_eq!(segment.start(), (0, 0));
        assert_eq!(segment.end(), (1, 1));
        let back = segment.reversed(3, 5);
        assert_eq!(back.cost(), 9);
        assert_eq!(back.len(), 3);
        assert_eq!(back.start(), (1, 1));
        assert_eq!(back.end(), (0, 0));
        assert_eq!(matches!(back, PathSegment::Known(_)), known);
    }
}

#[test]
fn nodes_and_edges() {
    let mut nodes = NodeList::new();
    let a = nodes.add_node((0, 0), 3);
    let b = nodes.add_node((2, 0), 5);
    let c = nodes.add_node((4, 4), 1);
    assert_eq!(nodes.keys(), vec![a, b, c]);
    assert_eq!(nodes.id_at((2, 0)), Some(b));
    assert_eq!(nodes.id_at((1, 0)), None);
    let path = Path::from_slice(&[(0, 0), (1, 0), (2, 0)], 7);
    nodes.add_edge(a, b, PathSegment::new(path, true));
    assert_eq!(nodes.get(a).edges.get(&b).unwrap().cost(), 7);
    assert_eq!(nodes.get(b).edges.get(&a).unwrap().cost(), 9);
    assert_eq!(nodes.get(b).edges.get(&a).unwrap().start(), (2, 0));
    nodes.remove_node(a);
    assert_eq!(nodes.id_at((0, 0)), None);
    assert!(nodes.get(b).edges.is_empty());
    assert_eq!(nodes.keys(), vec![b, c]);
    // the number is used again
    assert_eq!(nodes.add_node((3, 3), 1), a);
}

#[test]
fn lists_of_nodes_are_joined() {
    let mut nodes = NodeList::new();
    let a = nodes.add_node((0, 0), 1);
    let mut other = NodeList::new();
    let b = other.add_node((5, 5), 2);
    let c = other.add_node((6, 5), 2);
    let path = Path::from_slice(&[(5, 5), (6, 5)], 2);
    other.add_edge(b, c, PathSegment::new(path, false));
    let (added, _) = nodes.absorb(other);
    assert_eq!(added.len(), 2);
    assert!(!added.contains_key(&a));
    let b = nodes.id_at((5, 5)).unwrap();
    let c = nodes.id_at((6, 5)).unwrap();
    assert!(added.contains_key(&b) && added.contains_key(&c));
    assert_eq!(nodes.get(b).edges.get(&c).unwrap().cost(), 2);
    assert_eq!(nodes.get(c).edges.get(&b).unwrap().cost(), 2);
    assert_eq!(nodes.get(a).walk_cost, 1);
}

#[test]
fn walking_along_stored_points() {
    let around = ManhattanNeighborhood::new(3, 3);
    let cache = PathCache::new((3, 3), |_| 2, around, PathCacheConfig::with_chunk_size(3));
    let mut path = cache.find_path((0, 0), (2, 0), |_| 2).unwrap();
    assert_eq!(path.cost(), 4);
    assert_eq!(path.length(), 2);
    assert_eq!(path.next(), Some((1, 0)));
    assert_eq!(path.safe_next(|_| 2), Some((2, 0)));
    assert_eq!(path.next(), None);
    assert_eq!(path.next(), None);
    assert_eq!(path.safe_next(|_| 2), None);
    // the cost and the length are those of the whole path
    assert_eq!(path.cost(), 4);
    assert_eq!(path.length(), 2);
}

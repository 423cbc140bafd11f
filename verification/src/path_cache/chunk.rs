//! Chunks: their nodes, and the searches within them.

use vstd::prelude::*;

use super::cache_config::PathCacheConfig;
use super::connect::{has_link_between, is_between, is_link_between, lemma_has_link_in_longer, Link};
use super::entrance::{
    is_entrance, is_entrance_to, is_open_tile, is_passage_end, lemma_path_in_reverses,
};
use super::layout::{has_border, is_at_border, is_at_corner, is_at_side, lemma_region_of, region_of};
use super::limits::{fits, lemma_chunk_limits, link_limit, tile_limit};
use super::links::{
    are_links_sound, are_nodes_sound, has_node_at, has_unique_positions, is_extended, is_link,
    is_link_over, is_linked_inside, is_nearest, is_node_sound, is_position, lemma_cheapest_back,
    lemma_extended_twice, lemma_link_added, positions_of, with_link, Nodes,
};
use super::outcome::{is_first_access, is_first_node, is_grid_path, is_reverse_of};
use crate::course::by_cost;
use crate::dir::{jump_in_dir, Dir};
use crate::graph::{is_way_back, NodeList};
use crate::grid::{a_star_search, dijkstra_search};
use crate::key_map::{NodeIDSet, PointMap, PointSet};
use crate::neighbors::{is_adjacent, on_grid, Neighborhood};
use crate::path::{Path, PathSegment};
use crate::search::{are_cheapest_paths, are_found, is_cheapest};
use crate::terrain::{
    estimates_are_steady, is_cost_fn, is_ground, lemma_ground_wf, lemma_reversed_cost,
    lemma_walk_cost_bound, lemma_walk_in_region, Region, Terrain,
};
use crate::walk::{connects, linked, reaches, walk_cost};
use crate::{Cost, NodeID, Point};

verus! {

/// Whether there is a tile that can be walked over.
fn is_open<F: FnMut(Point) -> isize>(
    get_cost: &mut F,
    tile: Option<Point>,
    Ghost(t): Ghost<Terrain>,
) -> (open: bool)
    requires
        is_cost_fn(*old(get_cost), t),
        tile is Some ==> on_grid(tile->0, t.size),
    ensures
        *final(get_cost) == *old(get_cost),
        open == is_open_tile(t, tile),
{
    match tile {
        Some(p) => {
            let cost: isize = (*get_cost)(p);
            cost >= 0
        },
        None => false,
    }
}

/// A square part of the grid, and the nodes that lie in it.
#[derive(Debug)]
pub struct Chunk {
    /// The upper left tile.
    pub pos: Point,
    /// The width and height.
    pub size: (usize, usize),
    /// The nodes.
    pub nodes: NodeIDSet,
    /// For each direction, whether there is another chunk in that direction.
    pub sides: [bool; 4],
}

impl Clone for Chunk {
    fn clone(&self) -> (copy: Self)
        ensures
            copy.pos == self.pos,
            copy.size == self.size,
            copy.sides == self.sides,
            copy.nodes.wf(),
            self.nodes.wf() ==> copy.nodes@.dom() == self.nodes@.dom(),
    {
        Chunk { pos: self.pos, size: self.size, nodes: self.nodes.clone(), sides: self.sides }
    }
}

impl Chunk {
    /// The tiles of the chunk.
    pub open spec fn tiles(&self) -> Region {
        Region {
            left: self.pos.0,
            top: self.pos.1,
            right: (self.pos.0 + self.size.0) as usize,
            bottom: (self.pos.1 + self.size.1) as usize,
        }
    }

    /// The chunk is one of those that the grid is divided into.
    pub open spec fn wf(&self, chunk_size: usize, total_size: (usize, usize)) -> bool {
        &&& 0 < chunk_size
        &&& on_grid(self.pos, total_size)
        &&& self.pos.0 + self.size.0 <= total_size.0
        &&& self.pos.1 + self.size.1 <= total_size.1
        &&& self.tiles() == region_of(self.pos, chunk_size, total_size)
        &&& forall|dir: Dir|
            self.sides@[#[trigger] dir.number()] == has_border(self.tiles(), dir, total_size)
        &&& self.nodes.wf()
    }

    /// The tiles of the chunk.
    pub fn region(&self) -> (region: Region)
        requires
            self.pos.0 + self.size.0 <= usize::MAX,
            self.pos.1 + self.size.1 <= usize::MAX,
        ensures
            region == self.tiles(),
    {
        Region {
            left: self.pos.0,
            top: self.pos.1,
            right: self.pos.0 + self.size.0,
            bottom: self.pos.1 + self.size.1,
        }
    }

    /// The chunk of a tile is where the chunk is that the tile lies in.
    pub proof fn lemma_tiles(&self, chunk_size: usize, total_size: (usize, usize), p: Point)
        requires
            self.wf(chunk_size, total_size),
            on_grid(p, total_size),
        ensures
            self.tiles().contains(p) <==> region_of(p, chunk_size, total_size) == self.tiles(),
            self.tiles().within(total_size),
    {
        lemma_region_of(self.pos, chunk_size, total_size);
        lemma_region_of(p, chunk_size, total_size);
    }

    /// Whether the tile lies at the given side of the chunk.
    pub fn at_side(&self, p: Point, dir: Dir) -> (at_side: bool)
        requires
            self.pos.0 + self.size.0 <= usize::MAX,
            self.pos.1 + self.size.1 <= usize::MAX,
            self.tiles().contains(p),
        ensures
            at_side == is_at_side(self.tiles(), p, dir),
    {
        match dir {
            Dir::UP => p.1 == self.pos.1,
            Dir::RIGHT => p.0 == self.pos.0 + self.size.0 - 1,
            Dir::DOWN => p.1 == self.pos.1 + self.size.1 - 1,
            Dir::LEFT => p.0 == self.pos.0,
        }
    }

    /// Whether the tile lies at a corner of the chunk.
    pub fn is_corner(&self, p: Point) -> (corner: bool)
        requires
            self.pos.0 + self.size.0 <= usize::MAX,
            self.pos.1 + self.size.1 <= usize::MAX,
            self.tiles().contains(p),
        ensures
            corner == is_at_corner(self.tiles(), p),
    {
        (self.at_side(p, Dir::UP) || self.at_side(p, Dir::DOWN)) && (self.at_side(p, Dir::LEFT)
            || self.at_side(p, Dir::RIGHT))
    }

    /// Whether a passage in direction `dir` ends at the tile, seen in direction `side`.
    fn ends_passage<N: Neighborhood, F: FnMut(Point) -> isize>(
        &self,
        neighborhood: &N,
        get_cost: &mut F,
        p: Point,
        dir: Dir,
        side: Dir,
        total_size: (usize, usize),
        Ghost(t): Ghost<Terrain>,
    ) -> (ends: bool)
        requires
            is_ground(t, *neighborhood),
            is_cost_fn(*old(get_cost), t),
            t.size == total_size,
            on_grid(p, total_size),
            self.tiles().within(total_size),
            self.pos.0 + self.size.0 <= usize::MAX,
            self.pos.1 + self.size.1 <= usize::MAX,
        ensures
            *final(get_cost) == *old(get_cost),
            ends == is_passage_end(t, self.tiles(), p, dir, side),
    {
        let across: Option<Point> = jump_in_dir(p, dir, 1, (0, 0), total_size);
        let across_open: bool = is_open(get_cost, across, Ghost(t));
        match jump_in_dir(p, side, 1, (0, 0), total_size) {
            Some(next) => {
                let diagonal: Option<Point> = jump_in_dir(next, dir, 1, (0, 0), total_size);
                let slanting: bool = match diagonal {
                    Some(q) => is_adjacent(neighborhood, p, q),
                    None => false,
                };
                if !self.region().has(next) {
                    return across_open || slanting;
                }
                let next_open: bool = is_open(get_cost, Some(next), Ghost(t));
                let diagonal_open: bool = is_open(get_cost, diagonal, Ghost(t));
                (across_open && !(next_open && diagonal_open)) || (slanting && diagonal_open
                    && !across_open && !next_open)
            },
            None => across_open,
        }
    }

    /// The `i`-th tile at the given side.
    pub open spec fn side_tile_at(&self, dir: Dir, i: int) -> Point {
        match dir {
            Dir::UP => ((self.pos.0 + i) as usize, self.pos.1),
            Dir::RIGHT => ((self.pos.0 + self.size.0 - 1) as usize, (self.pos.1 + i) as usize),
            Dir::DOWN => ((self.pos.0 + i) as usize, (self.pos.1 + self.size.1 - 1) as usize),
            Dir::LEFT => (self.pos.0, (self.pos.1 + i) as usize),
        }
    }

    /// The number of tiles at the given side.
    pub open spec fn side_length(&self, dir: Dir) -> int {
        match dir {
            Dir::UP | Dir::DOWN => self.size.0 as int,
            Dir::RIGHT | Dir::LEFT => self.size.1 as int,
        }
    }

    /// Adds the entrances at the given side to the candidates.
    pub fn calculate_side_nodes<N: Neighborhood, F: FnMut(Point) -> isize>(
        &self,
        neighborhood: &N,
        dir: Dir,
        total_size: (usize, usize),
        get_cost: &mut F,
        config: PathCacheConfig,
        candidates: &mut PointSet,
        Ghost(t): Ghost<Terrain>,
    )
        requires
            self.wf(config.chunk_size, total_size),
            has_border(self.tiles(), dir, total_size),
            t.size == total_size,
            is_ground(t, *neighborhood),
            is_cost_fn(*old(get_cost), t),
            old(candidates).wf(),
        ensures
            *final(get_cost) == *old(get_cost),
            final(candidates).wf(),
            forall|p: Point| #[trigger]
                final(candidates)@.contains_key(p) <==> old(candidates)@.contains_key(p) || (
                self.tiles().contains(p) && is_entrance_to(t, config.chunk_size, p, dir)),
    {
        let ghost before = candidates@;
        let ghost cost_fn = *get_cost;
        let cs: usize = config.chunk_size;
        let length: usize = match dir {
            Dir::UP => self.size.0,
            Dir::RIGHT => self.size.1,
            Dir::DOWN => self.size.0,
            Dir::LEFT => self.size.1,
        };
        proof {
            self.lemma_tiles(cs, total_size, self.pos);
            lemma_region_of(self.pos, cs, total_size);
        }
        for i in 0..length
            invariant
                self.wf(cs, total_size),
                self.tiles().within(total_size),
                has_border(self.tiles(), dir, total_size),
                length == self.side_length(dir),
                0 < self.size.0,
                0 < self.size.1,
                t.size == total_size,
                is_ground(t, *neighborhood),
                *get_cost == cost_fn,
                is_cost_fn(cost_fn, t),
                candidates.wf(),
                forall|p: Point| #[trigger]
                    candidates@.contains_key(p) <==> before.contains_key(p) || (exists|j: int|
                        0 <= j < i && #[trigger] self.side_tile_at(dir, j) == p && is_entrance_to(
                            t,
                            cs,
                            p,
                            dir,
                        )),
        {
            let ghost previous = candidates@;
            let p: Point = match dir {
                Dir::UP => (self.pos.0 + i, self.pos.1),
                Dir::RIGHT => (self.pos.0 + self.size.0 - 1, self.pos.1 + i),
                Dir::DOWN => (self.pos.0 + i, self.pos.1 + self.size.1 - 1),
                Dir::LEFT => (self.pos.0, self.pos.1 + i),
            };
            proof {
                assert(p == self.side_tile_at(dir, i as int));
                assert(self.tiles().contains(p));
                self.lemma_tiles(cs, total_size, p);
            }
            let open: bool = is_open(get_cost, Some(p), Ghost(t));
            let entrance: bool = open && (self.ends_passage(
                neighborhood,
                get_cost,
                p,
                dir,
                dir.clockwise(),
                total_size,
                Ghost(t),
            ) || self.ends_passage(
                neighborhood,
                get_cost,
                p,
                dir,
                dir.clockwise().opposite(),
                total_size,
                Ghost(t),
            ));
            assert(entrance == is_entrance_to(t, cs, p, dir));
            if entrance {
                candidates.insert(p, ());
            }
            proof {
                assert forall|q: Point| #[trigger] candidates@.contains_key(q)
                    <==> before.contains_key(q) || (exists|j: int|
                    0 <= j < i + 1 && #[trigger] self.side_tile_at(dir, j) == q && is_entrance_to(
                        t,
                        cs,
                        q,
                        dir,
                    )) by {
                    if previous.contains_key(q) && !before.contains_key(q) {
                        let j = choose|j: int|
                            0 <= j < i && #[trigger] self.side_tile_at(dir, j) == q
                                && is_entrance_to(t, cs, q, dir);
                        assert(0 <= j < i + 1);
                    }
                    if q == p && entrance {
                        assert(self.side_tile_at(dir, i as int) == q);
                    }
                }
            }
        }
        proof {
            assert forall|p: Point| #[trigger] candidates@.contains_key(p) <==> before.contains_key(
                p,
            ) || (self.tiles().contains(p) && is_entrance_to(t, cs, p, dir)) by {
                if exists|j: int|
                    0 <= j < length && #[trigger] self.side_tile_at(dir, j) == p && is_entrance_to(
                        t,
                        cs,
                        p,
                        dir,
                    ) {
                    assert(self.tiles().contains(p));
                }
                if self.tiles().contains(p) && is_entrance_to(t, cs, p, dir) {
                    self.lemma_tiles(cs, total_size, p);
                    let j = match dir {
                        Dir::UP | Dir::DOWN => p.0 - self.pos.0,
                        Dir::RIGHT | Dir::LEFT => p.1 - self.pos.1,
                    };
                    assert(self.side_tile_at(dir, j) == p);
                }
            }
        }
    }
}

/// `points` are the positions of the given nodes.
pub open spec fn are_positions(nodes: Nodes, ids: Set<NodeID>, points: Seq<Point>) -> bool {
    &&& forall|id: NodeID| #[trigger] ids.contains(id) ==> points.contains(nodes[id].pos)
    &&& forall|i: int| 0 <= i < points.len() ==> is_position(nodes, ids, #[trigger] points[i])
}

/// The nodes exist and lie in the rectangle.
pub open spec fn are_nodes_within(nodes: Nodes, r: Region, ids: Set<NodeID>) -> bool {
    forall|id: NodeID| #[trigger]
        ids.contains(id) ==> nodes.contains_key(id) && r.contains(nodes[id].pos)
}

/// Nodes other than the given ones are what they were.
pub open spec fn is_unchanged_outside(before: Nodes, after: Nodes, ids: Set<NodeID>) -> bool {
    forall|id: NodeID|
        before.contains_key(id) && !#[trigger] ids.contains(id) ==> after[id] == before[id]
}

/// All new connections are between the given nodes.
pub open spec fn has_new_links_within(before: Nodes, after: Nodes, ids: Set<NodeID>) -> bool {
    forall|a: NodeID, b: NodeID|
        before.contains_key(a) && #[trigger] after[a].edges.contains_key(b) ==> {
            ||| before[a].edges.contains_key(b)
            ||| ids.contains(a) && ids.contains(b)
        }
}

/// The given nodes are connected where there is a path between them within their chunk.
pub open spec fn are_linked_inside(
    t: Terrain,
    chunk_size: usize,
    nodes: Nodes,
    ids: Set<NodeID>,
) -> bool {
    forall|a: NodeID, b: NodeID|
        ids.contains(a) && ids.contains(b) ==> #[trigger] is_linked_inside(
            t,
            chunk_size,
            nodes,
            a,
            b,
        )
}

impl Chunk {
    /// Finds a path within the chunk.
    pub fn find_path<N: Neighborhood, F: FnMut(Point) -> isize>(
        &self,
        start: Point,
        goal: Point,
        get_cost: &mut F,
        neighborhood: &N,
        Ghost(chunk_size): Ghost<usize>,
        Ghost(t): Ghost<Terrain>,
    ) -> (path: Option<Path<Point>>)
        requires
            self.wf(chunk_size, neighborhood.size()),
            is_ground(t, *neighborhood),
            is_cost_fn(*old(get_cost), t),
            fits(t, chunk_size),
            self.tiles().contains(start),
        ensures
            *final(get_cost) == *old(get_cost),
            ({
                match path {
                    Some(path) => {
                        &&& t.is_route(
                            self.tiles(),
                            path.points(),
                            start,
                            goal,
                            path.total() as nat,
                        )
                        &&& path.points().len() <= self.tiles().area()
                        &&& path.total() <= link_limit(t.size, chunk_size)
                        &&& is_grid_path(
                            *neighborhood,
                            t,
                            self.tiles(),
                            start,
                            goal,
                            path.points(),
                            path.total() as nat,
                        )
                        &&& estimates_are_steady(
                            *neighborhood,
                            t.edges(self.tiles()),
                            goal,
                            (self.tiles().area() * tile_limit(t.size, chunk_size)) as nat,
                        ) ==> is_cheapest(
                            t.edges(self.tiles()),
                            start,
                            goal,
                            path.total() as nat,
                        )
                    },
                    None => !reaches(t.edges(self.tiles()), start, goal),
                }
            }),
    {
        proof {
            lemma_chunk_limits(t, chunk_size, self.pos);
            self.lemma_tiles(chunk_size, t.size, self.pos);
        }
        a_star_search(
            neighborhood,
            self.region(),
            get_cost,
            start,
            goal,
            Ghost(t),
            Ghost(tile_limit(t.size, chunk_size)),
        )
    }

    /// Finds the paths within the chunk to those of the goals that can be reached.
    pub fn find_paths<N: Neighborhood, F: FnMut(Point) -> isize>(
        &self,
        start: Point,
        goals: &[Point],
        get_cost: &mut F,
        neighborhood: &N,
        Ghost(chunk_size): Ghost<usize>,
        Ghost(t): Ghost<Terrain>,
    ) -> (paths: PointMap<Path<Point>>)
        requires
            self.wf(chunk_size, neighborhood.size()),
            is_ground(t, *neighborhood),
            is_cost_fn(*old(get_cost), t),
            fits(t, chunk_size),
            self.tiles().contains(start),
        ensures
            *final(get_cost) == *old(get_cost),
            paths.wf(),
            are_cheapest_paths(
                t.edges(self.tiles()),
                start,
                goals@,
                false,
                self.tiles().area(),
                tile_limit(neighborhood.size(), chunk_size),
                paths@,
            ),
            are_found(t.edges(self.tiles()), by_cost(), start, goals@, false, paths@),
    {
        proof {
            lemma_chunk_limits(t, chunk_size, self.pos);
            self.lemma_tiles(chunk_size, t.size, self.pos);
        }
        dijkstra_search(
            neighborhood,
            self.region(),
            get_cost,
            start,
            goals,
            false,
            Ghost(t),
            Ghost(tile_limit(t.size, chunk_size)),
        )
    }

    /// Connects a node to the nodes of the chunk.
    fn connect_node<N: Neighborhood, F: FnMut(Point) -> isize>(
        &self,
        id: NodeID,
        points: &[Point],
        get_cost: &mut F,
        neighborhood: &N,
        all_nodes: &mut NodeList,
        config: &PathCacheConfig,
        Ghost(t): Ghost<Terrain>,
    )
        requires
            self.wf(config.chunk_size, neighborhood.size()),
            is_ground(t, *neighborhood),
            is_cost_fn(*old(get_cost), t),
            fits(t, config.chunk_size),
            old(all_nodes).wf(),
            are_nodes_sound(
                t,
                config.chunk_size,
                old(all_nodes)@,
            ),
            are_links_sound(
                t,
                config.chunk_size,
                config.cache_paths,
                old(all_nodes)@,
            ),
            are_nodes_within(old(all_nodes)@, self.tiles(), self.nodes@.dom().insert(id)),
            are_positions(old(all_nodes)@, self.nodes@.dom(), points@),
            !self.nodes@.contains_key(id),
        ensures
            *final(get_cost) == *old(get_cost),
            final(all_nodes).wf(),
            are_nodes_sound(
                t,
                config.chunk_size,
                final(all_nodes)@,
            ),
            are_links_sound(
                t,
                config.chunk_size,
                config.cache_paths,
                final(all_nodes)@,
            ),
            is_extended(old(all_nodes)@, final(all_nodes)@),
            is_unchanged_outside(
                old(all_nodes)@,
                final(all_nodes)@,
                self.nodes@.dom().insert(id),
            ),
            has_new_links_within(
                old(all_nodes)@,
                final(all_nodes)@,
                self.nodes@.dom().insert(id),
            ),
            forall|b: NodeID| #[trigger]
                self.nodes@.contains_key(b) ==> {
                    &&& is_linked_inside(
                        t,
                        config.chunk_size,
                        final(all_nodes)@,
                        id,
                        b,
                    )
                    &&& is_linked_inside(
                        t,
                        config.chunk_size,
                        final(all_nodes)@,
                        b,
                        id,
                    )
                },
    {
        let cs: usize = config.chunk_size;
        let ghost r = self.tiles();
        let ghost e = t.edges(r);
        let ghost before = all_nodes@;
        let ghost own = self.nodes@.dom().insert(id);
        let ghost w = tile_limit(t.size, cs);
        assert(own.contains(id));
        let pos: Point = all_nodes.get(id).pos;
        proof {
            lemma_ground_wf(t, *neighborhood);
            lemma_chunk_limits(t, cs, self.pos);
            all_nodes.lemma_positions();
            assert(is_node_sound(t, cs, before[id]));
            self.lemma_tiles(cs, t.size, pos);
        }
        let paths: PointMap<Path<Point>> = self.find_paths(
            pos,
            points,
            get_cost,
            neighborhood,
            Ghost(cs),
            Ghost(t),
        );
        let ghost found = paths@;
        proof {
            paths.lemma_entries();
        }
        let ghost entries = paths.entries();
        let mut rest: Vec<(Point, Path<Point>)> = paths.into_entries();
        while rest.len() > 0
            invariant
                cs == config.chunk_size,
                0 < cs,
                t.wf(),
                fits(t, cs),
                e == t.edges(r),
                w == tile_limit(t.size, cs),
                1 <= r.area(),
                r.area() * w <= usize::MAX,
                forall|p: Point| r.contains(p) && on_grid(p, t.size) ==> #[trigger] (t.cost)(p) <= w,
                own == self.nodes@.dom().insert(id),
                !self.nodes@.contains_key(id),
                before.contains_key(id),
                before[id].pos == pos,
                r == region_of(pos, cs, t.size),
                are_nodes_within(before, r, own),
                are_positions(before, self.nodes@.dom(), points@),
                has_unique_positions(before),
                all_nodes.wf(),
                are_nodes_sound(t, cs, all_nodes@),
                are_links_sound(t, cs, config.cache_paths, all_nodes@),
                is_extended(before, all_nodes@),
                is_unchanged_outside(before, all_nodes@, own),
                has_new_links_within(before, all_nodes@, own),
                rest@.len() <= entries.len(),
                rest@ =~= entries.take(rest@.len() as int),
                forall|i: int|
                    0 <= i < entries.len() ==> {
                        let (p, path) = #[trigger] entries[i];
                        &&& points@.contains(p)
                        &&& connects(e, path.points(), pos, p)
                        &&& walk_cost(e, path.points()) == path.total()
                        &&& path.points().len() <= r.area()
                        &&& is_cheapest(e, pos, p, path.total() as nat)
                    },
                forall|i: int, b: NodeID|
                    rest@.len() <= i < entries.len() && #[trigger] self.nodes@.contains_key(b)
                        && before[b].pos == (#[trigger] entries[i]).0 ==> {
                        &&& all_nodes@[id].edges.contains_key(b)
                        &&& all_nodes@[b].edges.contains_key(id)
                    },
            decreases rest@.len(),
        {
            let ghost n = rest@.len() - 1;
            let ghost previous = all_nodes@;
            let (other_pos, path) = rest.pop().unwrap();
            let ghost s = path.points();
            assert((other_pos, path) == entries[n]);
            assert(exists|k: int| 0 <= k < points@.len() && points@[k] == other_pos);
            let ghost k = choose|k: int| 0 <= k < points@.len() && points@[k] == other_pos;
            assert(is_position(before, self.nodes@.dom(), points@[k]));
            let ghost other = choose|b: NodeID| #[trigger]
                self.nodes@.dom().contains(b) && before[b].pos == points@[k];
            assert(own.contains(other));
            assert(previous.dom().contains(other));
            let found: Option<NodeID> = all_nodes.id_at(other_pos);
            if let Some(other_id) = found {
                proof {
                    assert(before.dom().contains(other_id));
                    assert(before.contains_key(other_id) && before.contains_key(other));
                    assert(other_id == other);
                    assert(before.contains_key(id));
                    assert(is_node_sound(t, cs, previous[id]));
                    assert(is_node_sound(t, cs, previous[other]));
                    assert(pos != other_pos);
                    if s.len() == 1 {
                        assert(s[0] == s.last());
                    }
                    lemma_walk_cost_bound(t, r, s, w);
                    assert((s.len() - 1) * w + w <= r.area() * w) by (nonlinear_arith)
                        requires
                            s.len() <= r.area(),
                            0 <= w,
                    ;
                    assert((t.cost)(other_pos) <= w);
                }
                let segment = PathSegment::new(path, config.cache_paths);
                assert(is_link_over(t, cs, pos, other_pos, segment, s));
                all_nodes.add_edge(id, other_id, segment);
                proof {
                    let back = choose|back: PathSegment|
                        {
                            &&& #[trigger] is_way_back(
                                segment,
                                back,
                                previous[id].walk_cost,
                                previous[other].walk_cost,
                            )
                            &&& all_nodes@ == previous.insert(
                                id,
                                previous[id].with_edge(other, segment),
                            ).insert(other, previous[other].with_edge(id, back))
                        };
                    assert(all_nodes@ == with_link(previous, id, other, segment, back));
                    lemma_link_added(
                        t,
                        cs,
                        config.cache_paths,
                        previous,
                        id,
                        other,
                        segment,
                        back,
                        s,
                    );
                    lemma_extended_twice(before, previous, all_nodes@);
                    assert forall|a: NodeID, b: NodeID|
                        before.contains_key(a) && #[trigger] all_nodes@[a].edges.contains_key(
                            b,
                        ) implies {
                        ||| before[a].edges.contains_key(b)
                        ||| own.contains(a) && own.contains(b)
                    } by {
                        if !(a == id && b == other) && !(a == other && b == id) {
                            assert(previous[a].edges.contains_key(b));
                        }
                    }
                    assert forall|i: int, b: NodeID|
                        n <= i < entries.len() && #[trigger] self.nodes@.contains_key(b)
                            && before[b].pos == (#[trigger] entries[i]).0 implies {
                        &&& all_nodes@[id].edges.contains_key(b)
                        &&& all_nodes@[b].edges.contains_key(id)
                    } by {
                        assert(own.contains(b));
                        assert(previous.contains_key(id) && previous.dom().contains(b));
                        if i == n {
                            assert(b == other);
                        } else {
                            assert(previous[id].edges.contains_key(b));
                            assert(previous[b].edges.contains_key(id));
                        }
                    }
                }
            } else {
                assert(previous.contains_key(other));
                assert(false);
            }
        }
        proof {
            assert forall|b: NodeID| #[trigger] self.nodes@.contains_key(b) implies {
                &&& is_linked_inside(t, cs, all_nodes@, id, b)
                &&& is_linked_inside(t, cs, all_nodes@, b, id)
            } by {
                assert(own.contains(b));
                assert(self.nodes@.dom().contains(b));
                let q = before[b].pos;
                assert(points@.contains(q));
                assert(all_nodes@[b].pos == q && all_nodes@[id].pos == pos);
                if t.has_path_in(r, pos, q) || t.has_path_in(r, q, pos) {
                    if t.has_path_in(r, q, pos) {
                        lemma_path_in_reverses(t, r, q, pos);
                    }
                    assert(found.contains_key(q));
                    let i = choose|i: int|
                        0 <= i < entries.len() && #[trigger] entries[i] == (q, found[q]);
                    assert(entries[i].0 == q);
                }
                assert(is_node_sound(t, cs, before[b]));
                self.lemma_tiles(cs, t.size, q);
            }
        }
    }
}

/// `ids` are new nodes without connections, one at each of the given tiles.
pub open spec fn are_created(
    before: Nodes,
    after: Nodes,
    tiles: Set<Point>,
    ids: Seq<NodeID>,
) -> bool {
    &&& ids.no_duplicates()
    &&& after.dom() == before.dom().union(ids.to_set())
    &&& forall|id: NodeID| #[trigger] before.contains_key(id) ==> after[id] == before[id]
    &&& forall|i: int|
        0 <= i < ids.len() ==> {
            &&& !before.contains_key(#[trigger] ids[i])
            &&& after[ids[i]].edges == Map::<NodeID, PathSegment>::empty()
            &&& tiles.contains(after[ids[i]].pos)
        }
    &&& forall|p: Point| #[trigger]
        tiles.contains(p) ==> exists|i: int|
            0 <= i < ids.len() && after[#[trigger] ids[i]].pos == p
}

/// Creates a node at each of the given tiles.
pub fn create_nodes<F: FnMut(Point) -> isize>(
    candidates: PointSet,
    get_cost: &mut F,
    all_nodes: &mut NodeList,
    Ghost(t): Ghost<Terrain>,
    Ghost(chunk_size): Ghost<usize>,
    Ghost(known): Ghost<bool>,
) -> (ids: Vec<NodeID>)
    requires
        is_cost_fn(*old(get_cost), t),
        candidates.wf(),
        old(all_nodes).wf(),
        are_nodes_sound(t, chunk_size, old(all_nodes)@),
        are_links_sound(t, chunk_size, known, old(all_nodes)@),
        forall|p: Point| #[trigger]
            candidates@.contains_key(p) ==> {
                &&& t.open(p)
                &&& exists|dir: Dir| #[trigger] is_at_border(p, dir, chunk_size, t.size)
                &&& !has_node_at(old(all_nodes)@, p)
            },
    ensures
        *final(get_cost) == *old(get_cost),
        final(all_nodes).wf(),
        are_nodes_sound(t, chunk_size, final(all_nodes)@),
        are_links_sound(t, chunk_size, known, final(all_nodes)@),
        are_created(old(all_nodes)@, final(all_nodes)@, candidates@.dom(), ids@),
{
    let ghost before = all_nodes@;
    let ghost cost_fn = *get_cost;
    let ghost tiles = candidates@;
    proof {
        candidates.lemma_entries();
    }
    let ghost entries = candidates.entries();
    let mut ids: Vec<NodeID> = Vec::new();
    let count: usize = candidates.len();
    for i in 0..count
        invariant
            *get_cost == cost_fn,
            is_cost_fn(cost_fn, t),
            entries == candidates.entries(),
            tiles == candidates@,
            count == entries.len(),
            forall|j: int| 0 <= j < entries.len() ==> tiles.contains_key((#[trigger] entries[j]).0),
            forall|j: int, k: int|
                0 <= j < k < entries.len() ==> (#[trigger] entries[j]).0 != (#[trigger] entries[k]).0,
            forall|p: Point| #[trigger]
                tiles.contains_key(p) ==> {
                    &&& t.open(p)
                    &&& exists|dir: Dir| #[trigger] is_at_border(p, dir, chunk_size, t.size)
                    &&& !has_node_at(before, p)
                },
            all_nodes.wf(),
            are_nodes_sound(t, chunk_size, before),
            are_links_sound(t, chunk_size, known, before),
            ids@.len() == i,
            ids@.no_duplicates(),
            all_nodes@.dom() =~= before.dom().union(ids@.to_set()),
            forall|id: NodeID| #[trigger] before.contains_key(id) ==> all_nodes@[id] == before[id],
            forall|j: int|
                0 <= j < i ==> {
                    &&& !before.contains_key(#[trigger] ids@[j])
                    &&& all_nodes@.contains_key(ids@[j])
                    &&& all_nodes@[ids@[j]].edges == Map::<NodeID, PathSegment>::empty()
                    &&& all_nodes@[ids@[j]].pos == entries[j].0
                    &&& is_node_sound(t, chunk_size, all_nodes@[ids@[j]])
                },
    {
        let p: Point = candidates.entry_at(i).0;
        let ghost previous = all_nodes@;
        let ghost previous_ids = ids@;
        assert(entries[i as int].0 == p);
        assert(tiles.contains_key(p));
        let cost: isize = (*get_cost)(p);
        proof {
            assert(cost == (t.cost)(p));
            assert forall|id: NodeID| #[trigger] previous.contains_key(id) implies previous[id].pos
                != p by {
                if before.contains_key(id) {
                    assert(!has_node_at(before, p));
                } else {
                    assert(previous.dom().contains(id));
                    let j = choose|j: int| 0 <= j < ids@.len() && ids@[j] == id;
                    assert(entries[j].0 != entries[i as int].0);
                }
            }
        }
        let id: NodeID = all_nodes.add_node(p, cost as usize);
        ids.push(id);
        proof {
            assert(!previous_ids.contains(id)) by {
                if previous_ids.contains(id) {
                    let j = choose|j: int| 0 <= j < previous_ids.len() && previous_ids[j] == id;
                    assert(previous.contains_key(previous_ids[j]));
                }
            }
            assert(ids@.to_set() =~= previous_ids.to_set().insert(id)) by {
                assert(ids@[i as int] == id);
                assert forall|k: NodeID| previous_ids.contains(k) implies ids@.contains(k) by {
                    let j = choose|j: int| 0 <= j < previous_ids.len() && previous_ids[j] == k;
                    assert(ids@[j] == k);
                }
            }
            assert(all_nodes@.dom() =~= before.dom().union(ids@.to_set()));
            assert forall|j: int| 0 <= j < i + 1 implies {
                &&& !before.contains_key(#[trigger] ids@[j])
                &&& all_nodes@.contains_key(ids@[j])
                &&& all_nodes@[ids@[j]].edges == Map::<NodeID, PathSegment>::empty()
                &&& all_nodes@[ids@[j]].pos == entries[j].0
                &&& is_node_sound(t, chunk_size, all_nodes@[ids@[j]])
            } by {
                if j < i {
                    assert(ids@[j] == previous_ids[j]);
                    assert(previous.contains_key(previous_ids[j]));
                } else {
                    assert(!before.contains_key(id)) by {
                        if before.contains_key(id) {
                            assert(previous.dom().contains(id));
                        }
                    }
                }
            }
        }
    }
    proof {
        assert forall|id: NodeID| #[trigger] all_nodes@.contains_key(id) implies is_node_sound(
            t,
            chunk_size,
            all_nodes@[id],
        ) by {
            assert(all_nodes@.dom().contains(id));
            if before.contains_key(id) {
                assert(is_node_sound(t, chunk_size, before[id]));
            } else {
                let j = choose|j: int| 0 <= j < ids@.len() && ids@[j] == id;
                assert(is_node_sound(t, chunk_size, all_nodes@[ids@[j]]));
            }
        }
        assert forall|a: NodeID, b: NodeID|
            all_nodes@.contains_key(a) && #[trigger] all_nodes@[a].edges.contains_key(b) implies {
            &&& all_nodes@.contains_key(b)
            &&& a != b
            &&& is_link(
                t,
                chunk_size,
                all_nodes@[a].pos,
                all_nodes@[b].pos,
                all_nodes@[a].edges[b],
            )
            &&& all_nodes@[a].edges[b] is Known == known
        } by {
            assert(all_nodes@.dom().contains(a));
            if before.contains_key(a) {
                assert(before[a].edges.contains_key(b));
                assert(all_nodes@.dom().contains(b));
            } else {
                let j = choose|j: int| 0 <= j < ids@.len() && ids@[j] == a;
                assert(all_nodes@[ids@[j]].edges == Map::<NodeID, PathSegment>::empty());
            }
        }
        assert forall|i: int| 0 <= i < ids@.len() implies tiles.dom().contains(
            all_nodes@[#[trigger] ids@[i]].pos,
        ) by {
            assert(tiles.contains_key(entries[i].0));
        }
        assert forall|p: Point| #[trigger] tiles.dom().contains(p) implies exists|i: int|
            0 <= i < ids@.len() && all_nodes@[#[trigger] ids@[i]].pos == p by {
            assert(tiles.contains_key(p));
            let i = choose|i: int| 0 <= i < entries.len() && #[trigger] entries[i] == (p, tiles[p]);
            assert(all_nodes@[ids@[i]].pos == p);
        }
    }
    ids
}

impl Chunk {
    /// Adds nodes to the chunk, and connects them to each other and to the nodes that are
    /// there.
    pub fn add_nodes<N: Neighborhood, F: FnMut(Point) -> isize>(
        &mut self,
        to_visit: &[NodeID],
        get_cost: &mut F,
        neighborhood: &N,
        all_nodes: &mut NodeList,
        config: &PathCacheConfig,
        Ghost(t): Ghost<Terrain>,
    )
        requires
            old(self).wf(config.chunk_size, neighborhood.size()),
            is_ground(t, *neighborhood),
            is_cost_fn(*old(get_cost), t),
            fits(t, config.chunk_size),
            old(all_nodes).wf(),
            are_nodes_sound(
                t,
                config.chunk_size,
                old(all_nodes)@,
            ),
            are_links_sound(
                t,
                config.chunk_size,
                config.cache_paths,
                old(all_nodes)@,
            ),
            are_nodes_within(
                old(all_nodes)@,
                old(self).tiles(),
                old(self).nodes@.dom().union(to_visit@.to_set()),
            ),
            are_linked_inside(
                t,
                config.chunk_size,
                old(all_nodes)@,
                old(self).nodes@.dom(),
            ),
            to_visit@.no_duplicates(),
            forall|i: int|
                0 <= i < to_visit@.len() ==> !old(self).nodes@.contains_key(#[trigger] to_visit@[i]),
        ensures
            *final(get_cost) == *old(get_cost),
            final(self).wf(config.chunk_size, neighborhood.size()),
            final(self).pos == old(self).pos,
            final(self).size == old(self).size,
            final(self).sides == old(self).sides,
            final(self).nodes@.dom() == old(self).nodes@.dom().union(to_visit@.to_set()),
            final(all_nodes).wf(),
            are_nodes_sound(
                t,
                config.chunk_size,
                final(all_nodes)@,
            ),
            are_links_sound(
                t,
                config.chunk_size,
                config.cache_paths,
                final(all_nodes)@,
            ),
            is_extended(old(all_nodes)@, final(all_nodes)@),
            is_unchanged_outside(old(all_nodes)@, final(all_nodes)@, final(self).nodes@.dom()),
            has_new_links_within(old(all_nodes)@, final(all_nodes)@, final(self).nodes@.dom()),
            are_linked_inside(
                t,
                config.chunk_size,
                final(all_nodes)@,
                final(self).nodes@.dom(),
            ),
    {
        let cs: usize = config.chunk_size;
        let ghost cost_fn = *get_cost;
        let ghost initial = *self;
        let ghost before = all_nodes@;
        let ghost all = self.nodes@.dom().union(to_visit@.to_set());
        assert forall|id: NodeID| #[trigger] self.nodes@.contains_key(
            id,
        ) implies all_nodes@.contains_key(id) by {
            assert(all.contains(id));
        }
        let mut points: Vec<Point> = self.node_positions(all_nodes);
        for i in 0..to_visit.len()
            invariant
                cs == config.chunk_size,
                is_ground(t, *neighborhood),
                *get_cost == cost_fn,
                is_cost_fn(cost_fn, t),
                fits(t, cs),
                self.wf(cs, neighborhood.size()),
                self.pos == initial.pos,
                self.size == initial.size,
                self.sides == initial.sides,
                all == initial.nodes@.dom().union(to_visit@.to_set()),
                are_nodes_within(before, initial.tiles(), all),
                to_visit@.no_duplicates(),
                forall|k: int|
                    0 <= k < to_visit@.len() ==> !initial.nodes@.contains_key(#[trigger] to_visit@[k]),
                self.nodes@.dom() =~= initial.nodes@.dom().union(
                    to_visit@.take(i as int).to_set(),
                ),
                all_nodes.wf(),
                are_nodes_sound(t, cs, all_nodes@),
                are_links_sound(t, cs, config.cache_paths, all_nodes@),
                is_extended(before, all_nodes@),
                is_unchanged_outside(before, all_nodes@, self.nodes@.dom()),
                has_new_links_within(before, all_nodes@, self.nodes@.dom()),
                are_linked_inside(t, cs, all_nodes@, self.nodes@.dom()),
                are_positions(all_nodes@, self.nodes@.dom(), points@),
        {
            let id: NodeID = to_visit[i];
            let ghost previous = all_nodes@;
            let ghost own = self.nodes@.dom();
            let ghost previous_points = points@;
            proof {
                let visited = to_visit@.take(i as int);
                assert(to_visit@.contains(id));
                assert(all.contains(id));
                assert(!own.contains(id)) by {
                    if visited.to_set().contains(id) {
                        let k = choose|k: int| 0 <= k < visited.len() && visited[k] == id;
                        assert(to_visit@[k] == to_visit@[i as int]);
                    }
                }
                assert forall|k: NodeID| own.insert(id).contains(k) implies all.contains(k) by {
                    if visited.to_set().contains(k) {
                        let j = choose|j: int| 0 <= j < visited.len() && visited[j] == k;
                        assert(to_visit@[j] == k);
                    }
                }
                assert forall|k: NodeID| #[trigger]
                    own.insert(id).contains(k) implies previous.contains_key(k)
                    && self.tiles().contains(previous[k].pos) by {
                    assert(all.contains(k));
                    assert(before.contains_key(k));
                    assert(previous.dom().contains(k));
                }
            }
            self.connect_node(
                id,
                points.as_slice(),
                get_cost,
                neighborhood,
                all_nodes,
                config,
                Ghost(t),
            );
            assert(all_nodes@.dom().contains(id)) by {
                assert(previous.dom().contains(id));
            }
            points.push(all_nodes.get(id).pos);
            self.nodes.insert(id, ());
            proof {
                lemma_extended_twice(before, previous, all_nodes@);
                assert(to_visit@.take(i + 1).to_set() =~= to_visit@.take(i as int).to_set().insert(
                    id,
                )) by {
                    let longer = to_visit@.take(i + 1);
                    let visited = to_visit@.take(i as int);
                    assert(longer[i as int] == id);
                    assert forall|k: NodeID| visited.contains(k) implies longer.contains(k) by {
                        let j = choose|j: int| 0 <= j < visited.len() && visited[j] == k;
                        assert(longer[j] == k);
                    }
                    assert forall|k: NodeID|
                        longer.contains(k) && k != id implies visited.contains(k) by {
                        let j = choose|j: int| 0 <= j < longer.len() && longer[j] == k;
                        assert(visited[j] == k);
                    }
                }
                assert(self.nodes@.dom() =~= own.insert(id));
                assert forall|a: NodeID, b: NodeID|
                    before.contains_key(a) && #[trigger] all_nodes@[a].edges.contains_key(
                        b,
                    ) implies {
                    ||| before[a].edges.contains_key(b)
                    ||| self.nodes@.dom().contains(a) && self.nodes@.dom().contains(b)
                } by {
                    assert(previous.dom().contains(a));
                    if !(own.insert(id).contains(a) && own.insert(id).contains(b)) {
                        assert(previous[a].edges.contains_key(b));
                    }
                }
                assert forall|k: NodeID|
                    before.contains_key(k) && !#[trigger] self.nodes@.dom().contains(
                        k,
                    ) implies all_nodes@[k] == before[k] by {
                    assert(!own.contains(k));
                    assert(!own.insert(id).contains(k));
                    assert(previous.dom().contains(k));
                }
                assert forall|a: NodeID, b: NodeID|
                    self.nodes@.dom().contains(a) && self.nodes@.dom().contains(
                        b,
                    ) implies #[trigger] is_linked_inside(t, cs, all_nodes@, a, b) by {
                    if a != id && b != id {
                        assert(own.contains(a) && own.contains(b));
                        assert(is_linked_inside(t, cs, previous, a, b));
                        assert(own.insert(id).contains(a) && own.insert(id).contains(b));
                        assert(previous.contains_key(a) && previous.contains_key(b));
                    } else if a != b {
                        let other = if a == id {
                            b
                        } else {
                            a
                        };
                        assert(own.contains(other));
                    }
                }
                assert(are_positions(all_nodes@, self.nodes@.dom(), points@)) by {
                    assert forall|k: NodeID| #[trigger] self.nodes@.dom().contains(
                        k,
                    ) implies points@.contains(all_nodes@[k].pos) by {
                        if k == id {
                            assert(points@[previous_points.len() as int] == all_nodes@[k].pos);
                        } else {
                            assert(own.contains(k));
                            assert(own.insert(id).contains(k));
                            assert(previous.contains_key(k));
                            let j = choose|j: int|
                                0 <= j < previous_points.len() && previous_points[j]
                                    == previous[k].pos;
                            assert(points@[j] == all_nodes@[k].pos);
                        }
                    }
                    assert forall|j: int| 0 <= j < points@.len() implies is_position(
                        all_nodes@,
                        self.nodes@.dom(),
                        #[trigger] points@[j],
                    ) by {
                        if j < previous_points.len() {
                            assert(points@[j] == previous_points[j]);
                            assert(is_position(previous, own, previous_points[j]));
                            let k = choose|k: NodeID| #[trigger]
                                own.contains(k) && previous[k].pos == previous_points[j];
                            assert(own.insert(id).contains(k));
                            assert(previous.contains_key(k));
                            assert(self.nodes@.dom().contains(k));
                        } else {
                            assert(self.nodes@.dom().contains(id));
                        }
                    }
                }
            }
        }
        assert(to_visit@.take(to_visit@.len() as int) =~= to_visit@);
    }

    /// The positions of the nodes.
    fn node_positions(&self, all_nodes: &NodeList) -> (points: Vec<Point>)
        requires
            self.nodes.wf(),
            all_nodes.wf(),
            forall|id: NodeID| #[trigger]
                self.nodes@.contains_key(id) ==> all_nodes@.contains_key(id),
        ensures
            are_positions(all_nodes@, self.nodes@.dom(), points@),
    {
        let mut points: Vec<Point> = Vec::new();
        let ghost entries = self.nodes.entries();
        proof {
            self.nodes.lemma_entries();
        }
        let count: usize = self.nodes.len();
        for i in 0..count
            invariant
                self.nodes.wf(),
                all_nodes.wf(),
                entries == self.nodes.entries(),
                count == entries.len(),
                forall|j: int|
                    0 <= j < entries.len() ==> all_nodes@.contains_key((#[trigger] entries[j]).0),
                points@.len() == i,
                forall|j: int|
                    0 <= j < i ==> #[trigger] points@[j] == all_nodes@[entries[j].0].pos,
        {
            let id: NodeID = self.nodes.entry_at(i).0;
            assert(entries[i as int].0 == id);
            points.push(all_nodes.get(id).pos);
        }
        proof {
            let ids = self.nodes@.dom();
            assert forall|id: NodeID| #[trigger] ids.contains(id) implies points@.contains(
                all_nodes@[id].pos,
            ) by {
                assert(self.nodes@.contains_key(id));
                let i = choose|i: int|
                    0 <= i < entries.len() && #[trigger] entries[i] == (id, self.nodes@[id]);
                assert(points@[i] == all_nodes@[id].pos);
            }
            assert forall|i: int| 0 <= i < points@.len() implies is_position(
                all_nodes@,
                ids,
                #[trigger] points@[i],
            ) by {
                assert(self.nodes@.contains_key(entries[i].0));
                assert(ids.contains(entries[i].0));
            }
        }
        points
    }
}

/// The nodes of the chunk were added: one at each of its entrances, and connected where
/// there is a path between them within the chunk.
pub open spec fn is_chunk_added(
    t: Terrain,
    chunk_size: usize,
    known: bool,
    before: Nodes,
    after: Nodes,
    chunk: Chunk,
) -> bool {
    &&& are_nodes_sound(t, chunk_size, after)
    &&& are_links_sound(t, chunk_size, known, after)
    &&& after.dom() == before.dom().union(chunk.nodes@.dom())
    &&& forall|a: NodeID| #[trigger] before.contains_key(a) ==> after[a] == before[a]
    &&& forall|a: NodeID| #[trigger]
        chunk.nodes@.contains_key(a) ==> {
            &&& !before.contains_key(a)
            &&& chunk.tiles().contains(after[a].pos)
            &&& is_entrance(t, chunk_size, after[a].pos)
        }
    &&& forall|a: NodeID, b: NodeID|
        chunk.nodes@.contains_key(a) && #[trigger] after[a].edges.contains_key(b)
            ==> chunk.nodes@.contains_key(b)
    &&& are_linked_inside(t, chunk_size, after, chunk.nodes@.dom())
    &&& forall|p: Point| #[trigger]
        is_entrance(t, chunk_size, p) && chunk.tiles().contains(p) ==> has_node_at(after, p)
}

impl Chunk {
    /// The node of the chunk that is cheapest to reach from the tile within the chunk, with
    /// the path to it, or from it if `reverse` is set.
    pub fn nearest_node<N: Neighborhood, F: FnMut(Point) -> isize>(
        &self,
        all_nodes: &NodeList,
        pos: Point,
        get_cost: &mut F,
        neighborhood: &N,
        reverse: bool,
        Ghost(chunk_size): Ghost<usize>,
        Ghost(t): Ghost<Terrain>,
    ) -> (nearest: Option<(NodeID, Path<Point>)>)
        requires
            self.wf(chunk_size, neighborhood.size()),
            is_ground(t, *neighborhood),
            is_cost_fn(*old(get_cost), t),
            fits(t, chunk_size),
            all_nodes.wf(),
            are_nodes_within(all_nodes@, self.tiles(), self.nodes@.dom()),
            self.tiles().contains(pos),
            !has_node_at(all_nodes@, pos),
        ensures
            *final(get_cost) == *old(get_cost),
            ({
                match nearest {
                    Some((id, path)) => {
                        let end = all_nodes@[id].pos;
                        &&& is_nearest(
                            t,
                            self.tiles(),
                            all_nodes@,
                            self.nodes@.dom(),
                            pos,
                            id,
                        )
                        &&& t.has_path_in(self.tiles(), pos, end)
                        &&& if reverse {
                            &&& t.is_route(
                                self.tiles(),
                                path.points(),
                                end,
                                pos,
                                path.total() as nat,
                            )
                            &&& is_cheapest(
                                t.edges(self.tiles()),
                                end,
                                pos,
                                path.total() as nat,
                            )
                        } else {
                            &&& t.is_route(
                                self.tiles(),
                                path.points(),
                                pos,
                                end,
                                path.total() as nat,
                            )
                            &&& is_cheapest(
                                t.edges(self.tiles()),
                                pos,
                                end,
                                path.total() as nat,
                            )
                        }
                        &&& 2 <= path.points().len() <= self.tiles().area()
                        &&& path.total() <= link_limit(t.size, chunk_size)
                        &&& is_first_access(
                            t,
                            self.tiles(),
                            all_nodes@,
                            self.nodes@.dom(),
                            pos,
                            id,
                            path,
                            reverse,
                        )
                    },
                    None => forall|b: NodeID| #[trigger]
                        self.nodes@.contains_key(b) ==> !t.has_path_in(
                            self.tiles(),
                            pos,
                            all_nodes@[b].pos,
                        ),
                }
            }),
    {
        let ghost r = self.tiles();
        let ghost e = t.edges(r);
        let ghost w = tile_limit(t.size, chunk_size);
        let ghost ids = self.nodes@.dom();
        proof {
            lemma_ground_wf(t, *neighborhood);
            lemma_chunk_limits(t, chunk_size, self.pos);
            self.lemma_tiles(chunk_size, t.size, self.pos);
            all_nodes.lemma_positions();
            assert forall|id: NodeID| #[trigger] self.nodes@.contains_key(
                id,
            ) implies all_nodes@.contains_key(id) by {
                assert(ids.contains(id));
            }
        }
        let points: Vec<Point> = self.node_positions(all_nodes);
        let paths: PointMap<Path<Point>> = dijkstra_search(
            neighborhood,
            self.region(),
            get_cost,
            pos,
            points.as_slice(),
            true,
            Ghost(t),
            Ghost(w),
        );
        let ghost found = paths@;
        proof {
            paths.lemma_entries();
        }
        let ghost entries = paths.entries();
        let mut rest: Vec<(Point, Path<Point>)> = paths.into_entries();
        if let Some((end, path)) = rest.pop() {
            let ghost s = path.points();
            let ghost id;
            proof {
                assert((end, path) == entries[entries.len() - 1]);
                assert(found.contains_key(end));
                let k = choose|k: int| 0 <= k < points@.len() && points@[k] == end;
                assert(is_position(all_nodes@, ids, points@[k]));
                id = choose|id: NodeID| #[trigger] ids.contains(id) && all_nodes@[id].pos == end;
                assert(all_nodes@.contains_key(id));
                assert(end != pos);
                if s.len() == 1 {
                    assert(s[0] == s.last());
                }
                assert(connects(e, s, pos, end));
                assert(linked(e, s, 0));
                lemma_walk_in_region(t, r, pos, end);
                lemma_walk_cost_bound(t, r, s, w);
                lemma_reversed_cost(t, r, s);
                lemma_cheapest_back(t, r, pos, end, path.total() as nat);
                assert((s.len() - 1) * w + w <= r.area() * w) by (nonlinear_arith)
                    requires
                        s.len() <= r.area(),
                        0 <= w,
                ;
                assert forall|b: NodeID| #[trigger] ids.contains(b) implies is_cheapest(
                    e,
                    pos,
                    all_nodes@[b].pos,
                    walk_cost(e, s),
                ) by {
                    assert(points@.contains(all_nodes@[b].pos));
                }
                assert(is_nearest(t, r, all_nodes@, ids, pos, id));
                assert(points@.to_set() =~= positions_of(all_nodes@, ids)) by {
                    assert forall|p: Point| points@.contains(p) <==> is_position(
                        all_nodes@,
                        ids,
                        p,
                    ) by {}
                }
                assert(is_first_node(t, r, all_nodes@, ids, pos, id, s, path.total() as nat));
            }
            match all_nodes.id_at(end) {
                Some(found_id) => {
                    assert(found_id == id);
                    if reverse {
                        let start_cost: isize = (*get_cost)(pos);
                        let end_cost: isize = (*get_cost)(end);
                        let cost: Cost = path.cost() - start_cost as usize + end_cost as usize;
                        let back: Path<Point> = path.reversed(cost);
                        assert(is_reverse_of(t, pos, end, s, path.total() as nat, back));
                        Some((found_id, back))
                    } else {
                        Some((found_id, path))
                    }
                },
                None => {
                    assert(false);
                    None
                },
            }
        } else {
            proof {
                assert forall|b: NodeID| #[trigger] self.nodes@.contains_key(b) implies !t.has_path_in(
                    r,
                    pos,
                    all_nodes@[b].pos,
                ) by {
                    if t.has_path_in(r, pos, all_nodes@[b].pos) {
                        assert(ids.contains(b));
                        assert(points@.contains(all_nodes@[b].pos));
                        let g = choose|g: Point| #[trigger] found.contains_key(g);
                        let i = choose|i: int|
                            0 <= i < entries.len() && #[trigger] entries[i] == (g, found[g]);
                        assert(false);
                    }
                }
            }
            None
        }
    }

    /// Creates the chunk at the given position, with its nodes.
    pub fn new<N: Neighborhood, F: FnMut(Point) -> isize>(
        pos: Point,
        size: (usize, usize),
        total_size: (usize, usize),
        get_cost: &mut F,
        neighborhood: &N,
        all_nodes: &mut NodeList,
        config: PathCacheConfig,
        Ghost(t): Ghost<Terrain>,
    ) -> (chunk: Chunk)
        requires
            neighborhood.size() == total_size,
            0 < config.chunk_size,
            on_grid(pos, total_size),
            pos.0 + size.0 <= total_size.0,
            pos.1 + size.1 <= total_size.1,
            region_of(pos, config.chunk_size, total_size) == (Region {
                left: pos.0,
                top: pos.1,
                right: (pos.0 + size.0) as usize,
                bottom: (pos.1 + size.1) as usize,
            }),
            is_ground(t, *neighborhood),
            is_cost_fn(*old(get_cost), t),
            fits(t, config.chunk_size),
            old(all_nodes).wf(),
            are_nodes_sound(
                t,
                config.chunk_size,
                old(all_nodes)@,
            ),
            are_links_sound(
                t,
                config.chunk_size,
                config.cache_paths,
                old(all_nodes)@,
            ),
            forall|a: NodeID| #[trigger]
                old(all_nodes)@.contains_key(a) ==> !region_of(
                    pos,
                    config.chunk_size,
                    total_size,
                ).contains(old(all_nodes)@[a].pos),
        ensures
            *final(get_cost) == *old(get_cost),
            chunk.wf(config.chunk_size, total_size),
            chunk.pos == pos,
            chunk.size == size,
            final(all_nodes).wf(),
            is_chunk_added(
                t,
                config.chunk_size,
                config.cache_paths,
                old(all_nodes)@,
                final(all_nodes)@,
                chunk,
            ),
    {
        let cs: usize = config.chunk_size;
        let ghost cost_fn = *get_cost;
        let ghost before = all_nodes@;
        let mut chunk = Chunk {
            pos,
            size,
            nodes: NodeIDSet::new(),
            sides: [
                pos.1 > 0,
                pos.0 + size.0 < total_size.0,
                pos.1 + size.1 < total_size.1,
                pos.0 > 0,
            ],
        };
        let ghost r = chunk.tiles();
        let dirs: [Dir; 4] = Dir::all();
        let mut candidates: PointSet = PointSet::new();
        for i in 0..4
            invariant
                cs == config.chunk_size,
                chunk.wf(cs, total_size),
                r == chunk.tiles(),
                t.size == total_size,
                is_ground(t, *neighborhood),
                *get_cost == cost_fn,
                is_cost_fn(cost_fn, t),
                candidates.wf(),
                forall|k: int| 0 <= k < 4 ==> #[trigger] dirs@[k] == Dir::numbered(k),
                forall|p: Point| #[trigger]
                    candidates@.contains_key(p) <==> r.contains(p) && exists|dir: Dir|
                        dir.number() < i && #[trigger] is_entrance_to(t, cs, p, dir),
        {
            let dir: Dir = dirs[i];
            let ghost previous = candidates@;
            assert(dir == Dir::numbered(i as int) && dir.number() == i);
            if chunk.sides[dir.num()] {
                chunk.calculate_side_nodes(
                    neighborhood,
                    dir,
                    total_size,
                    get_cost,
                    config,
                    &mut candidates,
                    Ghost(t),
                );
            }
            proof {
                assert forall|p: Point| #[trigger] candidates@.contains_key(p) <==> r.contains(p)
                    && exists|d: Dir| d.number() < i + 1 && #[trigger] is_entrance_to(t, cs, p, d) by {
                    if r.contains(p) && is_entrance_to(t, cs, p, dir) {
                        chunk.lemma_tiles(cs, total_size, p);
                        assert(candidates@.contains_key(p));
                    }
                    if previous.contains_key(p) {
                        let d = choose|d: Dir|
                            d.number() < i && #[trigger] is_entrance_to(t, cs, p, d);
                        assert(d.number() < i + 1);
                    }
                    if exists|d: Dir| d.number() < i + 1 && #[trigger] is_entrance_to(t, cs, p, d) {
                        let d = choose|d: Dir|
                            d.number() < i + 1 && #[trigger] is_entrance_to(t, cs, p, d);
                        if d != dir {
                            assert(d.number() < i);
                        }
                    }
                }
            }
        }
        proof {
            assert forall|p: Point| #[trigger] candidates@.contains_key(p) implies {
                &&& t.open(p)
                &&& exists|dir: Dir| #[trigger] is_at_border(p, dir, cs, t.size)
                &&& !has_node_at(before, p)
            } by {
                let d = choose|d: Dir| d.number() < 4 && #[trigger] is_entrance_to(t, cs, p, d);
                assert(is_at_border(p, d, cs, t.size));
            }
        }
        let ghost tiles = candidates@.dom();
        let ids: Vec<NodeID> = create_nodes(
            candidates,
            get_cost,
            all_nodes,
            Ghost(t),
            Ghost(cs),
            Ghost(config.cache_paths),
        );
        let ghost created = all_nodes@;
        proof {
            assert forall|id: NodeID| #[trigger] chunk.nodes@.dom().union(
                ids@.to_set(),
            ).contains(id) implies created.contains_key(id) && r.contains(created[id].pos) by {
                let i = choose|i: int| 0 <= i < ids@.len() && ids@[i] == id;
                assert(created.dom().contains(ids@[i]));
                assert(tiles.contains(created[ids@[i]].pos));
                assert(candidates@.contains_key(created[id].pos));
            }
        }
        chunk.add_nodes(ids.as_slice(), get_cost, neighborhood, all_nodes, &config, Ghost(t));
        proof {
            assert(chunk.nodes@.dom() =~= ids@.to_set());
            assert(all_nodes@.dom() =~= before.dom().union(chunk.nodes@.dom()));
            assert forall|a: NodeID| #[trigger] before.contains_key(a) implies all_nodes@[a]
                == before[a] by {
                assert(created.dom().contains(a));
                assert(created.contains_key(a));
                assert(!chunk.nodes@.dom().contains(a)) by {
                    if ids@.contains(a) {
                        let i = choose|i: int| 0 <= i < ids@.len() && ids@[i] == a;
                        assert(!before.contains_key(ids@[i]));
                    }
                }
            }
            assert forall|a: NodeID| #[trigger] chunk.nodes@.contains_key(
                a,
            ) implies !before.contains_key(a) && r.contains(all_nodes@[a].pos) && is_entrance(
                t,
                cs,
                all_nodes@[a].pos,
            ) by {
                assert(chunk.nodes@.dom().contains(a));
                let i = choose|i: int| 0 <= i < ids@.len() && ids@[i] == a;
                assert(created.dom().contains(ids@[i]));
                assert(tiles.contains(created[ids@[i]].pos));
                assert(candidates@.contains_key(created[a].pos));
                assert(created.contains_key(a));
            }
            assert forall|a: NodeID, b: NodeID|
                chunk.nodes@.contains_key(a) && #[trigger] all_nodes@[a].edges.contains_key(
                    b,
                ) implies chunk.nodes@.contains_key(b) by {
                assert(chunk.nodes@.dom().contains(a));
                let i = choose|i: int| 0 <= i < ids@.len() && ids@[i] == a;
                assert(created.dom().contains(ids@[i]));
                assert(created[ids@[i]].edges == Map::<NodeID, PathSegment>::empty());
                assert(chunk.nodes@.dom().contains(b));
            }
            assert forall|p: Point| #[trigger] is_entrance(t, cs, p) && r.contains(
                p,
            ) implies has_node_at(all_nodes@, p) by {
                let d = choose|d: Dir| #[trigger] is_entrance_to(t, cs, p, d);
                assert(d.number() < 4);
                assert(candidates@.contains_key(p));
                assert(tiles.contains(p));
                let i = choose|i: int| 0 <= i < ids@.len() && created[#[trigger] ids@[i]].pos == p;
                assert(created.dom().contains(ids@[i]));
                assert(created.contains_key(ids@[i]));
                assert(all_nodes@.contains_key(ids@[i]));
            }
        }
        chunk
    }
}

impl Chunk {
    /// The connections between the nodes of the chunk.
    pub fn connect_nodes_parallel<N: Neighborhood, F: FnMut(Point) -> isize>(
        &self,
        get_cost: &mut F,
        neighborhood: &N,
        all_nodes: &NodeList,
        cache_paths: bool,
        Ghost(chunk_size): Ghost<usize>,
        Ghost(t): Ghost<Terrain>,
    ) -> (links: Vec<Link>)
        requires
            self.wf(chunk_size, neighborhood.size()),
            is_ground(t, *neighborhood),
            is_cost_fn(*old(get_cost), t),
            fits(t, chunk_size),
            all_nodes.wf(),
            are_nodes_sound(t, chunk_size, all_nodes@),
            are_nodes_within(all_nodes@, self.tiles(), self.nodes@.dom()),
        ensures
            *final(get_cost) == *old(get_cost),
            are_links_of(
                &t,
                chunk_size,
                cache_paths,
                all_nodes,
                self,
                links@,
            ),
    {
        let ghost cost_fn = *get_cost;
        let ghost r = self.tiles();
        let ghost e = t.edges(r);
        let ghost nodes = all_nodes@;
        let ghost ids = self.nodes@.dom();
        let ghost listed = self.nodes.entries();
        proof {
            lemma_ground_wf(t, *neighborhood);
            self.nodes.lemma_entries();
            all_nodes.lemma_positions();
        }
        let mut links: Vec<Link> = Vec::new();
        let count: usize = self.nodes.len();
        for i in 0..count
            invariant
                self.wf(chunk_size, neighborhood.size()),
                is_ground(t, *neighborhood),
                t.wf(),
                *get_cost == cost_fn,
                is_cost_fn(cost_fn, t),
                fits(t, chunk_size),
                r == self.tiles(),
                e == t.edges(r),
                all_nodes.wf(),
                nodes == all_nodes@,
                ids == self.nodes@.dom(),
                has_unique_positions(nodes),
                are_nodes_sound(t, chunk_size, nodes),
                are_nodes_within(nodes, r, ids),
                listed == self.nodes.entries(),
                count == listed.len(),
                forall|k: int| 0 <= k < listed.len() ==> ids.contains((#[trigger] listed[k]).0),
                forall|j: int, k: int|
                    0 <= j < k < listed.len() ==> (#[trigger] listed[j]).0 != (
                    #[trigger] listed[k]).0,
                forall|k: int|
                    0 <= k < links@.len() ==> is_link_of(
                        t,
                        chunk_size,
                        cache_paths,
                        nodes,
                        ids,
                        #[trigger] links@[k],
                    ),
                forall|j: int, k: int|
                    0 <= j < i && j < k < listed.len() && t.has_path_in(
                        r,
                        nodes[(#[trigger] listed[j]).0].pos,
                        nodes[(#[trigger] listed[k]).0].pos,
                    ) ==> has_link_between(links@, listed[j].0, listed[k].0),
        {
            let id: NodeID = self.nodes.entry_at(i).0;
            let ghost previous = links@;
            assert(listed[i as int].0 == id);
            assert(ids.contains(id));
            let pos: Point = all_nodes.get(id).pos;
            let mut points: Vec<Point> = Vec::new();
            for k in i + 1..count
                invariant
                    all_nodes.wf(),
                    nodes == all_nodes@,
                    are_nodes_within(nodes, r, ids),
                    listed == self.nodes.entries(),
                    count == listed.len(),
                    forall|k: int| 0 <= k < listed.len() ==> ids.contains((#[trigger] listed[k]).0),
                    points@.len() == k - (i + 1),
                    forall|j: int|
                        0 <= j < points@.len() ==> #[trigger] points@[j] == nodes[listed[i + 1
                            + j].0].pos,
            {
                let other: NodeID = self.nodes.entry_at(k).0;
                assert(listed[k as int].0 == other);
                assert(ids.contains(other));
                points.push(all_nodes.get(other).pos);
            }
            let paths: PointMap<Path<Point>> = self.find_paths(
                pos,
                points.as_slice(),
                get_cost,
                neighborhood,
                Ghost(chunk_size),
                Ghost(t),
            );
            let ghost found = paths@;
            proof {
                paths.lemma_entries();
            }
            let ghost entries = paths.entries();
            let list: Vec<(Point, Path<Point>)> = paths.into_entries();
            for entry in iter: list
                invariant
                    iter.seq() == entries,
                    i < count,
                    count == listed.len(),
                    0 < chunk_size,
                    t.wf(),
                    r == self.tiles(),
                    self.wf(chunk_size, t.size),
                    e == t.edges(r),
                    all_nodes.wf(),
                    nodes == all_nodes@,
                    has_unique_positions(nodes),
                    are_nodes_sound(t, chunk_size, nodes),
                    are_nodes_within(nodes, r, ids),
                    forall|k: int| 0 <= k < listed.len() ==> ids.contains((#[trigger] listed[k]).0),
                    forall|j: int, k: int|
                        0 <= j < k < listed.len() ==> (#[trigger] listed[j]).0 != (
                        #[trigger] listed[k]).0,
                    listed[i as int].0 == id,
                    ids.contains(id),
                    pos == nodes[id].pos,
                    points@.len() == count - (i + 1),
                    forall|j: int|
                        0 <= j < points@.len() ==> #[trigger] points@[j] == nodes[listed[i + 1
                            + j].0].pos,
                    forall|k: int|
                        0 <= k < entries.len() ==> {
                            let (p, path) = #[trigger] entries[k];
                            &&& points@.contains(p)
                            &&& connects(e, path.points(), pos, p)
                            &&& walk_cost(e, path.points()) == path.total()
                            &&& path.points().len() <= r.area()
                            &&& is_cheapest(e, pos, p, path.total() as nat)
                        },
                    previous.is_prefix_of(links@),
                    forall|k: int|
                        0 <= k < links@.len() ==> is_link_of(
                            t,
                            chunk_size,
                            cache_paths,
                            nodes,
                            ids,
                            #[trigger] links@[k],
                        ),
                    forall|k: int, b: NodeID|
                        0 <= k < iter.index() && #[trigger] ids.contains(b) && nodes[b].pos == (
                        #[trigger] entries[k]).0 ==> has_link_between(links@, id, b),
            {
                let ghost n = iter.index() as int;
                let ghost now = links@;
                assert(entry == entries[n]);
                let (other_pos, path) = entry;
                let ghost s = path.points();
                let ghost j = choose|j: int| 0 <= j < points@.len() && points@[j] == other_pos;
                let ghost other = listed[i + 1 + j].0;
                proof {
                    assert(points@[j] == other_pos);
                    assert(ids.contains(listed[i + 1 + j].0));
                    assert(listed[i as int].0 != listed[i + 1 + j].0);
                    assert(nodes.contains_key(other) && nodes.contains_key(id));
                }
                let at: Option<NodeID> = all_nodes.id_at(other_pos);
                let other_id: NodeID = at.unwrap();
                proof {
                    assert(nodes.contains_key(other_id));
                    assert(other_id == other);
                    assert(is_node_sound(t, chunk_size, nodes[id]));
                    self.lemma_tiles(chunk_size, t.size, pos);
                    if s.len() == 1 {
                        assert(s[0] == s.last());
                    }
                }
                let segment = PathSegment::new(path, cache_paths);
                assert(is_link_over(t, chunk_size, pos, other_pos, segment, s));
                links.push((id, other_id, segment));
                proof {
                    assert(is_link_of(
                        t,
                        chunk_size,
                        cache_paths,
                        nodes,
                        ids,
                        (id, other_id, segment),
                    ));
                    assert(is_between(links@[now.len() as int], id, other_id));
                    assert(has_link_between(links@, id, other_id));
                    assert forall|k: int, b: NodeID|
                        0 <= k < n + 1 && #[trigger] ids.contains(b) && nodes[b].pos == (
                        #[trigger] entries[k]).0 implies has_link_between(links@, id, b) by {
                        if k < n {
                            assert(has_link_between(now, id, b));
                            lemma_has_link_in_longer(now, links@, id, b);
                        } else {
                            assert(nodes.contains_key(b));
                        }
                    }
                }
            }
            proof {
                assert forall|j: int, k: int|
                    0 <= j < i + 1 && j < k < listed.len() && t.has_path_in(
                        r,
                        nodes[(#[trigger] listed[j]).0].pos,
                        nodes[(#[trigger] listed[k]).0].pos,
                    ) implies has_link_between(links@, listed[j].0, listed[k].0) by {
                    if j < i {
                        assert(has_link_between(previous, listed[j].0, listed[k].0));
                        lemma_has_link_in_longer(previous, links@, listed[j].0, listed[k].0);
                    } else {
                        let b = listed[k].0;
                        let q = nodes[b].pos;
                        assert(points@[k - (i + 1)] == q);
                        assert(points@.contains(q));
                        assert(found.contains_key(q));
                        let l = choose|l: int|
                            0 <= l < entries.len() && #[trigger] entries[l] == (q, found[q]);
                        assert(entries[l].0 == q);
                        assert(ids.contains(b));
                    }
                }
            }
        }
        proof {
            assert forall|a: NodeID, b: NodeID|
                ids.contains(a) && ids.contains(b) && a != b && #[trigger] t.has_path_in(
                    r,
                    nodes[a].pos,
                    nodes[b].pos,
                ) implies has_link_between(links@, a, b) by {
                assert(self.nodes@.contains_key(a) && self.nodes@.contains_key(b));
                let j = choose|j: int|
                    0 <= j < listed.len() && #[trigger] listed[j] == (a, self.nodes@[a]);
                let k = choose|k: int|
                    0 <= k < listed.len() && #[trigger] listed[k] == (b, self.nodes@[b]);
                assert(listed[j].0 == a && listed[k].0 == b);
                if j < k {
                    assert(has_link_between(links@, a, b));
                } else {
                    lemma_path_in_reverses(t, r, nodes[a].pos, nodes[b].pos);
                    assert(has_link_between(links@, listed[k].0, listed[j].0));
                    let l = choose|l: int|
                        0 <= l < links@.len() && is_between(#[trigger] links@[l], b, a);
                    assert(is_between(links@[l], a, b));
                }
            }
        }
        links
    }
}

/// The connection is one between two of the given nodes.
pub open spec fn is_link_of(
    t: Terrain,
    chunk_size: usize,
    known: bool,
    nodes: Nodes,
    ids: Set<NodeID>,
    link: Link,
) -> bool {
    &&& ids.contains(link.0)
    &&& ids.contains(link.1)
    &&& is_link_between(t, chunk_size, known, nodes, link)
}

/// The connections are those between the nodes of the chunk.
pub open spec fn are_links_of(
    t: &Terrain,
    chunk_size: usize,
    known: bool,
    all_nodes: &NodeList,
    chunk: &Chunk,
    links: Seq<Link>,
) -> bool {
    let ids = chunk.nodes@.dom();
    let nodes = all_nodes@;
    &&& forall|k: int|
        0 <= k < links.len() ==> is_link_of(*t, chunk_size, known, nodes, ids, #[trigger] links[k])
    &&& forall|a: NodeID, b: NodeID|
        ids.contains(a) && ids.contains(b) && a != b && #[trigger] t.has_path_in(
            chunk.tiles(),
            nodes[a].pos,
            nodes[b].pos,
        ) ==> has_link_between(links, a, b)
}

} // verus!

//! Turning a path from node to node into one from tile to tile.

use vstd::prelude::*;

use super::chunk::{are_nodes_within, Chunk};
use super::detour::{
    is_bounded_by, is_guided, is_short, is_shortcut_by, lemma_guided_in_chunk, lemma_guided_on_grid,
};
use super::entrance::{lemma_path_in_joins, lemma_path_in_reverses, lemma_path_to_itself};
use super::layout::{chunk_index, lemma_region_of, region_of};
use super::limits::{
    chunk_area, fits, lemma_chunk_limits, lemma_graph_is_searchable, lemma_limits, lemma_link_limit,
    link_limit, tile_limit,
};
use super::links::{
    are_links_sound, are_nodes_sound, has_node_at, has_unique_positions, is_link_over, is_nearest,
    is_node_sound, lemma_graph_is_sound, lemma_link, Nodes,
};
use super::outcome::{
    is_assembly, is_direct, is_first_access, is_first_piece, is_grid_path, is_last_piece,
    is_leading, is_over_nodes, is_resolution, is_searched_for, is_trailing, link_points,
    piece_points, piece_shape, to_piece, way_points, way_shape,
};
use super::{PathCache, PathCacheConfig};
use crate::abstract_path::{stored, AbstractPath};
use crate::graph::node_edges;
use crate::grid::a_star_search;
use crate::key_map::{NodeIDMap, PointMap};
use crate::neighbors::{is_same_neighborhood, is_same_point, on_grid, Neighborhood};
use crate::path::{Path, PathSegment};
use crate::search::{is_cheapest, is_distance};
use crate::terrain::{lemma_ground_wf, lemma_region_subgraph, Region, Terrain};
use crate::walk::{
    connects, is_walk, joined, lemma_reaches_in_supergraph, lemma_reaches_transitive,
    lemma_single_step, lemma_walk_in_supergraph, lemma_walk_splits, lemma_walk_stays,
    lemma_walks_join, linked, reaches, walk_cost,
};
use crate::{NodeID, Point};

verus! {

/// The path leads from `start` to `goal`, and has not been walked along.
pub open spec fn is_path_to<N: Neighborhood>(
    t: Terrain,
    path: AbstractPath<N>,
    start: Point,
    goal: Point,
) -> bool {
    &&& path.wf()
    &&& path.position() == 0
    &&& path.steps() + 1 == path.route().len()
    &&& if start == goal {
        &&& path.route() == seq![start, start]
        &&& path.total() == 0
        &&& path.all_known()
    } else {
        t.is_route(t.whole(), path.route(), start, goal, path.total() as nat)
    }
}

impl<N: Neighborhood> PathCache<N> {
    /// The path is one from `start` to `goal` on the grid of the cache; its points are all
    /// stored if the settings say so; and where the estimates of the neighborhood guide the
    /// searches, it costs no more than a cheapest way over the nodes.
    pub open spec fn is_answer(
        &self,
        t: Terrain,
        start: Point,
        goal: Point,
        path: AbstractPath<N>,
    ) -> bool {
        &&& is_path_to(t, path, start, goal)
        &&& is_same_neighborhood(path.surroundings(), self.surroundings())
        &&& path.terrain() == t
        &&& self.settings().cache_paths ==> path.all_known()
        &&& start != goal && is_guided(self.surroundings(), t, self.settings().chunk_size)
            ==> is_short(t, self.settings(), self.graph(), start, goal, path.total() as nat)
    }
}

/// The cost of getting to a node or from it.
pub open spec fn access_cost(path: Option<Path<Point>>) -> nat {
    match path {
        Some(path) => path.total() as nat,
        None => 0,
    }
}

/// The nodes in the chunk of the tile.
pub open spec fn nodes_around(t: Terrain, chunk_size: usize, nodes: Nodes, p: Point) -> Set<NodeID> {
    Set::new(
        |id: NodeID|
            nodes.contains_key(id) && region_of(p, chunk_size, t.size).contains(nodes[id].pos),
    )
}

/// The node is at the tile, or no other node of the chunk is cheaper to reach from the
/// tile within the chunk.
pub open spec fn is_node_near(
    t: Terrain,
    chunk_size: usize,
    nodes: Nodes,
    p: Point,
    id: NodeID,
) -> bool {
    let r = region_of(p, chunk_size, t.size);
    &&& nodes.contains_key(id)
    &&& nodes[id].pos == p || is_nearest(t, r, nodes, nodes_around(t, chunk_size, nodes, p), p, id)
}

/// The node is the one near the tile that is found first, and the path is a cheapest one
/// within the chunk from the tile to it, or from it to the tile if `reverse` is set; there is
/// no path if the tile is that of the node.
pub open spec fn is_access(
    t: Terrain,
    chunk_size: usize,
    nodes: Nodes,
    p: Point,
    id: NodeID,
    path: Option<Path<Point>>,
    reverse: bool,
) -> bool {
    let r = region_of(p, chunk_size, t.size);
    let end = nodes[id].pos;
    &&& is_node_near(t, chunk_size, nodes, p, id)
    &&& region_of(end, chunk_size, t.size) == r
    &&& t.has_path_in(r, p, end)
    &&& match path {
        Some(path) => {
            &&& !has_node_at(nodes, p)
            &&& is_first_access(
                t,
                r,
                nodes,
                nodes_around(t, chunk_size, nodes, p),
                p,
                id,
                path,
                reverse,
            )
            &&& 2 <= path.points().len() <= r.area()
            &&& path.total() <= link_limit(t.size, chunk_size)
            &&& if reverse {
                &&& t.is_route(r, path.points(), end, p, path.total() as nat)
                &&& is_cheapest(t.edges(r), end, p, path.total() as nat)
            } else {
                &&& t.is_route(r, path.points(), p, end, path.total() as nat)
                &&& is_cheapest(t.edges(r), p, end, path.total() as nat)
            }
        },
        None => end == p,
    }
}

/// A route within a rectangle is one on the grid.
pub proof fn lemma_route_on_grid(
    t: Terrain,
    r: Region,
    s: Seq<Point>,
    a: Point,
    b: Point,
    cost: nat,
)
    requires
        t.is_route(r, s, a, b, cost),
    ensures
        t.is_route(t.whole(), s, a, b, cost),
{
    lemma_region_subgraph(t, r);
    lemma_walk_in_supergraph(t.edges(r), t.edges(t.whole()), s);
}

/// A path within a rectangle is one on the grid.
pub proof fn lemma_path_on_grid(t: Terrain, r: Region, a: Point, b: Point)
    requires
        t.has_path_in(r, a, b),
    ensures
        t.has_path(a, b),
{
    lemma_region_subgraph(t, r);
    lemma_reaches_in_supergraph(t.edges(r), t.edges(t.whole()), a, b);
}

/// The points of a connection are a route on the grid.
pub proof fn lemma_link_on_grid(
    t: Terrain,
    chunk_size: usize,
    a: Point,
    b: Point,
    path: PathSegment,
    s: Seq<Point>,
)
    requires
        is_link_over(t, chunk_size, a, b, path, s),
        t.open(a),
        t.open(b),
    ensures
        t.is_route(t.whole(), s, a, b, path.total() as nat),
{
    let r = region_of(a, chunk_size, t.size);
    if r.contains(b) {
        lemma_route_on_grid(t, r, s, a, b, path.total() as nat);
    } else {
        lemma_single_step(t.edges(t.whole()), a, b);
    }
}

/// There is a path within the rectangle at the given cost.
pub open spec fn has_route(t: Terrain, r: Region, a: Point, b: Point, cost: nat) -> bool {
    exists|s: Seq<Point>| #[trigger] t.is_route(r, s, a, b, cost)
}

/// Two paths make up one at the sum of their costs.
pub proof fn lemma_routes_join(t: Terrain, r: Region, a: Point, b: Point, c: Point, x: nat, y: nat)
    requires
        has_route(t, r, a, b, x),
        has_route(t, r, b, c, y),
    ensures
        has_route(t, r, a, c, x + y),
{
    let s = choose|s: Seq<Point>| #[trigger] t.is_route(r, s, a, b, x);
    let u = choose|u: Seq<Point>| #[trigger] t.is_route(r, u, b, c, y);
    lemma_walks_join(t.edges(r), s, u);
    assert(t.is_route(r, joined(s, u), a, c, x + y));
}

/// A cheapest path costs no more than any other.
pub proof fn lemma_route_bound(t: Terrain, r: Region, a: Point, b: Point, cost: nat, other: nat)
    requires
        is_cheapest(t.edges(r), a, b, cost),
        has_route(t, r, a, b, other),
    ensures
        cost <= other,
{
    let s = choose|s: Seq<Point>| #[trigger] t.is_route(r, s, a, b, other);
    assert(connects(t.edges(r), s, a, b));
}

/// What it costs to get to a node or from it.
proof fn lemma_access_cost(
    t: Terrain,
    chunk_size: usize,
    nodes: Nodes,
    p: Point,
    id: NodeID,
    path: Option<Path<Point>>,
    reverse: bool,
)
    requires
        is_access(t, chunk_size, nodes, p, id, path, reverse),
    ensures
        ({
            let r = region_of(p, chunk_size, t.size);
            let (a, b) = if reverse {
                (nodes[id].pos, p)
            } else {
                (p, nodes[id].pos)
            };
            &&& is_distance(t.edges(r), a, b, access_cost(path))
            &&& has_route(t, r, a, b, access_cost(path))
        }),
{
    let r = region_of(p, chunk_size, t.size);
    let e = t.edges(r);
    match path {
        Some(path) => {
            if reverse {
                assert(t.is_route(r, path.points(), nodes[id].pos, p, path.total() as nat));
                assert(connects(e, path.points(), nodes[id].pos, p));
            } else {
                assert(t.is_route(r, path.points(), p, nodes[id].pos, path.total() as nat));
                assert(connects(e, path.points(), p, nodes[id].pos));
            }
        },
        None => {
            assert(connects(e, seq![p], p, p));
            assert(walk_cost(e, seq![p]) == 0);
            assert(t.is_route(r, seq![p], p, p, 0));
        },
    }
}

/// Nodes that follow each other on a walk and lie in the same chunk are connected within
/// that chunk, at the cost of the walk.
pub proof fn lemma_walk_within_chunk(
    t: Terrain,
    chunk_size: usize,
    known: bool,
    nodes: Nodes,
    r: Region,
    s: Seq<NodeID>,
    from: int,
    to: int,
)
    requires
        t.wf(),
        0 < chunk_size,
        are_nodes_sound(t, chunk_size, nodes),
        are_links_sound(t, chunk_size, known, nodes),
        is_walk(node_edges(nodes), s),
        forall|k: int| 0 <= k < s.len() ==> nodes.contains_key(#[trigger] s[k]),
        0 <= from <= to < s.len(),
        forall|k: int|
            from <= k <= to ==> region_of(nodes[#[trigger] s[k]].pos, chunk_size, t.size) == r,
    ensures
        t.has_path_in(r, nodes[s[from]].pos, nodes[s[to]].pos),
        has_route(
            t,
            r,
            nodes[s[from]].pos,
            nodes[s[to]].pos,
            walk_cost(node_edges(nodes), s.subrange(from, to + 1)),
        ),
    decreases to - from,
{
    let p = nodes[s[from]].pos;
    let e = node_edges(nodes);
    let part = s.subrange(from, to + 1);
    assert(is_node_sound(t, chunk_size, nodes[s[from]]));
    lemma_region_of(p, chunk_size, t.size);
    if from == to {
        assert(region_of(nodes[s[from]].pos, chunk_size, t.size) == r);
        lemma_path_to_itself(t, r, p);
        assert(walk_cost(e, part) == 0);
        assert(walk_cost(t.edges(r), seq![p]) == 0);
        assert(t.is_route(r, seq![p], p, p, 0));
    } else {
        lemma_walk_within_chunk(t, chunk_size, known, nodes, r, s, from, to - 1);
        let (a, b) = (s[to - 1], s[to]);
        assert(linked(node_edges(nodes), s, to - 1));
        assert(nodes[a].edges.contains_key(b));
        assert(is_node_sound(t, chunk_size, nodes[a]));
        assert(is_node_sound(t, chunk_size, nodes[b]));
        assert(region_of(nodes[a].pos, chunk_size, t.size) == r);
        assert(region_of(nodes[b].pos, chunk_size, t.size) == r);
        lemma_link(t, chunk_size, nodes[a].pos, nodes[b].pos, nodes[a].edges[b]);
        lemma_path_in_joins(t, r, p, nodes[a].pos, nodes[b].pos);
        let (x, y, link) = (nodes[a].pos, nodes[b].pos, nodes[a].edges[b]);
        let points = choose|points: Seq<Point>| #[trigger]
            is_link_over(t, chunk_size, x, y, link, points);
        lemma_region_of(y, chunk_size, t.size);
        assert(t.is_route(r, points, x, y, link.total() as nat));
        assert(part.drop_last() =~= s.subrange(from, to));
        lemma_routes_join(
            t,
            r,
            p,
            x,
            y,
            walk_cost(e, s.subrange(from, to)),
            link.total() as nat,
        );
    }
}

/// A walk over nodes consists of nodes.
pub proof fn lemma_walk_of_nodes(
    nodes: Nodes,
    s: Seq<NodeID>,
    known: bool,
    t: Terrain,
    chunk_size: usize,
)
    requires
        are_links_sound(t, chunk_size, known, nodes),
        is_walk(node_edges(nodes), s),
        nodes.contains_key(s[0]),
    ensures
        forall|k: int| 0 <= k < s.len() ==> nodes.contains_key(#[trigger] s[k]),
{
    let e = node_edges(nodes);
    let inside = |id: NodeID| nodes.contains_key(id);
    assert forall|a: NodeID, b: NodeID| inside(a) && (#[trigger] e(a, b)) is Some implies inside(
        b,
    ) by {
        assert(nodes[a].edges.contains_key(b));
    }
    lemma_walk_stays(e, inside, s);
    assert forall|k: int| 0 <= k < s.len() implies nodes.contains_key(#[trigger] s[k]) by {
        assert(inside(s[k]));
    }
}

/// The path over nodes from the start to a goal, as it was found.
pub open spec fn is_node_path(nodes: Nodes, start: NodeID, goal: NodeID, path: Path<NodeID>) -> bool {
    &&& connects(node_edges(nodes), path.points(), start, goal)
    &&& walk_cost(node_edges(nodes), path.points()) == path.total()
    &&& path.points().len() <= nodes.dom().len()
}

/// The paths are those that are found from `start` to the tiles under which they stand, within
/// the chunk of `start`; no other one there is cheaper if the searches are guided.
spec fn are_start_paths<N: Neighborhood>(
    neighborhood: N,
    t: Terrain,
    chunk_size: usize,
    start: Point,
    guided: bool,
    paths: Map<Point, Path<Point>>,
) -> bool {
    let r = region_of(start, chunk_size, t.size);
    forall|p: Point| #[trigger]
        paths.contains_key(p) ==> {
            &&& t.is_route(r, paths[p].points(), start, p, paths[p].total() as nat)
            &&& is_grid_path(
                neighborhood,
                t,
                r,
                start,
                p,
                paths[p].points(),
                paths[p].total() as nat,
            )
            &&& paths[p].points().len() <= r.area()
            &&& paths[p].total() <= link_limit(t.size, chunk_size)
            &&& guided ==> is_cheapest(t.edges(r), start, p, paths[p].total() as nat)
        }
}

impl<N: Neighborhood> PathCache<N> {
    /// The estimates of the neighborhood guide the searches on the grid.
    pub open spec fn is_guided_here(&self) -> bool {
        is_guided(self.surroundings(), self.terrain(), self.settings().chunk_size)
    }

    /// A clone of the neighborhood.
    pub(super) fn clone_neighborhood(&self) -> (copy: N)
        ensures
            is_same_neighborhood(copy, self.surroundings()),
    {
        let copy: N = self.neighborhood.clone();
        proof {
            N::lemma_clone(self.neighborhood, copy);
        }
        copy
    }

    /// A path with the points of the given one.
    pub(super) fn stored_path(&self, path: Path<Point>) -> (kept: AbstractPath<N>)
        requires
            path.points().len() >= 2,
        ensures
            kept.wf(),
            is_same_neighborhood(kept.surroundings(), self.surroundings()),
            kept.terrain() == self.terrain(),
            kept.total() == path.total(),
            kept.steps() + 1 == path.points().len(),
            kept.route() == path.points(),
            kept.outline() == stored(path.points(), path.total() as nat),
            kept.position() == 0,
            kept.all_known(),
    {
        AbstractPath::from_known_path(self.clone_neighborhood(), path, Ghost(self.terrain()))
    }

    /// The node that is cheapest to reach from the tile within its chunk, with the path to
    /// it, or from it if `reverse` is set.
    pub(super) fn find_nearest_node<F: FnMut(Point) -> isize>(
        &self,
        pos: Point,
        get_cost: &mut F,
        reverse: bool,
    ) -> (nearest: Option<(NodeID, Option<Path<Point>>)>)
        requires
            self.is_ready_for(*old(get_cost)),
            on_grid(pos, self.size()),
        ensures
            *final(get_cost) == *old(get_cost),
            ({
                let t = self.terrain();
                let cs = self.settings().chunk_size;
                let r = region_of(pos, cs, t.size);
                match nearest {
                    Some((id, path)) => is_access(t, cs, self.graph(), pos, id, path, reverse),
                    None => forall|b: NodeID| #[trigger]
                        self.graph().contains_key(b) && r.contains(self.graph()[b].pos)
                            ==> !t.has_path_in(r, pos, self.graph()[b].pos),
                }
            }),
    {
        let ghost t = self.terrain();
        let ghost cs = self.config.chunk_size;
        let ghost nodes = self.nodes@;
        let ghost r = region_of(pos, cs, t.size);
        proof {
            lemma_ground_wf(self.terrain(), self.neighborhood);
            lemma_region_of(pos, cs, t.size);
        }
        if let Some(id) = self.node_at(pos) {
            proof {
                assert(is_node_sound(t, cs, nodes[id]));
                lemma_path_to_itself(t, r, pos);
            }
            return Some((id, None));
        }
        let chunk: &Chunk = self.get_chunk(pos);
        proof {
            let i = chunk_index(pos, cs, self.size());
            self.lemma_chunk(pos);
            assert forall|id: NodeID| #[trigger] chunk.nodes@.contains_key(id) <==> nodes_around(
                t,
                cs,
                nodes,
                pos,
            ).contains(id) by {
                assert(self.chunks@[i].nodes@.contains_key(id) <==> nodes.contains_key(id)
                    && self.chunks@[i].tiles().contains(nodes[id].pos));
            }
            assert(chunk.nodes@.dom() =~= nodes_around(t, cs, nodes, pos));
            assert(are_nodes_within(nodes, r, chunk.nodes@.dom()));
            assert(!has_node_at(nodes, pos));
        }
        let nearest: Option<(NodeID, Path<Point>)> = chunk.nearest_node(
            &self.nodes,
            pos,
            get_cost,
            &self.neighborhood,
            reverse,
            Ghost(cs),
            Ghost(t),
        );
        match nearest {
            Some((id, path)) => {
                proof {
                    assert(nodes_around(t, cs, nodes, pos).contains(id));
                    assert(is_node_sound(t, cs, nodes[id]));
                    lemma_region_of(nodes[id].pos, cs, t.size);
                }
                Some((id, Some(path)))
            },
            None => {
                proof {
                    assert forall|b: NodeID| #[trigger]
                        nodes.contains_key(b) && r.contains(nodes[b].pos) implies !t.has_path_in(
                        r,
                        pos,
                        nodes[b].pos,
                    ) by {
                        assert(nodes_around(t, cs, nodes, pos).contains(b));
                        assert(chunk.nodes@.contains_key(b));
                    }
                }
                None
            },
        }
    }

    /// Finds a path on the grid itself.
    fn grid_a_star<F: FnMut(Point) -> isize>(
        &self,
        start: Point,
        goal: Point,
        get_cost: &mut F,
    ) -> (path: Option<Path<Point>>)
        requires
            self.is_ready_for(*old(get_cost)),
            on_grid(start, self.size()),
        ensures
            *final(get_cost) == *old(get_cost),
            ({
                let t = self.terrain();
                match path {
                    Some(path) => {
                        &&& t.is_route(
                            t.whole(),
                            path.points(),
                            start,
                            goal,
                            path.total() as nat,
                        )
                        &&& is_grid_path(
                            self.surroundings(),
                            t,
                            t.whole(),
                            start,
                            goal,
                            path.points(),
                            path.total() as nat,
                        )
                        &&& self.is_guided_here() && on_grid(goal, self.size())
                            ==> is_cheapest(
                            t.edges(t.whole()),
                            start,
                            goal,
                            path.total() as nat,
                        )
                    },
                    None => !reaches(t.edges(t.whole()), start, goal),
                }
            }),
    {
        let ghost t = self.terrain();
        proof {
            lemma_limits(t, self.config.chunk_size);
            if self.is_guided_here() && on_grid(goal, self.size()) {
                lemma_guided_on_grid(self.neighborhood, t, self.config.chunk_size, goal);
            }
        }
        let region = Region { left: 0, top: 0, right: self.width, bottom: self.height };
        a_star_search(
            &self.neighborhood,
            region,
            get_cost,
            start,
            goal,
            Ghost(t),
            Ghost(tile_limit(t.size, self.config.chunk_size)),
        )
    }

    /// The nodes of the walk between two indices lie in the chunk of the tile.
    spec fn are_in_chunk(&self, p: Point, s: Seq<NodeID>, from: int, to: int) -> bool {
        forall|k: int|
            from <= k <= to ==> region_of(
                self.graph()[#[trigger] s[k]].pos,
                self.settings().chunk_size,
                self.size(),
            ) == region_of(p, self.settings().chunk_size, self.size())
    }

    /// The last node of the path up to which all, from the second one on, lie in the chunk of
    /// `start`; the first node, if there is no other.
    fn count_from_start(&self, start: Point, path: &Path<NodeID>) -> (index: usize)
        requires
            self.wf(),
            on_grid(start, self.size()),
            path.points().len() > 0,
            forall|k: int|
                0 <= k < path.points().len() ==> {
                    &&& self.graph().contains_key(#[trigger] path.points()[k])
                    &&& on_grid(self.graph()[path.points()[k]].pos, self.size())
                },
        ensures
            is_leading(
                self.graph(),
                self.settings().chunk_size,
                self.size(),
                start,
                path.points(),
                index as int,
            ),
    {
        let len: usize = path.len();
        let mut index: usize = 0;
        while index + 1 < len
            invariant
                self.wf(),
                on_grid(start, self.size()),
                len == path.points().len(),
                index < len,
                forall|k: int|
                    0 <= k < path.points().len() ==> {
                        &&& self.graph().contains_key(#[trigger] path.points()[k])
                        &&& on_grid(self.graph()[path.points()[k]].pos, self.size())
                    },
                forall|k: int|
                    1 <= k <= index ==> region_of(
                        self.graph()[#[trigger] path.points()[k]].pos,
                        self.settings().chunk_size,
                        self.size(),
                    ) == region_of(start, self.settings().chunk_size, self.size()),
            decreases len - index,
        {
            let id: NodeID = path.at(index + 1);
            assert(self.graph().contains_key(path.points()[index + 1]));
            if !self.same_chunk(start, self.nodes.get(id).pos) {
                return index;
            }
            index = index + 1;
        }
        index
    }

    /// From which of the nodes of the path, not before `from`, all lie in the chunk of
    /// `goal`; the last one, if there is no other.
    fn count_to_goal(
        &self,
        goal: Point,
        path: &Path<NodeID>,
        from: usize,
    ) -> (index: usize)
        requires
            self.wf(),
            on_grid(goal, self.size()),
            from < path.points().len(),
            forall|k: int|
                0 <= k < path.points().len() ==> {
                    &&& self.graph().contains_key(#[trigger] path.points()[k])
                    &&& on_grid(self.graph()[path.points()[k]].pos, self.size())
                },
        ensures
            is_trailing(
                self.graph(),
                self.settings().chunk_size,
                self.size(),
                goal,
                path.points(),
                from as int,
                index as int,
            ),
    {
        let mut index: usize = path.len() - 1;
        while index > from
            invariant
                self.wf(),
                on_grid(goal, self.size()),
                from <= index < path.points().len(),
                forall|k: int|
                    0 <= k < path.points().len() ==> {
                        &&& self.graph().contains_key(#[trigger] path.points()[k])
                        &&& on_grid(self.graph()[path.points()[k]].pos, self.size())
                    },
                forall|k: int|
                    index <= k < path.points().len() - 1 ==> region_of(
                        self.graph()[#[trigger] path.points()[k]].pos,
                        self.settings().chunk_size,
                        self.size(),
                    ) == region_of(goal, self.settings().chunk_size, self.size()),
            decreases index,
        {
            let id: NodeID = path.at(index - 1);
            assert(self.graph().contains_key(path.points()[index - 1]));
            if !self.same_chunk(goal, self.nodes.get(id).pos) {
                return index;
            }
            index = index - 1;
        }
        index
    }
}

/// From the start one gets over its node and the node of the goal to the goal.
proof fn lemma_found_path(
    t: Terrain,
    chunk_size: usize,
    known: bool,
    nodes: Nodes,
    start: Point,
    goal: Point,
    start_id: NodeID,
    goal_id: NodeID,
    start_path: Option<Path<Point>>,
    goal_path: Option<Path<Point>>,
    s: Seq<NodeID>,
)
    requires
        t.wf(),
        0 < chunk_size,
        are_nodes_sound(t, chunk_size, nodes),
        are_links_sound(t, chunk_size, known, nodes),
        is_access(t, chunk_size, nodes, start, start_id, start_path, false),
        is_access(t, chunk_size, nodes, goal, goal_id, goal_path, true),
        connects(node_edges(nodes), s, start_id, goal_id),
    ensures
        t.has_path(start, goal),
{
    let g = t.edges(t.whole());
    let (a, b) = (nodes[start_id].pos, nodes[goal_id].pos);
    let (r, o) = (region_of(start, chunk_size, t.size), region_of(goal, chunk_size, t.size));
    lemma_graph_is_sound(t, chunk_size, known, nodes, s);
    lemma_path_in_reverses(t, o, goal, b);
    lemma_path_on_grid(t, r, start, a);
    lemma_path_on_grid(t, o, b, goal);
    lemma_reaches_transitive(g, start, a, b);
    lemma_reaches_transitive(g, start, b, goal);
}

/// The path is remembered under the tile, and nothing else has changed.
spec fn is_remembered(
    before: Map<Point, Path<Point>>,
    after: Map<Point, Path<Point>>,
    tile: Point,
    path: Path<Point>,
) -> bool {
    &&& after.dom() == before.dom().insert(tile)
    &&& forall|p: Point| #[trigger] before.contains_key(p) ==> after[p] == before[p]
    &&& after[tile].points() == path.points()
    &&& after[tile].total() == path.total()
}

/// The path leads from `a` to `b` within the chunk of the tile `p`; there is none if `a` and
/// `b` are the same tile.
spec fn is_piece(
    t: Terrain,
    chunk_size: usize,
    p: Point,
    a: Point,
    b: Point,
    path: Option<Path<Point>>,
) -> bool {
    let r = region_of(p, chunk_size, t.size);
    match path {
        Some(path) => {
            &&& t.is_route(r, path.points(), a, b, path.total() as nat)
            &&& 2 <= path.points().len() <= r.area()
            &&& path.total() <= link_limit(t.size, chunk_size)
        },
        None => a == b,
    }
}

/// The path put together so far leads from `start` to `end`, and is not longer or more
/// expensive than `count` connections can be.
spec fn is_assembled<N: Neighborhood>(
    t: Terrain,
    chunk_size: usize,
    path: AbstractPath<N>,
    start: Point,
    end: Point,
    count: int,
) -> bool {
    &&& path.wf()
    &&& path.position() == 0
    &&& path.steps() + 1 == path.route().len()
    &&& t.is_route(t.whole(), path.route(), start, end, path.total() as nat)
    &&& path.total() <= count * link_limit(t.size, chunk_size)
    &&& path.steps() <= count * chunk_area(t.size, chunk_size)
}

/// One more piece fits.
proof fn lemma_piece_fits(t: Terrain, chunk_size: usize, count: int)
    requires
        fits(t, chunk_size),
        0 < chunk_size,
        0 <= count <= t.size.0 * t.size.1 + 1,
    ensures
        count * link_limit(t.size, chunk_size) + link_limit(t.size, chunk_size) <= usize::MAX,
        count * chunk_area(t.size, chunk_size) + chunk_area(t.size, chunk_size) <= usize::MAX,
        count * link_limit(t.size, chunk_size) + link_limit(t.size, chunk_size) == (count + 1)
            * link_limit(t.size, chunk_size),
        count * chunk_area(t.size, chunk_size) + chunk_area(t.size, chunk_size) == (count + 1)
            * chunk_area(t.size, chunk_size),
{
    let n = t.size.0 * t.size.1;
    let (l, a) = (link_limit(t.size, chunk_size) as int, chunk_area(t.size, chunk_size));
    lemma_limits(t, chunk_size);
    assert(count * l + l == (count + 1) * l && count * a + a == (count + 1) * a && count * l + l
        <= n * l + 2 * l && count * a + a <= n * a + 2 * a) by (nonlinear_arith)
        requires
            0 <= count <= n + 1,
            0 <= l,
            0 <= a,
    ;
}

/// A piece was appended to the path.
proof fn lemma_piece_appended(
    t: Terrain,
    route: Seq<Point>,
    piece: Seq<Point>,
    start: Point,
    middle: Point,
    end: Point,
    cost: nat,
    piece_cost: nat,
)
    requires
        t.is_route(t.whole(), route, start, middle, cost),
        t.is_route(t.whole(), piece, middle, end, piece_cost),
    ensures
        t.is_route(t.whole(), joined(route, piece), start, end, cost + piece_cost),
        joined(route, piece).len() == route.len() + piece.len() - 1,
{
    lemma_walks_join(t.edges(t.whole()), route, piece);
}

impl<N: Neighborhood> PathCache<N> {
    /// A path from `start` to a tile within its chunk, which is remembered.
    fn start_path_to<F: FnMut(Point) -> isize>(
        &self,
        start: Point,
        tile: Point,
        get_cost: &mut F,
        start_path_map: &mut PointMap<Path<Point>>,
    ) -> (path: Path<Point>)
        requires
            self.is_ready_for(*old(get_cost)),
            on_grid(start, self.size()),
            self.terrain().has_path_in(
                region_of(start, self.settings().chunk_size, self.size()),
                start,
                tile,
            ),
            old(start_path_map).wf(),
            are_start_paths(
                self.surroundings(),
                self.terrain(),
                self.settings().chunk_size,
                start,
                self.is_guided_here(),
                old(start_path_map)@,
            ),
        ensures
            *final(get_cost) == *old(get_cost),
            final(start_path_map).wf(),
            are_start_paths(
                self.surroundings(),
                self.terrain(),
                self.settings().chunk_size,
                start,
                self.is_guided_here(),
                final(start_path_map)@,
            ),
            is_remembered(old(start_path_map)@, final(start_path_map)@, tile, path),
            ({
                let t = self.terrain();
                let r = region_of(start, self.settings().chunk_size, self.size());
                &&& t.is_route(r, path.points(), start, tile, path.total() as nat)
                &&& is_grid_path(
                    self.surroundings(),
                    t,
                    r,
                    start,
                    tile,
                    path.points(),
                    path.total() as nat,
                )
                &&& path.points().len() <= r.area()
                &&& path.total() <= link_limit(t.size, self.settings().chunk_size)
                &&& self.is_guided_here() ==> is_cheapest(
                    t.edges(r),
                    start,
                    tile,
                    path.total() as nat,
                )
            }),
    {
        proof {
            let t = self.terrain();
            if self.is_guided_here() {
                lemma_guided_in_chunk(self.neighborhood, t, self.config.chunk_size, tile);
                lemma_region_of(start, self.config.chunk_size, t.size);
            }
        }
        if let Some(path) = start_path_map.get(&tile) {
            assert(start_path_map@.dom().insert(tile) =~= start_path_map@.dom());
            return path.clone();
        }
        let chunk: &Chunk = self.get_chunk(start);
        let found: Option<Path<Point>> = chunk.find_path(
            start,
            tile,
            get_cost,
            &self.neighborhood,
            Ghost(self.config.chunk_size),
            Ghost(self.terrain()),
        );
        let path: Path<Point> = found.unwrap();
        start_path_map.insert(tile, path.clone());
        path
    }

    /// The path over nodes leads from a node near the start to one near the goal.
    spec fn is_way(
        &self,
        t: Terrain,
        start: Point,
        start_id: NodeID,
        start_path: Option<Path<Point>>,
        goal: Point,
        goal_id: NodeID,
        goal_path: Option<Path<Point>>,
        path: Path<NodeID>,
    ) -> bool {
        let cs = self.settings().chunk_size;
        &&& on_grid(start, self.size())
        &&& on_grid(goal, self.size())
        &&& start != goal
        &&& is_access(t, cs, self.graph(), start, start_id, start_path, false)
        &&& is_access(t, cs, self.graph(), goal, goal_id, goal_path, true)
        &&& is_node_path(self.graph(), start_id, goal_id, path)
        &&& is_guided(self.surroundings(), t, cs) ==> is_cheapest(
            node_edges(self.graph()),
            start_id,
            goal_id,
            path.total() as nat,
        )
    }

    /// What is known of such a path.
    proof fn lemma_way<F: FnMut(Point) -> isize>(
        &self,
        get_cost: F,
        start: Point,
        start_id: NodeID,
        start_path: Option<Path<Point>>,
        goal: Point,
        goal_id: NodeID,
        goal_path: Option<Path<Point>>,
        path: Path<NodeID>,
    )
        requires
            self.is_ready_for(get_cost),
            self.is_way(
                self.terrain(),
                start,
                start_id,
                start_path,
                goal,
                goal_id,
                goal_path,
                path,
            ),
        ensures
            ({
                let t = self.terrain();
                let cs = self.settings().chunk_size;
                let nodes = self.graph();
                let s = path.points();
                &&& t.wf()
                &&& 0 < cs
                &&& t.has_path(start, goal)
                &&& has_unique_positions(nodes)
                &&& s.len() <= nodes.dom().len() <= t.size.0 * t.size.1
                &&& region_of(start, cs, t.size).contains(start)
                &&& region_of(goal, cs, t.size).contains(goal)
                &&& forall|k: int|
                    0 <= k < s.len() ==> {
                        &&& nodes.contains_key(#[trigger] s[k])
                        &&& t.open(nodes[s[k]].pos)
                    }
                &&& is_distance(
                    t.edges(region_of(start, cs, t.size)),
                    start,
                    nodes[start_id].pos,
                    access_cost(start_path),
                )
                &&& has_route(
                    t,
                    region_of(start, cs, t.size),
                    start,
                    nodes[start_id].pos,
                    access_cost(start_path),
                )
                &&& is_distance(
                    t.edges(region_of(goal, cs, t.size)),
                    nodes[goal_id].pos,
                    goal,
                    access_cost(goal_path),
                )
                &&& has_route(
                    t,
                    region_of(goal, cs, t.size),
                    nodes[goal_id].pos,
                    goal,
                    access_cost(goal_path),
                )
            }),
    {
        let t = self.terrain();
        let cs = self.settings().chunk_size;
        let known = self.settings().cache_paths;
        let nodes = self.graph();
        let s = path.points();
        lemma_ground_wf(self.terrain(), self.surroundings());
        self.lemma_nodes();
        lemma_graph_is_searchable(t, cs, known, nodes);
        lemma_walk_of_nodes(nodes, s, known, t, cs);
        lemma_found_path(
            t,
            cs,
            known,
            nodes,
            start,
            goal,
            start_id,
            goal_id,
            start_path,
            goal_path,
            s,
        );
        lemma_region_of(start, cs, t.size);
        lemma_region_of(goal, cs, t.size);
        lemma_access_cost(t, cs, nodes, start, start_id, start_path, false);
        lemma_access_cost(t, cs, nodes, goal, goal_id, goal_path, true);
        assert forall|k: int| 0 <= k < s.len() implies {
            &&& nodes.contains_key(#[trigger] s[k])
            &&& t.open(nodes[s[k]].pos)
        } by {
            assert(is_node_sound(t, cs, nodes[s[k]]));
        }
    }

    /// The path within the chunk of `start` to a goal in that chunk, if the goal is the node at
    /// `index`, or that node is the last one; up to it, the nodes lie in the chunk.
    fn direct_path<F: FnMut(Point) -> isize>(
        &self,
        start: Point,
        goal: Point,
        path: &Path<NodeID>,
        index: usize,
        get_cost: &mut F,
        start_path_map: &mut PointMap<Path<Point>>,
        Ghost(start_id): Ghost<NodeID>,
        Ghost(goal_id): Ghost<NodeID>,
        Ghost(start_path): Ghost<Option<Path<Point>>>,
        Ghost(goal_path): Ghost<Option<Path<Point>>>,
    ) -> (direct: Option<Path<Point>>)
        requires
            self.is_ready_for(*old(get_cost)),
            self.is_way(
                self.terrain(),
                start,
                start_id,
                start_path,
                goal,
                goal_id,
                goal_path,
                *path,
            ),
            index < path.points().len(),
            self.are_in_chunk(start, path.points(), 0, index as int),
            old(start_path_map).wf(),
            are_start_paths(
                self.surroundings(),
                self.terrain(),
                self.settings().chunk_size,
                start,
                self.is_guided_here(),
                old(start_path_map)@,
            ),
        ensures
            *final(get_cost) == *old(get_cost),
            final(start_path_map).wf(),
            are_start_paths(
                self.surroundings(),
                self.terrain(),
                self.settings().chunk_size,
                start,
                self.is_guided_here(),
                final(start_path_map)@,
            ),
            direct is Some <==> is_direct(
                self.graph(),
                self.settings().chunk_size,
                self.size(),
                start,
                goal,
                path.points(),
                index as int,
            ),
            ({
                let t = self.terrain();
                let r = region_of(start, self.settings().chunk_size, self.size());
                match direct {
                    Some(direct) => {
                        &&& is_grid_path(
                            self.surroundings(),
                            t,
                            r,
                            start,
                            goal,
                            direct.points(),
                            direct.total() as nat,
                        )
                        &&& t.is_route(r, direct.points(), start, goal, direct.total() as nat)
                        &&& t.is_route(
                            t.whole(),
                            direct.points(),
                            start,
                            goal,
                            direct.total() as nat,
                        )
                        &&& self.is_guided_here() ==> {
                            &&& is_cheapest(t.edges(r), start, goal, direct.total() as nat)
                            &&& direct.total() <= access_cost(start_path) + path.total()
                                + access_cost(goal_path)
                        }
                        &&& is_remembered(
                            old(start_path_map)@,
                            final(start_path_map)@,
                            goal,
                            direct,
                        )
                    },
                    None => final(start_path_map)@ == old(start_path_map)@,
                }
            }),
    {
        let ghost t = self.terrain();
        let ghost cs = self.config.chunk_size;
        let ghost known = self.config.cache_paths;
        let ghost nodes = self.nodes@;
        let ghost r = region_of(start, cs, t.size);
        let ghost s = path.points();
        let ghost e = node_edges(nodes);
        proof {
            self.lemma_way(
                *get_cost,
                start,
                start_id,
                start_path,
                goal,
                goal_id,
                goal_path,
                *path,
            );
            assert(nodes.contains_key(s[index as int]));
        }
        let id: NodeID = path.at(index);
        let next_pos: Point = self.nodes.get(id).pos;
        let at_end: bool = index == path.len() - 1 && self.same_chunk(start, goal);
        if !at_end && !is_same_point(next_pos, goal) {
            return None;
        }
        proof {
            lemma_walk_within_chunk(t, cs, known, nodes, r, s, 0, index as int);
            lemma_path_in_joins(t, r, start, nodes[start_id].pos, next_pos);
            if at_end {
                lemma_path_in_reverses(t, r, goal, nodes[goal_id].pos);
                lemma_path_in_joins(t, r, start, nodes[goal_id].pos, goal);
            }
        }
        let ghost guided = self.is_guided_here();
        let direct: Path<Point> = self.start_path_to(start, goal, get_cost, start_path_map);
        proof {
            let (to_first, from_last) = (access_cost(start_path), access_cost(goal_path));
            let cost = direct.total() as nat;
            lemma_route_on_grid(t, r, direct.points(), start, goal, cost);
            if guided {
                let part = walk_cost(e, s.subrange(0, index + 1));
                lemma_walk_splits(e, s, index as int);
                lemma_routes_join(t, r, start, nodes[start_id].pos, next_pos, to_first, part);
                if at_end {
                    let way = to_first + part;
                    lemma_routes_join(t, r, start, next_pos, goal, way, from_last);
                    lemma_route_bound(t, r, start, goal, cost, way + from_last);
                } else {
                    lemma_route_bound(t, r, start, goal, cost, to_first + part);
                }
            }
        }
        Some(direct)
    }

    /// The path from `start` to the node at `index`, if `start` is not the first node itself.
    fn first_piece<F: FnMut(Point) -> isize>(
        &self,
        start: Point,
        start_path: &Option<Path<Point>>,
        path: &Path<NodeID>,
        index: usize,
        get_cost: &mut F,
        start_path_map: &mut PointMap<Path<Point>>,
        Ghost(start_id): Ghost<NodeID>,
        Ghost(goal): Ghost<Point>,
        Ghost(goal_id): Ghost<NodeID>,
        Ghost(goal_path): Ghost<Option<Path<Point>>>,
    ) -> (first: Option<Path<Point>>)
        requires
            self.is_ready_for(*old(get_cost)),
            self.is_way(
                self.terrain(),
                start,
                start_id,
                *start_path,
                goal,
                goal_id,
                goal_path,
                *path,
            ),
            index < path.points().len(),
            self.are_in_chunk(start, path.points(), 0, index as int),
            start_path is None ==> index == 0,
            old(start_path_map).wf(),
            are_start_paths(
                self.surroundings(),
                self.terrain(),
                self.settings().chunk_size,
                start,
                self.is_guided_here(),
                old(start_path_map)@,
            ),
        ensures
            *final(get_cost) == *old(get_cost),
            final(start_path_map).wf(),
            are_start_paths(
                self.surroundings(),
                self.terrain(),
                self.settings().chunk_size,
                start,
                self.is_guided_here(),
                final(start_path_map)@,
            ),
            is_piece(
                self.terrain(),
                self.settings().chunk_size,
                start,
                start,
                self.graph()[path.points()[index as int]].pos,
                first,
            ),
            is_first_piece(
                self.surroundings(),
                self.terrain(),
                self.settings().chunk_size,
                self.graph(),
                start,
                to_piece(*start_path),
                path.points(),
                index as int,
                to_piece(first),
            ),
            self.is_guided_here() ==> is_distance(
                self.terrain().edges(
                    region_of(start, self.settings().chunk_size, self.size()),
                ),
                start,
                self.graph()[path.points()[index as int]].pos,
                access_cost(first),
            ),
            self.is_guided_here() ==> access_cost(first) <= access_cost(*start_path)
                + walk_cost(node_edges(self.graph()), path.points().subrange(0, index + 1)),
    {
        let ghost t = self.terrain();
        let ghost cs = self.config.chunk_size;
        let ghost known = self.config.cache_paths;
        let ghost nodes = self.nodes@;
        let ghost r = region_of(start, cs, t.size);
        let ghost s = path.points();
        let ghost e = node_edges(nodes);
        let ghost guided = self.is_guided_here();
        proof {
            self.lemma_way(
                *get_cost,
                start,
                start_id,
                *start_path,
                goal,
                goal_id,
                goal_path,
                *path,
            );
            assert(nodes.contains_key(s[index as int]));
            assert(walk_cost(e, s.subrange(0, 1)) == 0);
        }
        if index == 0 {
            return match start_path {
                Some(path) => Some(path.clone()),
                None => None,
            };
        }
        let id: NodeID = path.at(index);
        let next_pos: Point = self.nodes.get(id).pos;
        proof {
            lemma_walk_within_chunk(t, cs, known, nodes, r, s, 0, index as int);
            lemma_path_in_joins(t, r, start, nodes[start_id].pos, next_pos);
        }
        let longer: Path<Point> = self.start_path_to(start, next_pos, get_cost, start_path_map);
        proof {
            let (to_first, way) = (access_cost(*start_path), walk_cost(e, s.subrange(0, index + 1)));
            assert(!has_node_at(nodes, start));
            if longer.points().len() == 1 {
                assert(longer.points()[0] == longer.points().last());
            }
            if guided {
                let cost = longer.total() as nat;
                lemma_routes_join(t, r, start, nodes[start_id].pos, next_pos, to_first, way);
                lemma_route_bound(t, r, start, next_pos, cost, to_first + way);
            }
        }
        Some(longer)
    }

    /// The node of the path from which on all lie in the chunk of the goal, and the path from
    /// it to `goal`, if `goal` is not the last node itself.
    fn last_piece<F: FnMut(Point) -> isize>(
        &self,
        goal: Point,
        goal_path: Option<Path<Point>>,
        path: &Path<NodeID>,
        from: usize,
        get_cost: &mut F,
        Ghost(start): Ghost<Point>,
        Ghost(start_id): Ghost<NodeID>,
        Ghost(start_path): Ghost<Option<Path<Point>>>,
        Ghost(goal_id): Ghost<NodeID>,
    ) -> (piece: (usize, Option<Path<Point>>))
        requires
            self.is_ready_for(*old(get_cost)),
            self.is_way(
                self.terrain(),
                start,
                start_id,
                start_path,
                goal,
                goal_id,
                goal_path,
                *path,
            ),
            from < path.points().len(),
        ensures
            *final(get_cost) == *old(get_cost),
            from <= piece.0 < path.points().len(),
            is_piece(
                self.terrain(),
                self.settings().chunk_size,
                goal,
                self.graph()[path.points()[piece.0 as int]].pos,
                goal,
                piece.1,
            ),
            is_last_piece(
                self.surroundings(),
                self.terrain(),
                self.settings().chunk_size,
                self.graph(),
                goal,
                to_piece(goal_path),
                path.points(),
                from as int,
                piece.0 as int,
                to_piece(piece.1),
            ),
            self.is_guided_here() ==> is_distance(
                self.terrain().edges(
                    region_of(goal, self.settings().chunk_size, self.size()),
                ),
                self.graph()[path.points()[piece.0 as int]].pos,
                goal,
                access_cost(piece.1),
            ),
            self.is_guided_here() ==> access_cost(piece.1) <= walk_cost(
                node_edges(self.graph()),
                path.points().subrange(piece.0 as int, path.points().len() as int),
            ) + access_cost(goal_path),
    {
        let ghost t = self.terrain();
        let ghost cs = self.config.chunk_size;
        let ghost known = self.config.cache_paths;
        let ghost nodes = self.nodes@;
        let ghost o = region_of(goal, cs, t.size);
        let ghost s = path.points();
        let ghost e = node_edges(nodes);
        let ghost guided = self.is_guided_here();
        proof {
            self.lemma_way(
                *get_cost,
                start,
                start_id,
                start_path,
                goal,
                goal_id,
                goal_path,
                *path,
            );
            assert(walk_cost(e, s.subrange(s.len() - 1, s.len() as int)) == 0);
        }
        let len: usize = path.len();
        if goal_path.is_none() {
            return (len - 1, None);
        }
        let index: usize = self.count_to_goal(goal, path, from);
        if index == len - 1 {
            return (index, goal_path);
        }
        let id: NodeID = path.at(index);
        assert(nodes.contains_key(s[index as int]));
        let previous_pos: Point = self.nodes.get(id).pos;
        proof {
            assert forall|k: int| index <= k <= len - 1 implies region_of(
                nodes[#[trigger] s[k]].pos,
                cs,
                t.size,
            ) == o by {}
            lemma_walk_within_chunk(t, cs, known, nodes, o, s, index as int, len - 1);
            lemma_path_in_reverses(t, o, goal, nodes[goal_id].pos);
            lemma_path_in_joins(t, o, previous_pos, nodes[goal_id].pos, goal);
            if guided {
                lemma_guided_in_chunk(self.neighborhood, t, cs, goal);
            }
        }
        let chunk: &Chunk = self.get_chunk(goal);
        let found: Option<Path<Point>> = chunk.find_path(
            previous_pos,
            goal,
            get_cost,
            &self.neighborhood,
            Ghost(cs),
            Ghost(t),
        );
        let longer: Path<Point> = found.unwrap();
        proof {
            assert(!has_node_at(nodes, goal));
            if longer.points().len() == 1 {
                assert(longer.points()[0] == longer.points().last());
            }
            if guided {
                let way = walk_cost(e, s.subrange(index as int, len as int));
                let (from_last, cost) = (access_cost(goal_path), longer.total() as nat);
                lemma_routes_join(
                    t,
                    o,
                    previous_pos,
                    nodes[goal_id].pos,
                    goal,
                    way,
                    from_last,
                );
                lemma_route_bound(t, o, previous_pos, goal, cost, way + from_last);
            }
        }
        (index, Some(longer))
    }

    /// Puts a path together: from `start` to the node at `from`, from there over the nodes to
    /// the one at `to`, and from that one to `goal`.
    fn put_together(
        &self,
        start: Point,
        first: Option<Path<Point>>,
        path: &Path<NodeID>,
        from: usize,
        to: usize,
        last: Option<Path<Point>>,
        Ghost(t): Ghost<Terrain>,
        Ghost(goal): Ghost<Point>,
    ) -> (whole: AbstractPath<N>)
        requires
            self.is_valid_for(t),
            t.wf(),
            fits(t, self.settings().chunk_size),
            on_grid(start, self.size()),
            on_grid(goal, self.size()),
            start != goal,
            t.open(start),
            is_walk(node_edges(self.graph()), path.points()),
            path.points().len() <= self.graph().dom().len(),
            self.graph().contains_key(path.points()[0]),
            from <= to < path.points().len(),
            is_piece(
                t,
                self.settings().chunk_size,
                start,
                start,
                self.graph()[path.points()[from as int]].pos,
                first,
            ),
            is_piece(
                t,
                self.settings().chunk_size,
                goal,
                self.graph()[path.points()[to as int]].pos,
                goal,
                last,
            ),
        ensures
            is_path_to(t, whole, start, goal),
            is_same_neighborhood(whole.surroundings(), self.surroundings()),
            whole.terrain() == t,
            self.settings().cache_paths ==> whole.all_known(),
            whole.total() == access_cost(first) + walk_cost(
                node_edges(self.graph()),
                path.points().subrange(from as int, to + 1),
            ) + access_cost(last),
            whole.route() == joined(
                way_points(
                    t,
                    self.settings().chunk_size,
                    self.graph(),
                    piece_points(to_piece(first), start),
                    path.points(),
                    from as int,
                    to as int,
                ),
                piece_points(to_piece(last), goal),
            ),
            whole.shape() == way_shape(
                self.graph(),
                piece_shape(to_piece(first)),
                path.points(),
                from as int,
                to as int,
            ) + piece_shape(to_piece(last)),
    {
        let ghost cs = self.config.chunk_size;
        let ghost known = self.config.cache_paths;
        let ghost nodes = self.nodes@;
        let ghost e = node_edges(nodes);
        let ghost (r, o) = (region_of(start, cs, t.size), region_of(goal, cs, t.size));
        let ghost s = path.points();
        let ghost area = chunk_area(t.size, cs);
        let ghost begin = nodes[s[from as int]].pos;
        let ghost finish = nodes[s[to as int]].pos;
        let ghost (first_cost, last_cost) = (access_cost(first), access_cost(last));
        let ghost head = piece_points(to_piece(first), start);
        let ghost head_shape = piece_shape(to_piece(first));
        proof {
            self.lemma_nodes();
            lemma_graph_is_searchable(t, cs, known, nodes);
            lemma_walk_of_nodes(nodes, s, known, t, cs);
            lemma_chunk_limits(t, cs, start);
            lemma_chunk_limits(t, cs, goal);
        }
        let mut whole: AbstractPath<N> = AbstractPath::new(self.clone_neighborhood(), start, Ghost(t));
        assert(t.is_route(t.whole(), seq![start], start, start, 0)) by {
            assert(walk_cost(t.edges(t.whole()), seq![start]) == 0);
        }
        if let Some(path) = first {
            proof {
                lemma_route_on_grid(t, r, path.points(), start, begin, path.total() as nat);
                lemma_piece_fits(t, cs, 0);
                lemma_piece_appended(
                    t,
                    whole.route(),
                    path.points(),
                    start,
                    start,
                    begin,
                    0,
                    path.total() as nat,
                );
            }
            whole.add_path(path);
        } else {
            proof {
                lemma_piece_fits(t, cs, 0);
            }
        }
        assert(is_assembled(t, cs, whole, start, begin, 1));
        assert(whole.route() =~= head);
        assert(whole.shape() =~= head_shape);
        assert(walk_cost(e, s.subrange(from as int, from + 1)) == 0);
        let mut k: usize = from;
        while k < to
            invariant
                self.wf(),
                self.nodes@ == nodes,
                s == path.points(),
                from <= k <= to < s.len(),
                s.len() <= nodes.dom().len() <= t.size.0 * t.size.1,
                t.wf(),
                fits(t, cs),
                0 < cs,
                area == chunk_area(t.size, cs),
                known == self.config.cache_paths,
                e == node_edges(nodes),
                are_nodes_sound(t, cs, nodes),
                are_links_sound(t, cs, known, nodes),
                is_walk(e, s),
                has_unique_positions(nodes),
                forall|j: int| 0 <= j < s.len() ==> nodes.contains_key(#[trigger] s[j]),
                is_assembled(t, cs, whole, start, nodes[s[k as int]].pos, 1 + (k - from)),
                whole.total() == first_cost + walk_cost(e, s.subrange(from as int, k + 1)),
                whole.route() == way_points(t, cs, nodes, head, s, from as int, k as int),
                whole.shape() == way_shape(nodes, head_shape, s, from as int, k as int),
                is_same_neighborhood(whole.surroundings(), self.surroundings()),
                whole.terrain() == t,
                known ==> whole.all_known(),
            decreases to - k,
        {
            let a: NodeID = path.at(k);
            let b: NodeID = path.at(k + 1);
            proof {
                assert(nodes.contains_key(s[k as int]) && nodes.contains_key(s[k + 1]));
                assert(linked(e, s, k as int));
                assert(nodes[a].edges.contains_key(b));
                assert(is_node_sound(t, cs, nodes[a]));
                assert(is_node_sound(t, cs, nodes[b]));
            }
            let node = self.nodes.get(a);
            let edge: Option<&PathSegment> = node.edges.get(&b);
            let segment: PathSegment = edge.unwrap().clone();
            let ghost link = nodes[a].edges[b];
            let ghost points = link_points(t, cs, nodes, a, b);
            let ghost before = whole;
            proof {
                assert(is_link_over(t, cs, nodes[a].pos, nodes[b].pos, link, points));
                lemma_link_limit(t, cs, nodes[a].pos, nodes[b].pos, link, points);
                lemma_link_on_grid(t, cs, nodes[a].pos, nodes[b].pos, link, points);
                lemma_piece_fits(t, cs, 1 + (k - from));
                assert(link.matches(points));
                assert(segment.matches(points));
                lemma_piece_appended(
                    t,
                    before.route(),
                    points,
                    start,
                    nodes[a].pos,
                    nodes[b].pos,
                    before.total() as nat,
                    link.total() as nat,
                );
            }
            whole.add_path_segment(segment, Ghost(points));
            k = k + 1;
            assert(s.subrange(from as int, k + 1).drop_last() =~= s.subrange(from as int, k as int));
        }
        let ghost shape = whole.shape();
        if let Some(path) = last {
            proof {
                lemma_route_on_grid(t, o, path.points(), finish, goal, path.total() as nat);
                lemma_piece_fits(t, cs, 1 + (to - from));
                lemma_piece_appended(
                    t,
                    whole.route(),
                    path.points(),
                    start,
                    finish,
                    goal,
                    whole.total() as nat,
                    path.total() as nat,
                );
            }
            whole.add_path(path);
        } else {
            assert(joined(whole.route(), seq![goal]) =~= whole.route());
        }
        assert(whole.shape() =~= shape + piece_shape(to_piece(last)));
        whole
    }

    /// The path from node to node as a path on the grid from `start` to `goal`.
    fn resolve_path<F: FnMut(Point) -> isize>(
        &self,
        start: Point,
        start_path: &Option<Path<Point>>,
        goal: Point,
        goal_path: Option<Path<Point>>,
        path: &Path<NodeID>,
        get_cost: &mut F,
        start_path_map: &mut PointMap<Path<Point>>,
        Ghost(start_id): Ghost<NodeID>,
        Ghost(goal_id): Ghost<NodeID>,
    ) -> (resolved: AbstractPath<N>)
        requires
            self.is_ready_for(*old(get_cost)),
            self.is_way(
                self.terrain(),
                start,
                start_id,
                *start_path,
                goal,
                goal_id,
                goal_path,
                *path,
            ),
            old(start_path_map).wf(),
            are_start_paths(
                self.surroundings(),
                self.terrain(),
                self.settings().chunk_size,
                start,
                self.is_guided_here(),
                old(start_path_map)@,
            ),
        ensures
            *final(get_cost) == *old(get_cost),
            final(start_path_map).wf(),
            are_start_paths(
                self.surroundings(),
                self.terrain(),
                self.settings().chunk_size,
                start,
                self.is_guided_here(),
                final(start_path_map)@,
            ),
            self.is_answer(
                self.terrain(),
                start,
                goal,
                resolved,
            ),
            self.is_guided_here() && is_searched_for(
                self.settings(),
                path.points(),
                path.total() as nat,
            ) ==> is_cheapest(
                self.terrain().edges(self.terrain().whole()),
                start,
                goal,
                resolved.total() as nat,
            ),
            is_resolution(
                self.surroundings(),
                self.terrain(),
                self.settings(),
                self.graph(),
                start,
                to_piece(*start_path),
                goal,
                to_piece(goal_path),
                path.points(),
                path.total() as nat,
                resolved.outline(),
            ),
    {
        let ghost t = self.terrain();
        let cs: usize = self.config.chunk_size;
        let ghost nodes = self.nodes@;
        let ghost s = path.points();
        let ghost e = node_edges(nodes);
        let ghost guided = self.is_guided_here();
        let ghost (to_first, from_last) = (access_cost(*start_path), access_cost(goal_path));
        let len: usize = path.len();
        proof {
            reveal(is_short);
            self.lemma_way(
                *get_cost,
                start,
                start_id,
                *start_path,
                goal,
                goal_id,
                goal_path,
                *path,
            );
        }
        if len == 1 || (self.config.a_star_fallback && path.cost() / 2 < cs) {
            let found: Option<Path<Point>> = self.grid_a_star(start, goal, get_cost);
            let direct: Path<Point> = found.unwrap();
            proof {
                if direct.points().len() == 1 {
                    assert(direct.points()[0] == direct.points().last());
                }
            }
            return self.stored_path(direct);
        }
        let mut from: usize = 0;
        if start_path.is_some() {
            from = self.count_from_start(start, path);
            proof {
                assert(self.are_in_chunk(start, s, 0, from as int));
            }
            let found: Option<Path<Point>> = self.direct_path(
                start,
                goal,
                path,
                from,
                get_cost,
                start_path_map,
                Ghost(start_id),
                Ghost(goal_id),
                Ghost(*start_path),
                Ghost(goal_path),
            );
            if let Some(direct) = found {
                proof {
                    if direct.points().len() == 1 {
                        assert(direct.points()[0] == direct.points().last());
                    }
                    let cost = direct.total() as nat;
                    if guided {
                        assert(connects(
                            t.edges(region_of(start, cs, t.size)),
                            direct.points(),
                            start,
                            goal,
                        ));
                        assert(is_shortcut_by(
                            t,
                            cs,
                            nodes,
                            start,
                            goal,
                            s,
                            from as int,
                            0,
                            cost,
                            0,
                            cost,
                        ));
                        assert(is_bounded_by(
                            t,
                            self.config,
                            nodes,
                            start,
                            goal,
                            s,
                            to_first,
                            from_last,
                            cost,
                        ));
                    }
                    assert(is_over_nodes(
                        self.neighborhood,
                        t,
                        cs,
                        nodes,
                        start,
                        to_piece(*start_path),
                        goal,
                        to_piece(goal_path),
                        s,
                        from as int,
                        stored(direct.points(), cost),
                    ));
                }
                return self.stored_path(direct);
            }
        }
        let first: Option<Path<Point>> = self.first_piece(
            start,
            start_path,
            path,
            from,
            get_cost,
            start_path_map,
            Ghost(start_id),
            Ghost(goal),
            Ghost(goal_id),
            Ghost(goal_path),
        );
        let (to, last) = self.last_piece(
            goal,
            goal_path,
            path,
            from,
            get_cost,
            Ghost(start),
            Ghost(start_id),
            Ghost(*start_path),
            Ghost(goal_id),
        );
        let whole: AbstractPath<N> = self.put_together(
            start,
            first,
            path,
            from,
            to,
            last,
            Ghost(t),
            Ghost(goal),
        );
        proof {
            if guided {
                let part = s.subrange(0, to + 1);
                lemma_walk_splits(e, s, to as int);
                lemma_walk_splits(e, part, from as int);
                assert(part.subrange(0, from + 1) =~= s.subrange(0, from + 1));
                assert(part.subrange(from as int, to + 1) =~= s.subrange(from as int, to + 1));
                assert(is_shortcut_by(
                    t,
                    cs,
                    nodes,
                    start,
                    goal,
                    s,
                    from as int,
                    to as int,
                    access_cost(first),
                    access_cost(last),
                    whole.total() as nat,
                ));
                assert(is_bounded_by(
                    t,
                    self.config,
                    nodes,
                    start,
                    goal,
                    s,
                    to_first,
                    from_last,
                    whole.total() as nat,
                ));
            }
            assert(is_assembly(
                self.neighborhood,
                t,
                cs,
                nodes,
                start,
                to_piece(*start_path),
                goal,
                to_piece(goal_path),
                s,
                from as int,
                to as int,
                to_piece(first),
                to_piece(last),
                whole.outline(),
            ));
            assert(is_over_nodes(
                self.neighborhood,
                t,
                cs,
                nodes,
                start,
                to_piece(*start_path),
                goal,
                to_piece(goal_path),
                s,
                from as int,
                whole.outline(),
            ));
        }
        whole
    }
}

/// A goal, the node near it, and the path from there.
pub type GoalData = (Point, NodeID, Option<Path<Point>>);

/// There is a path to the node near the goal.
pub open spec fn is_resolved(
    goal_data: Seq<GoalData>,
    paths: Map<NodeID, Path<NodeID>>,
    goal: Point,
) -> bool {
    exists|i: int|
        0 <= i < goal_data.len() && (#[trigger] goal_data[i]).0 == goal && paths.contains_key(
            goal_data[i].1,
        )
}

/// The path stands for a path to the node near the goal.
pub open spec fn is_resolved_as<N: Neighborhood>(
    cache: PathCache<N>,
    t: Terrain,
    start: Point,
    start_path: Option<Path<Point>>,
    goal_data: Seq<GoalData>,
    paths: Map<NodeID, Path<NodeID>>,
    goal: Point,
    path: AbstractPath<N>,
) -> bool {
    exists|i: int|
        {
            let (g, goal_id, goal_path) = #[trigger] goal_data[i];
            &&& 0 <= i < goal_data.len()
            &&& g == goal
            &&& paths.contains_key(goal_id)
            &&& is_resolution(
                cache.surroundings(),
                t,
                cache.settings(),
                cache.graph(),
                start,
                to_piece(start_path),
                goal,
                to_piece(goal_path),
                paths[goal_id].points(),
                paths[goal_id].total() as nat,
                path.outline(),
            )
        }
}

/// The path to the node near the goal that the path stands for.
pub proof fn lemma_resolved_as<N: Neighborhood>(
    cache: PathCache<N>,
    t: Terrain,
    start: Point,
    start_path: Option<Path<Point>>,
    goal_data: Seq<GoalData>,
    paths: Map<NodeID, Path<NodeID>>,
    goal: Point,
    path: AbstractPath<N>,
) -> (i: int)
    requires
        is_resolved_as(cache, t, start, start_path, goal_data, paths, goal, path),
    ensures
        0 <= i < goal_data.len(),
        goal_data[i].0 == goal,
        paths.contains_key(goal_data[i].1),
        is_resolution(
            cache.surroundings(),
            t,
            cache.settings(),
            cache.graph(),
            start,
            to_piece(start_path),
            goal,
            to_piece(goal_data[i].2),
            paths[goal_data[i].1].points(),
            paths[goal_data[i].1].total() as nat,
            path.outline(),
        ),
{
    choose|i: int|
        {
            let (g, goal_id, goal_path) = #[trigger] goal_data[i];
            &&& 0 <= i < goal_data.len()
            &&& g == goal
            &&& paths.contains_key(goal_id)
            &&& is_resolution(
                cache.surroundings(),
                t,
                cache.settings(),
                cache.graph(),
                start,
                to_piece(start_path),
                goal,
                to_piece(goal_path),
                paths[goal_id].points(),
                paths[goal_id].total() as nat,
                path.outline(),
            )
        }
}

/// Paths on the grid are searched for in place of the paths to the nodes near the goal.
pub open spec fn are_searched_for(
    config: PathCacheConfig,
    goal_data: Seq<GoalData>,
    paths: Map<NodeID, Path<NodeID>>,
    goal: Point,
) -> bool {
    forall|i: int|
        0 <= i < goal_data.len() && (#[trigger] goal_data[i]).0 == goal && paths.contains_key(
            goal_data[i].1,
        ) ==> is_searched_for(
            config,
            paths[goal_data[i].1].points(),
            paths[goal_data[i].1].total() as nat,
        )
}

impl<N: Neighborhood> PathCache<N> {
    /// Turns paths from node to node into paths on the grid, for each goal with a path to
    /// its node.
    pub(super) fn resolve_paths<F: FnMut(Point) -> isize>(
        &self,
        start: Point,
        start_path: &Option<Path<Point>>,
        goal_data: Vec<GoalData>,
        paths: &NodeIDMap<Path<NodeID>>,
        get_cost: &mut F,
        out: &mut PointMap<AbstractPath<N>>,
        Ghost(start_id): Ghost<NodeID>,
    )
        requires
            self.is_ready_for(*old(get_cost)),
            on_grid(start, self.size()),
            is_access(
                self.terrain(),
                self.settings().chunk_size,
                self.graph(),
                start,
                start_id,
                *start_path,
                false,
            ),
            forall|i: int|
                0 <= i < goal_data@.len() ==> {
                    let (goal, goal_id, goal_path) = #[trigger] goal_data@[i];
                    &&& on_grid(goal, self.size())
                    &&& goal != start
                    &&& is_access(
                        self.terrain(),
                        self.settings().chunk_size,
                        self.graph(),
                        goal,
                        goal_id,
                        goal_path,
                        true,
                    )
                },
            paths.wf(),
            forall|id: NodeID| #[trigger]
                paths@.contains_key(id) ==> {
                    &&& is_node_path(self.graph(), start_id, id, paths@[id])
                    &&& self.is_guided_here() ==> is_cheapest(
                        node_edges(self.graph()),
                        start_id,
                        id,
                        paths@[id].total() as nat,
                    )
                },
            old(out).wf(),
        ensures
            *final(get_cost) == *old(get_cost),
            final(out).wf(),
            forall|g: Point| #[trigger]
                final(out)@.contains_key(g) <==> old(out)@.contains_key(g) || is_resolved(
                    goal_data@,
                    paths@,
                    g,
                ),
            forall|g: Point| #[trigger]
                final(out)@.contains_key(g) ==> if is_resolved(goal_data@, paths@, g) {
                    self.is_answer(
                        self.terrain(),
                        start,
                        g,
                        final(out)@[g],
                    )
                } else {
                    final(out)@[g] == old(out)@[g]
                },
            forall|g: Point| #[trigger]
                final(out)@.contains_key(g) && self.is_guided_here() && is_resolved(
                    goal_data@,
                    paths@,
                    g,
                ) && are_searched_for(self.settings(), goal_data@, paths@, g) ==> is_cheapest(
                    self.terrain().edges(self.terrain().whole()),
                    start,
                    g,
                    final(out)@[g].total() as nat,
                ),
            forall|g: Point| #[trigger]
                final(out)@.contains_key(g) && is_resolved(
                    goal_data@,
                    paths@,
                    g,
                ) ==> is_resolved_as(
                    *self,
                    self.terrain(),
                    start,
                    *start_path,
                    goal_data@,
                    paths@,
                    g,
                    final(out)@[g],
                ),
    {
        let ghost t = self.terrain();
        let ghost cost_fn = *get_cost;
        let ghost data = goal_data@;
        let ghost before = out@;
        let mut start_path_map: PointMap<Path<Point>> = PointMap::new();
        for entry in iter: goal_data
            invariant
                iter.seq() == data,
                *get_cost == cost_fn,
                t == self.terrain(),
                self.is_ready_for(cost_fn),
                on_grid(start, self.size()),
                is_access(
                    t,
                    self.settings().chunk_size,
                    self.graph(),
                    start,
                    start_id,
                    *start_path,
                    false,
                ),
                forall|i: int|
                    0 <= i < data.len() ==> {
                        let (goal, goal_id, goal_path) = #[trigger] data[i];
                        &&& on_grid(goal, self.size())
                        &&& goal != start
                        &&& is_access(
                            t,
                            self.settings().chunk_size,
                            self.graph(),
                            goal,
                            goal_id,
                            goal_path,
                            true,
                        )
                    },
                paths.wf(),
                forall|id: NodeID| #[trigger]
                    paths@.contains_key(id) ==> {
                        &&& is_node_path(self.graph(), start_id, id, paths@[id])
                        &&& self.is_guided_here() ==> is_cheapest(
                            node_edges(self.graph()),
                            start_id,
                            id,
                            paths@[id].total() as nat,
                        )
                    },
                start_path_map.wf(),
                are_start_paths(
                    self.surroundings(),
                    t,
                    self.settings().chunk_size,
                    start,
                    self.is_guided_here(),
                    start_path_map@,
                ),
                out.wf(),
                forall|g: Point| #[trigger]
                    out@.contains_key(g) <==> before.contains_key(g) || is_resolved(
                        data.take(iter.index()),
                        paths@,
                        g,
                    ),
                forall|g: Point| #[trigger]
                    out@.contains_key(g) ==> if is_resolved(data.take(iter.index()), paths@, g) {
                        self.is_answer(t, start, g, out@[g])
                    } else {
                        out@[g] == before[g]
                    },
                forall|g: Point| #[trigger]
                    out@.contains_key(g) && self.is_guided_here() && is_resolved(
                        data.take(iter.index()),
                        paths@,
                        g,
                    ) && are_searched_for(
                        self.settings(),
                        data.take(iter.index()),
                        paths@,
                        g,
                    ) ==> is_cheapest(
                        t.edges(t.whole()),
                        start,
                        g,
                        out@[g].total() as nat,
                    ),
                forall|g: Point| #[trigger]
                    out@.contains_key(g) && is_resolved(
                        data.take(iter.index()),
                        paths@,
                        g,
                    ) ==> is_resolved_as(
                        *self,
                        t,
                        start,
                        *start_path,
                        data.take(iter.index()),
                        paths@,
                        g,
                        out@[g],
                    ),
        {
            let ghost n = iter.index() as int;
            assert(entry == data[n]);
            let (goal, goal_id, goal_path) = entry;
            let ghost shorter = data.take(n);
            let ghost longer = data.take(n + 1);
            let ghost previous = out@;
            if let Some(path) = paths.get(&goal_id) {
                let resolved: AbstractPath<N> = self.resolve_path(
                    start,
                    start_path,
                    goal,
                    goal_path,
                    path,
                    get_cost,
                    &mut start_path_map,
                    Ghost(start_id),
                    Ghost(goal_id),
                );
                out.insert(goal, resolved);
            }
            proof {
                assert forall|g: Point| is_resolved(longer, paths@, g) <==> is_resolved(
                    shorter,
                    paths@,
                    g,
                ) || (g == goal && paths@.contains_key(goal_id)) by {
                    if is_resolved(shorter, paths@, g) {
                        let i = choose|i: int|
                            0 <= i < shorter.len() && (#[trigger] shorter[i]).0 == g
                                && paths@.contains_key(shorter[i].1);
                        assert(longer[i] == shorter[i]);
                    }
                    if g == goal && paths@.contains_key(goal_id) {
                        assert(longer[n] == data[n]);
                    }
                    if is_resolved(longer, paths@, g) {
                        let i = choose|i: int|
                            0 <= i < longer.len() && (#[trigger] longer[i]).0 == g
                                && paths@.contains_key(longer[i].1);
                        if i < n {
                            assert(shorter[i] == longer[i]);
                        }
                    }
                }
                assert(longer[n] == data[n]);
                assert forall|g: Point| #[trigger]
                    out@.contains_key(g) && is_resolved(longer, paths@, g) implies is_resolved_as(
                    *self,
                    t,
                    start,
                    *start_path,
                    longer,
                    paths@,
                    g,
                    out@[g],
                ) by {
                    if g == goal && paths@.contains_key(goal_id) {
                        assert(longer[n].0 == g);
                    } else {
                        assert(previous.contains_key(g));
                        let i = lemma_resolved_as(
                            *self,
                            t,
                            start,
                            *start_path,
                            shorter,
                            paths@,
                            g,
                            out@[g],
                        );
                        assert(longer[i] == shorter[i]);
                    }
                }
                assert forall|g: Point| #[trigger]
                    out@.contains_key(g) && self.is_guided_here() && is_resolved(longer, paths@, g)
                        && are_searched_for(
                        self.settings(),
                        longer,
                        paths@,
                        g,
                    ) implies is_cheapest(
                    t.edges(t.whole()),
                    start,
                    g,
                    out@[g].total() as nat,
                ) by {
                    if g == goal && paths@.contains_key(goal_id) {
                        assert(is_searched_for(
                            self.settings(),
                            paths@[goal_id].points(),
                            paths@[goal_id].total() as nat,
                        ));
                    } else {
                        assert(previous.contains_key(g));
                        assert forall|i: int|
                            0 <= i < shorter.len() && (#[trigger] shorter[i]).0 == g
                                && paths@.contains_key(shorter[i].1) implies is_searched_for(
                            self.settings(),
                            paths@[shorter[i].1].points(),
                            paths@[shorter[i].1].total() as nat,
                        ) by {
                            assert(longer[i] == shorter[i]);
                        }
                    }
                }
            }
        }
        assert(data.take(data.len() as int) =~= data);
    }
}

} // verus!

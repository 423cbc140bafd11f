//! Which path is found: that is fixed by the grid, the nodes, and the settings.

use vstd::prelude::*;

use super::layout::region_of;
use super::links::{has_unique_positions, is_link_over, positions_of, Nodes};
use super::resolve::{is_access, nodes_around};
use super::{PathCache, PathCacheConfig};
use crate::abstract_path::{stored, Outline, Shape};
use crate::course::{
    by_cost, by_estimate, is_first, is_found, lemma_first_alike, lemma_found_alike, Ranks,
};
use crate::graph::{node_edges, node_estimates};
use crate::neighbors::Neighborhood;
use crate::path::Path;
use crate::terrain::{estimates, Region, Terrain};
use crate::walk::{joined, walk_cost};
use crate::{NodeID, Point};

verus! {

/// The points of a path and its cost; none, if one stays at a tile.
pub type Piece = Option<(Seq<Point>, nat)>;

/// The points and the cost of a path.
pub open spec fn to_piece(path: Option<Path<Point>>) -> Piece {
    match path {
        Some(path) => Some((path.points(), path.total() as nat)),
        None => None,
    }
}

/// The points of a piece; the tile alone, if one stays at it.
pub open spec fn piece_points(piece: Piece, p: Point) -> Seq<Point> {
    match piece {
        Some((points, cost)) => points,
        None => seq![p],
    }
}

/// The segments of a piece.
pub open spec fn piece_shape(piece: Piece) -> Shape {
    match piece {
        Some((points, cost)) => seq![(true, points.len())],
        None => seq![],
    }
}

/// The cost of a piece.
pub open spec fn piece_cost(piece: Piece) -> nat {
    match piece {
        Some((points, cost)) => cost,
        None => 0,
    }
}

/// The path is the one that a search for `b` within the rectangle finds, which looks at the
/// tiles first that seem closest to `b`.
pub open spec fn is_grid_path<N: Neighborhood>(
    neighborhood: N,
    t: Terrain,
    r: Region,
    a: Point,
    b: Point,
    points: Seq<Point>,
    cost: nat,
) -> bool {
    is_found(t.edges(r), by_estimate(estimates(neighborhood, Some(b))), a, b, points, cost)
}

/// The path is the one that a search for `b` within the rectangle finds, and its points are
/// stored.
pub open spec fn is_stored_path<N: Neighborhood>(
    neighborhood: N,
    t: Terrain,
    r: Region,
    a: Point,
    b: Point,
    path: Outline,
) -> bool {
    &&& is_grid_path(neighborhood, t, r, a, b, path.points, path.cost)
    &&& path == stored(path.points, path.cost)
}

/// Of the given nodes, a search by cost from the tile within the rectangle comes to this one
/// first, over the given points.
pub open spec fn is_first_node(
    t: Terrain,
    r: Region,
    nodes: Nodes,
    ids: Set<NodeID>,
    p: Point,
    id: NodeID,
    points: Seq<Point>,
    cost: nat,
) -> bool {
    let e = t.edges(r);
    &&& ids.contains(id)
    &&& is_first(e, by_cost(), p, positions_of(nodes, ids), nodes[id].pos)
    &&& is_found(e, by_cost(), p, nodes[id].pos, points, cost)
}

/// A path from `p` to `q` back, without the cost of `p` but with that of `q`.
pub open spec fn is_reverse_of(
    t: Terrain,
    p: Point,
    q: Point,
    points: Seq<Point>,
    cost: nat,
    back: Path<Point>,
) -> bool {
    &&& back.points() == points.reverse()
    &&& back.total() == cost - (t.cost)(p) + (t.cost)(q)
}

/// The path leads to the node that is found first, or from there back if `reverse` is set.
pub open spec fn is_first_access(
    t: Terrain,
    r: Region,
    nodes: Nodes,
    ids: Set<NodeID>,
    p: Point,
    id: NodeID,
    path: Path<Point>,
    reverse: bool,
) -> bool {
    exists|points: Seq<Point>, cost: nat|
        {
            &&& #[trigger] is_first_node(t, r, nodes, ids, p, id, points, cost)
            &&& if reverse {
                is_reverse_of(t, p, nodes[id].pos, points, cost, path)
            } else {
                path.points() == points && path.total() == cost
            }
        }
}

/// Up to the node at `index`, and no further, all but the first lie in the chunk of the tile.
pub open spec fn is_leading(
    nodes: Nodes,
    chunk_size: usize,
    size: (usize, usize),
    p: Point,
    s: Seq<NodeID>,
    index: int,
) -> bool {
    &&& 0 <= index < s.len()
    &&& forall|k: int|
        1 <= k <= index ==> region_of(nodes[#[trigger] s[k]].pos, chunk_size, size) == region_of(
            p,
            chunk_size,
            size,
        )
    &&& index + 1 < s.len() ==> region_of(nodes[s[index + 1]].pos, chunk_size, size) != region_of(
        p,
        chunk_size,
        size,
    )
}

/// From the node at `index` on, and not from an earlier one from `from` on, all but the last
/// lie in the chunk of the tile.
pub open spec fn is_trailing(
    nodes: Nodes,
    chunk_size: usize,
    size: (usize, usize),
    p: Point,
    s: Seq<NodeID>,
    from: int,
    index: int,
) -> bool {
    &&& from <= index < s.len()
    &&& forall|k: int|
        index <= k < s.len() - 1 ==> region_of(nodes[#[trigger] s[k]].pos, chunk_size, size)
            == region_of(p, chunk_size, size)
    &&& from < index ==> region_of(nodes[s[index - 1]].pos, chunk_size, size) != region_of(
        p,
        chunk_size,
        size,
    )
}

/// The goal is the node at `index`, or that node is the last one and the goal lies in the
/// chunk of the start.
pub open spec fn is_direct(
    nodes: Nodes,
    chunk_size: usize,
    size: (usize, usize),
    start: Point,
    goal: Point,
    s: Seq<NodeID>,
    index: int,
) -> bool {
    ||| nodes[s[index]].pos == goal
    ||| index == s.len() - 1 && region_of(goal, chunk_size, size) == region_of(
        start,
        chunk_size,
        size,
    )
}

/// The points of the connection between two nodes.
pub open spec fn link_points(
    t: Terrain,
    chunk_size: usize,
    nodes: Nodes,
    a: NodeID,
    b: NodeID,
) -> Seq<Point> {
    choose|points: Seq<Point>| #[trigger]
        is_link_over(t, chunk_size, nodes[a].pos, nodes[b].pos, nodes[a].edges[b], points)
}

/// The points of `head` and of the connections from the node at `from` to the one at `to`.
pub open spec fn way_points(
    t: Terrain,
    chunk_size: usize,
    nodes: Nodes,
    head: Seq<Point>,
    s: Seq<NodeID>,
    from: int,
    to: int,
) -> Seq<Point>
    decreases to - from,
{
    if to <= from {
        head
    } else {
        joined(
            way_points(t, chunk_size, nodes, head, s, from, to - 1),
            link_points(t, chunk_size, nodes, s[to - 1], s[to]),
        )
    }
}

/// The segments of `head`, and the connections from the node at `from` to the one at `to`.
pub open spec fn way_shape(nodes: Nodes, head: Shape, s: Seq<NodeID>, from: int, to: int) -> Shape
    decreases to - from,
{
    if to <= from {
        head
    } else {
        let link = nodes[s[to - 1]].edges[s[to]];
        way_shape(nodes, head, s, from, to - 1).push((link is Known, link.count()))
    }
}

/// The way to the node at `from`: that to the first node, or one that is searched for within
/// the chunk of the start.
pub open spec fn is_first_piece<N: Neighborhood>(
    neighborhood: N,
    t: Terrain,
    chunk_size: usize,
    nodes: Nodes,
    start: Point,
    to_first: Piece,
    s: Seq<NodeID>,
    from: int,
    first: Piece,
) -> bool {
    if from == 0 {
        first == to_first
    } else {
        first is Some && is_grid_path(
            neighborhood,
            t,
            region_of(start, chunk_size, t.size),
            start,
            nodes[s[from]].pos,
            piece_points(first, start),
            piece_cost(first),
        )
    }
}

/// The way from the node at `to`: that from the last node, or one that is searched for within
/// the chunk of the goal.
pub open spec fn is_last_piece<N: Neighborhood>(
    neighborhood: N,
    t: Terrain,
    chunk_size: usize,
    nodes: Nodes,
    goal: Point,
    from_last: Piece,
    s: Seq<NodeID>,
    from: int,
    to: int,
    last: Piece,
) -> bool {
    &&& if from_last is None {
        to == s.len() - 1
    } else {
        is_trailing(nodes, chunk_size, t.size, goal, s, from, to)
    }
    &&& if to == s.len() - 1 {
        last == from_last
    } else {
        last is Some && is_grid_path(
            neighborhood,
            t,
            region_of(goal, chunk_size, t.size),
            nodes[s[to]].pos,
            goal,
            piece_points(last, goal),
            piece_cost(last),
        )
    }
}

/// The path is put together from the way to the node at `from`, the connections up to the
/// node at `to`, and the way from there.
pub open spec fn is_assembly<N: Neighborhood>(
    neighborhood: N,
    t: Terrain,
    chunk_size: usize,
    nodes: Nodes,
    start: Point,
    to_first: Piece,
    goal: Point,
    from_last: Piece,
    s: Seq<NodeID>,
    from: int,
    to: int,
    first: Piece,
    last: Piece,
    path: Outline,
) -> bool {
    &&& is_first_piece(neighborhood, t, chunk_size, nodes, start, to_first, s, from, first)
    &&& is_last_piece(neighborhood, t, chunk_size, nodes, goal, from_last, s, from, to, last)
    &&& path.points == joined(
        way_points(t, chunk_size, nodes, piece_points(first, start), s, from, to),
        piece_points(last, goal),
    )
    &&& path.shape == way_shape(nodes, piece_shape(first), s, from, to) + piece_shape(last)
    &&& path.cost == piece_cost(first) + walk_cost(node_edges(nodes), s.subrange(from, to + 1))
        + piece_cost(last)
}

/// The path leads over the nodes, by the shortest way to the last of the nodes in the chunk
/// of the start, and from the first of those in the chunk of the goal; or it stays in the
/// chunk of the start.
pub open spec fn is_over_nodes<N: Neighborhood>(
    neighborhood: N,
    t: Terrain,
    chunk_size: usize,
    nodes: Nodes,
    start: Point,
    to_first: Piece,
    goal: Point,
    from_last: Piece,
    s: Seq<NodeID>,
    from: int,
    path: Outline,
) -> bool {
    &&& if to_first is None {
        from == 0
    } else {
        is_leading(nodes, chunk_size, t.size, start, s, from)
    }
    &&& if to_first is Some && is_direct(nodes, chunk_size, t.size, start, goal, s, from) {
        let r = region_of(start, chunk_size, t.size);
        is_stored_path(neighborhood, t, r, start, goal, path)
    } else {
        exists|to: int, first: Piece, last: Piece| #[trigger]
            is_assembly(
                neighborhood,
                t,
                chunk_size,
                nodes,
                start,
                to_first,
                goal,
                from_last,
                s,
                from,
                to,
                first,
                last,
                path,
            )
    }
}

/// In place of the path from node to node, one on the grid is searched for: the path stays at
/// one node, or it is a short one and the fallback is set.
pub open spec fn is_searched_for(config: PathCacheConfig, s: Seq<NodeID>, cost: nat) -> bool {
    ||| s.len() == 1
    ||| config.a_star_fallback && cost < 2 * config.chunk_size
}

/// The path on the grid that stands for a path from node to node.
pub open spec fn is_resolution<N: Neighborhood>(
    neighborhood: N,
    t: Terrain,
    config: PathCacheConfig,
    nodes: Nodes,
    start: Point,
    to_first: Piece,
    goal: Point,
    from_last: Piece,
    s: Seq<NodeID>,
    walk: nat,
    path: Outline,
) -> bool {
    if is_searched_for(config, s, walk) {
        is_stored_path(neighborhood, t, t.whole(), start, goal, path)
    } else {
        exists|from: int| #[trigger]
            is_over_nodes(
                neighborhood,
                t,
                config.chunk_size,
                nodes,
                start,
                to_first,
                goal,
                from_last,
                s,
                from,
                path,
            )
    }
}

/// The ranks by which paths over nodes are searched for: by the estimates if there is only
/// one goal, by the costs otherwise.
pub open spec fn node_ranks<N: Neighborhood>(
    nodes: Nodes,
    neighborhood: N,
    alone: bool,
    goal: NodeID,
) -> Ranks<NodeID> {
    if alone {
        by_estimate(node_estimates(nodes, neighborhood, Some(goal)))
    } else {
        by_cost()
    }
}

/// A path from the start over a node near it and a node near the goal.
pub open spec fn is_way_over<N: Neighborhood>(
    neighborhood: N,
    t: Terrain,
    config: PathCacheConfig,
    nodes: Nodes,
    start: Point,
    goal: Point,
    alone: bool,
    start_id: NodeID,
    start_path: Option<Path<Point>>,
    goal_id: NodeID,
    goal_path: Option<Path<Point>>,
    s: Seq<NodeID>,
    walk: nat,
    path: Outline,
) -> bool {
    &&& is_access(t, config.chunk_size, nodes, start, start_id, start_path, false)
    &&& is_access(t, config.chunk_size, nodes, goal, goal_id, goal_path, true)
    &&& is_found(
        node_edges(nodes),
        node_ranks(nodes, neighborhood, alone, goal_id),
        start_id,
        goal_id,
        s,
        walk,
    )
    &&& is_resolution(
        neighborhood,
        t,
        config,
        nodes,
        start,
        to_piece(start_path),
        goal,
        to_piece(goal_path),
        s,
        walk,
        path,
    )
}

/// No node can be reached from the tile within its chunk.
pub open spec fn is_in_cave(t: Terrain, chunk_size: usize, nodes: Nodes, p: Point) -> bool {
    let r = region_of(p, chunk_size, t.size);
    forall|b: NodeID| #[trigger]
        nodes.contains_key(b) && r.contains(nodes[b].pos) ==> !t.has_path_in(r, p, nodes[b].pos)
}

/// The ranks by which paths within a chunk are searched for.
pub open spec fn tile_ranks<N: Neighborhood>(
    neighborhood: N,
    alone: bool,
    goal: Point,
) -> Ranks<Point> {
    if alone {
        by_estimate(estimates(neighborhood, Some(goal)))
    } else {
        by_cost()
    }
}

impl<N: Neighborhood> PathCache<N> {
    /// The path to the goal that is found if the goal is the only one, or one of several.
    #[verifier::opaque]
    pub open spec fn is_outcome(
        &self,
        t: Terrain,
        start: Point,
        goal: Point,
        alone: bool,
        path: Outline,
    ) -> bool {
        let (config, nodes) = (self.settings(), self.graph());
        if start == goal {
            path == stored(seq![start, start], 0)
        } else if is_in_cave(t, config.chunk_size, nodes, start) {
            &&& is_found(
                t.edges(region_of(start, config.chunk_size, t.size)),
                tile_ranks(self.surroundings(), alone, goal),
                start,
                goal,
                path.points,
                path.cost,
            )
            &&& path == stored(path.points, path.cost)
        } else {
            exists|
                start_id: NodeID,
                start_path: Option<Path<Point>>,
                goal_id: NodeID,
                goal_path: Option<Path<Point>>,
                s: Seq<NodeID>,
                walk: nat,
            | #[trigger]
                is_way_over(
                    self.surroundings(),
                    t,
                    config,
                    nodes,
                    start,
                    goal,
                    alone,
                    start_id,
                    start_path,
                    goal_id,
                    goal_path,
                    s,
                    walk,
                    path,
                )
        }
    }
}

/// There is only one way to get to a node or from it.
proof fn lemma_accesses_alike(
    t: Terrain,
    chunk_size: usize,
    nodes: Nodes,
    p: Point,
    id: NodeID,
    path: Option<Path<Point>>,
    other_id: NodeID,
    other: Option<Path<Point>>,
    reverse: bool,
)
    requires
        has_unique_positions(nodes),
        is_access(t, chunk_size, nodes, p, id, path, reverse),
        is_access(t, chunk_size, nodes, p, other_id, other, reverse),
    ensures
        id == other_id,
        to_piece(path) == to_piece(other),
{
    if path is Some && other is Some {
        let r = region_of(p, chunk_size, t.size);
        let e = t.edges(r);
        let ids = nodes_around(t, chunk_size, nodes, p);
        let (s, c) = choose|points: Seq<Point>, cost: nat|
            {
                &&& #[trigger] is_first_node(t, r, nodes, ids, p, id, points, cost)
                &&& if reverse {
                    is_reverse_of(t, p, nodes[id].pos, points, cost, path->0)
                } else {
                    (path->0).points() == points && (path->0).total() == cost
                }
            };
        let (u, d) = choose|points: Seq<Point>, cost: nat|
            {
                &&& #[trigger] is_first_node(t, r, nodes, ids, p, other_id, points, cost)
                &&& if reverse {
                    is_reverse_of(t, p, nodes[other_id].pos, points, cost, other->0)
                } else {
                    (other->0).points() == points && (other->0).total() == cost
                }
            };
        lemma_first_alike(
            e,
            by_cost(),
            p,
            positions_of(nodes, ids),
            nodes[id].pos,
            nodes[other_id].pos,
        );
        lemma_found_alike(e, by_cost(), p, nodes[id].pos, s, u, c, d);
    }
}

/// There is only one last node that still leads through the chunk.
proof fn lemma_leading_alike(
    nodes: Nodes,
    chunk_size: usize,
    size: (usize, usize),
    p: Point,
    s: Seq<NodeID>,
    i: int,
    j: int,
)
    requires
        is_leading(nodes, chunk_size, size, p, s, i),
        is_leading(nodes, chunk_size, size, p, s, j),
    ensures
        i == j,
{
    if i < j {
        assert(region_of(nodes[s[i + 1]].pos, chunk_size, size) == region_of(p, chunk_size, size));
    } else if j < i {
        assert(region_of(nodes[s[j + 1]].pos, chunk_size, size) == region_of(p, chunk_size, size));
    }
}

/// There is only one first node from which on all lie in the chunk.
proof fn lemma_trailing_alike(
    nodes: Nodes,
    chunk_size: usize,
    size: (usize, usize),
    p: Point,
    s: Seq<NodeID>,
    from: int,
    i: int,
    j: int,
)
    requires
        is_trailing(nodes, chunk_size, size, p, s, from, i),
        is_trailing(nodes, chunk_size, size, p, s, from, j),
    ensures
        i == j,
{
    if i < j {
        assert(region_of(nodes[s[j - 1]].pos, chunk_size, size) == region_of(p, chunk_size, size));
    } else if j < i {
        assert(region_of(nodes[s[i - 1]].pos, chunk_size, size) == region_of(p, chunk_size, size));
    }
}

/// A path is put together in only one way.
proof fn lemma_assemblies_alike<N: Neighborhood>(
    neighborhood: N,
    t: Terrain,
    chunk_size: usize,
    nodes: Nodes,
    start: Point,
    to_first: Piece,
    goal: Point,
    from_last: Piece,
    s: Seq<NodeID>,
    from: int,
    to: int,
    first: Piece,
    last: Piece,
    path: Outline,
    other_to: int,
    other_first: Piece,
    other_last: Piece,
    other: Outline,
)
    requires
        is_assembly(
            neighborhood,
            t,
            chunk_size,
            nodes,
            start,
            to_first,
            goal,
            from_last,
            s,
            from,
            to,
            first,
            last,
            path,
        ),
        is_assembly(
            neighborhood,
            t,
            chunk_size,
            nodes,
            start,
            to_first,
            goal,
            from_last,
            s,
            from,
            other_to,
            other_first,
            other_last,
            other,
        ),
    ensures
        path == other,
{
    if from_last is Some {
        lemma_trailing_alike(nodes, chunk_size, t.size, goal, s, from, to, other_to);
    }
    if from != 0 {
        lemma_found_alike(
            t.edges(region_of(start, chunk_size, t.size)),
            by_estimate(estimates(neighborhood, Some(nodes[s[from]].pos))),
            start,
            nodes[s[from]].pos,
            piece_points(first, start),
            piece_points(other_first, start),
            piece_cost(first),
            piece_cost(other_first),
        );
    }
    if to != s.len() - 1 {
        lemma_found_alike(
            t.edges(region_of(goal, chunk_size, t.size)),
            by_estimate(estimates(neighborhood, Some(goal))),
            nodes[s[to]].pos,
            goal,
            piece_points(last, goal),
            piece_points(other_last, goal),
            piece_cost(last),
            piece_cost(other_last),
        );
    }
}

/// There is only one path over the nodes.
proof fn lemma_over_nodes_alike<N: Neighborhood>(
    neighborhood: N,
    t: Terrain,
    chunk_size: usize,
    nodes: Nodes,
    start: Point,
    to_first: Piece,
    goal: Point,
    from_last: Piece,
    s: Seq<NodeID>,
    from: int,
    path: Outline,
    other_from: int,
    other: Outline,
)
    requires
        is_over_nodes(
            neighborhood,
            t,
            chunk_size,
            nodes,
            start,
            to_first,
            goal,
            from_last,
            s,
            from,
            path,
        ),
        is_over_nodes(
            neighborhood,
            t,
            chunk_size,
            nodes,
            start,
            to_first,
            goal,
            from_last,
            s,
            other_from,
            other,
        ),
    ensures
        path == other,
{
    if to_first is Some {
        lemma_leading_alike(nodes, chunk_size, t.size, start, s, from, other_from);
    }
    if to_first is Some && is_direct(nodes, chunk_size, t.size, start, goal, s, from) {
        lemma_found_alike(
            t.edges(region_of(start, chunk_size, t.size)),
            by_estimate(estimates(neighborhood, Some(goal))),
            start,
            goal,
            path.points,
            other.points,
            path.cost,
            other.cost,
        );
    } else {
        let (a, f, l) = choose|to: int, first: Piece, last: Piece| #[trigger]
            is_assembly(
                neighborhood,
                t,
                chunk_size,
                nodes,
                start,
                to_first,
                goal,
                from_last,
                s,
                from,
                to,
                first,
                last,
                path,
            );
        let (b, g, m) = choose|to: int, first: Piece, last: Piece| #[trigger]
            is_assembly(
                neighborhood,
                t,
                chunk_size,
                nodes,
                start,
                to_first,
                goal,
                from_last,
                s,
                from,
                to,
                first,
                last,
                other,
            );
        lemma_assemblies_alike(
            neighborhood,
            t,
            chunk_size,
            nodes,
            start,
            to_first,
            goal,
            from_last,
            s,
            from,
            a,
            f,
            l,
            path,
            b,
            g,
            m,
            other,
        );
    }
}

/// There is only one path that stands for a path from node to node.
proof fn lemma_resolutions_alike<N: Neighborhood>(
    neighborhood: N,
    t: Terrain,
    config: PathCacheConfig,
    nodes: Nodes,
    start: Point,
    to_first: Piece,
    goal: Point,
    from_last: Piece,
    s: Seq<NodeID>,
    walk: nat,
    path: Outline,
    other: Outline,
)
    requires
        is_resolution(
            neighborhood,
            t,
            config,
            nodes,
            start,
            to_first,
            goal,
            from_last,
            s,
            walk,
            path,
        ),
        is_resolution(
            neighborhood,
            t,
            config,
            nodes,
            start,
            to_first,
            goal,
            from_last,
            s,
            walk,
            other,
        ),
    ensures
        path == other,
{
    if is_searched_for(config, s, walk) {
        lemma_found_alike(
            t.edges(t.whole()),
            by_estimate(estimates(neighborhood, Some(goal))),
            start,
            goal,
            path.points,
            other.points,
            path.cost,
            other.cost,
        );
    } else {
        let cs = config.chunk_size;
        let a = choose|from: int| #[trigger]
            is_over_nodes(
                neighborhood,
                t,
                cs,
                nodes,
                start,
                to_first,
                goal,
                from_last,
                s,
                from,
                path,
            );
        let b = choose|from: int| #[trigger]
            is_over_nodes(
                neighborhood,
                t,
                cs,
                nodes,
                start,
                to_first,
                goal,
                from_last,
                s,
                from,
                other,
            );
        lemma_over_nodes_alike(
            neighborhood,
            t,
            cs,
            nodes,
            start,
            to_first,
            goal,
            from_last,
            s,
            a,
            path,
            b,
            other,
        );
    }
}

/// There is only one path to the goal that is found.
pub proof fn lemma_outcomes_alike<N: Neighborhood>(
    cache: PathCache<N>,
    t: Terrain,
    start: Point,
    goal: Point,
    alone: bool,
    path: Outline,
    other: Outline,
)
    requires
        has_unique_positions(cache.graph()),
        cache.is_outcome(t, start, goal, alone, path),
        cache.is_outcome(t, start, goal, alone, other),
    ensures
        path == other,
{
    reveal(PathCache::is_outcome);
    let (n, config, nodes) = (cache.surroundings(), cache.settings(), cache.graph());
    let cs = config.chunk_size;
    if start == goal {
    } else if is_in_cave(t, cs, nodes, start) {
        lemma_found_alike(
            t.edges(region_of(start, cs, t.size)),
            tile_ranks(n, alone, goal),
            start,
            goal,
            path.points,
            other.points,
            path.cost,
            other.cost,
        );
    } else {
        let (a, p, b, q, s, x) = choose|
            start_id: NodeID,
            start_path: Option<Path<Point>>,
            goal_id: NodeID,
            goal_path: Option<Path<Point>>,
            s: Seq<NodeID>,
            walk: nat,
        | #[trigger]
            is_way_over(
                n,
                t,
                config,
                nodes,
                start,
                goal,
                alone,
                start_id,
                start_path,
                goal_id,
                goal_path,
                s,
                walk,
                path,
            );
        let (c, f, d, h, u, y) = choose|
            start_id: NodeID,
            start_path: Option<Path<Point>>,
            goal_id: NodeID,
            goal_path: Option<Path<Point>>,
            s: Seq<NodeID>,
            walk: nat,
        | #[trigger]
            is_way_over(
                n,
                t,
                config,
                nodes,
                start,
                goal,
                alone,
                start_id,
                start_path,
                goal_id,
                goal_path,
                s,
                walk,
                other,
            );
        lemma_accesses_alike(t, cs, nodes, start, a, p, c, f, false);
        lemma_accesses_alike(t, cs, nodes, goal, b, q, d, h, true);
        lemma_found_alike(node_edges(nodes), node_ranks(nodes, n, alone, b), a, b, s, u, x, y);
        lemma_resolutions_alike(
            n,
            t,
            config,
            nodes,
            start,
            to_piece(p),
            goal,
            to_piece(q),
            s,
            x,
            path,
            other,
        );
    }
}

} // verus!

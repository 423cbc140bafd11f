//! How much worse a path over the nodes of the cache can be than the best one.

use vstd::prelude::*;

use super::layout::{lemma_region_of, region_of};
use super::limits::{
    chunk_area, fits, lemma_chunk_limits, lemma_limits, link_limit, step_limit, tile_limit,
};
use super::links::{
    are_links_sound, are_nodes_sound, has_node_at, is_link_over, is_node_sound, Nodes,
};
use super::outcome::{is_direct, is_leading, is_trailing};
use super::resolve::{is_node_near, lemma_link_on_grid};
use super::PathCacheConfig;
use crate::graph::{node_edges, node_estimates_are_steady};
use crate::neighbors::{on_grid, Neighborhood};
use crate::search::{is_cheapest, is_distance};
use crate::terrain::{estimates_are_steady, Terrain};
use crate::walk::{is_walk, linked, walk_cost};
use crate::{NodeID, Point};

verus! {

/// The highest cost of a path over nodes.
pub open spec fn detour_limit(size: (usize, usize), chunk_size: usize) -> nat {
    (size.0 * size.1 * link_limit(size, chunk_size)) as nat
}

/// The estimated distance to any tile never drops by more than a step costs, and is small
/// enough to be added to the cost of a path.
pub open spec fn is_guided<N: Neighborhood>(
    neighborhood: N,
    t: Terrain,
    chunk_size: usize,
) -> bool {
    forall|goal: Point|
        on_grid(goal, t.size) ==> #[trigger] estimates_are_steady(
            neighborhood,
            t.edges(t.whole()),
            goal,
            detour_limit(t.size, chunk_size),
        )
}

/// The walk `s` over nodes is followed only from the node at `from` to the one at `to`: the
/// last one that still leads through the chunk of the start, and the first one from which on
/// all lie in the chunk of the goal. From the start, and to the goal, one goes directly, at
/// the costs `to_first` and `from_last`; or from the start to the goal itself, if it lies
/// there. No more than that is `cost`.
pub open spec fn is_shortcut_by(
    t: Terrain,
    chunk_size: usize,
    nodes: Nodes,
    start: Point,
    goal: Point,
    s: Seq<NodeID>,
    from: int,
    to: int,
    to_first: nat,
    from_last: nat,
    cost: nat,
) -> bool {
    let (size, e) = (t.size, node_edges(nodes));
    let r = t.edges(region_of(start, chunk_size, size));
    let o = t.edges(region_of(goal, chunk_size, size));
    &&& if has_node_at(nodes, start) {
        from == 0
    } else {
        is_leading(nodes, chunk_size, size, start, s, from)
    }
    &&& if !has_node_at(nodes, start) && is_direct(nodes, chunk_size, size, start, goal, s, from) {
        &&& is_distance(r, start, goal, to_first)
        &&& cost <= to_first
    } else {
        &&& if has_node_at(nodes, goal) {
            to == s.len() - 1
        } else {
            is_trailing(nodes, chunk_size, size, goal, s, from, to)
        }
        &&& is_distance(r, start, nodes[s[from]].pos, to_first)
        &&& is_distance(o, nodes[s[to]].pos, goal, from_last)
        &&& cost <= to_first + walk_cost(e, s.subrange(from, to + 1)) + from_last
    }
}

/// Within the chunks of the start and the goal one goes directly, not over the nodes of the
/// walk there.
pub open spec fn is_shortcut(
    t: Terrain,
    chunk_size: usize,
    nodes: Nodes,
    start: Point,
    goal: Point,
    s: Seq<NodeID>,
    cost: nat,
) -> bool {
    exists|from: int, to: int, x: nat, y: nat| #[trigger]
        is_shortcut_by(t, chunk_size, nodes, start, goal, s, from, to, x, y, cost)
}

/// A cheapest walk `s` over nodes leads from a node near the start to one near the goal, at
/// the costs `to_first` and `from_last` from and to the ends within their chunks, and `cost`
/// is no more than the sum, and no more than what the walk costs if one goes directly within
/// the chunks at its ends; and with the fallback, the walk is not a short one.
pub open spec fn is_bounded_by(
    t: Terrain,
    config: PathCacheConfig,
    nodes: Nodes,
    start: Point,
    goal: Point,
    s: Seq<NodeID>,
    to_first: nat,
    from_last: nat,
    cost: nat,
) -> bool {
    let cs = config.chunk_size;
    let e = node_edges(nodes);
    &&& s.len() > 1
    &&& is_walk(e, s)
    &&& is_cheapest(e, s[0], s.last(), walk_cost(e, s))
    &&& is_node_near(t, cs, nodes, start, s[0])
    &&& region_of(nodes[s[0]].pos, cs, t.size) == region_of(start, cs, t.size)
    &&& has_node_at(nodes, start) ==> nodes[s[0]].pos == start
    &&& is_distance(t.edges(region_of(start, cs, t.size)), start, nodes[s[0]].pos, to_first)
    &&& is_node_near(t, cs, nodes, goal, s.last())
    &&& region_of(nodes[s.last()].pos, cs, t.size) == region_of(goal, cs, t.size)
    &&& has_node_at(nodes, goal) ==> nodes[s.last()].pos == goal
    &&& is_distance(t.edges(region_of(goal, cs, t.size)), nodes[s.last()].pos, goal, from_last)
    &&& config.a_star_fallback ==> walk_cost(e, s) >= 2 * cs
    &&& cost <= to_first + walk_cost(e, s) + from_last
    &&& is_shortcut(t, cs, nodes, start, goal, s, cost)
}

/// No path from the start to the goal costs less than `cost`, or `cost` is at most what a
/// cheapest way over the nodes costs.
#[verifier::opaque]
pub open spec fn is_short(
    t: Terrain,
    config: PathCacheConfig,
    nodes: Nodes,
    start: Point,
    goal: Point,
    cost: nat,
) -> bool {
    ||| is_cheapest(t.edges(t.whole()), start, goal, cost)
    ||| exists|s: Seq<NodeID>, to_first: nat, from_last: nat| #[trigger]
        is_bounded_by(t, config, nodes, start, goal, s, to_first, from_last, cost)
}

/// What bounds a cost also bounds a lower one.
pub proof fn lemma_short_below(
    t: Terrain,
    config: PathCacheConfig,
    nodes: Nodes,
    start: Point,
    goal: Point,
    cost: nat,
    lower: nat,
)
    requires
        is_short(t, config, nodes, start, goal, cost),
        lower <= cost,
    ensures
        is_short(t, config, nodes, start, goal, lower),
{
    reveal(is_short);
    if !is_cheapest(t.edges(t.whole()), start, goal, cost) {
        let cs = config.chunk_size;
        let (s, a, b) = choose|s: Seq<NodeID>, to_first: nat, from_last: nat| #[trigger]
            is_bounded_by(t, config, nodes, start, goal, s, to_first, from_last, cost);
        let (from, to, x, y) = choose|from: int, to: int, x: nat, y: nat| #[trigger]
            is_shortcut_by(t, cs, nodes, start, goal, s, from, to, x, y, cost);
        assert(is_shortcut_by(t, cs, nodes, start, goal, s, from, to, x, y, lower));
        assert(is_bounded_by(t, config, nodes, start, goal, s, a, b, lower));
    }
}

/// To the highest cost of a path over nodes the number of tiles can be added.
pub proof fn lemma_detour_limit(t: Terrain, chunk_size: usize)
    requires
        fits(t, chunk_size),
        0 < chunk_size,
    ensures
        detour_limit(t.size, chunk_size) + t.size.0 * t.size.1 <= usize::MAX,
{
    let n = t.size.0 * t.size.1;
    let (a, w) = (chunk_area(t.size, chunk_size), tile_limit(t.size, chunk_size) as int);
    let (l, m) = (step_limit(t.size, chunk_size), usize::MAX as int);
    lemma_limits(t, chunk_size);
    assert(0 <= n) by (nonlinear_arith)
        requires
            n == t.size.0 * t.size.1,
    ;
    assert(l > 0) by (nonlinear_arith)
        requires
            l == (n + 2) * (a + 1),
            0 <= n,
            0 <= a,
    ;
    assert(l * w <= m && 1 <= w) by (nonlinear_arith)
        requires
            w == m / l,
            0 < l <= m,
    ;
    assert(0 <= n * (a * w) && n * (a * w) + n <= l * w) by (nonlinear_arith)
        requires
            l == (n + 2) * (a + 1),
            0 <= n,
            0 <= a,
            1 <= w,
    ;
}

/// The estimates guide a search on the whole grid.
pub proof fn lemma_guided_on_grid<N: Neighborhood>(
    neighborhood: N,
    t: Terrain,
    chunk_size: usize,
    goal: Point,
)
    requires
        is_guided(neighborhood, t, chunk_size),
        neighborhood.size() == t.size,
        fits(t, chunk_size),
        0 < chunk_size,
        on_grid(goal, t.size),
    ensures
        estimates_are_steady(
            neighborhood,
            t.edges(t.whole()),
            goal,
            (t.whole().area() * tile_limit(t.size, chunk_size)) as nat,
        ),
{
    let (w, l) = (tile_limit(t.size, chunk_size), link_limit(t.size, chunk_size));
    let n = t.size.0 * t.size.1;
    lemma_chunk_limits(t, chunk_size, goal);
    assert(t.whole().area() == n);
    assert(0 <= n * w <= n * l) by (nonlinear_arith)
        requires
            n == t.size.0 * t.size.1,
            0 <= w <= l,
    ;
    assert(estimates_are_steady(
        neighborhood,
        t.edges(t.whole()),
        goal,
        detour_limit(t.size, chunk_size),
    ));
}

/// The estimates guide a search within a chunk.
pub proof fn lemma_guided_in_chunk<N: Neighborhood>(
    neighborhood: N,
    t: Terrain,
    chunk_size: usize,
    goal: Point,
)
    requires
        is_guided(neighborhood, t, chunk_size),
        neighborhood.size() == t.size,
        fits(t, chunk_size),
        0 < chunk_size,
        on_grid(goal, t.size),
    ensures
        ({
            let r = region_of(goal, chunk_size, t.size);
            estimates_are_steady(
                neighborhood,
                t.edges(r),
                goal,
                (r.area() * tile_limit(t.size, chunk_size)) as nat,
            )
        }),
{
    let r = region_of(goal, chunk_size, t.size);
    let (w, l) = (tile_limit(t.size, chunk_size), link_limit(t.size, chunk_size));
    let n = t.size.0 * t.size.1;
    lemma_chunk_limits(t, chunk_size, goal);
    lemma_region_of(goal, chunk_size, t.size);
    assert(0 <= r.area() * w && l <= n * l) by (nonlinear_arith)
        requires
            n == t.size.0 * t.size.1,
            0 < t.size.0,
            0 < t.size.1,
            0 <= w,
            0 <= l,
            1 <= r.area(),
    ;
    let (g, e) = (t.edges(t.whole()), t.edges(r));
    assert(estimates_are_steady(neighborhood, g, goal, detour_limit(t.size, chunk_size)));
    assert forall|a: Point, b: Point| (#[trigger] e(a, b)) is Some implies neighborhood.distance(
        a,
        goal,
    ) <= e(a, b)->0 + neighborhood.distance(b, goal) by {
        assert(g(a, b) == e(a, b));
    }
}

/// Along a path the estimate does not drop by more than the path costs.
proof fn lemma_estimate_along<N: Neighborhood>(
    neighborhood: N,
    t: Terrain,
    goal: Point,
    limit: nat,
    s: Seq<Point>,
)
    requires
        estimates_are_steady(neighborhood, t.edges(t.whole()), goal, limit),
        is_walk(t.edges(t.whole()), s),
    ensures
        neighborhood.distance(s[0], goal) <= walk_cost(t.edges(t.whole()), s)
            + neighborhood.distance(s.last(), goal),
    decreases s.len(),
{
    let g = t.edges(t.whole());
    if s.len() > 1 {
        let d = s.drop_last();
        assert forall|i: int| 0 <= i < d.len() - 1 implies #[trigger] linked(g, d, i) by {
            assert(linked(g, s, i));
        }
        lemma_estimate_along(neighborhood, t, goal, limit, d);
        assert(linked(g, s, s.len() - 2));
    }
}

/// The estimates guide a search from node to node.
pub proof fn lemma_guided_over_nodes<N: Neighborhood>(
    neighborhood: N,
    t: Terrain,
    chunk_size: usize,
    known: bool,
    nodes: Nodes,
    goal: NodeID,
)
    requires
        is_guided(neighborhood, t, chunk_size),
        neighborhood.size() == t.size,
        fits(t, chunk_size),
        0 < chunk_size,
        nodes.dom().len() <= t.size.0 * t.size.1,
        are_nodes_sound(t, chunk_size, nodes),
        are_links_sound(t, chunk_size, known, nodes),
        nodes.contains_key(goal),
    ensures
        node_estimates_are_steady(
            nodes,
            neighborhood,
            goal,
            nodes.dom().len() * link_limit(t.size, chunk_size),
        ),
{
    let e = node_edges(nodes);
    let end = nodes[goal].pos;
    let limit = detour_limit(t.size, chunk_size);
    let (n, l) = (t.size.0 * t.size.1, link_limit(t.size, chunk_size));
    assert(is_node_sound(t, chunk_size, nodes[goal]));
    assert(estimates_are_steady(neighborhood, t.edges(t.whole()), end, limit));
    assert(nodes.dom().len() * l <= n * l) by (nonlinear_arith)
        requires
            nodes.dom().len() <= n,
            0 <= l,
    ;
    assert forall|a: NodeID, b: NodeID| (#[trigger] e(a, b)) is Some implies neighborhood.distance(
        nodes[a].pos,
        end,
    ) <= e(a, b)->0 + neighborhood.distance(nodes[b].pos, end) by {
        assert(nodes[a].edges.contains_key(b));
        assert(is_node_sound(t, chunk_size, nodes[a]));
        assert(is_node_sound(t, chunk_size, nodes[b]));
        let (p, q, path) = (nodes[a].pos, nodes[b].pos, nodes[a].edges[b]);
        let s = choose|s: Seq<Point>| #[trigger] is_link_over(t, chunk_size, p, q, path, s);
        lemma_link_on_grid(t, chunk_size, p, q, path, s);
        lemma_estimate_along(neighborhood, t, end, limit, s);
    }
    assert forall|a: NodeID| nodes.contains_key(a) implies #[trigger] neighborhood.distance(
        nodes[a].pos,
        end,
    ) + nodes.dom().len() * l <= usize::MAX by {
        assert(is_node_sound(t, chunk_size, nodes[a]));
        assert(on_grid(nodes[a].pos, neighborhood.size()));
    }
}

} // verus!

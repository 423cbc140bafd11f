//! How much a path can cost more than the cheapest one on the grid.

use vstd::prelude::*;

use super::chains::{
    chain_cost, is_chain, is_cheapest_on_grid, is_closest_node, is_closest_over, is_way_along,
    law_paths_go_directly_at_their_ends, part_cost,
};
use super::passages::{
    along, are_gates, has_node, is_along, is_gate, is_gate_along, is_straight,
    law_corners_have_nodes, law_gates_lead_to_nodes, law_nodes_next_to_each_other_are_connected,
    law_nodes_of_a_chunk_are_connected, law_slanting_passages_have_nodes, moved,
};
use super::tiles::{
    is_free, is_same_square, is_trail, is_trail_between, is_within, lemma_trail_on_grid,
    lemma_walk_is_trail, trail_cost,
};
use super::{law_diagonal_estimates_guide, law_straight_estimates_guide};
use crate::abstract_path::AbstractPath;
use crate::neighbors::{ManhattanNeighborhood, MooreNeighborhood, Neighborhood};
use crate::path_cache::PathCache;
use crate::path_cache::detour::is_guided;
use crate::path_cache::links::Nodes;
use crate::terrain::{lemma_ground_wf, lemma_reversed_cost, Terrain};
use crate::walk::{joined, lemma_walk_splits, lemma_walks_join};
use crate::{NodeID, Point};

verus! {

/// The step from the `i`-th tile to the next one stays in a chunk, or leads from node to node.
pub open spec fn is_step_at_nodes<N: Neighborhood>(
    cache: PathCache<N>,
    s: Seq<Point>,
    i: int,
) -> bool {
    !is_same_square(cache.settings().chunk_size, s[i], s[i + 1]) ==> {
        &&& has_node(cache, s[i])
        &&& has_node(cache, s[i + 1])
    }
}

/// From chunk to chunk one gets only from node to node.
pub open spec fn crosses_at_nodes<N: Neighborhood>(cache: PathCache<N>, s: Seq<Point>) -> bool {
    forall|i: int| 0 <= i < s.len() - 1 ==> #[trigger] is_step_at_nodes(cache, s, i)
}

/// How often one gets from chunk to chunk.
pub open spec fn crossings(chunk_size: usize, s: Seq<Point>) -> nat
    decreases s.len(),
{
    if s.len() <= 1 {
        0
    } else {
        crossings(chunk_size, s.drop_last()) + if is_same_square(
            chunk_size,
            s[s.len() - 2],
            s.last(),
        ) {
            0nat
        } else {
            1nat
        }
    }
}

/// No tile that can be walked over costs more than `high`.
pub open spec fn is_costliest(t: Terrain, high: int) -> bool {
    &&& 0 <= high
    &&& forall|p: Point| #[trigger] is_free(t, p) ==> (t.cost)(p) <= high
}

/// A part of a trail is one.
proof fn lemma_trail_part(t: Terrain, s: Seq<Point>, i: int, j: int)
    requires
        is_trail(t, s),
        0 <= i <= j < s.len(),
    ensures
        is_trail_between(t, s.subrange(i, j + 1), s[i], s[j]),
        0 <= trail_cost(t, s.subrange(i, j + 1)),
{
    let p = s.subrange(i, j + 1);
    assert forall|k: int| 0 <= k < p.len() implies is_free(t, #[trigger] p[k]) by {
        assert(is_free(t, s[i + k]));
    }
    assert forall|k: int, l: int|
        0 <= k < p.len() && l == k + 1 && l < p.len() implies (t.adjacent)(
        #[trigger] p[k],
        #[trigger] p[l],
    ) by {
        assert((t.adjacent)(s[i + k], s[i + l]));
    }
    lemma_trail_on_grid(t, p);
}

/// The parts of a trail cost as much as the whole.
proof fn lemma_trail_parts(t: Terrain, s: Seq<Point>, i: int)
    requires
        is_trail(t, s),
        0 <= i < s.len(),
    ensures
        is_trail_between(t, s.subrange(0, i + 1), s[0], s[i]),
        is_trail_between(t, s.subrange(i, s.len() as int), s[i], s.last()),
        trail_cost(t, s) == trail_cost(t, s.subrange(0, i + 1)) + trail_cost(
            t,
            s.subrange(i, s.len() as int),
        ),
        0 <= trail_cost(t, s.subrange(0, i + 1)),
        0 <= trail_cost(t, s.subrange(i, s.len() as int)),
{
    lemma_trail_part(t, s, 0, i);
    lemma_trail_part(t, s, i, s.len() - 1);
    lemma_trail_on_grid(t, s);
    lemma_trail_on_grid(t, s.subrange(0, i + 1));
    lemma_trail_on_grid(t, s.subrange(i, s.len() as int));
    lemma_walk_splits(t.edges(t.whole()), s, i);
}

/// Two trails, one starting where the other ends, make up one.
proof fn lemma_trails_join<N: Neighborhood>(cache: PathCache<N>, u: Seq<Point>, v: Seq<Point>)
    requires
        is_trail(cache.terrain(), u),
        is_trail(cache.terrain(), v),
        u.last() == v[0],
    ensures
        is_trail_between(cache.terrain(), joined(u, v), u[0], v.last()),
        trail_cost(cache.terrain(), joined(u, v)) == trail_cost(cache.terrain(), u) + trail_cost(
            cache.terrain(),
            v,
        ),
        crosses_at_nodes(cache, u) && crosses_at_nodes(cache, v) ==> crosses_at_nodes(
            cache,
            joined(u, v),
        ),
{
    let t = cache.terrain();
    let w = joined(u, v);
    lemma_trail_on_grid(t, u);
    lemma_trail_on_grid(t, v);
    lemma_walks_join(t.edges(t.whole()), u, v);
    lemma_walk_is_trail(t, t.whole(), w);
    if crosses_at_nodes(cache, u) && crosses_at_nodes(cache, v) {
        assert forall|i: int| 0 <= i < w.len() - 1 implies #[trigger] is_step_at_nodes(
            cache,
            w,
            i,
        ) by {
            if i < u.len() - 1 {
                assert(is_step_at_nodes(cache, u, i));
                assert(w[i] == u[i] && w[i + 1] == u[i + 1]);
            } else {
                let k = i - (u.len() - 1);
                assert(is_step_at_nodes(cache, v, k));
                assert(w[i] == v[k] && w[i + 1] == v[k + 1]);
            }
        }
    }
}

/// A trail taken back.
proof fn lemma_trail_back<N: Neighborhood>(cache: PathCache<N>, s: Seq<Point>)
    requires
        cache.is_valid(),
        is_trail(cache.terrain(), s),
    ensures
        is_trail_between(cache.terrain(), s.reverse(), s.last(), s[0]),
        s.len() > 1 ==> trail_cost(cache.terrain(), s.reverse()) == trail_cost(cache.terrain(), s)
            - (cache.terrain().cost)(s[0]) + (cache.terrain().cost)(s.last()),
        s.len() == 1 ==> trail_cost(cache.terrain(), s.reverse()) == 0,
        0 <= trail_cost(cache.terrain(), s),
        0 <= trail_cost(cache.terrain(), s.reverse()),
        crosses_at_nodes(cache, s) ==> crosses_at_nodes(cache, s.reverse()),
{
    let t = cache.terrain();
    let b = s.reverse();
    lemma_ground_wf(t, cache.surroundings());
    lemma_trail_on_grid(t, s);
    lemma_reversed_cost(t, t.whole(), s);
    assert(is_free(t, s[s.len() - 1]));
    lemma_walk_is_trail(t, t.whole(), b);
    if crosses_at_nodes(cache, s) {
        assert forall|i: int| 0 <= i < b.len() - 1 implies #[trigger] is_step_at_nodes(
            cache,
            b,
            i,
        ) by {
            assert(is_step_at_nodes(cache, s, s.len() - 2 - i));
        }
    }
}

/// Within a chunk one does not get to another one.
proof fn lemma_stays_in_chunk<N: Neighborhood>(cache: PathCache<N>, p: Point, s: Seq<Point>)
    requires
        is_within(cache.settings().chunk_size, p, s),
    ensures
        crosses_at_nodes(cache, s),
        is_within(cache.settings().chunk_size, p, s.reverse()),
{
    let cs = cache.settings().chunk_size;
    assert forall|i: int| 0 <= i < s.len() - 1 implies #[trigger] is_step_at_nodes(
        cache,
        s,
        i,
    ) by {
        assert(is_same_square(cs, p, s[i]));
        assert(is_same_square(cs, p, s[i + 1]));
    }
    let b = s.reverse();
    assert forall|i: int| 0 <= i < b.len() implies is_same_square(cs, p, #[trigger] b[i]) by {
        assert(is_same_square(cs, p, s[s.len() - 1 - i]));
    }
}

/// A way over nodes goes on to a node that the last one is connected to.
proof fn lemma_chain_goes_on(nodes: Nodes, u: Seq<NodeID>, a: NodeID)
    requires
        is_chain(nodes, u),
        nodes.contains_key(a),
        nodes[u.last()].edges.contains_key(a),
    ensures
        is_chain(nodes, u.push(a)),
        chain_cost(nodes, u.push(a)) == chain_cost(nodes, u) + nodes[u.last()].edges[a].total(),
{
    let w = u.push(a);
    assert(w.drop_last() =~= u);
    assert forall|i: int| 0 <= i < w.len() implies nodes.contains_key(#[trigger] w[i]) by {
        if i < u.len() {
            assert(nodes.contains_key(u[i]));
        }
    }
    assert forall|i: int, j: int|
        0 <= i < w.len() && j == i + 1 && j < w.len() implies nodes[
        #[trigger] w[i]].edges.contains_key(#[trigger] w[j]) by {
        if j < u.len() {
            assert(nodes[u[i]].edges.contains_key(u[j]));
        }
    }
}

/// A way over nodes goes on to another node of the chunk, or stays where it is.
proof fn lemma_chain_goes_on_inside<N: Neighborhood>(
    cache: PathCache<N>,
    u: Seq<NodeID>,
    a: NodeID,
    s: Seq<Point>,
) -> (w: Seq<NodeID>)
    requires
        cache.is_valid(),
        is_chain(cache.graph(), u),
        cache.graph().contains_key(a),
        is_trail_between(
            cache.terrain(),
            s,
            cache.graph()[u.last()].pos,
            cache.graph()[a].pos,
        ),
        is_within(cache.settings().chunk_size, cache.graph()[u.last()].pos, s),
    ensures
        is_chain(cache.graph(), w),
        w[0] == u[0],
        w.last() == a,
        chain_cost(cache.graph(), w) <= chain_cost(cache.graph(), u) + trail_cost(
            cache.terrain(),
            s,
        ),
{
    lemma_trail_on_grid(cache.terrain(), s);
    assert(cache.graph().contains_key(u[u.len() - 1]));
    if u.last() == a {
        u
    } else {
        law_nodes_of_a_chunk_are_connected(cache, u.last(), a, s);
        lemma_chain_goes_on(cache.graph(), u, a);
        u.push(a)
    }
}

/// Along a trail that gets from chunk to chunk only from node to node, there is a way over nodes
/// that costs no more, up to the `k`-th tile, from which on the trail stays in the chunk.
proof fn lemma_chain_along<N: Neighborhood>(
    cache: PathCache<N>,
    a: NodeID,
    s: Seq<Point>,
) -> (found: (Seq<NodeID>, int))
    requires
        cache.is_valid(),
        cache.graph().contains_key(a),
        is_trail(cache.terrain(), s),
        s[0] == cache.graph()[a].pos,
        crosses_at_nodes(cache, s),
    ensures
        ({
            let (u, k) = found;
            &&& is_chain(cache.graph(), u)
            &&& u[0] == a
            &&& 0 <= k < s.len()
            &&& cache.graph()[u.last()].pos == s[k]
            &&& is_within(
                cache.settings().chunk_size,
                s[k],
                s.subrange(k, s.len() as int),
            )
            &&& chain_cost(cache.graph(), u) <= trail_cost(cache.terrain(), s.subrange(0, k + 1))
        }),
    decreases s.len(),
{
    let (t, cs, nodes) = (cache.terrain(), cache.settings().chunk_size, cache.graph());
    let n = s.len() - 1;
    cache.lemma_nodes();
    if n == 0 {
        let u = seq![a];
        assert(is_chain(nodes, u));
        assert(s.subrange(0, 1) =~= s);
        (u, 0int)
    } else {
        let d = s.subrange(0, n);
        lemma_trail_part(t, s, 0, n - 1);
        assert forall|i: int| 0 <= i < d.len() - 1 implies #[trigger] is_step_at_nodes(
            cache,
            d,
            i,
        ) by {
            assert(is_step_at_nodes(cache, s, i));
        }
        let (u, k) = lemma_chain_along(cache, a, d);
        let (x, y) = (s[n - 1], s[n]);
        let rest = d.subrange(k, n);
        assert(rest[rest.len() - 1] == x);
        assert(is_same_square(cs, s[k], x));
        assert(d.subrange(0, k + 1) =~= s.subrange(0, k + 1));
        if is_same_square(cs, x, y) {
            let longer = s.subrange(k, n + 1);
            assert forall|i: int| 0 <= i < longer.len() implies is_same_square(
                cs,
                s[k],
                #[trigger] longer[i],
            ) by {
                if i < rest.len() {
                    assert(is_same_square(cs, s[k], rest[i]));
                    assert(longer[i] == rest[i]);
                }
            }
            (u, k)
        } else {
            assert(is_step_at_nodes(cache, s, n - 1));
            let b = choose|b: NodeID| #[trigger] nodes.contains_key(b) && nodes[b].pos == x;
            let c = choose|c: NodeID| #[trigger] nodes.contains_key(c) && nodes[c].pos == y;
            lemma_trail_parts(t, d, k);
            let v = lemma_chain_goes_on_inside(cache, u, b, rest);
            assert(is_free(t, s[n - 1]) && is_free(t, s[n]));
            assert((t.adjacent)(s[n - 1], s[n]));
            law_nodes_next_to_each_other_are_connected(cache, b, c);
            lemma_chain_goes_on(nodes, v, c);
            assert(s.subrange(0, n + 1) =~= s);
            assert(s.drop_last() =~= d);
            (v.push(c), n)
        }
    }
}

/// A way on the grid from node to node that gets from chunk to chunk only from node to node costs
/// no less than a way over the nodes.
pub proof fn law_ways_over_nodes_are_no_detour<N: Neighborhood>(
    cache: PathCache<N>,
    a: NodeID,
    b: NodeID,
    s: Seq<Point>,
) -> (u: Seq<NodeID>)
    requires
        cache.is_valid(),
        cache.graph().contains_key(a),
        cache.graph().contains_key(b),
        is_trail_between(cache.terrain(), s, cache.graph()[a].pos, cache.graph()[b].pos),
        crosses_at_nodes(cache, s),
    ensures
        is_chain(cache.graph(), u),
        u[0] == a,
        u.last() == b,
        chain_cost(cache.graph(), u) <= trail_cost(cache.terrain(), s),
{
    let (u, k) = lemma_chain_along(cache, a, s);
    lemma_trail_parts(cache.terrain(), s, k);
    lemma_chain_goes_on_inside(cache, u, b, s.subrange(k, s.len() as int))
}

/// Where the estimates of the neighborhood guide the searches, a path costs no more than any way
/// on the grid that gets from chunk to chunk only from node to node, except for what it costs to
/// get to a node and back at both ends.
///
/// The nodes `a` and `b` may be any that can be reached within the chunks of the start and the
/// goal, over the tiles of `u` and `v`; `high` is a bound of the costs of tiles.
pub proof fn law_paths_cost_no_more_than_ways_over_nodes<N: Neighborhood>(
    cache: PathCache<N>,
    start: Point,
    goal: Point,
    path: AbstractPath<N>,
    s: Seq<Point>,
    a: NodeID,
    u: Seq<Point>,
    b: NodeID,
    v: Seq<Point>,
    high: int,
)
    requires
        cache.is_valid(),
        is_guided(
            cache.surroundings(),
            cache.terrain(),
            cache.settings().chunk_size,
        ),
        cache.is_answer(cache.terrain(), start, goal, path),
        start != goal,
        is_costliest(cache.terrain(), high),
        is_trail_between(cache.terrain(), s, start, goal),
        crosses_at_nodes(cache, s),
        cache.graph().contains_key(a),
        is_trail_between(cache.terrain(), u, start, cache.graph()[a].pos),
        is_within(cache.settings().chunk_size, start, u),
        cache.graph().contains_key(b),
        is_trail_between(cache.terrain(), v, cache.graph()[b].pos, goal),
        is_within(cache.settings().chunk_size, goal, v),
    ensures
        path.total() <= trail_cost(cache.terrain(), s) + 2 * trail_cost(cache.terrain(), u) + 2
            * trail_cost(cache.terrain(), v) + 3 * high,
{
    let (t, cs, nodes) = (cache.terrain(), cache.settings().chunk_size, cache.graph());
    lemma_trail_on_grid(t, s);
    lemma_trail_back(cache, u);
    lemma_trail_back(cache, v);
    let c = law_paths_go_directly_at_their_ends(cache, start, goal, path);
    if is_cheapest_on_grid(t, start, goal, path.total() as int) {
        assert(path.total() <= trail_cost(t, s));
    } else {
        let n = c.len() - 1;
        let x = choose|x: Seq<Point>| #[trigger] is_closest_over(t, cs, nodes, start, c[0], x);
        let y = choose|y: Seq<Point>| #[trigger] is_closest_over(t, cs, nodes, goal, c[n], y);
        let (p, q) = (nodes[c[0]].pos, nodes[c[n]].pos);
        assert(trail_cost(t, x) <= trail_cost(t, u));
        lemma_stays_in_chunk(cache, goal, v);
        assert(is_trail_between(t, v.reverse(), goal, nodes[b].pos));
        assert(trail_cost(t, y) <= trail_cost(t, v.reverse()));
        lemma_trail_back(cache, x);
        lemma_trail_back(cache, y);
        lemma_stays_in_chunk(cache, start, x);
        lemma_stays_in_chunk(cache, goal, y);
        lemma_trails_join(cache, x.reverse(), s);
        let w = joined(x.reverse(), s);
        lemma_trails_join(cache, w, y);
        let whole = joined(w, y);
        let e = law_ways_over_nodes_are_no_detour(cache, c[0], c[n], whole);
        assert(c.subrange(0, n + 1) =~= c);
        assert(is_same_square(cs, start, x[x.len() - 1]));
        assert(is_same_square(cs, goal, y[y.len() - 1]));
        assert(is_way_along(t, cs, nodes, start, goal, c, 0, n, x, y.reverse()));
        assert(path.total() <= trail_cost(t, x) + part_cost(nodes, c, 0, n) + trail_cost(
            t,
            y.reverse(),
        ));
        assert(is_free(t, x[0]) && is_free(t, x[x.len() - 1]));
        assert(is_free(t, y[0]) && is_free(t, y[y.len() - 1]));
        assert(is_free(t, v[0]) && is_free(t, v[v.len() - 1]));
    }
}

/// From the one node one gets to the other over tiles that cost less than twice the chunk size,
/// and from chunk to chunk only from node to node.
pub open spec fn is_short_way<N: Neighborhood>(cache: PathCache<N>, a: NodeID, b: NodeID) -> bool {
    exists|s: Seq<Point>|
        {
            &&& #[trigger] is_trail_between(
                cache.terrain(),
                s,
                cache.graph()[a].pos,
                cache.graph()[b].pos,
            )
            &&& crosses_at_nodes(cache, s)
            &&& trail_cost(cache.terrain(), s) < 2 * cache.settings().chunk_size
        }
}

/// With the fallback, a path is a cheapest one on the grid if there is a short way on the grid
/// from the node closest to the start to the one closest to the goal, provided that the estimates
/// of the neighborhood guide the searches.
pub proof fn law_near_goals_have_cheapest_paths<N: Neighborhood>(
    cache: PathCache<N>,
    start: Point,
    goal: Point,
    path: AbstractPath<N>,
)
    requires
        cache.is_valid(),
        is_guided(
            cache.surroundings(),
            cache.terrain(),
            cache.settings().chunk_size,
        ),
        cache.settings().a_star_fallback,
        cache.terrain().has_path(start, goal),
        cache.is_answer(cache.terrain(), start, goal, path),
        start != goal,
        forall|a: NodeID, b: NodeID|
            is_closest_node(
                cache.terrain(),
                cache.settings().chunk_size,
                cache.graph(),
                start,
                a,
            ) && is_closest_node(
                cache.terrain(),
                cache.settings().chunk_size,
                cache.graph(),
                goal,
                b,
            ) ==> #[trigger] is_short_way(cache, a, b),
    ensures
        is_cheapest_on_grid(cache.terrain(), start, goal, path.total() as int),
{
    let (t, cs, nodes) = (cache.terrain(), cache.settings().chunk_size, cache.graph());
    let c = law_paths_go_directly_at_their_ends(cache, start, goal, path);
    if !is_cheapest_on_grid(t, start, goal, path.total() as int) {
        let n = c.len() - 1;
        let (a, b) = (c[0], c[n]);
        assert(is_short_way(cache, a, b));
        let s = choose|s: Seq<Point>|
            {
                &&& #[trigger] is_trail_between(t, s, nodes[a].pos, nodes[b].pos)
                &&& crosses_at_nodes(cache, s)
                &&& trail_cost(t, s) < 2 * cs
            };
        assert(nodes.contains_key(a) && nodes.contains_key(b));
        let u = law_ways_over_nodes_are_no_detour(cache, a, b, s);
    }
}

/// The first tiles along a border, up to the `k`-th, each moved by `d` columns and `e` rows.
spec fn row(p: Point, d: int, e: int, f: int, g: int, k: int) -> Seq<Point> {
    Seq::new((k + 1) as nat, |i: int| moved(along(p, f, g, i), d, e))
}

/// A tile costs no more than the costliest, so a trail no more than that for each step.
proof fn lemma_trail_bound(t: Terrain, s: Seq<Point>, high: int)
    requires
        is_trail(t, s),
        is_costliest(t, high),
    ensures
        trail_cost(t, s) <= (s.len() - 1) * high,
    decreases s.len(),
{
    let n = s.len() - 1;
    if n > 0 {
        lemma_trail_part(t, s, 0, n - 1);
        assert(s.subrange(0, n) =~= s.drop_last());
        lemma_trail_bound(t, s.drop_last(), high);
        assert(is_free(t, s[n - 1]));
        assert((n - 1) * high + high == n * high) by (nonlinear_arith);
    }
}

/// The tiles along a border from which one can walk straight on into the next chunk are a trail
/// within the chunk, and so are those across from them.
proof fn lemma_row<N: Neighborhood>(
    cache: PathCache<N>,
    p: Point,
    d: int,
    e: int,
    f: int,
    g: int,
    k: int,
)
    requires
        cache.is_valid(),
        0 <= k,
        is_along(d, e, f, g),
        are_gates(cache.terrain(), cache.settings().chunk_size, p, d, e, f, g, k),
    ensures
        ({
            let (t, cs) = (cache.terrain(), cache.settings().chunk_size);
            &&& is_trail_between(t, row(p, 0, 0, f, g, k), p, along(p, f, g, k))
            &&& is_within(cs, p, row(p, 0, 0, f, g, k))
            &&& is_trail_between(
                t,
                row(p, d, e, f, g, k),
                moved(p, d, e),
                moved(along(p, f, g, k), d, e),
            )
            &&& is_within(cs, moved(p, d, e), row(p, d, e, f, g, k))
        }),
{
    let (t, cs) = (cache.terrain(), cache.settings().chunk_size);
    let (near, far) = (row(p, 0, 0, f, g, k), row(p, d, e, f, g, k));
    cache.lemma_nodes();
    lemma_ground_wf(t, cache.surroundings());
    assert(d == 0 ==> g == 0 && e != 0) by (nonlinear_arith)
        requires
            is_straight(d, e),
            is_straight(f, g),
            d * f + e * g == 0,
    ;
    assert(e == 0 ==> f == 0 && d != 0) by (nonlinear_arith)
        requires
            is_straight(d, e),
            is_straight(f, g),
            d * f + e * g == 0,
    ;
    assert(0 * f == 0 && 0 * g == 0);
    assert(is_gate_along(t, cs, p, d, e, f, g, 0));
    assert(along(p, f, g, 0) == p);
    assert forall|i: int| 0 <= i <= k implies {
        let x = along(p, f, g, i);
        &&& #[trigger] near[i] == x
        &&& far[i] == moved(x, d, e)
        &&& is_free(t, x)
        &&& is_free(t, moved(x, d, e))
        &&& is_same_square(cs, p, x)
        &&& is_same_square(cs, moved(p, d, e), moved(x, d, e))
        &&& x.0 == p.0 + i * f
        &&& x.1 == p.1 + i * g
        &&& moved(x, d, e).0 == p.0 + i * f + d
        &&& moved(x, d, e).1 == p.1 + i * g + e
    } by {
        let x = along(p, f, g, i);
        assert(is_gate_along(t, cs, p, d, e, f, g, i));
        assert(f == 0 ==> i * f == 0) by (nonlinear_arith);
        assert(g == 0 ==> i * g == 0) by (nonlinear_arith);
    }
    assert forall|i: int| 0 <= i < near.len() implies is_free(t, #[trigger] near[i]) by {}
    assert forall|i: int| 0 <= i < far.len() implies is_free(t, #[trigger] far[i]) by {
        assert(near[i] == along(p, f, g, i));
    }
    assert forall|i: int| 0 <= i < far.len() implies is_same_square(
        cs,
        moved(p, d, e),
        #[trigger] far[i],
    ) by {
        assert(near[i] == along(p, f, g, i));
    }
    assert forall|i: int, j: int| 0 <= i < near.len() && j == i + 1 && j < near.len() implies (
    t.adjacent)(#[trigger] near[i], #[trigger] near[j]) by {
        lemma_next_in_row(i, f, g);
    }
    assert forall|i: int, j: int| 0 <= i < far.len() && j == i + 1 && j < far.len() implies (
    t.adjacent)(#[trigger] far[i], #[trigger] far[j]) by {
        assert(near[i] == along(p, f, g, i) && near[j] == along(p, f, g, j));
        lemma_next_in_row(i, f, g);
    }
    assert(near[k] == along(p, f, g, k));
    assert(far[0] == moved(p, d, e) && near[0] == p);
}

proof fn lemma_next_in_row(i: int, f: int, g: int)
    ensures
        (i + 1) * f == i * f + f,
        (i + 1) * g == i * g + g,
{
    assert((i + 1) * f == i * f + f && (i + 1) * g == i * g + g) by (nonlinear_arith);
}

/// A single step.
proof fn lemma_step_is_trail<N: Neighborhood>(cache: PathCache<N>, x: Point, y: Point)
    requires
        is_free(cache.terrain(), x),
        is_free(cache.terrain(), y),
        (cache.terrain().adjacent)(x, y),
    ensures
        is_trail_between(cache.terrain(), seq![x, y], x, y),
        trail_cost(cache.terrain(), seq![x, y]) == (cache.terrain().cost)(x),
        is_same_square(cache.settings().chunk_size, x, y) || (has_node(cache, x) && has_node(
            cache,
            y,
        )) ==> crosses_at_nodes(cache, seq![x, y]),
{
    let s = seq![x, y];
    assert(s.drop_last() =~= seq![x]);
    assert(trail_cost(cache.terrain(), seq![x]) == 0);
    if is_same_square(cache.settings().chunk_size, x, y) || (has_node(cache, x) && has_node(
        cache,
        y,
    )) {
        assert forall|i: int| 0 <= i < s.len() - 1 implies #[trigger] is_step_at_nodes(
            cache,
            s,
            i,
        ) by {
            assert(i == 0);
        }
    }
}

/// A step straight on into the next chunk, over nodes.
proof fn lemma_straight_detour<N: Neighborhood>(
    cache: PathCache<N>,
    p: Point,
    d: int,
    e: int,
    high: int,
) -> (s: Seq<Point>)
    requires
        cache.is_valid(),
        is_costliest(cache.terrain(), high),
        is_gate(cache.terrain(), cache.settings().chunk_size, p, d, e),
    ensures
        is_trail_between(cache.terrain(), s, p, moved(p, d, e)),
        crosses_at_nodes(cache, s),
        trail_cost(cache.terrain(), s) <= (2 * cache.settings().chunk_size - 1) * high,
{
    let (t, cs) = (cache.terrain(), cache.settings().chunk_size);
    cache.lemma_nodes();
    lemma_ground_wf(t, cache.surroundings());
    assert(d * e + e * d == 0) by (nonlinear_arith)
        requires
            is_straight(d, e),
    ;
    let k = law_gates_lead_to_nodes(cache, p, d, e, e, d);
    lemma_row(cache, p, d, e, e, d, k);
    let (near, far) = (row(p, 0, 0, e, d, k), row(p, d, e, e, d, k));
    let (x, y) = (along(p, e, d, k), moved(along(p, e, d, k), d, e));
    assert(is_gate_along(t, cs, p, d, e, e, d, k));
    assert((t.adjacent)(x, y));
    lemma_trail_back(cache, far);
    lemma_stays_in_chunk(cache, p, near);
    lemma_stays_in_chunk(cache, moved(p, d, e), far);
    lemma_step_is_trail(cache, x, y);
    lemma_trails_join(cache, near, seq![x, y]);
    lemma_trails_join(cache, joined(near, seq![x, y]), far.reverse());
    lemma_trail_bound(t, near, high);
    lemma_trail_bound(t, far.reverse(), high);
    assert(k * high + high + k * high <= (2 * cs - 1) * high) by (nonlinear_arith)
        requires
            0 <= k < cs,
            0 <= high,
    ;
    joined(joined(near, seq![x, y]), far.reverse())
}

/// A step from one chunk to another, over nodes.
proof fn lemma_step_detour<N: Neighborhood>(
    cache: PathCache<N>,
    x: Point,
    y: Point,
    high: int,
) -> (s: Seq<Point>)
    requires
        cache.is_valid(),
        is_costliest(cache.terrain(), high),
        is_free(cache.terrain(), x),
        is_free(cache.terrain(), y),
        (cache.terrain().adjacent)(x, y),
        !is_same_square(cache.settings().chunk_size, x, y),
    ensures
        is_trail_between(cache.terrain(), s, x, y),
        crosses_at_nodes(cache, s),
        trail_cost(cache.terrain(), s) <= 2 * cache.settings().chunk_size * high,
{
    let (t, cs) = (cache.terrain(), cache.settings().chunk_size);
    cache.lemma_nodes();
    lemma_ground_wf(t, cache.surroundings());
    assert((t.adjacent)(y, x));
    let (d, e) = (y.0 - x.0, y.1 - x.1);
    assert((2 * cs - 1) * high + high == 2 * cs * high && high <= 2 * cs * high)
        by (nonlinear_arith)
        requires
            0 < cs,
            0 <= high,
    ;
    lemma_step_is_trail(cache, x, y);
    if d == 0 || e == 0 {
        assert(moved(x, d, e) == y);
        lemma_straight_detour(cache, x, d, e, high)
    } else if x.0 / cs != y.0 / cs && x.1 / cs != y.1 / cs {
        law_corners_have_nodes(cache, x, y);
        law_corners_have_nodes(cache, y, x);
        seq![x, y]
    } else {
        // `a` and `b` lead across the border, `f` and `g` along it.
        let (a, b, f, g) = if x.0 / cs != y.0 / cs {
            (d, 0int, 0int, e)
        } else {
            (0int, e, d, 0int)
        };
        let (across, next) = (moved(x, a, b), moved(x, f, g));
        assert(a * f + b * g == 0) by (nonlinear_arith)
            requires
                a == 0 && g == 0 || b == 0 && f == 0,
        ;
        assert(moved(x, a + f, b + g) == y);
        assert(moved(next, a, b) == y);
        if is_free(t, across) {
            let u = lemma_straight_detour(cache, x, a, b, high);
            assert((t.adjacent)(across, y));
            lemma_step_is_trail(cache, across, y);
            lemma_trails_join(cache, u, seq![across, y]);
            joined(u, seq![across, y])
        } else if is_free(t, next) {
            let u = lemma_straight_detour(cache, next, a, b, high);
            assert((t.adjacent)(x, next));
            lemma_step_is_trail(cache, x, next);
            lemma_trails_join(cache, seq![x, next], u);
            joined(seq![x, next], u)
        } else {
            law_slanting_passages_have_nodes(cache, x, a, b, f, g);
            seq![x, y]
        }
    }
}

/// For every way on the grid there is one that gets from chunk to chunk only from node to node,
/// and it costs more only where the other one gets from chunk to chunk: each time no more than
/// twice as many tiles as a chunk has along its side.
pub proof fn law_nodes_are_near_every_crossing<N: Neighborhood>(
    cache: PathCache<N>,
    s: Seq<Point>,
    high: int,
) -> (w: Seq<Point>)
    requires
        cache.is_valid(),
        is_costliest(cache.terrain(), high),
        is_trail(cache.terrain(), s),
    ensures
        is_trail_between(cache.terrain(), w, s[0], s.last()),
        crosses_at_nodes(cache, w),
        trail_cost(cache.terrain(), w) <= trail_cost(cache.terrain(), s) + crossings(
            cache.settings().chunk_size,
            s,
        ) * (2 * cache.settings().chunk_size * high),
    decreases s.len(),
{
    let (t, cs) = (cache.terrain(), cache.settings().chunk_size);
    let n = s.len() - 1;
    if n == 0 {
        assert(crosses_at_nodes(cache, s));
        assert(crossings(cs, s) == 0);
        s
    } else {
        let d = s.drop_last();
        lemma_trail_part(t, s, 0, n - 1);
        assert(s.subrange(0, n) =~= d);
        let u = law_nodes_are_near_every_crossing(cache, d, high);
        let (x, y) = (s[n - 1], s[n]);
        assert(is_free(t, x) && is_free(t, y));
        assert((t.adjacent)(x, y));
        let (c, more) = (crossings(cs, d) as int, 2 * cs * high);
        assert((c + 1) * more == c * more + more) by (nonlinear_arith);
        let v = if is_same_square(cs, x, y) {
            lemma_step_is_trail(cache, x, y);
            seq![x, y]
        } else {
            lemma_step_detour(cache, x, y, high)
        };
        lemma_trails_join(cache, u, v);
        joined(u, v)
    }
}

/// Where the estimates of the neighborhood guide the searches, a path is only a bit worse than
/// any other on the grid, such as the cheapest: it costs no more than that one, and for each
/// time that one gets from chunk to chunk at most twice as many tiles as a chunk has along its
/// side, and what it costs to get to a node and back at both ends.
///
/// The nodes `a` and `b` may be any that can be reached within the chunks of the start and the
/// goal, over the tiles of `u` and `v`; `high` is a bound of the costs of tiles.
pub proof fn law_paths_are_a_bit_worse<N: Neighborhood>(
    cache: PathCache<N>,
    start: Point,
    goal: Point,
    path: AbstractPath<N>,
    s: Seq<Point>,
    a: NodeID,
    u: Seq<Point>,
    b: NodeID,
    v: Seq<Point>,
    high: int,
)
    requires
        cache.is_valid(),
        is_guided(
            cache.surroundings(),
            cache.terrain(),
            cache.settings().chunk_size,
        ),
        cache.is_answer(cache.terrain(), start, goal, path),
        start != goal,
        is_costliest(cache.terrain(), high),
        is_trail_between(cache.terrain(), s, start, goal),
        cache.graph().contains_key(a),
        is_trail_between(cache.terrain(), u, start, cache.graph()[a].pos),
        is_within(cache.settings().chunk_size, start, u),
        cache.graph().contains_key(b),
        is_trail_between(cache.terrain(), v, cache.graph()[b].pos, goal),
        is_within(cache.settings().chunk_size, goal, v),
    ensures
        path.total() <= trail_cost(cache.terrain(), s) + crossings(
            cache.settings().chunk_size,
            s,
        ) * (2 * cache.settings().chunk_size * high) + 2 * trail_cost(cache.terrain(), u) + 2
            * trail_cost(cache.terrain(), v) + 3 * high,
{
    let w = law_nodes_are_near_every_crossing(cache, s, high);
    law_paths_cost_no_more_than_ways_over_nodes(
        cache,
        start,
        goal,
        path,
        w,
        a,
        u,
        b,
        v,
        high,
    );
}

/// How far a trail stays in the chunk in which it starts.
proof fn lemma_first_crossing(t: Terrain, chunk_size: usize, s: Seq<Point>) -> (i: int)
    requires
        is_trail(t, s),
    ensures
        0 <= i < s.len(),
        is_within(chunk_size, s[0], s.subrange(0, i + 1)),
        i + 1 < s.len() ==> !is_same_square(chunk_size, s[i], s[i + 1]),
    decreases s.len(),
{
    let n = s.len() - 1;
    if n == 0 {
        0
    } else {
        let d = s.subrange(0, n);
        lemma_trail_part(t, s, 0, n - 1);
        let i = lemma_first_crossing(t, chunk_size, d);
        assert(d.subrange(0, i + 1) =~= s.subrange(0, i + 1));
        if i == n - 1 && is_same_square(chunk_size, s[n - 1], s[n]) {
            let whole = s.subrange(0, n + 1);
            assert forall|k: int| 0 <= k < whole.len() implies is_same_square(
                chunk_size,
                s[0],
                #[trigger] whole[k],
            ) by {
                assert(is_same_square(chunk_size, s[0], d.subrange(0, n)[n - 1]));
                if k < n {
                    assert(is_same_square(chunk_size, s[0], d.subrange(0, n)[k]));
                }
            }
            n
        } else {
            i
        }
    }
}

/// From where on a trail stays in the chunk in which it ends.
proof fn lemma_last_crossing(t: Terrain, chunk_size: usize, s: Seq<Point>) -> (j: int)
    requires
        is_trail(t, s),
    ensures
        0 <= j < s.len(),
        is_within(chunk_size, s.last(), s.subrange(j, s.len() as int)),
        0 < j ==> !is_same_square(chunk_size, s[j - 1], s[j]),
    decreases s.len(),
{
    let n = s.len() - 1;
    if n == 0 {
        0
    } else {
        let d = s.subrange(1, n + 1);
        lemma_trail_part(t, s, 1, n);
        let j = lemma_last_crossing(t, chunk_size, d);
        assert(d.subrange(j, n) =~= s.subrange(j + 1, n + 1));
        assert(d.last() == s.last());
        if j == 0 && is_same_square(chunk_size, s[0], s[1]) {
            let whole = s.subrange(0, n + 1);
            assert forall|k: int| 0 <= k < whole.len() implies is_same_square(
                chunk_size,
                s.last(),
                #[trigger] whole[k],
            ) by {
                assert(is_same_square(chunk_size, s.last(), d.subrange(0, n)[0]));
                if k > 0 {
                    assert(is_same_square(chunk_size, s.last(), d.subrange(0, n)[k - 1]));
                }
            }
            0
        } else {
            j + 1
        }
    }
}

/// Where the estimates of the neighborhood guide the searches, a path to a goal costs no more
/// than three times as much as any way on the grid, such as the cheapest, that gets from chunk to
/// chunk only from node to node and does not stay in one chunk, and three tiles.
pub proof fn law_paths_cost_at_most_three_times<N: Neighborhood>(
    cache: PathCache<N>,
    start: Point,
    goal: Point,
    path: AbstractPath<N>,
    s: Seq<Point>,
    high: int,
)
    requires
        cache.is_valid(),
        is_guided(
            cache.surroundings(),
            cache.terrain(),
            cache.settings().chunk_size,
        ),
        cache.is_answer(cache.terrain(), start, goal, path),
        start != goal,
        is_costliest(cache.terrain(), high),
        is_trail_between(cache.terrain(), s, start, goal),
        crosses_at_nodes(cache, s),
        !is_within(cache.settings().chunk_size, start, s),
    ensures
        path.total() <= 3 * trail_cost(cache.terrain(), s) + 3 * high,
{
    let (t, cs, nodes) = (cache.terrain(), cache.settings().chunk_size, cache.graph());
    let n = s.len() - 1;
    let i = lemma_first_crossing(t, cs, s);
    let j = lemma_last_crossing(t, cs, s);
    assert(s.subrange(0, n + 1) =~= s);
    assert(i < n);
    assert(is_step_at_nodes(cache, s, i));
    assert(0 < j) by {
        if j == 0 {
            assert(s.subrange(0, s.len() as int) =~= s);
            assert(is_same_square(cs, s.last(), s[i]) && is_same_square(cs, s.last(), s[i + 1]));
        }
    }
    assert(is_step_at_nodes(cache, s, j - 1));
    assert(i < j) by {
        if j <= i {
            let (first, last) = (s.subrange(0, i + 1), s.subrange(j, n + 1));
            assert(is_same_square(cs, s[0], first[j - 1]));
            assert(is_same_square(cs, s[0], first[j]));
        }
    }
    let a = choose|a: NodeID| #[trigger] nodes.contains_key(a) && nodes[a].pos == s[i];
    let b = choose|b: NodeID| #[trigger] nodes.contains_key(b) && nodes[b].pos == s[j];
    let (u, v) = (s.subrange(0, i + 1), s.subrange(j, n + 1));
    lemma_trail_parts(t, s, j);
    let head = s.subrange(0, j + 1);
    lemma_trail_parts(t, head, i);
    assert(head.subrange(0, i + 1) =~= u);
    law_paths_cost_no_more_than_ways_over_nodes(
        cache,
        start,
        goal,
        path,
        s,
        a,
        u,
        b,
        v,
        high,
    );
}

/// Where the estimates of the neighborhood guide the searches, a path to a goal in another chunk
/// costs no more than three times as much as any way on the grid, such as the cheapest, with at
/// most twice as many tiles more as a chunk has along its side for each time that way gets from
/// chunk to chunk, and three tiles.
pub proof fn law_paths_are_bounded_by_the_grid<N: Neighborhood>(
    cache: PathCache<N>,
    start: Point,
    goal: Point,
    path: AbstractPath<N>,
    s: Seq<Point>,
    high: int,
)
    requires
        cache.is_valid(),
        is_guided(
            cache.surroundings(),
            cache.terrain(),
            cache.settings().chunk_size,
        ),
        cache.is_answer(cache.terrain(), start, goal, path),
        !is_same_square(cache.settings().chunk_size, start, goal),
        is_costliest(cache.terrain(), high),
        is_trail_between(cache.terrain(), s, start, goal),
    ensures
        path.total() <= 3 * (trail_cost(cache.terrain(), s) + crossings(
            cache.settings().chunk_size,
            s,
        ) * (2 * cache.settings().chunk_size * high)) + 3 * high,
{
    let w = law_nodes_are_near_every_crossing(cache, s, high);
    assert(!is_within(cache.settings().chunk_size, start, w)) by {
        assert(w[w.len() - 1] == goal);
    }
    law_paths_cost_at_most_three_times(cache, start, goal, path, w, high);
}

/// In the straight neighborhood, a path to a goal in another chunk costs no more than three
/// times as much as any way on the grid, such as the cheapest, with at most twice as many
/// tiles more as a chunk has along its side for each time that way gets from chunk to
/// chunk, and three tiles; provided that walking over a tile costs something.
pub proof fn law_straight_paths_are_bounded_by_the_grid(
    cache: PathCache<ManhattanNeighborhood>,
    start: Point,
    goal: Point,
    path: AbstractPath<ManhattanNeighborhood>,
    s: Seq<Point>,
    high: int,
)
    requires
        cache.is_valid(),
        forall|p: Point| #[trigger] is_free(cache.terrain(), p) ==> 1 <= (cache.terrain().cost)(p),
        cache.is_answer(cache.terrain(), start, goal, path),
        !is_same_square(cache.settings().chunk_size, start, goal),
        is_costliest(cache.terrain(), high),
        is_trail_between(cache.terrain(), s, start, goal),
    ensures
        path.total() <= 3 * (trail_cost(cache.terrain(), s) + crossings(
            cache.settings().chunk_size,
            s,
        ) * (2 * cache.settings().chunk_size * high)) + 3 * high,
{
    let (t, cs) = (cache.terrain(), cache.settings().chunk_size);
    cache.lemma_nodes();
    assert forall|p: Point| #[trigger] t.open(p) implies (t.cost)(p) >= 1 by {
        assert(is_free(t, p));
    }
    law_straight_estimates_guide(cache.surroundings(), t, cs);
    law_paths_are_bounded_by_the_grid(cache, start, goal, path, s, high);
}

/// In the neighborhood with diagonals, a path to a goal in another chunk costs no more than
/// three times as much as any way on the grid, such as the cheapest, with at most twice as
/// many tiles more as a chunk has along its side for each time that way gets from chunk to
/// chunk, and three tiles; provided that walking over a tile costs something.
pub proof fn law_diagonal_paths_are_bounded_by_the_grid(
    cache: PathCache<MooreNeighborhood>,
    start: Point,
    goal: Point,
    path: AbstractPath<MooreNeighborhood>,
    s: Seq<Point>,
    high: int,
)
    requires
        cache.is_valid(),
        forall|p: Point| #[trigger] is_free(cache.terrain(), p) ==> 1 <= (cache.terrain().cost)(p),
        cache.is_answer(cache.terrain(), start, goal, path),
        !is_same_square(cache.settings().chunk_size, start, goal),
        is_costliest(cache.terrain(), high),
        is_trail_between(cache.terrain(), s, start, goal),
    ensures
        path.total() <= 3 * (trail_cost(cache.terrain(), s) + crossings(
            cache.settings().chunk_size,
            s,
        ) * (2 * cache.settings().chunk_size * high)) + 3 * high,
{
    let (t, cs) = (cache.terrain(), cache.settings().chunk_size);
    cache.lemma_nodes();
    assert forall|p: Point| #[trigger] t.open(p) implies (t.cost)(p) >= 1 by {
        assert(is_free(t, p));
    }
    law_diagonal_estimates_guide(cache.surroundings(), t, cs);
    law_paths_are_bounded_by_the_grid(cache, start, goal, path, s, high);
}

} // verus!

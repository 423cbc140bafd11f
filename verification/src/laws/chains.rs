//! What holds of the ways over the nodes that paths take.

use vstd::prelude::*;

use super::passages::law_nodes_of_a_chunk_are_connected;
use super::tiles::{
    is_free, is_same_square, is_trail, is_trail_between, is_within, law_chunks_are_squares,
    lemma_cheapest_trail, lemma_trail_in_chunk, lemma_walk_is_trail, trail_cost,
};
use crate::abstract_path::AbstractPath;
use crate::graph::node_edges;
use crate::neighbors::Neighborhood;
use crate::path_cache::PathCache;
use crate::path_cache::detour::{is_bounded_by, is_guided, is_short, is_shortcut_by};
use crate::path_cache::layout::{lemma_region_of, region_of};
use crate::path_cache::links::{has_node_at, is_nearest, is_node_sound, Nodes};
use crate::path_cache::outcome::{is_direct, is_trailing};
use crate::path_cache::resolve::{
    has_route, lemma_route_bound, lemma_routes_join, lemma_walk_of_nodes, lemma_walk_within_chunk,
    nodes_around,
};
use crate::search::{is_cheapest, is_distance};
use crate::terrain::{lemma_ground_wf, Region, Terrain};
use crate::walk::{
    connects, is_walk, joined, lemma_walk_splits, lemma_walks_join, linked, walk_cost,
};
use crate::{NodeID, Point};

verus! {

/// Each of the nodes is connected to the one after it.
pub open spec fn is_chain(nodes: Nodes, s: Seq<NodeID>) -> bool {
    &&& s.len() > 0
    &&& forall|i: int| 0 <= i < s.len() ==> nodes.contains_key(#[trigger] s[i])
    &&& forall|i: int, j: int|
        0 <= i < s.len() && j == i + 1 && j < s.len() ==> nodes[#[trigger] s[i]].edges.contains_key(
            #[trigger] s[j],
        )
}

/// The sum of the costs of the connections.
pub open spec fn chain_cost(nodes: Nodes, s: Seq<NodeID>) -> int
    decreases s.len(),
{
    if s.len() <= 1 {
        0
    } else {
        chain_cost(nodes, s.drop_last()) + nodes[s[s.len() - 2]].edges[s.last()].total()
    }
}

/// Such nodes are a walk, at the same cost.
pub proof fn lemma_chain_is_walk(nodes: Nodes, s: Seq<NodeID>)
    requires
        is_chain(nodes, s),
    ensures
        connects(node_edges(nodes), s, s[0], s.last()),
        walk_cost(node_edges(nodes), s) == chain_cost(nodes, s),
    decreases s.len(),
{
    let e = node_edges(nodes);
    assert forall|i: int| 0 <= i < s.len() - 1 implies #[trigger] linked(e, s, i) by {
        assert(nodes.contains_key(s[i]));
        assert(nodes[s[i]].edges.contains_key(s[i + 1]));
    }
    if s.len() > 1 {
        let d = s.drop_last();
        assert(is_chain(nodes, d)) by {
            assert forall|i: int| 0 <= i < d.len() implies nodes.contains_key(#[trigger] d[i]) by {
                assert(nodes.contains_key(s[i]));
            }
            assert forall|i: int, j: int|
                0 <= i < d.len() && j == i + 1 && j < d.len() implies nodes[
                #[trigger] d[i]].edges.contains_key(#[trigger] d[j]) by {
                assert(nodes[s[i]].edges.contains_key(s[j]));
            }
        }
        lemma_chain_is_walk(nodes, d);
        assert(linked(e, s, s.len() - 2));
    }
}

/// A walk over nodes consists of such nodes, and costs as much.
pub proof fn lemma_walk_is_chain(nodes: Nodes, s: Seq<NodeID>)
    requires
        is_walk(node_edges(nodes), s),
        forall|i: int| 0 <= i < s.len() ==> nodes.contains_key(#[trigger] s[i]),
    ensures
        is_chain(nodes, s),
        walk_cost(node_edges(nodes), s) == chain_cost(nodes, s),
    decreases s.len(),
{
    let e = node_edges(nodes);
    assert forall|i: int, j: int|
        0 <= i < s.len() && j == i + 1 && j < s.len() implies nodes[
        #[trigger] s[i]].edges.contains_key(#[trigger] s[j]) by {
        assert(linked(e, s, i));
    }
    if s.len() > 1 {
        let d = s.drop_last();
        assert forall|i: int| 0 <= i < d.len() - 1 implies #[trigger] linked(e, d, i) by {
            assert(linked(e, s, i));
        }
        assert forall|i: int| 0 <= i < d.len() implies nodes.contains_key(#[trigger] d[i]) by {
            assert(nodes.contains_key(s[i]));
        }
        lemma_walk_is_chain(nodes, d);
        assert(linked(e, s, s.len() - 2));
    }
}

/// The cost of the walk from the node at `i` to the one at `j`.
pub open spec fn part_cost(nodes: Nodes, s: Seq<NodeID>, i: int, j: int) -> int {
    chain_cost(nodes, s.subrange(i, j + 1))
}

/// A part of such nodes.
proof fn lemma_part(nodes: Nodes, s: Seq<NodeID>, i: int, j: int)
    requires
        is_chain(nodes, s),
        0 <= i <= j < s.len(),
    ensures
        is_chain(nodes, s.subrange(i, j + 1)),
        walk_cost(node_edges(nodes), s.subrange(i, j + 1)) == part_cost(nodes, s, i, j),
        0 <= part_cost(nodes, s, i, j),
{
    let p = s.subrange(i, j + 1);
    assert forall|k: int| 0 <= k < p.len() implies nodes.contains_key(#[trigger] p[k]) by {
        assert(nodes.contains_key(s[i + k]));
    }
    assert forall|k: int, l: int|
        0 <= k < p.len() && l == k + 1 && l < p.len() implies nodes[
        #[trigger] p[k]].edges.contains_key(#[trigger] p[l]) by {
        assert(nodes[s[i + k]].edges.contains_key(s[i + l]));
    }
    lemma_chain_is_walk(nodes, p);
}

/// The parts add up.
proof fn lemma_parts(nodes: Nodes, s: Seq<NodeID>, i: int, j: int, k: int)
    requires
        is_chain(nodes, s),
        0 <= i <= j <= k < s.len(),
    ensures
        part_cost(nodes, s, i, k) == part_cost(nodes, s, i, j) + part_cost(nodes, s, j, k),
        0 <= part_cost(nodes, s, i, j),
        0 <= part_cost(nodes, s, j, k),
{
    let e = node_edges(nodes);
    let p = s.subrange(i, k + 1);
    lemma_part(nodes, s, i, j);
    lemma_part(nodes, s, j, k);
    lemma_part(nodes, s, i, k);
    lemma_chain_is_walk(nodes, p);
    lemma_walk_splits(e, p, j - i);
    assert(p.subrange(0, j - i + 1) =~= s.subrange(i, j + 1));
    assert(p.subrange(j - i, p.len() as int) =~= s.subrange(j, k + 1));
}

/// No other way over the nodes from the first to the last of them costs less.
pub open spec fn is_cheapest_chain(nodes: Nodes, s: Seq<NodeID>) -> bool {
    &&& is_chain(nodes, s)
    &&& forall|u: Seq<NodeID>|
        #[trigger] is_chain(nodes, u) && u[0] == s[0] && u.last() == s.last() ==> chain_cost(
            nodes,
            s,
        ) <= chain_cost(nodes, u)
}

/// No part of a cheapest way over the nodes costs more than a connection between its ends.
proof fn lemma_part_is_cheapest(nodes: Nodes, s: Seq<NodeID>, i: int, j: int, w: Seq<NodeID>)
    requires
        is_cheapest_chain(nodes, s),
        0 <= i <= j < s.len(),
        is_chain(nodes, w),
        w[0] == s[i],
        w.last() == s[j],
    ensures
        part_cost(nodes, s, i, j) <= chain_cost(nodes, w),
{
    let e = node_edges(nodes);
    let n = s.len() - 1;
    lemma_parts(nodes, s, 0, i, j);
    lemma_parts(nodes, s, 0, j, n);
    assert(s.subrange(0, n + 1) =~= s);
    let (a, b) = (s.subrange(0, i + 1), s.subrange(j, n + 1));
    lemma_part(nodes, s, 0, i);
    lemma_part(nodes, s, j, n);
    lemma_chain_is_walk(nodes, a);
    lemma_chain_is_walk(nodes, b);
    lemma_chain_is_walk(nodes, w);
    lemma_walks_join(e, a, w);
    let aw = joined(a, w);
    lemma_walks_join(e, aw, b);
    let whole = joined(aw, b);
    assert forall|k: int| 0 <= k < whole.len() implies nodes.contains_key(#[trigger] whole[k]) by {
        if k < a.len() {
            assert(nodes.contains_key(a[k]));
            assert(whole[k] == a[k]);
        } else if k < aw.len() {
            assert(nodes.contains_key(w[k - a.len() + 1]));
            assert(whole[k] == w[k - a.len() + 1]);
        } else {
            assert(nodes.contains_key(b[k - aw.len() + 1]));
            assert(whole[k] == b[k - aw.len() + 1]);
        }
    }
    lemma_walk_is_chain(nodes, whole);
}

/// The nodes from the `i`-th to the `j`-th lie in the chunk of the tile.
pub open spec fn are_nodes_in(
    chunk_size: usize,
    nodes: Nodes,
    p: Point,
    s: Seq<NodeID>,
    i: int,
    j: int,
) -> bool {
    forall|k: int| i <= k <= j ==> is_same_square(chunk_size, p, nodes[#[trigger] s[k]].pos)
}

/// From the start one can go, within its chunk, over the tiles of `u` to the node at `i`, up to
/// which all lie in this chunk; from there over the nodes to the one at `j`, from which on all
/// lie in the chunk of the goal; and from there, within that chunk, over the tiles of `v` to
/// the goal.
pub open spec fn is_way_along(
    t: Terrain,
    chunk_size: usize,
    nodes: Nodes,
    start: Point,
    goal: Point,
    s: Seq<NodeID>,
    i: int,
    j: int,
    u: Seq<Point>,
    v: Seq<Point>,
) -> bool {
    &&& 0 <= i <= j < s.len()
    &&& are_nodes_in(chunk_size, nodes, start, s, 0, i)
    &&& are_nodes_in(chunk_size, nodes, goal, s, j, s.len() - 1)
    &&& is_trail_between(t, u, start, nodes[s[i]].pos)
    &&& is_within(chunk_size, start, u)
    &&& is_trail_between(t, v, nodes[s[j]].pos, goal)
    &&& is_within(chunk_size, goal, v)
}

/// No node of the chunk of `p` can be reached from there, within the chunk, at a lower cost
/// than the given one.
pub open spec fn is_closest_node(
    t: Terrain,
    chunk_size: usize,
    nodes: Nodes,
    p: Point,
    id: NodeID,
) -> bool {
    exists|u: Seq<Point>| #[trigger] is_closest_over(t, chunk_size, nodes, p, id, u)
}

/// Over the tiles of `u` one gets to the node; over no others, within the chunk, to a node at a
/// lower cost.
pub open spec fn is_closest_over(
    t: Terrain,
    chunk_size: usize,
    nodes: Nodes,
    p: Point,
    id: NodeID,
    u: Seq<Point>,
) -> bool {
    &&& nodes.contains_key(id)
    &&& is_trail_between(t, u, p, nodes[id].pos)
    &&& is_within(chunk_size, p, u)
    &&& forall|c: NodeID, v: Seq<Point>|
        nodes.contains_key(c) && #[trigger] is_trail_between(t, v, p, nodes[c].pos) && is_within(
            chunk_size,
            p,
            v,
        ) ==> trail_cost(t, u) <= trail_cost(t, v)
}

/// No tiles that lead from the start to the goal cost less.
pub open spec fn is_cheapest_on_grid(t: Terrain, start: Point, goal: Point, cost: int) -> bool {
    forall|u: Seq<Point>| #[trigger]
        is_trail_between(t, u, start, goal) ==> cost <= trail_cost(t, u)
}

/// The path costs no more than to go over the nodes of `s`, at whichever of those in the chunks
/// of the start and the goal one joins and leaves them; and if all of the nodes lie in the
/// chunk of the start, no more than to go directly within it.
pub open spec fn is_direct_at_ends(
    t: Terrain,
    chunk_size: usize,
    nodes: Nodes,
    start: Point,
    goal: Point,
    s: Seq<NodeID>,
    cost: int,
) -> bool {
    &&& forall|i: int, j: int, u: Seq<Point>, v: Seq<Point>| #[trigger]
        is_way_along(t, chunk_size, nodes, start, goal, s, i, j, u, v) ==> cost <= trail_cost(t, u)
            + part_cost(nodes, s, i, j) + trail_cost(t, v)
    &&& are_nodes_in(chunk_size, nodes, start, s, 0, s.len() - 1) ==> forall|u: Seq<Point>|
        #[trigger] is_trail_between(t, u, start, goal) && is_within(chunk_size, start, u) ==> cost
            <= trail_cost(t, u)
}

/// What is known of the way over nodes that bounds a path.
proof fn lemma_bounding_chain<N: Neighborhood>(
    cache: PathCache<N>,
    start: Point,
    goal: Point,
    s: Seq<NodeID>,
    x: nat,
    y: nat,
    cost: nat,
)
    requires
        cache.is_valid(),
        cache.terrain().open(start),
        cache.terrain().open(goal),
        is_bounded_by(
            cache.terrain(),
            cache.settings(),
            cache.graph(),
            start,
            goal,
            s,
            x,
            y,
            cost,
        ),
    ensures
        is_cheapest_chain(cache.graph(), s),
        s.len() > 1,
{
    let (t, cs, nodes) = (cache.terrain(), cache.settings().chunk_size, cache.graph());
    cache.lemma_nodes();
    lemma_walk_of_nodes(nodes, s, cache.settings().cache_paths, t, cs);
    lemma_walk_is_chain(nodes, s);
    assert forall|u: Seq<NodeID>|
        #[trigger] is_chain(nodes, u) && u[0] == s[0] && u.last() == s.last() implies chain_cost(
        nodes,
        s,
    ) <= chain_cost(nodes, u) by {
        lemma_chain_is_walk(nodes, u);
    }
}

/// A node near a tile is one that no other is closer than.
proof fn lemma_near_is_closest<N: Neighborhood>(
    cache: PathCache<N>,
    p: Point,
    id: NodeID,
)
    requires
        cache.is_valid(),
        cache.terrain().open(p),
        cache.graph().contains_key(id),
        region_of(
            cache.graph()[id].pos,
            cache.settings().chunk_size,
            cache.size(),
        ) == region_of(p, cache.settings().chunk_size, cache.size()),
        cache.graph()[id].pos == p || is_nearest(
            cache.terrain(),
            region_of(p, cache.settings().chunk_size, cache.size()),
            cache.graph(),
            nodes_around(cache.terrain(), cache.settings().chunk_size, cache.graph(), p),
            p,
            id,
        ),
    ensures
        is_closest_node(cache.terrain(), cache.settings().chunk_size, cache.graph(), p, id),
{
    let (t, cs, nodes) = (cache.terrain(), cache.settings().chunk_size, cache.graph());
    let r = region_of(p, cs, t.size);
    let e = t.edges(r);
    let ids = nodes_around(t, cs, nodes, p);
    cache.lemma_nodes();
    lemma_region_of(p, cs, t.size);
    let u = if nodes[id].pos == p {
        seq![p]
    } else {
        choose|s: Seq<Point>|
            {
                &&& #[trigger] connects(e, s, p, nodes[id].pos)
                &&& forall|b: NodeID| #[trigger]
                    ids.contains(b) ==> is_cheapest(e, p, nodes[b].pos, walk_cost(e, s))
            }
    };
    assert(connects(e, u, p, nodes[id].pos));
    lemma_walk_is_trail(t, r, u);
    assert forall|i: int| 0 <= i < u.len() implies is_same_square(cs, p, #[trigger] u[i]) by {
        assert(r.contains(u[i]));
        law_chunks_are_squares(p, u[i], cs, t.size);
    }
    assert forall|c: NodeID, v: Seq<Point>|
        nodes.contains_key(c) && #[trigger] is_trail_between(t, v, p, nodes[c].pos) && is_within(
            cs,
            p,
            v,
        ) implies trail_cost(t, u) <= trail_cost(t, v) by {
        lemma_trail_in_chunk(t, cs, p, v);
        assert(connects(e, v, p, nodes[c].pos));
        if nodes[id].pos == p {
            assert(trail_cost(t, u) == 0);
        } else {
            assert(ids.contains(c));
        }
    }
    assert(is_closest_over(t, cs, nodes, p, id, u));
}

/// Nodes that follow each other in a chunk stand for a way within the chunk.
proof fn lemma_stretch<N: Neighborhood>(
    cache: PathCache<N>,
    p: Point,
    s: Seq<NodeID>,
    i: int,
    j: int,
)
    requires
        cache.is_valid(),
        cache.terrain().open(p),
        is_chain(cache.graph(), s),
        0 <= i <= j < s.len(),
        are_nodes_in(cache.settings().chunk_size, cache.graph(), p, s, i, j),
    ensures
        0 <= part_cost(cache.graph(), s, i, j),
        has_route(
            cache.terrain(),
            region_of(p, cache.settings().chunk_size, cache.size()),
            cache.graph()[s[i]].pos,
            cache.graph()[s[j]].pos,
            part_cost(cache.graph(), s, i, j) as nat,
        ),
{
    let (t, cs, nodes) = (cache.terrain(), cache.settings().chunk_size, cache.graph());
    let r = region_of(p, cs, t.size);
    cache.lemma_nodes();
    lemma_ground_wf(t, cache.surroundings());
    lemma_chain_is_walk(nodes, s);
    lemma_part(nodes, s, i, j);
    assert forall|k: int| i <= k <= j implies region_of(nodes[#[trigger] s[k]].pos, cs, t.size)
        == r by {
        assert(nodes.contains_key(s[k]));
        assert(is_node_sound(t, cs, nodes[s[k]]));
        assert(is_same_square(cs, p, nodes[s[k]].pos));
        law_chunks_are_squares(p, nodes[s[k]].pos, cs, t.size);
    }
    lemma_walk_within_chunk(t, cs, cache.settings().cache_paths, nodes, r, s, i, j);
}

/// Tiles within a chunk are a way within it.
proof fn lemma_trail_is_route<N: Neighborhood>(
    cache: PathCache<N>,
    p: Point,
    a: Point,
    b: Point,
    u: Seq<Point>,
)
    requires
        cache.is_valid(),
        cache.terrain().open(p),
        is_trail_between(cache.terrain(), u, a, b),
        is_within(cache.settings().chunk_size, p, u),
    ensures
        0 <= trail_cost(cache.terrain(), u),
        has_route(
            cache.terrain(),
            region_of(p, cache.settings().chunk_size, cache.size()),
            a,
            b,
            trail_cost(cache.terrain(), u) as nat,
        ),
{
    let (t, cs) = (cache.terrain(), cache.settings().chunk_size);
    cache.lemma_nodes();
    lemma_trail_in_chunk(t, cs, p, u);
    assert(t.is_route(region_of(p, cs, t.size), u, a, b, trail_cost(t, u) as nat));
}

/// A part of a cheapest way over nodes costs no more than to go directly from its first to its
/// last node, where both lie in the same chunk.
proof fn lemma_part_is_direct<N: Neighborhood>(
    cache: PathCache<N>,
    s: Seq<NodeID>,
    i: int,
    j: int,
    u: Seq<Point>,
)
    requires
        cache.is_valid(),
        is_cheapest_chain(cache.graph(), s),
        0 <= i <= j < s.len(),
        is_trail_between(
            cache.terrain(),
            u,
            cache.graph()[s[i]].pos,
            cache.graph()[s[j]].pos,
        ),
        is_within(cache.settings().chunk_size, cache.graph()[s[i]].pos, u),
    ensures
        part_cost(cache.graph(), s, i, j) <= trail_cost(cache.terrain(), u),
{
    let (t, cs, nodes) = (cache.terrain(), cache.settings().chunk_size, cache.graph());
    let (a, b) = (s[i], s[j]);
    assert(nodes.contains_key(a) && nodes.contains_key(b));
    assert(is_node_sound(t, cs, nodes[a]));
    lemma_trail_is_route(cache, nodes[a].pos, nodes[a].pos, nodes[b].pos, u);
    let w = if a == b {
        seq![a]
    } else {
        seq![a, b]
    };
    if a != b {
        law_nodes_of_a_chunk_are_connected(cache, a, b, u);
        assert(w.drop_last() =~= seq![a]);
        assert(chain_cost(nodes, seq![a]) == 0);
        assert(chain_cost(nodes, w) == nodes[a].edges[b].total());
    } else {
        assert(chain_cost(nodes, w) == 0);
    }
    assert(is_chain(nodes, w));
    lemma_part_is_cheapest(nodes, s, i, j, w);
}

/// The path that goes directly at its ends costs no more than any other along the same nodes.
proof fn lemma_direct_at_ends<N: Neighborhood>(
    cache: PathCache<N>,
    start: Point,
    goal: Point,
    s: Seq<NodeID>,
    x: nat,
    y: nat,
    cost: nat,
    i: int,
    j: int,
    u: Seq<Point>,
    v: Seq<Point>,
)
    requires
        cache.is_valid(),
        cache.terrain().open(start),
        cache.terrain().open(goal),
        is_bounded_by(
            cache.terrain(),
            cache.settings(),
            cache.graph(),
            start,
            goal,
            s,
            x,
            y,
            cost,
        ),
        is_cheapest_chain(cache.graph(), s),
        is_way_along(
            cache.terrain(),
            cache.settings().chunk_size,
            cache.graph(),
            start,
            goal,
            s,
            i,
            j,
            u,
            v,
        ),
    ensures
        cost <= trail_cost(cache.terrain(), u) + part_cost(cache.graph(), s, i, j) + trail_cost(
            cache.terrain(),
            v,
        ),
{
    let (t, cs, nodes) = (cache.terrain(), cache.settings().chunk_size, cache.graph());
    let (r, o) = (region_of(start, cs, t.size), region_of(goal, cs, t.size));
    let n = s.len() - 1;
    cache.lemma_nodes();
    lemma_ground_wf(t, cache.surroundings());
    let (from, to, a, b) = choose|from: int, to: int, a: nat, b: nat| #[trigger]
        is_shortcut_by(t, cs, nodes, start, goal, s, from, to, a, b, cost);
    lemma_trail_is_route(cache, start, start, nodes[s[i]].pos, u);
    lemma_trail_is_route(cache, goal, nodes[s[j]].pos, goal, v);
    let (us, vs) = (trail_cost(t, u) as nat, trail_cost(t, v) as nat);
    lemma_squares_of(cache, start, s);
    lemma_squares_of(cache, goal, s);
    // No later than at `from` one joins the nodes, unless the start is one.
    if has_node_at(nodes, start) {
        lemma_part_is_direct(cache, s, 0, i, u);
        lemma_at_node(t, r, start, a);
        lemma_parts(nodes, s, 0, i, j);
        lemma_last_part(cache, goal, s, 0, to, j, v, b);
    } else {
        assert(i <= from) by {
            if from < i {
                assert(is_same_square(cs, start, nodes[s[from + 1]].pos));
            }
        }
        assert(are_nodes_in(cs, nodes, start, s, 0, from)) by {
            assert forall|k: int| 0 <= k <= from implies is_same_square(
                cs,
                start,
                nodes[#[trigger] s[k]].pos,
            ) by {
                assert(region_of(nodes[s[k]].pos, cs, t.size) == r);
            }
        }
        lemma_stretch(cache, start, s, i, from);
        lemma_routes_join(
            t,
            r,
            start,
            nodes[s[i]].pos,
            nodes[s[from]].pos,
            us,
            part_cost(nodes, s, i, from) as nat,
        );
        if j <= from {
            assert(is_same_square(cs, start, nodes[s[j]].pos));
            assert(is_same_square(cs, goal, nodes[s[j]].pos));
            law_chunks_are_squares(start, goal, cs, t.size);
            assert(r == o);
            assert(from == n) by {
                if from < n {
                    assert(is_same_square(cs, goal, nodes[s[from + 1]].pos));
                }
            }
            assert(is_direct(nodes, cs, t.size, start, goal, s, from));
            lemma_stretch(cache, start, s, i, j);
            let part = part_cost(nodes, s, i, j) as nat;
            lemma_routes_join(t, r, start, nodes[s[i]].pos, nodes[s[j]].pos, us, part);
            lemma_routes_join(t, r, start, nodes[s[j]].pos, goal, us + part, vs);
            lemma_route_bound(t, r, start, goal, a, us + part + vs);
        } else if is_direct(nodes, cs, t.size, start, goal, s, from) {
            assert(nodes[s[from]].pos == goal);
            lemma_route_bound(
                t,
                r,
                start,
                goal,
                a,
                us + part_cost(nodes, s, i, from) as nat,
            );
            lemma_parts(nodes, s, i, from, j);
        } else {
            lemma_route_bound(
                t,
                r,
                start,
                nodes[s[from]].pos,
                a,
                us + part_cost(nodes, s, i, from) as nat,
            );
            lemma_parts(nodes, s, i, from, j);
            lemma_last_part(cache, goal, s, from, to, j, v, b);
        }
    }
}

/// The path goes directly to a goal in the chunk of the start, if the nodes lie there.
proof fn lemma_direct_inside<N: Neighborhood>(
    cache: PathCache<N>,
    start: Point,
    goal: Point,
    s: Seq<NodeID>,
    x: nat,
    y: nat,
    cost: nat,
    u: Seq<Point>,
)
    requires
        cache.is_valid(),
        cache.terrain().open(start),
        cache.terrain().open(goal),
        is_bounded_by(
            cache.terrain(),
            cache.settings(),
            cache.graph(),
            start,
            goal,
            s,
            x,
            y,
            cost,
        ),
        is_cheapest_chain(cache.graph(), s),
        are_nodes_in(cache.settings().chunk_size, cache.graph(), start, s, 0, s.len() - 1),
        is_trail_between(cache.terrain(), u, start, goal),
        is_within(cache.settings().chunk_size, start, u),
    ensures
        cost <= trail_cost(cache.terrain(), u),
{
    let (t, cs, nodes) = (cache.terrain(), cache.settings().chunk_size, cache.graph());
    let r = region_of(start, cs, t.size);
    cache.lemma_nodes();
    let (from, to, a, b) = choose|from: int, to: int, a: nat, b: nat| #[trigger]
        is_shortcut_by(t, cs, nodes, start, goal, s, from, to, a, b, cost);
    lemma_trail_is_route(cache, start, start, goal, u);
    assert(is_same_square(cs, start, u[u.len() - 1]));
    law_chunks_are_squares(start, goal, cs, t.size);
    lemma_squares_of(cache, start, s);
    if has_node_at(nodes, start) {
        let one = seq![start];
        assert(is_trail(t, one)) by {
            assert(is_free(t, one[0]));
        }
        assert forall|k: int| 0 <= k < u.len() implies is_same_square(
            cs,
            goal,
            #[trigger] u[k],
        ) by {
            assert(is_same_square(cs, start, u[k]));
        }
        assert forall|k: int| 0 <= k <= s.len() - 1 implies is_same_square(
            cs,
            goal,
            nodes[#[trigger] s[k]].pos,
        ) by {
            assert(is_same_square(cs, start, nodes[s[k]].pos));
        }
        assert(is_way_along(t, cs, nodes, start, goal, s, 0, 0, one, u));
        lemma_direct_at_ends(cache, start, goal, s, x, y, cost, 0, 0, one, u);
        assert(s.subrange(0, 1).len() == 1);
        assert(trail_cost(t, one) == 0);
    } else {
        assert(from == s.len() - 1) by {
            if from + 1 < s.len() {
                assert(is_same_square(cs, start, nodes[s[from + 1]].pos));
            }
        }
        assert(is_direct(nodes, cs, t.size, start, goal, s, from));
        lemma_route_bound(t, r, start, goal, a, trail_cost(t, u) as nat);
    }
}

/// Nodes lie in the chunk of a tile if and only if it is their chunk.
proof fn lemma_squares_of<N: Neighborhood>(cache: PathCache<N>, p: Point, s: Seq<NodeID>)
    requires
        cache.is_valid(),
        cache.terrain().open(p),
        is_chain(cache.graph(), s),
    ensures
        forall|k: int|
            0 <= k < s.len() ==> (is_same_square(
                cache.settings().chunk_size,
                p,
                cache.graph()[#[trigger] s[k]].pos,
            ) <==> region_of(
                cache.graph()[s[k]].pos,
                cache.settings().chunk_size,
                cache.size(),
            ) == region_of(p, cache.settings().chunk_size, cache.size())),
{
    let (t, cs, nodes) = (cache.terrain(), cache.settings().chunk_size, cache.graph());
    cache.lemma_nodes();
    assert forall|k: int| 0 <= k < s.len() implies (is_same_square(
        cs,
        p,
        nodes[#[trigger] s[k]].pos,
    ) <==> region_of(nodes[s[k]].pos, cs, t.size) == region_of(p, cs, t.size)) by {
        assert(nodes.contains_key(s[k]));
        assert(is_node_sound(t, cs, nodes[s[k]]));
        law_chunks_are_squares(p, nodes[s[k]].pos, cs, t.size);
    }
}

/// It costs nothing to stay where one is.
proof fn lemma_at_node(t: Terrain, r: Region, p: Point, cost: nat)
    requires
        is_distance(t.edges(r), p, p, cost),
    ensures
        cost == 0,
{
    assert(connects(t.edges(r), seq![p], p, p));
    assert(walk_cost(t.edges(r), seq![p]) == 0);
}

/// From the nodes one leaves for the goal no earlier than at the first of those in its chunk.
proof fn lemma_last_part<N: Neighborhood>(
    cache: PathCache<N>,
    goal: Point,
    s: Seq<NodeID>,
    from: int,
    to: int,
    j: int,
    v: Seq<Point>,
    b: nat,
)
    requires
        cache.is_valid(),
        cache.terrain().open(goal),
        is_cheapest_chain(cache.graph(), s),
        has_node_at(cache.graph(), goal) ==> cache.graph()[s.last()].pos == goal,
        0 <= from <= j < s.len(),
        if has_node_at(cache.graph(), goal) {
            to == s.len() - 1
        } else {
            is_trailing(
                cache.graph(),
                cache.settings().chunk_size,
                cache.size(),
                goal,
                s,
                from,
                to,
            )
        },
        is_distance(
            cache.terrain().edges(region_of(goal, cache.settings().chunk_size, cache.size())),
            cache.graph()[s[to]].pos,
            goal,
            b,
        ),
        are_nodes_in(cache.settings().chunk_size, cache.graph(), goal, s, j, s.len() - 1),
        is_trail_between(cache.terrain(), v, cache.graph()[s[j]].pos, goal),
        is_within(cache.settings().chunk_size, goal, v),
    ensures
        from <= to < s.len(),
        walk_cost(node_edges(cache.graph()), s.subrange(from, to + 1)) + b <= part_cost(
            cache.graph(),
            s,
            from,
            j,
        ) + trail_cost(cache.terrain(), v),
{
    let (t, cs, nodes) = (cache.terrain(), cache.settings().chunk_size, cache.graph());
    let o = region_of(goal, cs, t.size);
    let n = s.len() - 1;
    cache.lemma_nodes();
    lemma_trail_is_route(cache, goal, nodes[s[j]].pos, goal, v);
    lemma_squares_of(cache, goal, s);
    lemma_part(nodes, s, from, to);
    if has_node_at(nodes, goal) {
        lemma_at_node(t, o, goal, b);
        assert(is_within(cs, nodes[s[j]].pos, v)) by {
            assert(is_same_square(cs, goal, nodes[s[j]].pos));
            assert forall|k: int| 0 <= k < v.len() implies is_same_square(
                cs,
                nodes[s[j]].pos,
                #[trigger] v[k],
            ) by {
                assert(is_same_square(cs, goal, v[k]));
            }
        }
        lemma_part_is_direct(cache, s, j, n, v);
        lemma_parts(nodes, s, from, j, n);
    } else {
        assert(to <= j) by {
            if j < to {
                assert(is_same_square(cs, goal, nodes[s[to - 1]].pos));
            }
        }
        assert(are_nodes_in(cs, nodes, goal, s, to, j)) by {
            assert forall|k: int| to <= k <= j implies is_same_square(
                cs,
                goal,
                nodes[#[trigger] s[k]].pos,
            ) by {
                if k < n {
                    assert(region_of(nodes[s[k]].pos, cs, t.size) == o);
                }
            }
        }
        lemma_stretch(cache, goal, s, to, j);
        let part = part_cost(nodes, s, to, j) as nat;
        let vs = trail_cost(t, v) as nat;
        lemma_routes_join(t, o, nodes[s[to]].pos, nodes[s[j]].pos, goal, part, vs);
        lemma_route_bound(t, o, nodes[s[to]].pos, goal, b, part + vs);
        lemma_parts(nodes, s, from, to, j);
    }
}

/// Where the estimates of the neighborhood guide the searches, a path is a cheapest one on the
/// grid, or there is a cheapest way over nodes, from a node of the chunk of the start to one of
/// the chunk of the goal to which none is closer, and the path costs no more than to follow it,
/// at whichever of its nodes in these two chunks one joins and leaves it; and with the fallback,
/// that way is not a short one.
pub proof fn law_paths_go_directly_at_their_ends<N: Neighborhood>(
    cache: PathCache<N>,
    start: Point,
    goal: Point,
    path: AbstractPath<N>,
) -> (s: Seq<NodeID>)
    requires
        cache.is_valid(),
        is_guided(
            cache.surroundings(),
            cache.terrain(),
            cache.settings().chunk_size,
        ),
        cache.terrain().has_path(start, goal),
        cache.is_answer(cache.terrain(), start, goal, path),
        start != goal,
    ensures
        ({
            let (t, cs, nodes) = (cache.terrain(), cache.settings().chunk_size, cache.graph());
            ||| is_cheapest_on_grid(t, start, goal, path.total() as int)
            ||| {
                &&& s.len() > 1
                &&& is_cheapest_chain(nodes, s)
                &&& is_closest_node(t, cs, nodes, start, s[0])
                &&& is_closest_node(t, cs, nodes, goal, s.last())
                &&& is_direct_at_ends(t, cs, nodes, start, goal, s, path.total() as int)
                &&& cache.settings().a_star_fallback ==> chain_cost(nodes, s) >= 2 * cs
            }
        }),
{
    let (t, config, nodes) = (cache.terrain(), cache.settings(), cache.graph());
    let (cs, cost) = (config.chunk_size, path.total() as nat);
    reveal(is_short);
    cache.lemma_nodes();
    if is_cheapest(t.edges(t.whole()), start, goal, cost) {
        assert forall|u: Seq<Point>| #[trigger]
            is_trail_between(t, u, start, goal) implies path.total() <= trail_cost(t, u) by {
            lemma_cheapest_trail(t, start, goal, cost, u);
        }
        seq![]
    } else {
        let (s, x, y) = choose|s: Seq<NodeID>, x: nat, y: nat| #[trigger]
            is_bounded_by(t, config, nodes, start, goal, s, x, y, cost);
        lemma_bounding_chain(cache, start, goal, s, x, y, cost);
        lemma_near_is_closest(cache, start, s[0]);
        lemma_near_is_closest(cache, goal, s.last());
        lemma_chain_is_walk(nodes, s);
        assert forall|i: int, j: int, u: Seq<Point>, v: Seq<Point>| #[trigger]
            is_way_along(t, cs, nodes, start, goal, s, i, j, u, v) implies path.total()
            <= trail_cost(t, u) + part_cost(nodes, s, i, j) + trail_cost(t, v) by {
            lemma_direct_at_ends(cache, start, goal, s, x, y, cost, i, j, u, v);
        }
        if are_nodes_in(cs, nodes, start, s, 0, s.len() - 1) {
            assert forall|u: Seq<Point>| #[trigger]
                is_trail_between(t, u, start, goal) && is_within(cs, start, u) implies path.total()
                <= trail_cost(t, u) by {
                lemma_direct_inside(cache, start, goal, s, x, y, cost, u);
            }
        }
        s
    }
}

} // verus!

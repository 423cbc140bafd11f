//! What holds of the library as a whole.

pub mod chains;
pub mod chunks;
pub mod detours;
pub mod limits;
pub mod neighborhoods;
pub mod passages;
pub mod renewal;
pub mod tiles;
pub mod updates;

use vstd::arithmetic::div_mod::lemma_basic_div;
use vstd::prelude::*;

use crate::abstract_path::{
    are_searches_guided, is_advanced, is_guided_at, is_searched_at, paths_are_affordable,
    segment_start, AbstractPath,
};
use crate::course::{by_estimate, lemma_found_alike};
use crate::dir::{next_tile, Dir};
use crate::graph::node_edges;
use crate::neighbors::{
    is_same_neighborhood, on_grid, ManhattanNeighborhood, MooreNeighborhood, Neighborhood,
};
use crate::path::PathSegment;
use crate::path_cache::PathCache;
use crate::path_cache::creation::has_only_entrances;
use crate::path_cache::detour::{
    detour_limit, is_bounded_by, is_guided, is_short, lemma_detour_limit,
};
use crate::path_cache::entrance::{is_entrance, is_entrance_to, is_open_tile, is_passage_end};
use crate::path_cache::find::are_chosen;
use crate::path_cache::layout::{
    chunk_count, chunk_index, chunk_start, is_at_border, is_at_corner, lemma_chunk_index,
    lemma_chunk_start, lemma_region_of, lemma_same_chunk, region_of,
};
use crate::path_cache::limits::{chunk_area, fits, lemma_chunk_limits, lemma_limits, tile_limit};
use crate::path_cache::links::{
    has_node_at, is_graph_of, is_link, is_link_over, is_linked_across, is_linked_inside,
    is_node_sound, lemma_entrances_agree, lemma_graph_is_complete, lemma_graph_is_sound,
    lemma_graph_of_agreeing, lemma_link, lemma_links_two_way, Nodes,
};
use crate::path_cache::outcome::lemma_outcomes_alike;
use crate::path_cache::renew::lemma_chunk_across;
use crate::path_cache::resolve::{is_node_near, lemma_route_on_grid};
use crate::path_cache::update::is_change_of;
use crate::search::is_cheapest;
use crate::terrain::{
    estimates, estimates_are_steady, is_ground, lemma_agreement_mutual, lemma_ground_wf,
    lemma_reversed_cost, lemma_steps_two_way, Terrain,
};
use crate::walk::{
    connects, is_walk, lemma_reaches_symmetric, lemma_single_step, linked, reaches, walk_cost,
};
use crate::{NodeID, Point};

verus! {

/// Where there is a path from one tile to another, there is one back.
pub proof fn law_paths_lead_both_ways(t: Terrain, a: Point, b: Point)
    requires
        t.wf(),
    ensures
        t.has_path(a, b) <==> t.has_path(b, a),
{
    let g = t.edges(t.whole());
    lemma_steps_two_way(t, t.whole());
    if t.has_path(a, b) {
        lemma_reaches_symmetric(g, a, b);
    }
    if t.has_path(b, a) {
        lemma_reaches_symmetric(g, b, a);
    }
}

/// A path taken back costs the same, but for its ends: it costs the last tile in place of
/// the first.
pub proof fn law_way_back_costs_the_same(
    t: Terrain,
    s: Seq<Point>,
    a: Point,
    b: Point,
    cost: nat,
)
    requires
        t.wf(),
        t.is_route(t.whole(), s, a, b, cost),
        a != b,
    ensures
        (t.cost)(a) <= cost,
        0 <= (t.cost)(b),
        t.is_route(
            t.whole(),
            s.reverse(),
            b,
            a,
            (cost - (t.cost)(a) + (t.cost)(b)) as nat,
        ),
{
    let g = t.edges(t.whole());
    if s.len() == 1 {
        assert(s[0] == s.last());
    }
    lemma_reversed_cost(t, t.whole(), s);
    assert(linked(g, s, s.len() - 2));
    let back = s.reverse();
    assert(linked(g, back, back.len() - 2));
    lemma_first_tile_counts(t, s);
}

/// A path costs at least its first tile.
proof fn lemma_first_tile_counts(t: Terrain, s: Seq<Point>)
    requires
        is_walk(t.edges(t.whole()), s),
        s.len() > 1,
    ensures
        (t.cost)(s[0]) <= walk_cost(t.edges(t.whole()), s),
    decreases s.len(),
{
    let g = t.edges(t.whole());
    assert(linked(g, s, s.len() - 2));
    let d = s.drop_last();
    if s.len() > 2 {
        assert forall|i: int| 0 <= i < d.len() - 1 implies #[trigger] linked(g, d, i) by {
            assert(linked(g, s, i));
        }
        lemma_first_tile_counts(t, d);
    } else {
        assert(walk_cost(g, d) == 0);
    }
}

/// Two nodes are connected, over other nodes, if and only if there is a path between them on
/// the grid.
pub proof fn law_graph_reflects_grid<N: Neighborhood>(
    cache: PathCache<N>,
    t: Terrain,
    a: NodeID,
    b: NodeID,
)
    requires
        t.wf(),
        cache.is_valid_for(t),
        cache.graph().contains_key(a),
        cache.graph().contains_key(b),
    ensures
        reaches(node_edges(cache.graph()), a, b) <==> t.has_path(
            cache.graph()[a].pos,
            cache.graph()[b].pos,
        ),
{
    let (cs, known, nodes) = (
        cache.settings().chunk_size,
        cache.settings().cache_paths,
        cache.graph(),
    );
    cache.lemma_nodes();
    if reaches(node_edges(nodes), a, b) {
        let s = choose|s: Seq<NodeID>| #[trigger] connects(node_edges(nodes), s, a, b);
        lemma_graph_is_sound(t, cs, known, nodes, s);
    }
    if t.has_path(nodes[a].pos, nodes[b].pos) {
        lemma_graph_is_complete(t, cs, known, nodes, a, b);
    }
}

/// A connection leads from node to node, along a path on the grid that costs what it says,
/// the least within the chunk if the nodes lie in the same one; and there is a connection
/// back.
pub proof fn law_connections_are_paths<N: Neighborhood>(
    cache: PathCache<N>,
    t: Terrain,
    a: NodeID,
    b: NodeID,
) -> (s: Seq<Point>)
    requires
        t.wf(),
        cache.is_valid_for(t),
        cache.graph().contains_key(a),
        cache.graph()[a].edges.contains_key(b),
    ensures
        cache.graph().contains_key(b),
        a != b,
        cache.graph()[b].edges.contains_key(a),
        t.is_route(
            t.whole(),
            s,
            cache.graph()[a].pos,
            cache.graph()[b].pos,
            cache.graph()[a].edges[b].total() as nat,
        ),
        cache.graph()[a].edges[b].matches(s),
        ({
            let r = region_of(
                cache.graph()[a].pos,
                cache.settings().chunk_size,
                cache.size(),
            );
            r.contains(cache.graph()[b].pos) ==> is_cheapest(
                t.edges(r),
                cache.graph()[a].pos,
                cache.graph()[b].pos,
                cache.graph()[a].edges[b].total() as nat,
            )
        }),
{
    let (cs, known, nodes) = (
        cache.settings().chunk_size,
        cache.settings().cache_paths,
        cache.graph(),
    );
    cache.lemma_nodes();
    lemma_links_two_way(t, cs, known, nodes, a, b);
    let (p, q, path) = (nodes[a].pos, nodes[b].pos, nodes[a].edges[b]);
    let s = choose|s: Seq<Point>| #[trigger] is_link_over(t, cs, p, q, path, s);
    assert(is_node_sound(t, cs, nodes[a]));
    let r = region_of(p, cs, t.size);
    if r.contains(q) {
        lemma_route_on_grid(t, r, s, p, q, path.total() as nat);
    } else {
        lemma_single_step(t.edges(t.whole()), p, q);
    }
    s
}

/// A path that was found can be walked along with the cost function of the grid, also where
/// its points are not stored; and this does not make it more expensive where the estimates of
/// the neighborhood guide the searches.
pub proof fn law_found_paths_can_be_walked<N: Neighborhood>(
    cache: PathCache<N>,
    start: Point,
    goal: Point,
    path: AbstractPath<N>,
)
    requires
        cache.is_valid(),
        cache.is_answer(cache.terrain(), start, goal, path),
    ensures
        path.terrain() == cache.terrain(),
        is_ground(path.terrain(), path.surroundings()),
        paths_are_affordable(path.terrain()),
        start == goal ==> path.next_is_known(),
        start != goal ==> is_walk(path.terrain().edges(path.terrain().whole()), path.route()),
        cache.is_guided_here() ==> are_searches_guided(path.surroundings(), path.terrain()),
{
    cache.lemma_nodes();
    lemma_limits(cache.terrain(), cache.settings().chunk_size);
    if cache.is_guided_here() {
        let t = cache.terrain();
        law_guided_walks(cache.surroundings(), t, cache.settings().chunk_size);
        let weight = choose|weight: nat| #[trigger]
            is_guided_at(cache.surroundings(), t, weight);
        assert forall|goal: Point| on_grid(goal, t.size) implies #[trigger] estimates_are_steady(
            path.surroundings(),
            t.edges(t.whole()),
            goal,
            (t.whole().area() * weight) as nat,
        ) by {
            assert(estimates_are_steady(
                cache.surroundings(),
                t.edges(t.whole()),
                goal,
                (t.whole().area() * weight) as nat,
            ));
        }
        assert(is_guided_at(path.surroundings(), t, weight));
    }
    if start == goal {
        path.lemma_all_known();
    }
}

/// Where the points of the paths between nodes are stored, a path that was found can be
/// walked along without searching.
pub proof fn law_stored_paths_need_no_search<N: Neighborhood>(
    cache: PathCache<N>,
    t: Terrain,
    start: Point,
    goal: Point,
    path: AbstractPath<N>,
)
    requires
        cache.settings().cache_paths,
        cache.is_answer(t, start, goal, path),
    ensures
        path.next_is_known(),
{
    path.lemma_all_known();
}

/// The cost of a path that was found is an upper bound of what the cheapest path costs.
pub proof fn law_cost_is_an_upper_bound<N: Neighborhood>(
    cache: PathCache<N>,
    t: Terrain,
    start: Point,
    goal: Point,
    path: AbstractPath<N>,
    cheapest: nat,
)
    requires
        cache.is_answer(t, start, goal, path),
        is_cheapest(t.edges(t.whole()), start, goal, cheapest),
    ensures
        cheapest <= path.total(),
{
    let g = t.edges(t.whole());
    if start == goal {
        assert(connects(g, seq![start], start, goal));
        assert(walk_cost(g, seq![start]) == 0);
    } else {
        assert(connects(g, path.route(), start, goal));
    }
}

/// With the fallback, a path is a cheapest one where the way over the nodes is a short one,
/// provided that the estimates of the neighborhood guide the searches.
pub proof fn law_short_paths_are_optimal<N: Neighborhood>(
    cache: PathCache<N>,
    t: Terrain,
    start: Point,
    goal: Point,
    path: AbstractPath<N>,
)
    requires
        cache.settings().a_star_fallback,
        is_guided(cache.surroundings(), t, cache.settings().chunk_size),
        cache.is_answer(t, start, goal, path),
        start != goal,
        forall|s: Seq<NodeID>|
            {
                &&& #[trigger] is_walk(node_edges(cache.graph()), s)
                &&& is_node_near(t, cache.settings().chunk_size, cache.graph(), start, s[0])
                &&& is_node_near(t, cache.settings().chunk_size, cache.graph(), goal, s.last())
                &&& is_cheapest(
                    node_edges(cache.graph()),
                    s[0],
                    s.last(),
                    walk_cost(node_edges(cache.graph()), s),
                )
            } ==> walk_cost(node_edges(cache.graph()), s) < 2 * cache.settings().chunk_size,
    ensures
        is_cheapest(t.edges(t.whole()), start, goal, path.total() as nat),
{
    reveal(is_short);
    let (config, nodes, cost) = (cache.settings(), cache.graph(), path.total() as nat);
    if exists|s: Seq<NodeID>, x: nat, y: nat| #[trigger]
        is_bounded_by(t, config, nodes, start, goal, s, x, y, cost) {
        let (s, x, y) = choose|s: Seq<NodeID>, x: nat, y: nat| #[trigger]
            is_bounded_by(t, config, nodes, start, goal, s, x, y, cost);
        assert(is_walk(node_edges(nodes), s));
    }
}

/// Where the estimates of the neighborhood guide the searches of a cache, they also guide
/// those that walking along a path makes.
pub proof fn law_guided_walks<N: Neighborhood>(neighborhood: N, t: Terrain, chunk_size: usize)
    requires
        0 < chunk_size,
        fits(t, chunk_size),
        is_guided(neighborhood, t, chunk_size),
    ensures
        are_searches_guided(neighborhood, t),
{
    let weight = tile_limit(t.size, chunk_size);
    let (n, a) = (t.size.0 * t.size.1, chunk_area(t.size, chunk_size));
    lemma_limits(t, chunk_size);
    assert forall|goal: Point| on_grid(goal, t.size) implies #[trigger] estimates_are_steady(
        neighborhood,
        t.edges(t.whole()),
        goal,
        (t.whole().area() * weight) as nat,
    ) by {
        lemma_chunk_limits(t, chunk_size, goal);
        assert(0 <= n * weight <= n * (a * weight)) by (nonlinear_arith)
            requires
                n == t.size.0 * t.size.1,
                1 <= a,
                0 <= weight,
        ;
        assert(estimates_are_steady(
            neighborhood,
            t.edges(t.whole()),
            goal,
            detour_limit(t.size, chunk_size),
        ));
    }
    assert(is_guided_at(neighborhood, t, weight));
}

/// The estimates of the straight neighborhood guide the searches where walking over a tile
/// costs something.
pub proof fn law_straight_estimates_guide(
    neighborhood: ManhattanNeighborhood,
    t: Terrain,
    chunk_size: usize,
)
    requires
        0 < chunk_size,
        is_ground(t, neighborhood),
        fits(t, chunk_size),
        forall|p: Point| #[trigger] t.open(p) ==> (t.cost)(p) >= 1,
    ensures
        is_guided(neighborhood, t, chunk_size),
        are_searches_guided(neighborhood, t),
{
    lemma_detour_limit(t, chunk_size);
    assert forall|goal: Point| on_grid(goal, t.size) implies #[trigger] estimates_are_steady(
        neighborhood,
        t.edges(t.whole()),
        goal,
        detour_limit(t.size, chunk_size),
    ) by {
        let g = t.edges(t.whole());
        assert forall|a: Point, b: Point| (#[trigger] g(a, b)) is Some implies neighborhood.distance(
            a,
            goal,
        ) <= g(a, b)->0 + neighborhood.distance(b, goal) by {
            assert(t.open(a));
            assert(neighborhood.adjacent(a, b));
        }
        assert forall|p: Point|
            on_grid(p, neighborhood.size()) implies #[trigger] neighborhood.distance(p, goal)
            + detour_limit(t.size, chunk_size) <= usize::MAX by {
            lemma_sides_fit(t.size);
        }
    }
    law_guided_walks(neighborhood, t, chunk_size);
}

/// The estimates of the neighborhood with diagonals guide the searches where walking over a
/// tile costs something.
pub proof fn law_diagonal_estimates_guide(
    neighborhood: MooreNeighborhood,
    t: Terrain,
    chunk_size: usize,
)
    requires
        0 < chunk_size,
        is_ground(t, neighborhood),
        fits(t, chunk_size),
        forall|p: Point| #[trigger] t.open(p) ==> (t.cost)(p) >= 1,
    ensures
        is_guided(neighborhood, t, chunk_size),
        are_searches_guided(neighborhood, t),
{
    lemma_detour_limit(t, chunk_size);
    assert forall|goal: Point| on_grid(goal, t.size) implies #[trigger] estimates_are_steady(
        neighborhood,
        t.edges(t.whole()),
        goal,
        detour_limit(t.size, chunk_size),
    ) by {
        let g = t.edges(t.whole());
        assert forall|a: Point, b: Point| (#[trigger] g(a, b)) is Some implies neighborhood.distance(
            a,
            goal,
        ) <= g(a, b)->0 + neighborhood.distance(b, goal) by {
            assert(t.open(a));
            assert(neighborhood.adjacent(a, b));
        }
        assert forall|p: Point|
            on_grid(p, neighborhood.size()) implies #[trigger] neighborhood.distance(p, goal)
            + detour_limit(t.size, chunk_size) <= usize::MAX by {
            lemma_sides_fit(t.size);
        }
    }
    law_guided_walks(neighborhood, t, chunk_size);
}

/// The sides of a grid together are not longer than it has tiles, but for one.
proof fn lemma_sides_fit(size: (usize, usize))
    requires
        0 < size.0,
        0 < size.1,
    ensures
        size.0 + size.1 - 1 <= size.0 * size.1,
{
    assert(size.0 + size.1 - 1 <= size.0 * size.1) by (nonlinear_arith)
        requires
            0 < size.0,
            0 < size.1,
    ;
}

/// There is a node exactly at each entrance in a cache that has just been created, so two
/// such caches of the same chunk size, of grids that agree, have their nodes at the same
/// tiles; and a cache that was updated has nodes at least at these tiles.
pub proof fn law_created_caches_agree<N: Neighborhood, M: Neighborhood>(
    one: PathCache<N>,
    other: PathCache<M>,
)
    requires
        one.is_valid(),
        other.is_valid(),
        one.terrain().agrees_with(other.terrain()),
        one.settings().chunk_size == other.settings().chunk_size,
        has_only_entrances(one.terrain(), one.settings().chunk_size, one.graph()),
    ensures
        forall|p: Point| #[trigger] has_node_at(one.graph(), p) ==> has_node_at(other.graph(), p),
        has_only_entrances(
            other.terrain(),
            other.settings().chunk_size,
            other.graph(),
        ) ==> forall|p: Point| #[trigger]
            has_node_at(other.graph(), p) ==> has_node_at(one.graph(), p),
{
    let cs = one.settings().chunk_size;
    let (t, u) = (one.terrain(), other.terrain());
    let (m, n) = (one.graph(), other.graph());
    lemma_agreement_mutual(t, u);
    assert forall|p: Point| #[trigger] has_node_at(m, p) implies has_node_at(n, p) by {
        let a = choose|a: NodeID| #[trigger] m.contains_key(a) && m[a].pos == p;
        lemma_entrances_agree(t, u, cs, p);
    }
    if has_only_entrances(u, cs, n) {
        assert forall|p: Point| #[trigger] has_node_at(n, p) implies has_node_at(m, p) by {
            let a = choose|a: NodeID| #[trigger] n.contains_key(a) && n[a].pos == p;
            lemma_entrances_agree(u, t, cs, p);
        }
    }
}

/// In a cache that has just been created, each node lies next to a tile of another chunk that
/// can be walked over, or it lies at a corner of its chunk, diagonally next to a tile of
/// another chunk.
pub proof fn law_nodes_lead_out<N: Neighborhood>(cache: PathCache<N>, a: NodeID) -> (q: Point)
    requires
        cache.is_valid(),
        has_only_entrances(cache.terrain(), cache.settings().chunk_size, cache.graph()),
        cache.graph().contains_key(a),
    ensures
        cache.terrain().open(cache.graph()[a].pos),
        cache.surroundings().adjacent(cache.graph()[a].pos, q),
        region_of(q, cache.settings().chunk_size, cache.size()) != region_of(
            cache.graph()[a].pos,
            cache.settings().chunk_size,
            cache.size(),
        ),
        cache.terrain().open(q) || (is_at_corner(
            region_of(cache.graph()[a].pos, cache.settings().chunk_size, cache.size()),
            cache.graph()[a].pos,
        ) && cache.graph()[a].pos.0 != q.0 && cache.graph()[a].pos.1 != q.1),
{
    let (t, cs, p) = (cache.terrain(), cache.settings().chunk_size, cache.graph()[a].pos);
    cache.lemma_nodes();
    lemma_ground_wf(t, cache.surroundings());
    assert(is_entrance(t, cs, p));
    let dir = choose|dir: Dir| #[trigger] is_entrance_to(t, cs, p, dir);
    let r = region_of(p, cs, t.size);
    let side = if is_passage_end(t, r, p, dir, dir.turned()) {
        dir.turned()
    } else {
        dir.turned().back()
    };
    lemma_chunk_across(p, dir, cs, t.size);
    lemma_region_of(p, cs, t.size);
    let across = next_tile(p, dir, t.size);
    let q = if is_open_tile(t, across) {
        across->0
    } else {
        next_tile(next_tile(p, side, t.size)->0, dir, t.size)->0
    };
    lemma_region_of(q, cs, t.size);
    assert((t.adjacent)(p, q));
    q
}

/// In a cache of the straight neighborhood that has just been created, one can walk from each
/// node to a tile of another chunk.
pub proof fn law_straight_nodes_lead_out(
    cache: PathCache<ManhattanNeighborhood>,
    a: NodeID,
) -> (q: Point)
    requires
        cache.is_valid(),
        has_only_entrances(cache.terrain(), cache.settings().chunk_size, cache.graph()),
        cache.graph().contains_key(a),
    ensures
        cache.terrain().step(cache.graph()[a].pos, q),
        region_of(q, cache.settings().chunk_size, cache.size()) != region_of(
            cache.graph()[a].pos,
            cache.settings().chunk_size,
            cache.size(),
        ),
{
    law_nodes_lead_out(cache, a)
}

/// A grid that fits in a single chunk has no nodes.
pub proof fn law_single_chunk_has_no_nodes<N: Neighborhood>(cache: PathCache<N>)
    requires
        cache.is_valid(),
        cache.size().0 <= cache.settings().chunk_size,
        cache.size().1 <= cache.settings().chunk_size,
    ensures
        forall|a: NodeID| !#[trigger] cache.graph().contains_key(a),
{
    let (t, cs) = (cache.terrain(), cache.settings().chunk_size);
    cache.lemma_nodes();
    assert forall|a: NodeID| !#[trigger] cache.graph().contains_key(a) by {
        if cache.graph().contains_key(a) {
            let p = cache.graph()[a].pos;
            assert(is_node_sound(t, cs, cache.graph()[a]));
            let dir = choose|dir: Dir| #[trigger] is_at_border(p, dir, cs, t.size);
            reveal(region_of);
            let (x, y) = (p.0 as int / cs as int, p.1 as int / cs as int);
            lemma_basic_div(p.0 as int, cs as int);
            lemma_basic_div(p.1 as int, cs as int);
            assert(x * cs == 0 && y * cs == 0) by (nonlinear_arith)
                requires
                    x == 0,
                    y == 0,
            ;
        }
    }
}

/// The position of a chunk is a multiple of the chunk size, not behind the tiles of the chunk
/// and less than a chunk size before them; it lies in the chunk itself, so that it is the
/// position of its own chunk, and on the grid if a tile of the chunk does.
pub proof fn law_chunk_positions(p: Point, chunk_size: usize, size: (usize, usize))
    requires
        0 < chunk_size,
    ensures
        ({
            let q = chunk_start(p, chunk_size);
            &&& q.0 % chunk_size == 0
            &&& q.1 % chunk_size == 0
            &&& q.0 <= p.0 < q.0 + chunk_size
            &&& q.1 <= p.1 < q.1 + chunk_size
            &&& q.0 / chunk_size == p.0 / chunk_size
            &&& q.1 / chunk_size == p.1 / chunk_size
            &&& chunk_start(q, chunk_size) == q
            &&& on_grid(p, size) ==> on_grid(q, size)
            &&& on_grid(p, size) ==> region_of(q, chunk_size, size) == region_of(
                p,
                chunk_size,
                size,
            )
        }),
{
    lemma_chunk_start(p.0, chunk_size);
    lemma_chunk_start(p.1, chunk_size);
    if on_grid(p, size) {
        lemma_same_chunk(p, chunk_start(p, chunk_size), chunk_size, size);
    }
}

/// To the same goal the same path is found each time: the same points, in the same segments,
/// at the same cost.
pub proof fn law_answers_repeat<N: Neighborhood>(
    cache: PathCache<N>,
    t: Terrain,
    start: Point,
    goal: Point,
    alone: bool,
    one: AbstractPath<N>,
    other: AbstractPath<N>,
)
    requires
        cache.is_valid(),
        cache.is_outcome(t, start, goal, alone, one.outline()),
        cache.is_outcome(t, start, goal, alone, other.outline()),
    ensures
        one.outline() == other.outline(),
        one.route() == other.route(),
        one.total() == other.total(),
{
    cache.lemma_nodes();
    lemma_outcomes_alike(
        cache,
        t,
        start,
        goal,
        alone,
        one.outline(),
        other.outline(),
    );
}

/// Along two paths that are the same, the same points are handed out: the next point is the
/// same, also if it has to be searched for, and the paths stay the same.
pub proof fn law_walks_repeat<N: Neighborhood>(
    one: AbstractPath<N>,
    other: AbstractPath<N>,
    one_after: AbstractPath<N>,
    other_after: AbstractPath<N>,
    point: Option<Point>,
    other_point: Option<Point>,
)
    requires
        one.wf(),
        other.wf(),
        one.outline() == other.outline(),
        one.position() == other.position(),
        one.terrain() == other.terrain(),
        is_same_neighborhood(one.surroundings(), other.surroundings()),
        is_advanced(one, one_after, point),
        is_advanced(other, other_after, other_point),
    ensures
        point == other_point,
        one_after.outline() == other_after.outline(),
        one_after.position() == other_after.position(),
        one_after.terrain() == other_after.terrain(),
        is_same_neighborhood(one_after.surroundings(), other_after.surroundings()),
{
    one.lemma_next_alike(&other);
    if !one.next_is_known() {
        let (t, shape, route) = (one.terrain(), one.shape(), one.route());
        let (i, s, c) = choose|i: int, points: Seq<Point>, cost: nat| #[trigger]
            is_searched_at(one, one_after, i, points, cost);
        let (j, u, d) = choose|i: int, points: Seq<Point>, cost: nat| #[trigger]
            is_searched_at(other, other_after, i, points, cost);
        one.lemma_segments_apart(i, j);
        let (a, b) = (route[one.position()], route[segment_start(shape, i + 1)]);
        let estimate = estimates(one.surroundings(), Some(b));
        assert(estimate =~= estimates(other.surroundings(), Some(b)));
        lemma_found_alike(t.edges(t.whole()), by_estimate(estimate), a, b, s, u, c, d);
    }
}

/// For a single goal, a path to several goals is found exactly where one to this goal is; and
/// it is the same path, with the same points and at the same cost.
pub proof fn law_single_goal<N: Neighborhood>(
    cache: PathCache<N>,
    t: Terrain,
    start: Point,
    goal: Point,
    path: Option<AbstractPath<N>>,
    paths: Map<Point, AbstractPath<N>>,
)
    requires
        cache.is_valid(),
        match path {
            Some(path) => {
                &&& t.has_path(start, goal)
                &&& cache.is_outcome(
                    t,
                    start,
                    goal,
                    true,
                    path.outline(),
                )
            },
            None => !t.has_path(start, goal),
        },
        cache.are_answers(t, start, seq![goal], paths),
    ensures
        forall|g: Point| #[trigger] paths.contains_key(g) <==> g == goal && path is Some,
        path is Some ==> paths[goal].outline() == (path->0).outline(),
        path is Some ==> paths[goal].route() == (path->0).route(),
        path is Some ==> paths[goal].total() == (path->0).total(),
{
    assert(seq![goal][0] == goal);
    assert forall|g: Point| #[trigger] paths.contains_key(g) <==> g == goal && path is Some by {
        assert(seq![goal].contains(g) <==> g == goal);
    }
    if let Some(path) = path {
        assert(paths.contains_key(goal));
        law_answers_repeat(cache, t, start, goal, true, path, paths[goal]);
    }
}

/// All paths to several goals are the same each time.
pub proof fn law_paths_repeat<N: Neighborhood>(
    cache: PathCache<N>,
    t: Terrain,
    start: Point,
    goals: Seq<Point>,
    one: Map<Point, AbstractPath<N>>,
    other: Map<Point, AbstractPath<N>>,
)
    requires
        cache.is_valid(),
        cache.are_answers(t, start, goals, one),
        cache.are_answers(t, start, goals, other),
    ensures
        one.dom() == other.dom(),
        forall|g: Point| #[trigger]
            one.contains_key(g) ==> one[g].outline() == other[g].outline(),
{
    assert forall|g: Point| one.contains_key(g) <==> other.contains_key(g) by {}
    assert(one.dom() =~= other.dom());
    assert forall|g: Point| #[trigger] one.contains_key(g) implies one[g].outline()
        == other[g].outline() by {
        assert(other.contains_key(g));
        law_answers_repeat(cache, t, start, g, goals.len() == 1, one[g], other[g]);
    }
}

/// The path to the closest goal costs no more than any of the paths to all the goals, and
/// it is one of them.
pub proof fn law_closest_goal_is_cheapest<N: Neighborhood>(
    cache: PathCache<N>,
    t: Terrain,
    start: Point,
    goals: Seq<Point>,
    goal: Point,
    path: AbstractPath<N>,
    all: Map<Point, AbstractPath<N>>,
)
    requires
        cache.is_valid(),
        goals.contains(goal),
        t.has_path(start, goal),
        cache.is_outcome(t, start, goal, goals.len() == 1, path.outline()),
        cache.is_cheapest_found(t, start, goals, path.total() as nat),
        cache.are_answers(t, start, goals, all),
    ensures
        all.contains_key(goal),
        all[goal].outline() == path.outline(),
        all[goal].route() == path.route(),
        all[goal].total() == path.total(),
        forall|h: Point| #[trigger] all.contains_key(h) ==> path.total() <= all[h].total(),
{
    assert(all.contains_key(goal));
    law_answers_repeat(cache, t, start, goal, goals.len() == 1, path, all[goal]);
    assert forall|h: Point| #[trigger] all.contains_key(h) implies path.total()
        <= all[h].total() by {
        assert(cache.is_outcome(
            t,
            start,
            h,
            goals.len() == 1,
            all[h].outline(),
        ));
    }
}

/// The same goal is the closest one each time, also if several are equally close.
pub proof fn law_closest_goal_repeats<N: Neighborhood>(
    cache: PathCache<N>,
    t: Terrain,
    start: Point,
    goals: Seq<Point>,
    goal: Point,
    path: AbstractPath<N>,
    other_goal: Point,
    other: AbstractPath<N>,
)
    requires
        cache.is_valid(),
        goals.contains(goal),
        t.has_path(start, goal),
        cache.is_outcome(t, start, goal, goals.len() == 1, path.outline()),
        cache.is_cheapest_found(t, start, goals, path.total() as nat),
        cache.is_first_closest(t, start, goals, goal, path.total() as nat),
        goals.contains(other_goal),
        t.has_path(start, other_goal),
        cache.is_outcome(t, start, other_goal, goals.len() == 1, other.outline()),
        cache.is_cheapest_found(t, start, goals, other.total() as nat),
        cache.is_first_closest(t, start, goals, other_goal, other.total() as nat),
    ensures
        goal == other_goal,
        path.outline() == other.outline(),
{
    let (x, y) = (path.total() as nat, other.total() as nat);
    if !goals.contains(start) {
        let i = choose|k: int| #[trigger] cache.is_first_closest_at(t, start, goals, goal, x, k);
        let j = choose|k: int| #[trigger]
            cache.is_first_closest_at(t, start, goals, other_goal, y, k);
        if i < j {
            assert(cache.is_outcome(t, start, goals[i], goals.len() == 1, path.outline()));
        } else if j < i {
            assert(cache.is_outcome(t, start, goals[j], goals.len() == 1, other.outline()));
        }
    }
    law_answers_repeat(cache, t, start, goal, goals.len() == 1, path, other);
}

/// The closest goal is one of those to which there are paths, and there is one if there are
/// any; none of them is cheaper.
pub proof fn law_closest_goal_is_one_of_all<N: Neighborhood>(
    cache: PathCache<N>,
    t: Terrain,
    start: Point,
    goals: Seq<Point>,
    all: Map<Point, AbstractPath<N>>,
    from: Map<Point, AbstractPath<N>>,
    closest: Map<Point, AbstractPath<N>>,
)
    requires
        cache.is_valid(),
        cache.are_answers(t, start, goals, all),
        cache.are_answers(t, start, goals, from),
        are_chosen(from, true, closest),
    ensures
        forall|g: Point| #[trigger]
            closest.contains_key(g) ==> {
                &&& all.contains_key(g)
                &&& goals.contains(g)
                &&& forall|h: Point| #[trigger]
                    all.contains_key(h) ==> closest[g].total() <= all[h].total()
            },
        (forall|g: Point| !#[trigger] closest.contains_key(g)) <==> (forall|g: Point|
            !#[trigger] all.contains_key(g)),
{
    assert forall|g: Point| #[trigger] closest.contains_key(g) implies {
        &&& all.contains_key(g)
        &&& goals.contains(g)
        &&& forall|h: Point| #[trigger]
            all.contains_key(h) ==> closest[g].total() <= all[h].total()
    } by {
        assert(from.contains_key(g));
        law_paths_repeat(cache, t, start, goals, from, all);
        assert forall|h: Point| #[trigger] all.contains_key(h) implies closest[g].total()
            <= all[h].total() by {
            assert(from.contains_key(h));
        }
    }
    if exists|g: Point| #[trigger] all.contains_key(g) {
        let g = choose|g: Point| #[trigger] all.contains_key(g);
        assert(from.contains_key(g));
        let h = choose|h: Point| #[trigger] closest.contains_key(h);
        assert(closest.contains_key(h));
    }
}

/// No two nodes lie at the same tile.
pub proof fn law_one_node_per_tile<N: Neighborhood>(cache: PathCache<N>, a: NodeID, b: NodeID)
    requires
        cache.wf(),
        cache.graph().contains_key(a),
        cache.graph().contains_key(b),
        cache.graph()[a].pos == cache.graph()[b].pos,
    ensures
        a == b,
{
    cache.lemma_nodes();
}

/// In two caches of the same chunk size, of grids that agree, whether created or updated,
/// nodes at the same tiles are connected in the same way and at the same costs.
pub proof fn law_connections_agree<N: Neighborhood, M: Neighborhood>(
    one: PathCache<N>,
    other: PathCache<M>,
    a: NodeID,
    b: NodeID,
    c: NodeID,
    d: NodeID,
)
    requires
        one.is_valid(),
        other.is_valid(),
        one.terrain().agrees_with(other.terrain()),
        one.settings().chunk_size == other.settings().chunk_size,
        one.graph().contains_key(a),
        one.graph().contains_key(b),
        other.graph().contains_key(c),
        other.graph().contains_key(d),
        one.graph()[a].pos == other.graph()[c].pos,
        one.graph()[b].pos == other.graph()[d].pos,
    ensures
        one.graph()[a].edges.contains_key(b) <==> other.graph()[c].edges.contains_key(d),
        one.graph()[a].edges.contains_key(b) ==> one.graph()[a].edges[b].total()
            == other.graph()[c].edges[d].total(),
{
    let cs = one.settings().chunk_size;
    let (t, u) = (one.terrain(), other.terrain());
    let (m, n) = (one.graph(), other.graph());
    let (known, other_known) = (one.settings().cache_paths, other.settings().cache_paths);
    one.lemma_nodes();
    other.lemma_nodes();
    lemma_ground_wf(t, one.surroundings());
    lemma_agreement_mutual(t, u);
    lemma_graph_of_agreeing(u, t, cs, other_known, n);
    if m[a].edges.contains_key(b) {
        lemma_linked_alike(t, cs, known, other_known, m, n, a, b, c, d);
        let (p, q) = (m[a].pos, m[b].pos);
        lemma_link_cost(t, cs, p, q, m[a].edges[b], n[c].edges[d]);
        lemma_link_cost(t, cs, p, q, n[c].edges[d], m[a].edges[b]);
    }
    if n[c].edges.contains_key(d) {
        lemma_linked_alike(t, cs, other_known, known, n, m, c, d, a, b);
    }
}

/// A connection costs no more than any other between the same tiles.
proof fn lemma_link_cost(
    t: Terrain,
    chunk_size: usize,
    p: Point,
    q: Point,
    one: PathSegment,
    other: PathSegment,
)
    requires
        is_link(t, chunk_size, p, q, one),
        is_link(t, chunk_size, p, q, other),
    ensures
        one.total() <= other.total(),
{
    let r = region_of(p, chunk_size, t.size);
    let s = choose|s: Seq<Point>| #[trigger] is_link_over(t, chunk_size, p, q, one, s);
    let u = choose|s: Seq<Point>| #[trigger] is_link_over(t, chunk_size, p, q, other, s);
    if r.contains(q) {
        assert(connects(t.edges(r), u, p, q));
    }
}

/// Where two nodes of one cache are connected, so are those of another at the same tiles.
proof fn lemma_linked_alike(
    t: Terrain,
    chunk_size: usize,
    known: bool,
    other_known: bool,
    m: Nodes,
    n: Nodes,
    a: NodeID,
    b: NodeID,
    c: NodeID,
    d: NodeID,
)
    requires
        t.wf(),
        0 < chunk_size,
        is_graph_of(t, chunk_size, known, m),
        is_graph_of(t, chunk_size, other_known, n),
        m.contains_key(a) && m.contains_key(b) && n.contains_key(c) && n.contains_key(d),
        m[a].pos == n[c].pos && m[b].pos == n[d].pos,
        m[a].edges.contains_key(b),
        forall|x: NodeID, y: NodeID| #[trigger]
            m.contains_key(x) && #[trigger] m.contains_key(y) && m[x].pos == m[y].pos ==> x == y,
    ensures
        n[c].edges.contains_key(d),
{
    assert(is_node_sound(t, chunk_size, m[a]));
    assert(is_node_sound(t, chunk_size, m[b]));
    lemma_link(t, chunk_size, m[a].pos, m[b].pos, m[a].edges[b]);
    assert(c != d) by {
        if c == d {
            assert(m.contains_key(a) && m.contains_key(b));
        }
    }
    assert(is_linked_inside(t, chunk_size, n, c, d));
    assert(is_linked_across(t, chunk_size, n, c, d));
}

/// A path stays one, at the same cost, when tiles change that do not lie on it.
pub proof fn law_unaffected_paths_stay(
    before: Terrain,
    after: Terrain,
    tiles: Seq<Point>,
    s: Seq<Point>,
    a: Point,
    b: Point,
    cost: nat,
)
    requires
        is_change_of(before, after, tiles),
        before.is_route(before.whole(), s, a, b, cost),
        forall|i: int| 0 <= i < s.len() ==> !tiles.contains(#[trigger] s[i]),
    ensures
        after.is_route(after.whole(), s, a, b, cost),
    decreases s.len(),
{
    let (e, f) = (before.edges(before.whole()), after.edges(after.whole()));
    assert forall|i: int| 0 <= i < s.len() - 1 implies #[trigger] linked(f, s, i) && f(
        s[i],
        s[i + 1],
    ) == e(s[i], s[i + 1]) by {
        assert(linked(e, s, i));
        assert(!tiles.contains(s[i]) && !tiles.contains(s[i + 1]));
        assert((after.cost)(s[i]) == (before.cost)(s[i]));
        assert((after.cost)(s[i + 1]) == (before.cost)(s[i + 1]));
        assert((after.adjacent)(s[i], s[i + 1]) == (before.adjacent)(s[i], s[i + 1]));
    }
    if s.len() > 1 {
        let d = s.drop_last();
        assert forall|i: int| 0 <= i < d.len() - 1 implies #[trigger] linked(e, d, i) by {
            assert(linked(e, s, i));
        }
        assert forall|i: int| 0 <= i < d.len() implies !tiles.contains(#[trigger] d[i]) by {
            assert(d[i] == s[i]);
        }
        law_unaffected_paths_stay(before, after, tiles, d, a, d.last(), walk_cost(e, d));
        assert(linked(f, s, s.len() - 2));
    }
}

/// Tiles lie in the same chunk if and only if their chunks have the same index, and each
/// index is one of a chunk.
pub proof fn law_chunk_indices_tell_chunks_apart<N: Neighborhood>(
    cache: PathCache<N>,
    a: Point,
    b: Point,
)
    requires
        cache.wf(),
        on_grid(a, cache.size()),
        on_grid(b, cache.size()),
    ensures
        chunk_index(a, cache.settings().chunk_size, cache.size()) == chunk_index(
            b,
            cache.settings().chunk_size,
            cache.size(),
        ) <==> region_of(a, cache.settings().chunk_size, cache.size()) == region_of(
            b,
            cache.settings().chunk_size,
            cache.size(),
        ),
        0 <= chunk_index(a, cache.settings().chunk_size, cache.size()) < chunk_count(
            cache.size().0 as int,
            cache.settings().chunk_size as int,
        ) * chunk_count(cache.size().1 as int, cache.settings().chunk_size as int),
{
    cache.lemma_nodes();
    lemma_same_chunk(a, b, cache.settings().chunk_size, cache.size());
    lemma_chunk_index(a, cache.settings().chunk_size, cache.size());
}

} // verus!

//! Where the nodes of a cache are, and how they are connected, in terms of tiles.

use vstd::arithmetic::div_mod::lemma_fundamental_div_mod;
use vstd::prelude::*;

use super::tiles::{
    is_free, is_same_square, is_trail_between, is_within, law_chunks_are_squares,
    lemma_trail_in_chunk, lemma_walk_is_trail, trail_cost,
};
use crate::dir::{next_tile, Dir};
use crate::neighbors::{ManhattanNeighborhood, Neighborhood};
use crate::path_cache::PathCache;
use crate::path_cache::creation::has_only_entrances;
use crate::path_cache::entrance::{is_entrance, is_entrance_to, is_passage_end};
use crate::path_cache::layout::{is_at_border, lemma_region_of, region_of};
use crate::path_cache::links::{
    has_node_at, is_link_over, is_linked_across, is_linked_inside, is_node_sound,
};
use crate::search::is_cheapest;
use crate::terrain::{lemma_ground_wf, Terrain};
use crate::{NodeID, Point};

verus! {

/// The tile `p` moved by `d` columns and `e` rows.
pub open spec fn moved(p: Point, d: int, e: int) -> Point {
    ((p.0 + d) as usize, (p.1 + e) as usize)
}

/// The tile moved by `d` columns and `e` rows lies on the grid.
pub open spec fn can_move(t: Terrain, p: Point, d: int, e: int) -> bool {
    0 <= p.0 + d < t.size.0 && 0 <= p.1 + e < t.size.1
}

/// One tile up, down, left or right.
pub open spec fn is_straight(d: int, e: int) -> bool {
    -1 <= d <= 1 && -1 <= e <= 1 && (d == 0) != (e == 0)
}

/// From the tile one can walk straight on, by `d` columns and `e` rows, into another chunk.
pub open spec fn is_gate(t: Terrain, chunk_size: usize, p: Point, d: int, e: int) -> bool {
    &&& is_straight(d, e)
    &&& is_free(t, p)
    &&& can_move(t, p, d, e)
    &&& is_free(t, moved(p, d, e))
    &&& !is_same_square(chunk_size, p, moved(p, d, e))
}

/// One can do so also from the tile next to `p` along the border, `f` columns and `g` rows
/// away, which lies in the same chunk.
pub open spec fn is_gate_beside(
    t: Terrain,
    chunk_size: usize,
    p: Point,
    d: int,
    e: int,
    f: int,
    g: int,
) -> bool {
    &&& can_move(t, p, f, g)
    &&& is_same_square(chunk_size, p, moved(p, f, g))
    &&& is_gate(t, chunk_size, moved(p, f, g), d, e)
}

/// `f` and `g` lead along the border that `d` and `e` lead across.
pub open spec fn is_along(d: int, e: int, f: int, g: int) -> bool {
    is_straight(d, e) && is_straight(f, g) && d * f + e * g == 0
}

/// The direction of a step.
pub open spec fn direction(d: int, e: int) -> Dir {
    if e < 0 {
        Dir::UP
    } else if d > 0 {
        Dir::RIGHT
    } else if e > 0 {
        Dir::DOWN
    } else {
        Dir::LEFT
    }
}

/// The columns of a step.
pub open spec fn columns(dir: Dir) -> int {
    match dir {
        Dir::RIGHT => 1,
        Dir::LEFT => -1,
        _ => 0,
    }
}

/// The rows of a step.
pub open spec fn rows(dir: Dir) -> int {
    match dir {
        Dir::DOWN => 1,
        Dir::UP => -1,
        _ => 0,
    }
}

/// What a direction is in terms of columns and rows.
pub proof fn lemma_direction(t: Terrain, chunk_size: usize, p: Point, d: int, e: int)
    requires
        0 < chunk_size,
        is_straight(d, e),
        p.0 < t.size.0,
        p.1 < t.size.1,
    ensures
        columns(direction(d, e)) == d,
        rows(direction(d, e)) == e,
        next_tile(p, direction(d, e), t.size) == if can_move(t, p, d, e) {
            Some(moved(p, d, e))
        } else {
            None
        },
        is_at_border(p, direction(d, e), chunk_size, t.size) <==> can_move(t, p, d, e)
            && !is_same_square(chunk_size, p, moved(p, d, e)),
{
    let r = region_of(p, chunk_size, t.size);
    let q = moved(p, d, e);
    lemma_region_of(p, chunk_size, t.size);
    law_chunks_are_squares(p, q, chunk_size, t.size);
    if can_move(t, p, d, e) {
        lemma_region_of(q, chunk_size, t.size);
    }
}

/// A straight direction and a step are the same thing.
pub proof fn lemma_columns_and_rows(dir: Dir)
    ensures
        is_straight(columns(dir), rows(dir)),
        direction(columns(dir), rows(dir)) == dir,
{
}

/// What it means that a passage ends at a tile.
proof fn lemma_passage_end(
    t: Terrain,
    chunk_size: usize,
    p: Point,
    d: int,
    e: int,
    f: int,
    g: int,
)
    requires
        t.wf(),
        0 < chunk_size,
        is_free(t, p),
        is_along(d, e, f, g),
        can_move(t, p, d, e),
        !is_same_square(chunk_size, p, moved(p, d, e)),
    ensures
        ({
            let r = region_of(p, chunk_size, t.size);
            let across = moved(p, d, e);
            let next = moved(p, f, g);
            let slanting = moved(p, d + f, e + g);
            is_passage_end(t, r, p, direction(d, e), direction(f, g)) <==> {
                ||| is_free(t, across) && !is_gate_beside(t, chunk_size, p, d, e, f, g)
                ||| {
                    &&& can_move(t, p, f, g)
                    &&& is_same_square(chunk_size, p, next)
                    &&& (t.adjacent)(p, slanting)
                    &&& is_free(t, slanting)
                    &&& !is_free(t, across)
                    &&& !is_free(t, next)
                }
                ||| {
                    &&& can_move(t, p, f, g)
                    &&& !is_same_square(chunk_size, p, next)
                    &&& (t.adjacent)(p, slanting)
                }
            }
        }),
        direction(f, g) == direction(d, e).turned() || direction(f, g) == direction(
            d,
            e,
        ).turned().back(),
        can_move(t, p, f, g) ==> moved(moved(p, f, g), d, e) == moved(p, d + f, e + g) && can_move(
            t,
            moved(p, f, g),
            d,
            e,
        ),
{
    let r = region_of(p, chunk_size, t.size);
    let next = moved(p, f, g);
    assert(d == 0 ==> g == 0 && e != 0) by (nonlinear_arith)
        requires
            is_straight(d, e),
            is_straight(f, g),
            d * f + e * g == 0,
    ;
    assert(e == 0 ==> f == 0 && d != 0) by (nonlinear_arith)
        requires
            is_straight(d, e),
            is_straight(f, g),
            d * f + e * g == 0,
    ;
    lemma_direction(t, chunk_size, p, d, e);
    lemma_direction(t, chunk_size, p, f, g);
    law_chunks_are_squares(p, next, chunk_size, t.size);
    if can_move(t, p, f, g) {
        lemma_direction(t, chunk_size, next, d, e);
        if is_same_square(chunk_size, p, next) {
            assert(!is_same_square(chunk_size, next, moved(next, d, e)));
        }
    }
}

/// Of the tiles in a row along a border from which one can walk straight on into the next
/// chunk, the first and the last one have a node, and so have the tiles across from them.
///
/// The row ends where the next tile along the border, on one of its two sides, lies in another
/// chunk, or is not such a tile.
pub proof fn law_passages_end_at_nodes<N: Neighborhood>(
    cache: PathCache<N>,
    p: Point,
    d: int,
    e: int,
    f: int,
    g: int,
) -> (ends: (NodeID, NodeID))
    requires
        cache.is_valid(),
        is_gate(cache.terrain(), cache.settings().chunk_size, p, d, e),
        is_along(d, e, f, g),
        !is_gate_beside(cache.terrain(), cache.settings().chunk_size, p, d, e, f, g),
    ensures
        cache.graph().contains_key(ends.0),
        cache.graph()[ends.0].pos == p,
        cache.graph().contains_key(ends.1),
        cache.graph()[ends.1].pos == moved(p, d, e),
        cache.graph()[ends.0].edges.contains_key(ends.1),
        cache.graph()[ends.1].edges.contains_key(ends.0),
{
    let (t, cs, nodes) = (cache.terrain(), cache.settings().chunk_size, cache.graph());
    let q = moved(p, d, e);
    cache.lemma_nodes();
    lemma_ground_wf(t, cache.surroundings());
    lemma_passage_end(t, cs, p, d, e, f, g);
    lemma_direction(t, cs, p, d, e);
    assert(is_entrance_to(t, cs, p, direction(d, e)));
    assert(is_entrance(t, cs, p));
    assert(has_node_at(nodes, p));
    assert(moved(q, -d, -e) == p);
    assert(is_along(-d, -e, f, g)) by {
        assert((-d) * f + (-e) * g == -(d * f + e * g)) by (nonlinear_arith);
    }
    lemma_passage_end(t, cs, q, -d, -e, f, g);
    lemma_direction(t, cs, q, -d, -e);
    assert(!is_gate_beside(t, cs, q, -d, -e, f, g)) by {
        if is_gate_beside(t, cs, q, -d, -e, f, g) {
            let (x, y) = (moved(p, f, g), moved(q, f, g));
            assert(can_move(t, p, f, g));
            assert(moved(y, -d, -e) == x && moved(x, d, e) == y);
            lemma_along_border(t, cs, p, d, e, f, g);
        }
    }
    assert(is_entrance_to(t, cs, q, direction(-d, -e)));
    assert(is_entrance(t, cs, q));
    assert(has_node_at(nodes, q));
    let a = choose|a: NodeID| #[trigger] nodes.contains_key(a) && nodes[a].pos == p;
    let b = choose|b: NodeID| #[trigger] nodes.contains_key(b) && nodes[b].pos == q;
    law_chunks_are_squares(p, q, cs, t.size);
    assert((t.adjacent)(p, q));
    assert(is_linked_across(t, cs, nodes, a, b));
    assert(is_linked_across(t, cs, nodes, b, a));
    (a, b)
}

/// Along a border one stays in the chunk on one side of it exactly as long as on the other.
proof fn lemma_along_border(
    t: Terrain,
    chunk_size: usize,
    p: Point,
    d: int,
    e: int,
    f: int,
    g: int,
)
    requires
        0 < chunk_size,
        is_along(d, e, f, g),
        can_move(t, p, d, e),
        can_move(t, p, f, g),
        p.0 < t.size.0,
        p.1 < t.size.1,
    ensures
        is_same_square(chunk_size, p, moved(p, f, g)) <==> is_same_square(
            chunk_size,
            moved(p, d, e),
            moved(moved(p, d, e), f, g),
        ),
        can_move(t, moved(p, d, e), f, g),
{
    assert(d == 0 ==> g == 0 && e != 0) by (nonlinear_arith)
        requires
            is_straight(d, e),
            is_straight(f, g),
            d * f + e * g == 0,
    ;
    assert(e == 0 ==> f == 0 && d != 0) by (nonlinear_arith)
        requires
            is_straight(d, e),
            is_straight(f, g),
            d * f + e * g == 0,
    ;
}

/// The `k`-th tile from `p` along a border.
pub open spec fn along(p: Point, f: int, g: int, k: int) -> Point {
    moved(p, k * f, k * g)
}

/// From the `k`-th tile along the border, which lies in the same chunk, one can walk straight
/// on into the next chunk.
pub open spec fn is_gate_along(
    t: Terrain,
    chunk_size: usize,
    p: Point,
    d: int,
    e: int,
    f: int,
    g: int,
    k: int,
) -> bool {
    &&& can_move(t, p, k * f, k * g)
    &&& is_same_square(chunk_size, p, along(p, f, g, k))
    &&& is_gate(t, chunk_size, along(p, f, g, k), d, e)
}

/// From each of the first tiles along the border, up to the `k`-th, one can walk straight on
/// into the next chunk.
pub open spec fn are_gates(
    t: Terrain,
    chunk_size: usize,
    p: Point,
    d: int,
    e: int,
    f: int,
    g: int,
    k: int,
) -> bool {
    forall|i: int| 0 <= i <= k ==> #[trigger] is_gate_along(t, chunk_size, p, d, e, f, g, i)
}

/// From a tile from which one can walk straight on into the next chunk, one gets to a node
/// along the border, in either direction, only over such tiles, in fewer steps than a chunk has
/// tiles along its side; across from the node there is another one.
pub proof fn law_gates_lead_to_nodes<N: Neighborhood>(
    cache: PathCache<N>,
    p: Point,
    d: int,
    e: int,
    f: int,
    g: int,
) -> (k: int)
    requires
        cache.is_valid(),
        is_gate(cache.terrain(), cache.settings().chunk_size, p, d, e),
        is_along(d, e, f, g),
    ensures
        0 <= k < cache.settings().chunk_size,
        are_gates(cache.terrain(), cache.settings().chunk_size, p, d, e, f, g, k),
        has_node(cache, along(p, f, g, k)),
        has_node(cache, moved(along(p, f, g, k), d, e)),
{
    let (t, cs) = (cache.terrain(), cache.settings().chunk_size);
    cache.lemma_nodes();
    assert(along(p, f, g, 0) == p);
    assert(are_gates(t, cs, p, d, e, f, g, 0)) by {
        assert forall|i: int| 0 <= i <= 0 implies #[trigger] is_gate_along(
            t,
            cs,
            p,
            d,
            e,
            f,
            g,
            i,
        ) by {
            assert(i == 0);
            assert(0 * f == 0 && 0 * g == 0);
        }
    }
    lemma_gates_end(cache, p, d, e, f, g, 0)
}

/// There is a node at the tile.
pub open spec fn has_node<N: Neighborhood>(cache: PathCache<N>, p: Point) -> bool {
    exists|a: NodeID| #[trigger] cache.graph().contains_key(a) && cache.graph()[a].pos == p
}

/// A row of tiles along a border cannot be longer than the side of a chunk.
proof fn lemma_row_fits(chunk_size: usize, p: Point, f: int, g: int, k: int)
    requires
        0 < chunk_size,
        is_straight(f, g),
        0 <= k,
        0 <= p.0 + k * f <= usize::MAX,
        0 <= p.1 + k * g <= usize::MAX,
        is_same_square(chunk_size, p, along(p, f, g, k)),
    ensures
        k < chunk_size,
{
    let q = along(p, f, g, k);
    let cs = chunk_size as int;
    assert(k * f == k || k * f == -k || k * g == k || k * g == -k) by (nonlinear_arith)
        requires
            is_straight(f, g),
    ;
    lemma_fundamental_div_mod(p.0 as int, cs);
    lemma_fundamental_div_mod(p.1 as int, cs);
    lemma_fundamental_div_mod(q.0 as int, cs);
    lemma_fundamental_div_mod(q.1 as int, cs);
}

/// The row ends at a node.
proof fn lemma_gates_end<N: Neighborhood>(
    cache: PathCache<N>,
    p: Point,
    d: int,
    e: int,
    f: int,
    g: int,
    from: int,
) -> (k: int)
    requires
        cache.is_valid(),
        is_along(d, e, f, g),
        0 <= from < cache.settings().chunk_size,
        are_gates(cache.terrain(), cache.settings().chunk_size, p, d, e, f, g, from),
    ensures
        from <= k < cache.settings().chunk_size,
        are_gates(cache.terrain(), cache.settings().chunk_size, p, d, e, f, g, k),
        has_node(cache, along(p, f, g, k)),
        has_node(cache, moved(along(p, f, g, k), d, e)),
    decreases cache.settings().chunk_size - from,
{
    let (t, cs) = (cache.terrain(), cache.settings().chunk_size);
    let x = along(p, f, g, from);
    assert(is_gate_along(t, cs, p, d, e, f, g, from));
    if is_gate_beside(t, cs, x, d, e, f, g) {
        let y = along(p, f, g, from + 1);
        assert((from + 1) * f == from * f + f && (from + 1) * g == from * g + g)
            by (nonlinear_arith);
        assert(y == moved(x, f, g));
        assert(is_gate_along(t, cs, p, d, e, f, g, from + 1));
        lemma_row_fits(cs, p, f, g, from + 1);
        lemma_gates_end(cache, p, d, e, f, g, from + 1)
    } else {
        let (a, b) = law_passages_end_at_nodes(cache, x, d, e, f, g);
        assert(has_node(cache, x));
        assert(has_node(cache, moved(x, d, e)));
        from
    }
}

/// Where one can walk diagonally into the next chunk, but neither straight on nor along the
/// border, there are nodes on both sides.
pub proof fn law_slanting_passages_have_nodes<N: Neighborhood>(
    cache: PathCache<N>,
    p: Point,
    d: int,
    e: int,
    f: int,
    g: int,
)
    requires
        cache.is_valid(),
        is_along(d, e, f, g),
        can_move(cache.terrain(), p, d + f, e + g),
        is_free(cache.terrain(), p),
        is_free(cache.terrain(), moved(p, d + f, e + g)),
        cache.surroundings().adjacent(p, moved(p, d + f, e + g)),
        !is_free(cache.terrain(), moved(p, d, e)),
        !is_free(cache.terrain(), moved(p, f, g)),
        !is_same_square(cache.settings().chunk_size, p, moved(p, d, e)),
        is_same_square(cache.settings().chunk_size, p, moved(p, f, g)),
    ensures
        has_node(cache, p),
        has_node(cache, moved(p, d + f, e + g)),
{
    let (t, cs, nodes) = (cache.terrain(), cache.settings().chunk_size, cache.graph());
    let q = moved(p, d + f, e + g);
    cache.lemma_nodes();
    lemma_ground_wf(t, cache.surroundings());
    lemma_crosswise(d, e, f, g);
    assert((t.adjacent)(p, q));
    assert((t.adjacent)(q, p));
    lemma_passage_end(t, cs, p, d, e, f, g);
    lemma_direction(t, cs, p, d, e);
    assert(is_entrance_to(t, cs, p, direction(d, e)));
    assert(is_entrance(t, cs, p));
    assert(has_node_at(nodes, p));
    lemma_along_border(t, cs, p, d, e, f, g);
    lemma_crosswise(-d, -e, -f, -g);
    assert(moved(q, -d, -e) == moved(p, f, g));
    assert(moved(q, -f, -g) == moved(p, d, e));
    assert(moved(q, -d + -f, -e + -g) == p);
    assert(is_same_square(cs, q, moved(q, -f, -g)));
    assert(!is_same_square(cs, q, moved(q, -d, -e)));
    lemma_passage_end(t, cs, q, -d, -e, -f, -g);
    lemma_direction(t, cs, q, -d, -e);
    assert(is_entrance_to(t, cs, q, direction(-d, -e)));
    assert(is_entrance(t, cs, q));
    assert(has_node_at(nodes, q));
}

/// Which of the steps are along the columns and which along the rows.
proof fn lemma_crosswise(d: int, e: int, f: int, g: int)
    requires
        is_straight(d, e),
        is_straight(f, g),
        d * f + e * g == 0 || (-d) * (-f) + (-e) * (-g) == 0 || (-d) * f + (-e) * g == 0,
    ensures
        d == 0 ==> g == 0 && e != 0 && f != 0,
        e == 0 ==> f == 0 && d != 0 && g != 0,
        is_along(d, e, f, g),
        is_along(-d, -e, f, g),
        is_along(-d, -e, -f, -g),
{
    assert((-d) * (-f) + (-e) * (-g) == d * f + e * g) by (nonlinear_arith);
    assert((-d) * f + (-e) * g == -(d * f + e * g)) by (nonlinear_arith);
    assert(d == 0 ==> g == 0 && e != 0) by (nonlinear_arith)
        requires
            is_straight(d, e),
            is_straight(f, g),
            d * f + e * g == 0,
    ;
    assert(e == 0 ==> f == 0 && d != 0) by (nonlinear_arith)
        requires
            is_straight(d, e),
            is_straight(f, g),
            d * f + e * g == 0,
    ;
}

/// At a corner of a chunk from which a diagonal step leads into a chunk that shares only this
/// corner, there is a node.
pub proof fn law_corners_have_nodes<N: Neighborhood>(
    cache: PathCache<N>,
    p: Point,
    q: Point,
)
    requires
        cache.is_valid(),
        is_free(cache.terrain(), p),
        cache.surroundings().adjacent(p, q),
        p.0 / cache.settings().chunk_size != q.0 / cache.settings().chunk_size,
        p.1 / cache.settings().chunk_size != q.1 / cache.settings().chunk_size,
    ensures
        has_node(cache, p),
{
    let (t, cs, nodes) = (cache.terrain(), cache.settings().chunk_size, cache.graph());
    cache.lemma_nodes();
    lemma_ground_wf(t, cache.surroundings());
    assert((t.adjacent)(p, q));
    let (d, g) = (q.0 - p.0, q.1 - p.1);
    assert(d * 0 + 0 * g == 0) by (nonlinear_arith);
    assert(is_along(d, 0, 0, g));
    assert(moved(p, d, g) == q);
    lemma_passage_end(t, cs, p, d, 0, 0, g);
    lemma_direction(t, cs, p, d, 0);
    assert(is_entrance_to(t, cs, p, direction(d, 0)));
    assert(is_entrance(t, cs, p));
    assert(has_node_at(nodes, p));
}

/// The tile is the first or the last of a row along a border from which one can walk straight
/// on into the next chunk.
pub open spec fn is_gate_end(t: Terrain, chunk_size: usize, p: Point) -> bool {
    exists|d: int, e: int, f: int, g: int| #[trigger]
        is_gate_end_towards(t, chunk_size, p, d, e, f, g)
}

/// The row across the border to which `d` and `e` lead ends at the tile, where `f` and `g` lead.
pub open spec fn is_gate_end_towards(
    t: Terrain,
    chunk_size: usize,
    p: Point,
    d: int,
    e: int,
    f: int,
    g: int,
) -> bool {
    &&& is_along(d, e, f, g)
    &&& is_gate(t, chunk_size, p, d, e)
    &&& !is_gate_beside(t, chunk_size, p, d, e, f, g)
}

/// From the tile a diagonal step leads to `q`, across a border or a corner: into a chunk that
/// shares only a corner with that of `p`, or past two tiles that cannot be walked over.
pub open spec fn is_slanting(t: Terrain, chunk_size: usize, p: Point, q: Point) -> bool {
    &&& (t.adjacent)(p, q)
    &&& p.0 != q.0
    &&& p.1 != q.1
    &&& {
        ||| p.0 / chunk_size != q.0 / chunk_size && p.1 / chunk_size != q.1 / chunk_size
        ||| {
            &&& !is_same_square(chunk_size, p, q)
            &&& is_free(t, q)
            &&& !is_free(t, (p.0, q.1))
            &&& !is_free(t, (q.0, p.1))
        }
    }
}

/// In a cache that has just been created, there are no other nodes: each one is the first or
/// the last of a row of tiles from which one can walk straight on into the next chunk, or a
/// diagonal step leads from it into another chunk.
pub proof fn law_nodes_are_at_the_ends_of_passages<N: Neighborhood>(
    cache: PathCache<N>,
    a: NodeID,
)
    requires
        cache.is_valid(),
        has_only_entrances(cache.terrain(), cache.settings().chunk_size, cache.graph()),
        cache.graph().contains_key(a),
    ensures
        ({
            let (t, cs, p) = (
                cache.terrain(),
                cache.settings().chunk_size,
                cache.graph()[a].pos,
            );
            &&& is_free(t, p)
            &&& cache.graph()[a].walk_cost == (t.cost)(p)
            &&& is_gate_end(t, cs, p) || exists|q: Point| #[trigger] is_slanting(t, cs, p, q)
        }),
{
    let (t, cs, p) = (cache.terrain(), cache.settings().chunk_size, cache.graph()[a].pos);
    assert(is_node_sound(t, cs, cache.graph()[a]));
    lemma_entrance_ends_passage(cache, p);
}

/// An entrance in terms of columns and rows.
pub proof fn lemma_entrance_ends_passage<N: Neighborhood>(cache: PathCache<N>, p: Point)
    requires
        cache.is_valid(),
        is_entrance(cache.terrain(), cache.settings().chunk_size, p),
    ensures
        is_gate_end(cache.terrain(), cache.settings().chunk_size, p) || exists|q: Point| #[trigger]
            is_slanting(cache.terrain(), cache.settings().chunk_size, p, q),
{
    let (t, cs) = (cache.terrain(), cache.settings().chunk_size);
    cache.lemma_nodes();
    lemma_ground_wf(t, cache.surroundings());
    let dir = choose|dir: Dir| #[trigger] is_entrance_to(t, cs, p, dir);
    let r = region_of(p, cs, t.size);
    let side = if is_passage_end(t, r, p, dir, dir.turned()) {
        dir.turned()
    } else {
        dir.turned().back()
    };
    let (d, e, f, g) = (columns(dir), rows(dir), columns(side), rows(side));
    lemma_columns_and_rows(dir);
    lemma_columns_and_rows(side);
    lemma_direction(t, cs, p, d, e);
    assert(d * f + e * g == 0) by (nonlinear_arith)
        requires
            d == 0 && g == 0 || e == 0 && f == 0,
    ;
    lemma_passage_end(t, cs, p, d, e, f, g);
    let q = moved(p, d + f, e + g);
    if is_free(t, moved(p, d, e)) && !is_gate_beside(t, cs, p, d, e, f, g) {
        assert(is_gate_end_towards(t, cs, p, d, e, f, g));
    } else {
        assert((t.adjacent)(p, q));
        lemma_along_border(t, cs, p, d, e, f, g);
        assert(is_slanting(t, cs, p, q));
    }
}

/// In a cache of the straight neighborhood that has just been created, there is a node at a
/// tile if and only if it is the first or the last of a row of tiles along a border from which
/// one can walk straight on into the next chunk.
pub proof fn law_straight_nodes_are_the_ends_of_passages(
    cache: PathCache<ManhattanNeighborhood>,
    p: Point,
)
    requires
        cache.is_valid(),
        has_only_entrances(cache.terrain(), cache.settings().chunk_size, cache.graph()),
    ensures
        has_node(cache, p) <==> is_gate_end(cache.terrain(), cache.settings().chunk_size, p),
{
    let (t, cs) = (cache.terrain(), cache.settings().chunk_size);
    if has_node(cache, p) {
        let a = choose|a: NodeID| #[trigger]
            cache.graph().contains_key(a) && cache.graph()[a].pos == p;
        law_nodes_are_at_the_ends_of_passages(cache, a);
    }
    if is_gate_end(t, cs, p) {
        let (d, e, f, g) = choose|d: int, e: int, f: int, g: int| #[trigger]
            is_gate_end_towards(t, cs, p, d, e, f, g);
        let ends = law_passages_end_at_nodes(cache, p, d, e, f, g);
    }
}

/// Two nodes of a chunk between which one can walk within the chunk are connected, and the
/// connection costs no more than any way between them there.
pub proof fn law_nodes_of_a_chunk_are_connected<N: Neighborhood>(
    cache: PathCache<N>,
    a: NodeID,
    b: NodeID,
    s: Seq<Point>,
)
    requires
        cache.is_valid(),
        cache.graph().contains_key(a),
        cache.graph().contains_key(b),
        a != b,
        is_trail_between(cache.terrain(), s, cache.graph()[a].pos, cache.graph()[b].pos),
        is_within(cache.settings().chunk_size, cache.graph()[a].pos, s),
    ensures
        cache.graph()[a].edges.contains_key(b),
        cache.graph()[a].edges[b].total() <= trail_cost(cache.terrain(), s),
{
    let (t, cs, nodes) = (cache.terrain(), cache.settings().chunk_size, cache.graph());
    let (p, q) = (nodes[a].pos, nodes[b].pos);
    cache.lemma_nodes();
    assert(is_free(t, s[0]) && is_free(t, s[s.len() - 1]));
    assert(is_same_square(cs, p, s[s.len() - 1]));
    lemma_trail_in_chunk(t, cs, p, s);
    law_chunks_are_squares(p, q, cs, t.size);
    assert(is_linked_inside(t, cs, nodes, a, b));
    let u = choose|u: Seq<Point>| #[trigger] is_link_over(t, cs, p, q, nodes[a].edges[b], u);
    assert(is_cheapest(
        t.edges(region_of(p, cs, t.size)),
        p,
        q,
        nodes[a].edges[b].total() as nat,
    ));
}

/// A connection between nodes of a chunk stands for a way between them within the chunk, at its
/// cost.
pub proof fn law_connections_stay_in_their_chunk<N: Neighborhood>(
    cache: PathCache<N>,
    a: NodeID,
    b: NodeID,
) -> (s: Seq<Point>)
    requires
        cache.is_valid(),
        cache.graph().contains_key(a),
        cache.graph()[a].edges.contains_key(b),
        is_same_square(
            cache.settings().chunk_size,
            cache.graph()[a].pos,
            cache.graph()[b].pos,
        ),
    ensures
        is_trail_between(cache.terrain(), s, cache.graph()[a].pos, cache.graph()[b].pos),
        is_within(cache.settings().chunk_size, cache.graph()[a].pos, s),
        trail_cost(cache.terrain(), s) == cache.graph()[a].edges[b].total(),
        cache.graph()[a].edges[b].count() == s.len(),
{
    let (t, cs, nodes) = (cache.terrain(), cache.settings().chunk_size, cache.graph());
    let (p, q) = (nodes[a].pos, nodes[b].pos);
    cache.lemma_nodes();
    assert(is_node_sound(t, cs, nodes[a]));
    assert(nodes.contains_key(b));
    assert(is_node_sound(t, cs, nodes[b]));
    law_chunks_are_squares(p, q, cs, t.size);
    let r = region_of(p, cs, t.size);
    lemma_region_of(p, cs, t.size);
    let s = choose|s: Seq<Point>| #[trigger] is_link_over(t, cs, p, q, nodes[a].edges[b], s);
    lemma_walk_is_trail(t, r, s);
    assert forall|i: int| 0 <= i < s.len() implies is_same_square(cs, p, #[trigger] s[i]) by {
        assert(r.contains(s[i]));
        law_chunks_are_squares(p, s[i], cs, t.size);
    }
    s
}

/// Nodes of different chunks are connected if and only if they lie next to each other; walking
/// over the connection costs the tile that one leaves.
pub proof fn law_nodes_next_to_each_other_are_connected<N: Neighborhood>(
    cache: PathCache<N>,
    a: NodeID,
    b: NodeID,
)
    requires
        cache.is_valid(),
        cache.graph().contains_key(a),
        cache.graph().contains_key(b),
        !is_same_square(
            cache.settings().chunk_size,
            cache.graph()[a].pos,
            cache.graph()[b].pos,
        ),
    ensures
        cache.graph()[a].edges.contains_key(b) <==> cache.surroundings().adjacent(
            cache.graph()[a].pos,
            cache.graph()[b].pos,
        ),
        cache.graph()[a].edges.contains_key(b) ==> cache.graph()[a].edges[b].total() == (
        cache.terrain().cost)(cache.graph()[a].pos),
{
    let (t, cs, nodes) = (cache.terrain(), cache.settings().chunk_size, cache.graph());
    let (p, q) = (nodes[a].pos, nodes[b].pos);
    cache.lemma_nodes();
    assert(is_node_sound(t, cs, nodes[a]));
    assert(is_node_sound(t, cs, nodes[b]));
    law_chunks_are_squares(p, q, cs, t.size);
    assert(is_linked_across(t, cs, nodes, a, b));
    assert((t.adjacent)(p, q) == cache.surroundings().adjacent(p, q));
    if nodes[a].edges.contains_key(b) {
        let s = choose|s: Seq<Point>| #[trigger] is_link_over(t, cs, p, q, nodes[a].edges[b], s);
        assert(is_link_over(t, cs, p, q, nodes[a].edges[b], s));
    }
}

/// Each node stands on a tile that can be walked over, whose cost it knows, and next to which
/// there is a tile of another chunk.
pub proof fn law_nodes_stand_at_borders<N: Neighborhood>(
    cache: PathCache<N>,
    a: NodeID,
) -> (q: Point)
    requires
        cache.is_valid(),
        cache.graph().contains_key(a),
    ensures
        is_free(cache.terrain(), cache.graph()[a].pos),
        cache.graph()[a].walk_cost == (cache.terrain().cost)(cache.graph()[a].pos),
        q.0 < cache.size().0,
        q.1 < cache.size().1,
        cache.surroundings().adjacent(cache.graph()[a].pos, q),
        !is_same_square(cache.settings().chunk_size, cache.graph()[a].pos, q),
        cache.graph()[a].pos.0 == q.0 || cache.graph()[a].pos.1 == q.1,
{
    let (t, cs, p) = (cache.terrain(), cache.settings().chunk_size, cache.graph()[a].pos);
    cache.lemma_nodes();
    lemma_ground_wf(t, cache.surroundings());
    assert(is_node_sound(t, cs, cache.graph()[a]));
    let dir = choose|dir: Dir| #[trigger] is_at_border(p, dir, cs, t.size);
    lemma_columns_and_rows(dir);
    lemma_direction(t, cs, p, columns(dir), rows(dir));
    let q = moved(p, columns(dir), rows(dir));
    assert((t.adjacent)(p, q));
    q
}

} // verus!

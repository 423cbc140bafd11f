//! What holds of updating a cache.

use vstd::prelude::*;

use super::{law_connections_agree, law_one_node_per_tile};
use crate::dir::{next_tile, Dir};
use crate::neighbors::{gap, on_grid, Neighborhood};
use crate::path_cache::PathCache;
use crate::path_cache::changes::changed_terrain;
use crate::path_cache::creation::has_only_entrances;
use crate::path_cache::entrance::{is_entrance, is_entrance_to, is_passage_end};
use crate::path_cache::layout::{is_at_border, lemma_region_of, region_of};
use crate::path_cache::links::{
    has_node_at, is_link_over, is_linked_inside, is_node_sound, lemma_entrances_agree, Nodes,
};
use crate::path_cache::renew::{
    is_affected, is_beside, is_facing, is_renewed_by, is_renewed_by_at, is_side_changed,
    lemma_chunk_across,
};
use crate::path_cache::update::{are_updated, is_change_of, lemma_same_steps};
use crate::terrain::{lemma_agreement_mutual, Terrain};
use crate::walk::connects;
use crate::{NodeID, Point};

verus! {

/// The cache `after` is the cache `before` after a change of the given tiles.
pub open spec fn is_update<N: Neighborhood, M: Neighborhood>(
    before: PathCache<N>,
    after: PathCache<M>,
    tiles: Seq<Point>,
) -> bool {
    &&& before.is_valid()
    &&& after.is_valid()
    &&& after.settings() == before.settings()
    &&& forall|p: Point| #[trigger] tiles.contains(p) ==> on_grid(p, before.size())
    &&& is_change_of(before.terrain(), after.terrain(), tiles)
    &&& are_updated(
        after.terrain(),
        after.settings().chunk_size,
        before.graph(),
        after.graph(),
        tiles,
    )
}

/// If the nodes `c` and `d` are at the tiles of the nodes `a` and `b`, they are connected as
/// these are, at the same cost.
pub open spec fn is_connected_alike(
    m: Nodes,
    n: Nodes,
    a: NodeID,
    b: NodeID,
    c: NodeID,
    d: NodeID,
) -> bool {
    m[a].pos == n[c].pos && m[b].pos == n[d].pos ==> {
        &&& m[a].edges.contains_key(b) <==> n[c].edges.contains_key(d)
        &&& m[a].edges.contains_key(b) ==> m[a].edges[b].total() == n[c].edges[d].total()
    }
}

/// Nodes at the same tiles are connected in the same way and at the same costs.
pub open spec fn are_connected_alike(m: Nodes, n: Nodes) -> bool {
    forall|a: NodeID, b: NodeID, c: NodeID, d: NodeID|
        m.contains_key(a) && m.contains_key(b) && n.contains_key(c) && n.contains_key(d)
            ==> #[trigger] is_connected_alike(m, n, a, b, c, d)
}

/// In caches of grids that agree, nodes at the same tiles are connected alike.
proof fn lemma_connected_alike<N: Neighborhood, M: Neighborhood>(
    one: PathCache<N>,
    other: PathCache<M>,
)
    requires
        one.is_valid(),
        other.is_valid(),
        one.terrain().agrees_with(other.terrain()),
        one.settings().chunk_size == other.settings().chunk_size,
    ensures
        are_connected_alike(one.graph(), other.graph()),
{
    let (m, n) = (one.graph(), other.graph());
    assert forall|a: NodeID, b: NodeID, c: NodeID, d: NodeID|
        m.contains_key(a) && m.contains_key(b) && n.contains_key(c) && n.contains_key(
            d,
        ) implies #[trigger] is_connected_alike(m, n, a, b, c, d) by {
        if m[a].pos == n[c].pos && m[b].pos == n[d].pos {
            law_connections_agree(one, other, a, b, c, d);
        }
    }
}

/// Where no cost has changed, the nodes of a cache that has just been created are created
/// anew at the tiles where they were, and connected as they were.
pub proof fn law_unchanged_costs_keep_nodes<N: Neighborhood, M: Neighborhood>(
    before: PathCache<N>,
    after: PathCache<M>,
    tiles: Seq<Point>,
)
    requires
        is_update(before, after, tiles),
        before.terrain().agrees_with(after.terrain()),
        has_only_entrances(before.terrain(), before.settings().chunk_size, before.graph()),
    ensures
        forall|p: Point| #[trigger]
            has_node_at(after.graph(), p) <==> has_node_at(before.graph(), p),
        has_only_entrances(after.terrain(), after.settings().chunk_size, after.graph()),
        are_connected_alike(before.graph(), after.graph()),
{
    let cs = before.settings().chunk_size;
    let (t, u) = (before.terrain(), after.terrain());
    let (m, n) = (before.graph(), after.graph());
    lemma_agreement_mutual(t, u);
    assert forall|p: Point| #[trigger] has_node_at(m, p) implies is_entrance(u, cs, p) by {
        let a = choose|a: NodeID| #[trigger] m.contains_key(a) && m[a].pos == p;
        lemma_entrances_agree(t, u, cs, p);
    }
    assert forall|p: Point| #[trigger] has_node_at(n, p) <==> has_node_at(m, p) by {
        if is_entrance(u, cs, p) {
            lemma_entrances_agree(u, t, cs, p);
        }
    }
    assert forall|a: NodeID| #[trigger] n.contains_key(a) implies is_entrance(u, cs, n[a].pos) by {
        assert(has_node_at(n, n[a].pos));
        assert(has_node_at(m, n[a].pos));
    }
    lemma_connected_alike(before, after);
}

/// Where nothing has changed, nothing changes: the nodes stay as they are, with the same
/// numbers and the same connections.
pub proof fn law_no_change_keeps_all<N: Neighborhood, M: Neighborhood>(
    before: PathCache<N>,
    after: PathCache<M>,
)
    requires
        is_update(before, after, Seq::<Point>::empty()),
    ensures
        after.graph().dom() == before.graph().dom(),
        forall|a: NodeID| #[trigger]
            before.graph().contains_key(a) ==> {
                &&& after.graph()[a].pos == before.graph()[a].pos
                &&& after.graph()[a].walk_cost == before.graph()[a].walk_cost
                &&& after.graph()[a].edges.dom() == before.graph()[a].edges.dom()
                &&& forall|b: NodeID| #[trigger]
                    before.graph()[a].edges.contains_key(b)
                        ==> after.graph()[a].edges[b].total()
                        == before.graph()[a].edges[b].total()
            },
{
    let cs = before.settings().chunk_size;
    let (t, u) = (before.terrain(), after.terrain());
    let (m, n) = (before.graph(), after.graph());
    let none = Seq::<Point>::empty();
    assert(t.agrees_with(u)) by {
        assert forall|a: Point, b: Point| #[trigger] (t.adjacent)(a, b) == (u.adjacent)(a, b) by {
            assert((u.adjacent)(a, b) == (t.adjacent)(a, b));
        }
        assert forall|p: Point| on_grid(p, t.size) implies #[trigger] (t.cost)(p) == (u.cost)(
            p,
        ) by {
            assert((u.cost)(p) == (t.cost)(p));
        }
    }
    lemma_agreement_mutual(t, u);
    assert forall|p: Point| !#[trigger] is_renewed_by(none, p, cs, u.size) by {
        assert forall|dir: Dir| !#[trigger] is_renewed_by_at(none, p, dir, cs, u.size) by {
            assert forall|q: Point| !#[trigger] none.contains(q) by {}
        }
    }
    assert forall|a: NodeID| #[trigger] m.contains_key(a) implies {
        &&& n.contains_key(a)
        &&& n[a].pos == m[a].pos
        &&& n[a].walk_cost == m[a].walk_cost
    } by {
        assert(!is_renewed_by(none, m[a].pos, cs, u.size));
    }
    assert forall|a: NodeID| #[trigger] n.contains_key(a) implies m.contains_key(a) by {
        let p = n[a].pos;
        assert(has_node_at(n, p));
        if is_entrance(u, cs, p) {
            lemma_entrances_agree(u, t, cs, p);
        }
        assert(has_node_at(m, p));
        let b = choose|b: NodeID| #[trigger] m.contains_key(b) && m[b].pos == p;
        law_one_node_per_tile(after, a, b);
    }
    assert(n.dom() =~= m.dom());
    assert forall|a: NodeID| #[trigger] m.contains_key(a) implies {
        &&& n[a].edges.dom() == m[a].edges.dom()
        &&& forall|b: NodeID| #[trigger]
            m[a].edges.contains_key(b) ==> n[a].edges[b].total() == m[a].edges[b].total()
    } by {
        assert forall|b: NodeID| n[a].edges.contains_key(b) <==> #[trigger]
            m[a].edges.contains_key(b) by {
            if m[a].edges.contains_key(b) {
                assert(m.contains_key(b) && n.contains_key(b));
                law_connections_agree(before, after, a, b, a, b);
            }
            if n[a].edges.contains_key(b) {
                assert(n.contains_key(b) && m.contains_key(b));
                law_connections_agree(before, after, a, b, a, b);
            }
        }
        assert forall|b: NodeID| n[a].edges.dom().contains(b) <==> m[a].edges.dom().contains(
            b,
        ) by {
            assert(n[a].edges.contains_key(b) <==> m[a].edges.contains_key(b));
        }
        assert(n[a].edges.dom() =~= m[a].edges.dom());
        assert forall|b: NodeID| #[trigger] m[a].edges.contains_key(b) implies n[a].edges[b].total()
            == m[a].edges[b].total() by {
            assert(m.contains_key(b) && n.contains_key(b));
            law_connections_agree(before, after, a, b, a, b);
        }
    }
}

/// The order in which the changed tiles are named, and how often each of them is, makes no
/// difference, nor does it which of the two functions updates the cache: of a cache and one
/// with nodes at the same tiles, such as a clone, the grids agree after the update, and the
/// nodes are at the same tiles, connected alike.
pub proof fn law_order_of_tiles_is_irrelevant<
    N: Neighborhood,
    M: Neighborhood,
    F: FnMut(Point) -> isize,
>(
    before: PathCache<N>,
    copy: PathCache<N>,
    one: PathCache<M>,
    other: PathCache<M>,
    get_cost: F,
    tiles: Seq<Point>,
    same_tiles: Seq<Point>,
)
    requires
        copy.settings() == before.settings(),
        copy.terrain() == before.terrain(),
        forall|p: Point| #[trigger]
            has_node_at(copy.graph(), p) <==> has_node_at(before.graph(), p),
        is_update(before, one, tiles),
        is_update(copy, other, same_tiles),
        one.terrain() == changed_terrain(before.terrain(), get_cost, tiles),
        other.terrain() == changed_terrain(copy.terrain(), get_cost, same_tiles),
        forall|p: Point| #[trigger] tiles.contains(p) <==> same_tiles.contains(p),
    ensures
        one.terrain().agrees_with(other.terrain()),
        forall|p: Point| #[trigger]
            has_node_at(one.graph(), p) <==> has_node_at(other.graph(), p),
        are_connected_alike(one.graph(), other.graph()),
{
    let cs = before.settings().chunk_size;
    let (t, u) = (one.terrain(), other.terrain());
    assert forall|p: Point| on_grid(p, t.size) implies #[trigger] (t.cost)(p) == (u.cost)(p) by {
        assert(tiles.contains(p) <==> same_tiles.contains(p));
    }
    lemma_agreement_mutual(t, u);
    lemma_connected_alike(one, other);
    assert forall|p: Point| #[trigger] has_node_at(one.graph(), p) <==> has_node_at(
        other.graph(),
        p,
    ) by {
        if is_renewed_by(tiles, p, cs, t.size) {
            lemma_renewed_alike(tiles, same_tiles, p, cs, t.size);
        }
        if is_renewed_by(same_tiles, p, cs, t.size) {
            lemma_renewed_alike(same_tiles, tiles, p, cs, t.size);
        }
        if is_entrance(t, cs, p) {
            lemma_entrances_agree(t, u, cs, p);
        }
        if is_entrance(u, cs, p) {
            lemma_entrances_agree(u, t, cs, p);
        }
    }
}

/// Which nodes have to be created anew depends on which tiles have changed alone.
proof fn lemma_renewed_alike(
    tiles: Seq<Point>,
    same_tiles: Seq<Point>,
    p: Point,
    chunk_size: usize,
    size: (usize, usize),
)
    requires
        is_renewed_by(tiles, p, chunk_size, size),
        forall|q: Point| tiles.contains(q) ==> #[trigger] same_tiles.contains(q),
    ensures
        is_renewed_by(same_tiles, p, chunk_size, size),
{
    let dir = choose|dir: Dir| #[trigger] is_renewed_by_at(tiles, p, dir, chunk_size, size);
    let r = region_of(p, chunk_size, size);
    let origin = (r.left, r.top);
    if is_side_changed(tiles, origin, dir, chunk_size, size) {
        let q = choose|q: Point| #[trigger]
            tiles.contains(q) && is_facing(q, origin, dir, chunk_size, size);
        assert(same_tiles.contains(q));
    }
    assert(same_tiles.contains(p) || !tiles.contains(p));
    assert(is_renewed_by_at(same_tiles, p, dir, chunk_size, size));
}

/// In a chunk that the change does not affect, no node is added and none is removed; those
/// that are there keep their numbers and costs.
pub proof fn law_unaffected_chunks_keep_nodes<N: Neighborhood, M: Neighborhood>(
    before: PathCache<N>,
    after: PathCache<M>,
    tiles: Seq<Point>,
    p: Point,
)
    requires
        is_update(before, after, tiles),
        on_grid(p, before.size()),
        !is_affected(tiles, p, before.settings().chunk_size, before.size()),
    ensures
        has_node_at(after.graph(), p) <==> has_node_at(before.graph(), p),
        forall|a: NodeID| #[trigger]
            before.graph().contains_key(a) && before.graph()[a].pos == p ==> {
                &&& after.graph().contains_key(a)
                &&& after.graph()[a].pos == p
                &&& after.graph()[a].walk_cost == before.graph()[a].walk_cost
            },
{
    let (cs, size) = (before.settings().chunk_size, before.size());
    before.lemma_nodes();
    if is_renewed_by(tiles, p, cs, size) {
        lemma_renewed_is_affected(tiles, p, cs, size);
    }
    if is_entrance(after.terrain(), cs, p) {
        lemma_entrance_unaffected(before.terrain(), after.terrain(), tiles, p, cs);
    }
}

/// In a chunk that the change does not affect, the nodes are connected as they were, at the
/// same costs.
pub proof fn law_unaffected_chunks_keep_connections<N: Neighborhood, M: Neighborhood>(
    before: PathCache<N>,
    after: PathCache<M>,
    tiles: Seq<Point>,
    a: NodeID,
    b: NodeID,
)
    requires
        is_update(before, after, tiles),
        before.graph().contains_key(a),
        before.graph().contains_key(b),
        region_of(
            before.graph()[a].pos,
            before.settings().chunk_size,
            before.size(),
        ) == region_of(before.graph()[b].pos, before.settings().chunk_size, before.size()),
        !is_affected(
            tiles,
            before.graph()[a].pos,
            before.settings().chunk_size,
            before.size(),
        ),
    ensures
        after.graph().contains_key(a),
        after.graph().contains_key(b),
        after.graph()[a].edges.contains_key(b) <==> before.graph()[a].edges.contains_key(b),
        before.graph()[a].edges.contains_key(b) ==> after.graph()[a].edges[b].total()
            == before.graph()[a].edges[b].total(),
{
    let (cs, size) = (before.settings().chunk_size, before.size());
    let (t, u) = (before.terrain(), after.terrain());
    let (m, n) = (before.graph(), after.graph());
    let (p, q) = (m[a].pos, m[b].pos);
    let r = region_of(p, cs, size);
    before.lemma_nodes();
    assert(is_node_sound(t, cs, m[a]) && is_node_sound(t, cs, m[b]));
    lemma_region_of(p, cs, size);
    lemma_region_of(q, cs, size);
    law_unaffected_chunks_keep_nodes(before, after, tiles, p);
    assert(!is_affected(tiles, q, cs, size)) by {
        if is_affected(tiles, q, cs, size) {
            let x = choose|x: Point| #[trigger] tiles.contains(x) && is_beside(r, x);
            assert(is_affected(tiles, p, cs, size));
        }
    }
    law_unaffected_chunks_keep_nodes(before, after, tiles, q);
    assert forall|x: Point| #[trigger] r.contains(x) implies !tiles.contains(x) by {
        if tiles.contains(x) {
            assert(gap(x.0, x.0) + gap(x.1, x.1) <= 1);
            assert(is_beside(r, x));
        }
    }
    lemma_same_steps(t, u, tiles, r);
    let e = t.edges(r);
    if m[a].edges.contains_key(b) {
        let path = m[a].edges[b];
        let s = choose|s: Seq<Point>| #[trigger] is_link_over(t, cs, p, q, path, s);
        assert(connects(e, s, p, q));
        assert(is_linked_inside(u, cs, n, a, b));
        assert(n[a].edges.contains_key(b));
    }
    if n[a].edges.contains_key(b) {
        let path = n[a].edges[b];
        let s = choose|s: Seq<Point>| #[trigger] is_link_over(u, cs, p, q, path, s);
        assert(connects(e, s, p, q));
        assert(is_linked_inside(t, cs, m, a, b));
        let other = m[a].edges[b];
        let v = choose|v: Seq<Point>| #[trigger] is_link_over(t, cs, p, q, other, v);
        assert(connects(e, v, p, q));
    }
}

/// A node that has to be created anew lies in a chunk that is affected.
proof fn lemma_renewed_is_affected(
    tiles: Seq<Point>,
    p: Point,
    chunk_size: usize,
    size: (usize, usize),
)
    requires
        0 < chunk_size,
        on_grid(p, size),
        forall|q: Point| #[trigger] tiles.contains(q) ==> on_grid(q, size),
        is_renewed_by(tiles, p, chunk_size, size),
    ensures
        is_affected(tiles, p, chunk_size, size),
{
    let dir = choose|dir: Dir| #[trigger] is_renewed_by_at(tiles, p, dir, chunk_size, size);
    let r = region_of(p, chunk_size, size);
    let origin = (r.left, r.top);
    lemma_region_of(p, chunk_size, size);
    if tiles.contains(p) {
        assert(r.contains(p) && gap(p.0, p.0) + gap(p.1, p.1) <= 1);
        assert(is_beside(r, p));
    } else {
        let q = choose|q: Point| #[trigger]
            tiles.contains(q) && is_facing(q, origin, dir, chunk_size, size);
        lemma_region_of(q, chunk_size, size);
        let o = region_of(q, chunk_size, size);
        if is_at_border(q, dir, chunk_size, size) && (o.left, o.top) == origin {
            assert(o == r) by {
                lemma_region_of(p, chunk_size, size);
            }
            assert(r.contains(q) && gap(q.0, q.0) + gap(q.1, q.1) <= 1);
        } else {
            lemma_chunk_across(q, dir.back(), chunk_size, size);
            let x = next_tile(q, dir.back(), size)->0;
            lemma_region_of(x, chunk_size, size);
            assert(r.contains(x) && gap(x.0, q.0) + gap(x.1, q.1) <= 1);
        }
        assert(is_beside(r, q));
    }
}

/// An entrance of a chunk that the change does not affect was one before.
proof fn lemma_entrance_unaffected(
    before: Terrain,
    after: Terrain,
    tiles: Seq<Point>,
    p: Point,
    chunk_size: usize,
)
    requires
        0 < chunk_size,
        is_change_of(before, after, tiles),
        is_entrance(after, chunk_size, p),
        !is_affected(tiles, p, chunk_size, after.size),
    ensures
        is_entrance(before, chunk_size, p),
{
    let size = after.size;
    let dir = choose|dir: Dir| #[trigger] is_entrance_to(after, chunk_size, p, dir);
    let r = region_of(p, chunk_size, size);
    lemma_region_of(p, chunk_size, size);
    lemma_unaffected_open(before, after, tiles, p, chunk_size, p, p);
    lemma_chunk_across(p, dir, chunk_size, size);
    let across = next_tile(p, dir, size)->0;
    lemma_unaffected_open(before, after, tiles, p, chunk_size, p, across);
    assert forall|side: Dir| #[trigger] is_passage_end(
        after,
        r,
        p,
        dir,
        side,
    ) implies is_passage_end(before, r, p, dir, side) by {
        let next = next_tile(p, side, size);
        if next is Some {
            let diagonal = next_tile(next->0, dir, size);
            assert((after.adjacent)(p, diagonal->0) == (before.adjacent)(p, diagonal->0));
            if r.contains(next->0) {
                lemma_unaffected_open(before, after, tiles, p, chunk_size, next->0, next->0);
                if diagonal is Some {
                    lemma_unaffected_open(
                        before,
                        after,
                        tiles,
                        p,
                        chunk_size,
                        next->0,
                        diagonal->0,
                    );
                }
            }
        }
    }
    assert(is_entrance_to(before, chunk_size, p, dir));
}

/// A tile beside a chunk that the change does not affect can be walked over as before.
proof fn lemma_unaffected_open(
    before: Terrain,
    after: Terrain,
    tiles: Seq<Point>,
    p: Point,
    chunk_size: usize,
    x: Point,
    q: Point,
)
    requires
        is_change_of(before, after, tiles),
        !is_affected(tiles, p, chunk_size, after.size),
        region_of(p, chunk_size, after.size).contains(x),
        gap(x.0, q.0) + gap(x.1, q.1) <= 1,
    ensures
        before.open(q) == after.open(q),
{
    assert(is_beside(region_of(p, chunk_size, after.size), q));
    assert(!tiles.contains(q));
    if on_grid(q, after.size) {
        assert((after.cost)(q) == (before.cost)(q));
    }
}

} // verus!

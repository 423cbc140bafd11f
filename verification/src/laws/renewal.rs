//! Which nodes stay and which go when tiles change, in terms of columns and rows.

use vstd::arithmetic::div_mod::{lemma_fundamental_div_mod, lemma_fundamental_div_mod_converse};
use vstd::prelude::*;

use super::passages::{
    can_move, columns, direction, has_node, is_gate_end, is_slanting, is_straight,
    lemma_columns_and_rows, lemma_direction, lemma_entrance_ends_passage, moved, rows,
};
use super::tiles::{is_free, is_same_square, law_chunks_are_squares};
use super::updates::is_update;
use crate::dir::Dir;
use crate::neighbors::Neighborhood;
use crate::path_cache::PathCache;
use crate::path_cache::entrance::is_entrance;
use crate::path_cache::layout::{
    band, is_at_border, is_at_corner, lemma_band, lemma_region_of, region_of,
};
use crate::path_cache::links::{has_node_at, is_node_sound};
use crate::path_cache::renew::{chunk_origin, is_facing, is_renewed_by, is_renewed_by_at};
use crate::terrain::Terrain;
use crate::{NodeID, Point};

verus! {

/// The column or the row is the first or the last one of its chunk.
pub open spec fn is_outermost(x: usize, chunk_size: usize, length: usize) -> bool {
    x % chunk_size == 0 || (x + 1) % (chunk_size as int) == 0 || x + 1 == length
}

/// The tile lies at a corner of its chunk.
pub open spec fn is_corner(p: Point, chunk_size: usize, size: (usize, usize)) -> bool {
    is_outermost(p.0, chunk_size, size.0) && is_outermost(p.1, chunk_size, size.1)
}

/// The tile `q` lies at the border that leads from `p` by `d` columns and `e` rows into another
/// chunk, on either side of it.
pub open spec fn is_at_same_border(chunk_size: usize, p: Point, q: Point, d: int, e: int) -> bool {
    if d != 0 {
        q.1 / chunk_size == p.1 / chunk_size && (q.0 == p.0 || q.0 == p.0 + d)
    } else {
        q.0 / chunk_size == p.0 / chunk_size && (q.1 == p.1 || q.1 == p.1 + e)
    }
}

/// One of the tiles lies at a border at which `p` lies, on either side of it.
pub open spec fn is_border_changed(
    tiles: Seq<Point>,
    t: Terrain,
    chunk_size: usize,
    p: Point,
) -> bool {
    exists|d: int, e: int, q: Point| #[trigger]
        is_border_changed_by(tiles, t, chunk_size, p, d, e, q)
}

/// The tile `q`, which is one of the tiles, lies at the border to which `d` and `e` lead.
pub open spec fn is_border_changed_by(
    tiles: Seq<Point>,
    t: Terrain,
    chunk_size: usize,
    p: Point,
    d: int,
    e: int,
    q: Point,
) -> bool {
    &&& is_straight(d, e)
    &&& can_move(t, p, d, e)
    &&& !is_same_square(chunk_size, p, moved(p, d, e))
    &&& tiles.contains(q)
    &&& is_at_same_border(chunk_size, p, q, d, e)
}

/// Corners in terms of columns and rows.
proof fn lemma_corner(p: Point, chunk_size: usize, size: (usize, usize))
    requires
        0 < chunk_size,
        p.0 < size.0,
        p.1 < size.1,
    ensures
        is_at_corner(region_of(p, chunk_size, size), p) <==> is_corner(p, chunk_size, size),
{
    reveal(region_of);
    lemma_outermost(p.0, chunk_size, size.0);
    lemma_outermost(p.1, chunk_size, size.1);
}

proof fn lemma_outermost(x: usize, chunk_size: usize, length: usize)
    requires
        0 < chunk_size,
        x < length,
    ensures
        ({
            let b = band(x as int, chunk_size as int, length as int);
            &&& 0 <= b.0 <= x < b.1 <= length
            &&& (x == b.0 || x + 1 == b.1) <==> is_outermost(x, chunk_size, length)
        }),
{
    let (cs, y) = (chunk_size as int, x as int);
    lemma_band(y, cs, length as int);
    lemma_fundamental_div_mod(y, cs);
    let (q, r) = (y / cs, y % cs);
    assert(q * cs == cs * q) by (nonlinear_arith);
    if r == cs - 1 {
        assert((q + 1) * cs + 0 == y + 1) by (nonlinear_arith)
            requires
                y == cs * q + r,
                r == cs - 1,
        ;
        lemma_fundamental_div_mod_converse(y + 1, cs, q + 1, 0);
    } else {
        assert(q * cs + (r + 1) == y + 1) by (nonlinear_arith)
            requires
                y == cs * q + r,
        ;
        lemma_fundamental_div_mod_converse(y + 1, cs, q, r + 1);
    }
}

/// Facing the side of a chunk in terms of columns and rows.
#[verifier::rlimit(30)]
proof fn lemma_facing(t: Terrain, chunk_size: usize, p: Point, q: Point, d: int, e: int)
    requires
        0 < chunk_size,
        is_straight(d, e),
        p.0 < t.size.0,
        p.1 < t.size.1,
        q.0 < t.size.0,
        q.1 < t.size.1,
        can_move(t, p, d, e),
        !is_same_square(chunk_size, p, moved(p, d, e)),
    ensures
        is_facing(q, chunk_origin(p, chunk_size, t.size), direction(d, e), chunk_size, t.size)
            <==> is_at_same_border(chunk_size, p, q, d, e),
{
    let dir = direction(d, e);
    let (r, o) = (region_of(p, chunk_size, t.size), region_of(q, chunk_size, t.size));
    lemma_direction(t, chunk_size, p, d, e);
    lemma_direction(t, chunk_size, q, d, e);
    lemma_direction(t, chunk_size, q, -d, -e);
    assert(direction(-d, -e) == dir.back());
    lemma_region_of(p, chunk_size, t.size);
    lemma_region_of(q, chunk_size, t.size);
    let x = moved(p, d, e);
    lemma_region_of(x, chunk_size, t.size);
    law_chunks_are_squares(p, q, chunk_size, t.size);
    law_chunks_are_squares(x, q, chunk_size, t.size);
    law_chunks_are_squares(p, x, chunk_size, t.size);
    if can_move(t, q, -d, -e) {
        let y = moved(q, -d, -e);
        lemma_region_of(y, chunk_size, t.size);
        law_chunks_are_squares(p, y, chunk_size, t.size);
        law_chunks_are_squares(q, y, chunk_size, t.size);
    }
}

/// A node at the tile has to be created anew: the tile lies at a corner of its chunk and is one
/// of the changed ones, or it lies at no corner and one of these lies at the same border.
pub open spec fn is_to_be_renewed(
    tiles: Seq<Point>,
    t: Terrain,
    chunk_size: usize,
    p: Point,
) -> bool {
    if is_corner(p, chunk_size, t.size) {
        tiles.contains(p)
    } else {
        is_border_changed(tiles, t, chunk_size, p)
    }
}

/// Having to be created anew in terms of columns and rows.
proof fn lemma_renewed(tiles: Seq<Point>, t: Terrain, chunk_size: usize, p: Point)
    requires
        0 < chunk_size,
        p.0 < t.size.0,
        p.1 < t.size.1,
        forall|q: Point| #[trigger] tiles.contains(q) ==> q.0 < t.size.0 && q.1 < t.size.1,
        exists|dir: Dir| #[trigger] is_at_border(p, dir, chunk_size, t.size),
    ensures
        is_renewed_by(tiles, p, chunk_size, t.size) <==> is_to_be_renewed(
            tiles,
            t,
            chunk_size,
            p,
        ),
{
    lemma_corner(p, chunk_size, t.size);
    if is_corner(p, chunk_size, t.size) {
        let dir = choose|dir: Dir| #[trigger] is_at_border(p, dir, chunk_size, t.size);
        if tiles.contains(p) {
            assert(is_renewed_by_at(tiles, p, dir, chunk_size, t.size));
        }
    } else {
        let origin = chunk_origin(p, chunk_size, t.size);
        if is_renewed_by(tiles, p, chunk_size, t.size) {
            let dir = choose|dir: Dir| #[trigger]
                is_renewed_by_at(tiles, p, dir, chunk_size, t.size);
            let q = choose|q: Point| #[trigger]
                tiles.contains(q) && is_facing(q, origin, dir, chunk_size, t.size);
            let (d, e) = (columns(dir), rows(dir));
            lemma_columns_and_rows(dir);
            lemma_direction(t, chunk_size, p, d, e);
            lemma_facing(t, chunk_size, p, q, d, e);
            assert(is_border_changed_by(tiles, t, chunk_size, p, d, e, q));
        }
        if is_border_changed(tiles, t, chunk_size, p) {
            let (d, e, q) = choose|d: int, e: int, q: Point| #[trigger]
                is_border_changed_by(tiles, t, chunk_size, p, d, e, q);
            lemma_direction(t, chunk_size, p, d, e);
            lemma_facing(t, chunk_size, p, q, d, e);
            assert(is_renewed_by_at(tiles, p, direction(d, e), chunk_size, t.size));
        }
    }
}

/// A node that lies at no border at which a tile has changed keeps its number, its tile and its
/// cost; at a corner of its chunk, so does one whose own tile has not changed.
pub proof fn law_other_nodes_stay<N: Neighborhood, M: Neighborhood>(
    before: PathCache<N>,
    after: PathCache<M>,
    tiles: Seq<Point>,
    a: NodeID,
)
    requires
        is_update(before, after, tiles),
        before.graph().contains_key(a),
        !is_to_be_renewed(
            tiles,
            after.terrain(),
            before.settings().chunk_size,
            before.graph()[a].pos,
        ),
    ensures
        after.graph().contains_key(a),
        after.graph()[a].pos == before.graph()[a].pos,
        after.graph()[a].walk_cost == before.graph()[a].walk_cost,
{
    let (t, cs) = (after.terrain(), before.settings().chunk_size);
    before.lemma_nodes();
    assert(is_node_sound(before.terrain(), cs, before.graph()[a]));
    lemma_renewed(tiles, t, cs, before.graph()[a].pos);
}

/// After a change, there is a node at a tile only if it is the first or the last of a row of tiles
/// from which one can walk straight on into the next chunk, or a diagonal step leads from it into
/// another chunk, or there was one that did not have to be created anew.
pub proof fn law_changes_leave_no_other_nodes<N: Neighborhood, M: Neighborhood>(
    before: PathCache<N>,
    after: PathCache<M>,
    tiles: Seq<Point>,
    p: Point,
)
    requires
        is_update(before, after, tiles),
        has_node(after, p),
    ensures
        ({
            let (t, cs) = (after.terrain(), before.settings().chunk_size);
            ||| is_gate_end(t, cs, p)
            ||| exists|q: Point| #[trigger] is_slanting(t, cs, p, q)
            ||| has_node(before, p) && !is_to_be_renewed(tiles, t, cs, p)
        }),
{
    let (t, cs) = (after.terrain(), before.settings().chunk_size);
    before.lemma_nodes();
    assert(has_node_at(after.graph(), p));
    let a = choose|a: NodeID| #[trigger]
        after.graph().contains_key(a) && after.graph()[a].pos == p;
    assert(is_node_sound(t, cs, after.graph()[a]));
    lemma_renewed(tiles, t, cs, p);
    if is_entrance(t, cs, p) {
        lemma_entrance_ends_passage(after, p);
    } else {
        assert(has_node_at(before.graph(), p));
    }
}

/// After a change, the tiles that have not changed cost what they did, and for the others the cost
/// function is asked; so a tile can be walked over if its cost is not negative.
pub proof fn law_changes_change_only_the_tiles<N: Neighborhood, M: Neighborhood>(
    before: PathCache<N>,
    after: PathCache<M>,
    tiles: Seq<Point>,
    p: Point,
)
    requires
        is_update(before, after, tiles),
        p.0 < before.size().0,
        p.1 < before.size().1,
        !tiles.contains(p),
    ensures
        after.size() == before.size(),
        (after.terrain().cost)(p) == (before.terrain().cost)(p),
        is_free(after.terrain(), p) <==> is_free(before.terrain(), p),
{
}

} // verus!

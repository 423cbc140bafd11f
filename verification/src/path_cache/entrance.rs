//! The tiles over which a chunk can be entered and left.

use vstd::prelude::*;

use super::layout::{is_at_border, is_at_side, lemma_region_of, region_of};
use crate::dir::{next_tile, Dir};
use crate::terrain::{lemma_steps_two_way, Region, Terrain};
use crate::walk::{
    lemma_reaches_itself, lemma_reaches_symmetric, lemma_reaches_transitive, lemma_single_step,
};
use crate::Point;

verus! {

/// There is a tile, and it can be walked over.
pub open spec fn is_open_tile(t: Terrain, p: Option<Point>) -> bool {
    p is Some && t.open(p->0)
}

/// A passage across the border in direction `dir` ends at the tile, seen along the border in
/// direction `side`.
///
/// This is so where one can cross the border at the tile but not at the next one of its
/// chunk; where one can cross only diagonally, from the tile to the one across from the next
/// one; and where the next tile lies in another chunk and the one across from it, in a third
/// chunk, is next to this tile. The last holds of a corner whatever its surroundings cost: a
/// change in the third chunk does not affect it.
pub open spec fn is_passage_end(t: Terrain, r: Region, p: Point, dir: Dir, side: Dir) -> bool {
    let across = next_tile(p, dir, t.size);
    let next = next_tile(p, side, t.size);
    let inside = next is Some && r.contains(next->0);
    let diagonal = if next is Some {
        next_tile(next->0, dir, t.size)
    } else {
        None
    };
    let slanting = diagonal is Some && (t.adjacent)(p, diagonal->0);
    ||| is_open_tile(t, across) && !(inside && is_open_tile(t, next) && is_open_tile(t, diagonal))
    ||| inside && slanting && is_open_tile(t, diagonal) && !is_open_tile(t, across)
        && !is_open_tile(t, next)
    ||| next is Some && !inside && slanting
}

/// The tile can be walked over, and a passage across the border in the given direction ends
/// at it.
pub open spec fn is_entrance_to(t: Terrain, chunk_size: usize, p: Point, dir: Dir) -> bool {
    let r = region_of(p, chunk_size, t.size);
    &&& t.open(p)
    &&& is_at_border(p, dir, chunk_size, t.size)
    &&& {
        ||| is_passage_end(t, r, p, dir, dir.turned())
        ||| is_passage_end(t, r, p, dir, dir.turned().back())
    }
}

/// The tile is an entrance of its chunk: a passage across a border ends at it.
///
/// One can walk from an entrance to a tile of another chunk. The exceptions are corners, which
/// are entrances for the sake of a diagonal step whether or not it is possible.
pub open spec fn is_entrance(t: Terrain, chunk_size: usize, p: Point) -> bool {
    exists|dir: Dir| #[trigger] is_entrance_to(t, chunk_size, p, dir)
}

/// From `p` one gets, within its chunk, to an entrance `a` next to an entrance `b` of
/// another chunk, and from there, within that chunk, to `q`.
pub open spec fn is_crossing(
    t: Terrain,
    chunk_size: usize,
    p: Point,
    q: Point,
    a: Point,
    b: Point,
) -> bool {
    let r = region_of(p, chunk_size, t.size);
    let o = region_of(q, chunk_size, t.size);
    &&& is_entrance(t, chunk_size, a)
    &&& is_entrance(t, chunk_size, b)
    &&& t.step(a, b)
    &&& region_of(a, chunk_size, t.size) == r
    &&& region_of(b, chunk_size, t.size) == o
    &&& t.has_path_in(r, p, a)
    &&& t.has_path_in(o, b, q)
}

pub proof fn lemma_step_in(t: Terrain, r: Region, a: Point, b: Point)
    requires
        t.step(a, b),
        r.contains(a),
        r.contains(b),
    ensures
        t.has_path_in(r, a, b),
{
    lemma_single_step(t.edges(r), a, b);
}

pub proof fn lemma_path_in_joins(t: Terrain, r: Region, a: Point, b: Point, c: Point)
    requires
        t.has_path_in(r, a, b),
        t.has_path_in(r, b, c),
    ensures
        t.has_path_in(r, a, c),
{
    lemma_reaches_transitive(t.edges(r), a, b, c);
}

pub proof fn lemma_path_in_reverses(t: Terrain, r: Region, a: Point, b: Point)
    requires
        t.wf(),
        t.has_path_in(r, a, b),
    ensures
        t.has_path_in(r, b, a),
{
    lemma_steps_two_way(t, r);
    lemma_reaches_symmetric(t.edges(r), a, b);
}

pub proof fn lemma_path_to_itself(t: Terrain, r: Region, a: Point)
    requires
        t.open(a),
        r.contains(a),
    ensures
        t.has_path_in(r, a, a),
{
    lemma_reaches_itself(t.edges(r), a);
}

/// The number of tiles from `p` to the side of the rectangle.
spec fn room(r: Region, p: Point, dir: Dir) -> int {
    match dir {
        Dir::UP => p.1 - r.top,
        Dir::RIGHT => r.right - p.0,
        Dir::DOWN => r.bottom - p.1,
        Dir::LEFT => p.0 - r.left,
    }
}

/// Where one can cross a border straight on, one can do so over entrances.
#[verifier::rlimit(30)]
proof fn lemma_straight_crossing(t: Terrain, chunk_size: usize, p: Point, q: Point, dir: Dir) -> (ends:
    (Point, Point))
    requires
        t.wf(),
        0 < chunk_size,
        t.open(p),
        t.open(q),
        next_tile(p, dir, t.size) == Some(q),
        is_at_side(region_of(p, chunk_size, t.size), p, dir),
    ensures
        is_crossing(t, chunk_size, p, q, ends.0, ends.1),
    decreases room(region_of(p, chunk_size, t.size), p, dir.turned()),
{
    let r = region_of(p, chunk_size, t.size);
    let o = region_of(q, chunk_size, t.size);
    lemma_region_of(p, chunk_size, t.size);
    lemma_region_of(q, chunk_size, t.size);
    let side = dir.turned();
    let next = next_tile(p, side, t.size);
    let next_across = next_tile(q, side, t.size);
    assert((t.adjacent)(p, q));
    if is_passage_end(t, r, p, dir, side) {
        assert(is_entrance_to(t, chunk_size, p, dir));
        assert(is_passage_end(t, o, q, dir.back(), side)) by {
            if next_across is Some {
                assert(next is Some);
            }
        }
        assert(side == dir.back().turned().back());
        assert(is_entrance_to(t, chunk_size, q, dir.back()));
        lemma_path_to_itself(t, r, p);
        lemma_path_to_itself(t, o, q);
        (p, q)
    } else {
        let p2 = next->0;
        let q2 = next_tile(p2, dir, t.size)->0;
        assert(next_across == Some(q2));
        assert(region_of(p2, chunk_size, t.size) == r);
        assert(region_of(q2, chunk_size, t.size) == o);
        let ends = lemma_straight_crossing(t, chunk_size, p2, q2, dir);
        assert((t.adjacent)(p, p2));
        assert((t.adjacent)(q2, q));
        lemma_step_in(t, r, p, p2);
        lemma_step_in(t, o, q2, q);
        lemma_path_in_joins(t, r, p, p2, ends.0);
        lemma_path_in_joins(t, o, ends.1, q2, q);
        ends
    }
}

/// Whoever gets from one chunk to another does so over entrances, or could as well.
#[verifier::rlimit(30)]
pub proof fn lemma_crossing(t: Terrain, chunk_size: usize, p: Point, q: Point) -> (ends: (
    Point,
    Point,
))
    requires
        t.wf(),
        0 < chunk_size,
        t.step(p, q),
        region_of(p, chunk_size, t.size) != region_of(q, chunk_size, t.size),
    ensures
        is_crossing(t, chunk_size, p, q, ends.0, ends.1),
{
    let r = region_of(p, chunk_size, t.size);
    let o = region_of(q, chunk_size, t.size);
    lemma_region_of(p, chunk_size, t.size);
    lemma_region_of(q, chunk_size, t.size);
    assert((t.adjacent)(p, q));
    let column = r.left <= q.0 < r.right;
    let row = r.top <= q.1 < r.bottom;
    let horizontal = if q.0 > p.0 {
        Dir::RIGHT
    } else {
        Dir::LEFT
    };
    let vertical = if q.1 > p.1 {
        Dir::DOWN
    } else {
        Dir::UP
    };
    if p.0 == q.0 {
        lemma_straight_crossing(t, chunk_size, p, q, vertical)
    } else if p.1 == q.1 {
        lemma_straight_crossing(t, chunk_size, p, q, horizontal)
    } else if !column && !row {
        assert(is_passage_end(t, r, p, vertical, horizontal));
        assert(is_passage_end(t, o, q, vertical.back(), horizontal.back()));
        assert(is_entrance_to(t, chunk_size, p, vertical));
        assert(is_entrance_to(t, chunk_size, q, vertical.back()));
        lemma_path_to_itself(t, r, p);
        lemma_path_to_itself(t, o, q);
        (p, q)
    } else {
        let dir = if column {
            vertical
        } else {
            horizontal
        };
        let side = if column {
            horizontal
        } else {
            vertical
        };
        // `p` and `next` lie on this side of the border, `across` and `q` on the other.
        let across = next_tile(p, dir, t.size)->0;
        let next = next_tile(p, side, t.size)->0;
        assert(next_tile(next, dir, t.size) == Some(q));
        assert(region_of(next, chunk_size, t.size) == r);
        assert(region_of(across, chunk_size, t.size) == o);
        if t.open(across) {
            let ends = lemma_straight_crossing(t, chunk_size, p, across, dir);
            assert((t.adjacent)(across, q));
            lemma_step_in(t, o, across, q);
            lemma_path_in_joins(t, o, ends.1, across, q);
            ends
        } else if t.open(next) {
            let ends = lemma_straight_crossing(t, chunk_size, next, q, dir);
            assert((t.adjacent)(p, next));
            lemma_step_in(t, r, p, next);
            lemma_path_in_joins(t, r, p, next, ends.0);
            ends
        } else {
            assert(is_passage_end(t, r, p, dir, side));
            assert(is_passage_end(t, o, q, dir.back(), side.back()));
            assert(is_entrance_to(t, chunk_size, p, dir));
            assert(is_entrance_to(t, chunk_size, q, dir.back()));
            lemma_path_to_itself(t, r, p);
            lemma_path_to_itself(t, o, q);
            (p, q)
        }
    }
}

} // verus!

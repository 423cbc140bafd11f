//! How the grid is divided into chunks.

use vstd::arithmetic::div_mod::{lemma_fundamental_div_mod, lemma_fundamental_div_mod_converse};
use vstd::prelude::*;

use crate::dir::Dir;
use crate::neighbors::on_grid;
use crate::terrain::Region;
use crate::Point;

verus! {

/// Where the chunk that holds the coordinate `x` begins and ends, on a side of the grid of
/// length `length`.
pub open spec fn band(x: int, chunk_size: int, length: int) -> (int, int) {
    let start = x / chunk_size * chunk_size;
    (
        start,
        if start + chunk_size <= length {
            start + chunk_size
        } else {
            length
        },
    )
}

/// The tiles of the chunk that the tile lies in.
#[verifier::opaque]
pub open spec fn region_of(p: Point, chunk_size: usize, size: (usize, usize)) -> Region {
    let x = band(p.0 as int, chunk_size as int, size.0 as int);
    let y = band(p.1 as int, chunk_size as int, size.1 as int);
    Region {
        left: x.0 as usize,
        top: y.0 as usize,
        right: x.1 as usize,
        bottom: y.1 as usize,
    }
}

pub proof fn lemma_band(x: int, chunk_size: int, length: int)
    requires
        0 <= x < length,
        0 < chunk_size,
    ensures
        0 <= band(x, chunk_size, length).0 <= x < band(x, chunk_size, length).1 <= length,
        band(x, chunk_size, length).1 - band(x, chunk_size, length).0 <= chunk_size,
        band(x, chunk_size, length).1 == length || band(x, chunk_size, length).1 - band(
            x,
            chunk_size,
            length,
        ).0 == chunk_size,
        band(x, chunk_size, length).0 == x / chunk_size * chunk_size,
        x / chunk_size >= 0,
{
    lemma_fundamental_div_mod(x, chunk_size);
    let q = x / chunk_size;
    assert(chunk_size * q == q * chunk_size) by (nonlinear_arith);
    assert(0 <= x / chunk_size) by (nonlinear_arith)
        requires
            0 <= x,
            0 < chunk_size,
    ;
    assert(0 <= q * chunk_size) by (nonlinear_arith)
        requires
            0 <= q,
            0 < chunk_size,
    ;
}

/// Coordinates lie in the same chunk if and only if one lies where the chunk of the other
/// one does.
pub proof fn lemma_same_band(x: int, y: int, chunk_size: int, length: int)
    requires
        0 <= x < length,
        0 <= y < length,
        0 < chunk_size,
    ensures
        x / chunk_size == y / chunk_size <==> band(x, chunk_size, length).0 <= y < band(
            x,
            chunk_size,
            length,
        ).1,
        x / chunk_size == y / chunk_size <==> band(x, chunk_size, length) == band(
            y,
            chunk_size,
            length,
        ),
{
    lemma_band(x, chunk_size, length);
    lemma_band(y, chunk_size, length);
    let (q, r) = (x / chunk_size, y / chunk_size);
    if q * chunk_size <= y < q * chunk_size + chunk_size {
        lemma_fundamental_div_mod_converse(y, chunk_size, q, y - q * chunk_size);
    }
    if band(x, chunk_size, length) == band(y, chunk_size, length) {
        assert(q == r) by (nonlinear_arith)
            requires
                q * chunk_size == r * chunk_size,
                0 < chunk_size,
        ;
    }
}

/// What is to be known of the chunk of a tile.
pub open spec fn is_chunk_region(r: Region, p: Point, chunk_size: usize, size: (usize, usize)) -> bool {
    &&& r.contains(p)
    &&& r.within(size)
    &&& r.right - r.left <= chunk_size
    &&& r.bottom - r.top <= chunk_size
    &&& r.right == size.0 || r.right - r.left == chunk_size
    &&& r.bottom == size.1 || r.bottom - r.top == chunk_size
    &&& forall|q: Point|
        #![trigger region_of(q, chunk_size, size)]
        on_grid(q, size) ==> {
            let o = region_of(q, chunk_size, size);
            &&& r.left <= q.0 < r.right <==> o.left == r.left && o.right == r.right
            &&& r.top <= q.1 < r.bottom <==> o.top == r.top && o.bottom == r.bottom
            &&& q.0 == r.right ==> o.left == r.right
            &&& q.1 == r.bottom ==> o.top == r.bottom
            &&& q.0 + 1 == r.left ==> o.right == r.left
            &&& q.1 + 1 == r.top ==> o.bottom == r.top
        }
}

pub proof fn lemma_region_of(p: Point, chunk_size: usize, size: (usize, usize))
    requires
        on_grid(p, size),
        0 < chunk_size,
    ensures
        is_chunk_region(region_of(p, chunk_size, size), p, chunk_size, size),
{
    reveal(region_of);
    let r = region_of(p, chunk_size, size);
    let (cs, w, h) = (chunk_size as int, size.0 as int, size.1 as int);
    lemma_band(p.0 as int, cs, w);
    lemma_band(p.1 as int, cs, h);
    assert forall|q: Point|
        #![trigger region_of(q, chunk_size, size)]
        on_grid(q, size) implies {
        let o = region_of(q, chunk_size, size);
        &&& r.left <= q.0 < r.right <==> o.left == r.left && o.right == r.right
        &&& r.top <= q.1 < r.bottom <==> o.top == r.top && o.bottom == r.bottom
        &&& q.0 == r.right ==> o.left == r.right
        &&& q.1 == r.bottom ==> o.top == r.bottom
        &&& q.0 + 1 == r.left ==> o.right == r.left
        &&& q.1 + 1 == r.top ==> o.bottom == r.top
    } by {
        let o = region_of(q, chunk_size, size);
        lemma_band(q.0 as int, cs, w);
        lemma_band(q.1 as int, cs, h);
        lemma_same_band(p.0 as int, q.0 as int, cs, w);
        lemma_same_band(p.1 as int, q.1 as int, cs, h);
        if q.0 == r.right && o.left < r.right {
            lemma_same_band(q.0 as int, q.0 - 1, cs, w);
            lemma_same_band(p.0 as int, q.0 - 1, cs, w);
        }
        if q.1 == r.bottom && o.top < r.bottom {
            lemma_same_band(q.1 as int, q.1 - 1, cs, h);
            lemma_same_band(p.1 as int, q.1 - 1, cs, h);
        }
        if q.0 + 1 == r.left && o.right > r.left {
            lemma_same_band(q.0 as int, q.0 + 1, cs, w);
            lemma_same_band(p.0 as int, q.0 + 1, cs, w);
        }
        if q.1 + 1 == r.top && o.bottom > r.top {
            lemma_same_band(q.1 as int, q.1 + 1, cs, h);
            lemma_same_band(p.1 as int, q.1 + 1, cs, h);
        }
    }
}

/// The tile lies at the given side of the rectangle.
pub open spec fn is_at_side(r: Region, p: Point, dir: Dir) -> bool {
    match dir {
        Dir::UP => p.1 == r.top,
        Dir::RIGHT => p.0 + 1 == r.right,
        Dir::DOWN => p.1 + 1 == r.bottom,
        Dir::LEFT => p.0 == r.left,
    }
}

/// The tile is one of the four at the corners of the rectangle.
pub open spec fn is_at_corner(r: Region, p: Point) -> bool {
    &&& p.0 == r.left || p.0 + 1 == r.right
    &&& p.1 == r.top || p.1 + 1 == r.bottom
}

/// There are tiles beyond the given side of the rectangle.
pub open spec fn has_border(r: Region, dir: Dir, size: (usize, usize)) -> bool {
    match dir {
        Dir::UP => r.top > 0,
        Dir::RIGHT => r.right < size.0,
        Dir::DOWN => r.bottom < size.1,
        Dir::LEFT => r.left > 0,
    }
}

/// The tile lies at a side of its chunk beyond which there is another chunk.
pub open spec fn is_at_border(p: Point, dir: Dir, chunk_size: usize, size: (usize, usize)) -> bool {
    let r = region_of(p, chunk_size, size);
    is_at_side(r, p, dir) && has_border(r, dir, size)
}

/// How many chunks there are along a side of the grid.
pub open spec fn chunk_count(length: int, chunk_size: int) -> int {
    if length % chunk_size > 0 {
        length / chunk_size + 1
    } else {
        length / chunk_size
    }
}

/// The chunk that holds the coordinate `x` begins at `start`.
pub open spec fn is_chunk_start(start: usize, x: usize, chunk_size: usize) -> bool {
    &&& start % chunk_size == 0
    &&& start <= x < start + chunk_size
    &&& start / chunk_size == x / chunk_size
}

/// Where the chunk that holds a coordinate begins.
pub proof fn lemma_chunk_start(x: usize, chunk_size: usize)
    requires
        0 < chunk_size,
    ensures
        0 <= x / chunk_size * chunk_size <= x,
        is_chunk_start((x / chunk_size * chunk_size) as usize, x, chunk_size),
{
    let (n, q) = (chunk_size as int, x as int / chunk_size as int);
    lemma_fundamental_div_mod(x as int, n);
    assert(n * q == q * n) by (nonlinear_arith);
    assert(0 <= q * n) by (nonlinear_arith)
        requires
            0 <= q,
            0 < n,
    ;
    lemma_fundamental_div_mod_converse(q * n, n, q, 0);
}

/// The position of the chunk that the tile lies in.
pub open spec fn chunk_start(p: Point, chunk_size: usize) -> Point {
    (
        (p.0 / chunk_size * chunk_size) as usize,
        (p.1 / chunk_size * chunk_size) as usize,
    )
}

/// The index of the chunk that the tile lies in, row by row.
pub open spec fn chunk_index(p: Point, chunk_size: usize, size: (usize, usize)) -> int {
    p.1 as int / chunk_size as int * chunk_count(size.0 as int, chunk_size as int) + p.0 as int
        / chunk_size as int
}

/// The position of the chunk of the given index.
pub open spec fn chunk_pos(i: int, chunk_size: usize, size: (usize, usize)) -> Point {
    let n = chunk_count(size.0 as int, chunk_size as int);
    ((i % n * chunk_size) as usize, (i / n * chunk_size) as usize)
}

/// A coordinate lies in one of the chunks along its side.
pub proof fn lemma_chunk_count(x: int, chunk_size: int, length: int)
    requires
        0 < chunk_size,
        0 <= length,
    ensures
        0 <= chunk_count(length, chunk_size) <= length,
        0 <= x < length ==> 0 <= x / chunk_size < chunk_count(length, chunk_size),
        0 <= x < chunk_count(length, chunk_size) ==> 0 <= x * chunk_size < length && x * chunk_size
            / chunk_size == x,
{
    let n = chunk_count(length, chunk_size);
    let (q, m) = (length / chunk_size, length % chunk_size);
    lemma_fundamental_div_mod(length, chunk_size);
    lemma_fundamental_div_mod(x, chunk_size);
    assert(0 <= q) by (nonlinear_arith)
        requires
            q == length / chunk_size,
            0 <= length,
            0 < chunk_size,
    ;
    assert(q <= chunk_size * q) by (nonlinear_arith)
        requires
            0 <= q,
            0 < chunk_size,
    ;
    if 0 <= x < length {
        let y = x / chunk_size;
        assert(0 <= y < n) by (nonlinear_arith)
            requires
                0 <= x < length,
                x == chunk_size * y + x % chunk_size,
                0 <= x % chunk_size < chunk_size,
                length == chunk_size * q + m,
                0 <= m < chunk_size,
                n == if m > 0 {
                    q + 1
                } else {
                    q
                },
        ;
    }
    if 0 <= x < n {
        assert(0 <= x * chunk_size < length) by (nonlinear_arith)
            requires
                0 <= x < n,
                length == chunk_size * q + m,
                0 <= m < chunk_size,
                n == if m > 0 {
                    q + 1
                } else {
                    q
                },
        ;
        lemma_fundamental_div_mod_converse(x * chunk_size, chunk_size, x, 0);
    }
}

/// The chunk of a tile is found under its index.
pub proof fn lemma_chunk_index(p: Point, chunk_size: usize, size: (usize, usize))
    requires
        on_grid(p, size),
        0 < chunk_size,
    ensures
        ({
            let i = chunk_index(p, chunk_size, size);
            let pos = chunk_pos(i, chunk_size, size);
            let n = chunk_count(size.0 as int, chunk_size as int);
            let m = chunk_count(size.1 as int, chunk_size as int);
            &&& 0 <= i < n * m
            &&& 0 <= p.1 as int / chunk_size as int * n <= i
            &&& on_grid(pos, size)
            &&& pos.0 == p.0 as int / chunk_size as int * chunk_size
            &&& pos.1 == p.1 as int / chunk_size as int * chunk_size
            &&& region_of(pos, chunk_size, size) == region_of(p, chunk_size, size)
            &&& region_of(p, chunk_size, size).left == pos.0
            &&& region_of(p, chunk_size, size).top == pos.1
        }),
{
    reveal(region_of);
    let (cs, w, h) = (chunk_size as int, size.0 as int, size.1 as int);
    let i = chunk_index(p, chunk_size, size);
    let pos = chunk_pos(i, chunk_size, size);
    let (n, m) = (chunk_count(w, cs), chunk_count(h, cs));
    let (x, y) = (p.0 as int / cs, p.1 as int / cs);
    lemma_chunk_count(p.0 as int, cs, w);
    lemma_chunk_count(p.1 as int, cs, h);
    lemma_chunk_count(x, cs, w);
    lemma_chunk_count(y, cs, h);
    assert(0 <= y * n <= y * n + x < n * m) by (nonlinear_arith)
        requires
            0 <= x < n,
            0 <= y < m,
    ;
    lemma_fundamental_div_mod_converse(i, n, y, x);
    lemma_band(p.0 as int, cs, w);
    lemma_band(p.1 as int, cs, h);
    lemma_same_band(p.0 as int, pos.0 as int, cs, w);
    lemma_same_band(p.1 as int, pos.1 as int, cs, h);
}

/// The index of the chunk at the position of a chunk is that of the chunk.
pub proof fn lemma_chunk_pos(i: int, chunk_size: usize, size: (usize, usize))
    requires
        0 < chunk_size,
        0 <= i < chunk_count(size.0 as int, chunk_size as int) * chunk_count(
            size.1 as int,
            chunk_size as int,
        ),
    ensures
        on_grid(chunk_pos(i, chunk_size, size), size),
        chunk_index(chunk_pos(i, chunk_size, size), chunk_size, size) == i,
        ({
            let n = chunk_count(size.0 as int, chunk_size as int);
            let m = chunk_count(size.1 as int, chunk_size as int);
            &&& 0 <= i % n < n
            &&& 0 <= i / n < m
            &&& chunk_pos(i, chunk_size, size).0 == i % n * chunk_size
            &&& chunk_pos(i, chunk_size, size).1 == i / n * chunk_size
        }),
{
    let (cs, w, h) = (chunk_size as int, size.0 as int, size.1 as int);
    let (n, m) = (chunk_count(w, cs), chunk_count(h, cs));
    lemma_chunk_count(0, cs, w);
    lemma_chunk_count(0, cs, h);
    assert(n > 0) by (nonlinear_arith)
        requires
            0 <= i < n * m,
            0 <= n,
            0 <= m,
    ;
    lemma_fundamental_div_mod(i, n);
    let (x, y) = (i % n, i / n);
    assert(0 <= y < m) by (nonlinear_arith)
        requires
            0 <= i < n * m,
            i == n * y + x,
            0 <= x < n,
    ;
    lemma_chunk_count(x, cs, w);
    lemma_chunk_count(y, cs, h);
    assert(n * y == y * n) by (nonlinear_arith);
}

/// Tiles lie in the same chunk if and only if their chunks have the same index.
pub proof fn lemma_same_chunk(a: Point, b: Point, chunk_size: usize, size: (usize, usize))
    requires
        on_grid(a, size),
        on_grid(b, size),
        0 < chunk_size,
    ensures
        region_of(a, chunk_size, size) == region_of(b, chunk_size, size) <==> a.0 as int
            / chunk_size as int == b.0 as int / chunk_size as int && a.1 as int / chunk_size as int
            == b.1 as int / chunk_size as int,
        region_of(a, chunk_size, size) == region_of(b, chunk_size, size) <==> chunk_index(
            a,
            chunk_size,
            size,
        ) == chunk_index(b, chunk_size, size),
{
    reveal(region_of);
    let (cs, w, h) = (chunk_size as int, size.0 as int, size.1 as int);
    lemma_same_band(a.0 as int, b.0 as int, cs, w);
    lemma_same_band(a.1 as int, b.1 as int, cs, h);
    lemma_band(a.0 as int, cs, w);
    lemma_band(b.0 as int, cs, w);
    lemma_band(a.1 as int, cs, h);
    lemma_band(b.1 as int, cs, h);
    lemma_chunk_index(a, chunk_size, size);
    lemma_chunk_index(b, chunk_size, size);
}

} // verus!

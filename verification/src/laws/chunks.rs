//! What holds of chunks and of directions, in terms of columns and rows.

use vstd::arithmetic::div_mod::{lemma_fundamental_div_mod, lemma_fundamental_div_mod_converse};
use vstd::prelude::*;

use crate::dir::{jumped, Dir};
use crate::path_cache::layout::{chunk_count, chunk_index, chunk_pos, lemma_chunk_pos};
use crate::Point;

verus! {

/// Along a side of the grid there are just as many chunks as are needed to cover it.
pub proof fn law_chunks_cover_the_grid(length: int, chunk_size: int)
    requires
        0 < chunk_size,
        0 <= length,
    ensures
        length <= chunk_count(length, chunk_size) * chunk_size < length + chunk_size,
{
    lemma_fundamental_div_mod(length, chunk_size);
    let (n, q) = (chunk_count(length, chunk_size), length / chunk_size);
    assert(n * chunk_size == chunk_size * q + if length % chunk_size > 0 {
        chunk_size
    } else {
        0
    }) by (nonlinear_arith)
        requires
            n == if length % chunk_size > 0 {
                q + 1
            } else {
                q
            },
    ;
}

/// Chunks are numbered row by row, beginning with zero: the next chunk to the right has the next
/// number, and the one below has a number that is greater by the number of chunks in a row.
pub proof fn law_chunks_are_numbered_row_by_row(
    p: Point,
    q: Point,
    chunk_size: usize,
    size: (usize, usize),
)
    requires
        0 < chunk_size,
    ensures
        chunk_index((0, 0), chunk_size, size) == 0,
        q.0 == p.0 + chunk_size && q.1 == p.1 ==> chunk_index(q, chunk_size, size) == chunk_index(
            p,
            chunk_size,
            size,
        ) + 1,
        q.0 == p.0 && q.1 == p.1 + chunk_size ==> chunk_index(q, chunk_size, size) == chunk_index(
            p,
            chunk_size,
            size,
        ) + chunk_count(size.0 as int, chunk_size as int),
        p.0 / chunk_size == q.0 / chunk_size && p.1 / chunk_size == q.1 / chunk_size
            ==> chunk_index(p, chunk_size, size) == chunk_index(q, chunk_size, size),
{
    let (cs, n) = (chunk_size as int, chunk_count(size.0 as int, chunk_size as int));
    assert(0int / cs == 0) by (nonlinear_arith)
        requires
            0 < cs,
    ;
    assert(0int * n == 0) by (nonlinear_arith);
    let (x, y) = (p.0 as int, p.1 as int);
    lemma_fundamental_div_mod(x, cs);
    lemma_fundamental_div_mod(y, cs);
    assert(cs * (x / cs + 1) == cs * (x / cs) + cs && cs * (y / cs + 1) == cs * (y / cs) + cs)
        by (nonlinear_arith);
    assert(x + cs == (x / cs + 1) * cs + x % cs && y + cs == (y / cs + 1) * cs + y % cs)
        by (nonlinear_arith)
        requires
            x == cs * (x / cs) + x % cs,
            y == cs * (y / cs) + y % cs,
    ;
    lemma_fundamental_div_mod_converse(x + cs, cs, x / cs + 1, x % cs);
    lemma_fundamental_div_mod_converse(y + cs, cs, y / cs + 1, y % cs);
    assert((y / cs + 1) * n == y / cs * n + n) by (nonlinear_arith);
}

/// The position of a chunk has the number of the chunk, and its columns and rows are multiples of
/// the chunk size.
pub proof fn law_numbers_lead_to_chunks(i: int, chunk_size: usize, size: (usize, usize))
    requires
        0 < chunk_size,
        0 <= i < chunk_count(size.0 as int, chunk_size as int) * chunk_count(
            size.1 as int,
            chunk_size as int,
        ),
    ensures
        ({
            let p = chunk_pos(i, chunk_size, size);
            &&& chunk_index(p, chunk_size, size) == i
            &&& p.0 < size.0
            &&& p.1 < size.1
            &&& p.0 as int % chunk_size as int == 0
            &&& p.1 as int % chunk_size as int == 0
        }),
{
    let cs = chunk_size as int;
    let n = chunk_count(size.0 as int, cs);
    lemma_chunk_pos(i, chunk_size, size);
    assert(i % n * cs == i % n * cs + 0 && i / n * cs == i / n * cs + 0);
    lemma_fundamental_div_mod_converse(i % n * cs, cs, i % n, 0);
    lemma_fundamental_div_mod_converse(i / n * cs, cs, i / n, 0);
}

/// Going in a direction changes the column or the row by the given number, upwards and to the
/// left towards zero; and there is a tile there if and only if it lies in the rectangle.
pub proof fn law_directions(p: Point, dir: Dir, dist: usize, base: Point, size: (usize, usize))
    requires
        base.0 <= p.0 < base.0 + size.0,
        base.1 <= p.1 < base.1 + size.1,
        base.0 + size.0 <= usize::MAX,
        base.1 + size.1 <= usize::MAX,
    ensures
        ({
            let x = p.0 + if dir == Dir::RIGHT {
                dist as int
            } else if dir == Dir::LEFT {
                -(dist as int)
            } else {
                0
            };
            let y = p.1 + if dir == Dir::DOWN {
                dist as int
            } else if dir == Dir::UP {
                -(dist as int)
            } else {
                0
            };
            match jumped(p, dir, dist, base, size) {
                Some(q) => {
                    &&& q.0 == x
                    &&& q.1 == y
                    &&& base.0 <= x < base.0 + size.0
                    &&& base.1 <= y < base.1 + size.1
                },
                None => !(base.0 <= x < base.0 + size.0 && base.1 <= y < base.1 + size.1),
            }
        }),
        jumped(p, dir, dist, base, size) matches Some(q) ==> jumped(
            q,
            dir.back(),
            dist,
            base,
            size,
        ) == Some(p),
{
}

/// Turning round twice leads back, and so does turning by a quarter four times; turning by two
/// quarters is turning round.
pub proof fn law_turning_round(dir: Dir)
    ensures
        dir.back().back() == dir,
        dir.back() != dir,
        dir.turned().turned() == dir.back(),
        dir.turned() != dir,
        dir.turned() != dir.back(),
{
}

} // verus!

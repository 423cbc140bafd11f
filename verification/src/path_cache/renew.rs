//! Which sides of which chunks have to be looked at again after tiles have changed.

use vstd::prelude::*;

use super::chunk::Chunk;
use super::layout::{has_border, is_at_border, is_at_corner, is_at_side, lemma_region_of, region_of};
use super::PathCache;
use crate::dir::{jump_in_dir, jumped, next_tile, Dir};
use crate::key_map::{PointMap, PointSet};
use crate::neighbors::{gap, is_same_point, on_grid, Neighborhood};
use crate::terrain::Region;
use crate::Point;

verus! {

/// Which nodes at a side of a chunk have to be created anew.
#[derive(Debug)]
pub enum Renew {
    /// None.
    No,
    /// Those that are not at a corner.
    Inner,
    /// Those that are not at a corner, and the one at the given corner.
    Corner(Point),
    /// All.
    All,
}

impl Copy for Renew {

}

impl Clone for Renew {
    fn clone(&self) -> (copy: Self)
        ensures
            copy == *self,
    {
        *self
    }
}

/// For each side of a chunk, which nodes have to be created anew.
pub type Sides = [Renew; 4];

impl Renew {
    /// The nodes to be created anew after a tile at the side has changed.
    fn after_change(self, p: Point, corner: bool) -> (new: Renew)
        ensures
            new == (if corner {
                match self {
                    Renew::No | Renew::Inner => Renew::Corner(p),
                    Renew::Corner(c) => if c == p {
                        self
                    } else {
                        Renew::All
                    },
                    Renew::All => self,
                }
            } else {
                self.after_change_nearby()
            }),
    {
        if corner {
            match self {
                Renew::No => Renew::Corner(p),
                Renew::Inner => Renew::Corner(p),
                Renew::Corner(c) => if is_same_point(c, p) {
                    self
                } else {
                    Renew::All
                },
                Renew::All => self,
            }
        } else {
            self.at_least_inner()
        }
    }

    /// The nodes to be created anew after a tile across from the side has changed.
    pub open spec fn after_change_nearby(self) -> Renew {
        match self {
            Renew::No => Renew::Inner,
            _ => self,
        }
    }

    fn at_least_inner(self) -> (new: Renew)
        ensures
            new == self.after_change_nearby(),
    {
        match self {
            Renew::No => Renew::Inner,
            _ => self,
        }
    }

    /// A node at the tile has to be created anew.
    pub open spec fn includes(self, p: Point, corner: bool) -> bool {
        match self {
            Renew::No => false,
            Renew::Inner => !corner,
            Renew::Corner(c) => !corner || c == p,
            Renew::All => true,
        }
    }

    /// Whether a node at the tile has to be created anew.
    pub fn has(self, p: Point, corner: bool) -> (included: bool)
        ensures
            included == self.includes(p, corner),
    {
        match self {
            Renew::No => false,
            Renew::Inner => !corner,
            Renew::Corner(c) => !corner || is_same_point(c, p),
            Renew::All => true,
        }
    }

    /// Whether any node has to be created anew.
    pub fn is_needed(self) -> (needed: bool)
        ensures
            needed == !(self is No),
    {
        match self {
            Renew::No => false,
            _ => true,
        }
    }
}

/// The upper left tile of the chunk that the tile lies in.
pub open spec fn chunk_origin(p: Point, chunk_size: usize, size: (usize, usize)) -> Point {
    let r = region_of(p, chunk_size, size);
    (r.left, r.top)
}

/// The tile is the upper left one of a chunk.
pub open spec fn is_origin(p: Point, chunk_size: usize, size: (usize, usize)) -> bool {
    on_grid(p, size) && chunk_origin(p, chunk_size, size) == p
}

/// The upper left tile of a chunk lies in the chunk.
pub proof fn lemma_origin(p: Point, chunk_size: usize, size: (usize, usize))
    requires
        on_grid(p, size),
        0 < chunk_size,
    ensures
        is_origin(chunk_origin(p, chunk_size, size), chunk_size, size),
        region_of(chunk_origin(p, chunk_size, size), chunk_size, size) == region_of(
            p,
            chunk_size,
            size,
        ),
{
    lemma_region_of(p, chunk_size, size);
    lemma_region_of(chunk_origin(p, chunk_size, size), chunk_size, size);
}

/// The chunk across a border lies a chunk's length away, and the tile across lies at its
/// opposite side.
pub proof fn lemma_chunk_across(p: Point, dir: Dir, chunk_size: usize, size: (usize, usize))
    requires
        on_grid(p, size),
        0 < chunk_size,
        is_at_border(p, dir, chunk_size, size),
    ensures
        ({
            let q = next_tile(p, dir, size);
            &&& q is Some
            &&& on_grid(q->0, size)
            &&& is_at_border(q->0, dir.back(), chunk_size, size)
            &&& next_tile(q->0, dir.back(), size) == Some(p)
            &&& jumped(chunk_origin(p, chunk_size, size), dir, chunk_size, (0, 0), size) == Some(
                chunk_origin(q->0, chunk_size, size),
            )
        }),
{
    let q = next_tile(p, dir, size)->0;
    lemma_region_of(p, chunk_size, size);
    lemma_region_of(q, chunk_size, size);
}

/// A tile with chunks across two of its sides lies at a corner.
pub proof fn lemma_two_borders(p: Point, d: Dir, e: Dir, chunk_size: usize, size: (usize, usize))
    requires
        on_grid(p, size),
        0 < chunk_size,
        is_at_border(p, d, chunk_size, size),
        is_at_border(p, e, chunk_size, size),
        d != e,
    ensures
        is_at_corner(region_of(p, chunk_size, size), p),
{
    lemma_region_of(p, chunk_size, size);
}

/// What has to be created anew at a side of a chunk.
pub open spec fn renew_at(renew: Map<Point, Sides>, origin: Point, dir: Dir) -> Renew {
    if renew.contains_key(origin) {
        renew[origin]@[dir.number()]
    } else {
        Renew::No
    }
}

/// The change of the tile is noted at the given side of its chunk, and at that of the chunk
/// across.
pub open spec fn is_noted(
    renew: Map<Point, Sides>,
    p: Point,
    dir: Dir,
    chunk_size: usize,
    size: (usize, usize),
) -> bool {
    let own = renew_at(renew, chunk_origin(p, chunk_size, size), dir);
    &&& !(own is No)
    &&& own.includes(p, is_at_corner(region_of(p, chunk_size, size), p))
    &&& !(renew_at(
        renew,
        chunk_origin(next_tile(p, dir, size)->0, chunk_size, size),
        dir.back(),
    ) is No)
}

/// The tile lies in the rectangle or shares a side with one of its tiles.
pub open spec fn is_beside(r: Region, q: Point) -> bool {
    exists|x: Point| #[trigger] r.contains(x) && gap(x.0, q.0) + gap(x.1, q.1) <= 1
}

/// One of the given tiles lies in the chunk of `p` or shares a side with one of its tiles.
pub open spec fn is_affected(
    tiles: Seq<Point>,
    p: Point,
    chunk_size: usize,
    size: (usize, usize),
) -> bool {
    exists|q: Point| #[trigger]
        tiles.contains(q) && is_beside(region_of(p, chunk_size, size), q)
}

/// The tile lies at the given side of the chunk that begins at `origin`, or across from it.
pub open spec fn is_facing(
    q: Point,
    origin: Point,
    dir: Dir,
    chunk_size: usize,
    size: (usize, usize),
) -> bool {
    ||| is_at_border(q, dir, chunk_size, size) && chunk_origin(q, chunk_size, size) == origin
    ||| is_at_border(q, dir.back(), chunk_size, size) && chunk_origin(
        next_tile(q, dir.back(), size)->0,
        chunk_size,
        size,
    ) == origin
}

/// One of the given tiles lies at the given side of the chunk that begins at `origin`, or
/// across from it.
pub open spec fn is_side_changed(
    tiles: Seq<Point>,
    origin: Point,
    dir: Dir,
    chunk_size: usize,
    size: (usize, usize),
) -> bool {
    exists|q: Point| #[trigger] tiles.contains(q) && is_facing(q, origin, dir, chunk_size, size)
}

/// After a change of the given tiles, a node at `p` has to be created anew because of the
/// border in direction `dir`: `p` lies at a corner of its chunk and is one of the tiles, or it
/// lies at no corner and one of the tiles lies at the same border, on either side.
pub open spec fn is_renewed_by_at(
    tiles: Seq<Point>,
    p: Point,
    dir: Dir,
    chunk_size: usize,
    size: (usize, usize),
) -> bool {
    &&& is_at_border(p, dir, chunk_size, size)
    &&& if is_at_corner(region_of(p, chunk_size, size), p) {
        tiles.contains(p)
    } else {
        is_side_changed(tiles, chunk_origin(p, chunk_size, size), dir, chunk_size, size)
    }
}

/// After a change of the given tiles, a node at `p` has to be created anew.
pub open spec fn is_renewed_by(
    tiles: Seq<Point>,
    p: Point,
    chunk_size: usize,
    size: (usize, usize),
) -> bool {
    exists|dir: Dir| #[trigger] is_renewed_by_at(tiles, p, dir, chunk_size, size)
}

/// Nothing is noted but changes of the given tiles.
pub open spec fn is_justified(
    renew: Map<Point, Sides>,
    tiles: Seq<Point>,
    chunk_size: usize,
    size: (usize, usize),
) -> bool {
    &&& forall|cp: Point| #[trigger] renew.contains_key(cp) ==> is_origin(cp, chunk_size, size)
    &&& forall|cp: Point, dir: Dir|
        renew.contains_key(cp) && !(#[trigger] renew_at(renew, cp, dir) is No) ==> {
            let r = region_of(cp, chunk_size, size);
            &&& has_border(r, dir, size)
            &&& is_affected(tiles, cp, chunk_size, size)
            &&& is_side_changed(tiles, cp, dir, chunk_size, size)
            &&& forall|q: Point|
                r.contains(q) && is_at_side(r, q, dir) && is_at_corner(r, q) && renew_at(
                    renew,
                    cp,
                    dir,
                ).includes(q, true) ==> #[trigger] tiles.contains(q)
            &&& renew_at(renew, cp, dir) matches Renew::Corner(c) ==> r.contains(c) && is_at_side(
                r,
                c,
                dir,
            ) && is_at_corner(r, c)
        }
}

/// The changes of the given tiles are noted.
pub open spec fn are_noted(
    renew: Map<Point, Sides>,
    tiles: Seq<Point>,
    chunk_size: usize,
    size: (usize, usize),
) -> bool {
    forall|i: int, dir: Dir|
        0 <= i < tiles.len() && is_at_border(tiles[i], dir, chunk_size, size)
            ==> #[trigger] is_noted(renew, tiles[i], dir, chunk_size, size)
}

/// Notes what has to be created anew at a side of a chunk.
fn set_side(renew: &mut PointMap<Sides>, origin: Point, dir: Dir, value: Renew)
    requires
        old(renew).wf(),
    ensures
        final(renew).wf(),
        final(renew)@.dom() == old(renew)@.dom().insert(origin),
        forall|cp: Point, d: Dir| #[trigger]
            renew_at(final(renew)@, cp, d) == if cp == origin && d == dir {
                value
            } else {
                renew_at(old(renew)@, cp, d)
            },
{
    let ghost before = renew@;
    let mut sides: Sides = match renew.get(&origin) {
        Some(sides) => *sides,
        None => [Renew::No, Renew::No, Renew::No, Renew::No],
    };
    let ghost previous = sides@;
    sides[dir.num()] = value;
    renew.insert(origin, sides);
    proof {
        assert(renew@.dom() =~= before.dom().insert(origin));
        assert forall|cp: Point, d: Dir| #[trigger] renew_at(renew@, cp, d) == if cp == origin && d
            == dir {
            value
        } else {
            renew_at(before, cp, d)
        } by {
            if cp == origin {
                assert(previous[d.number()] == renew_at(before, cp, d));
                assert(0 <= d.number() < 4);
                if d != dir {
                    assert(d.number() != dir.number());
                }
            }
        }
    }
}

/// What has to be created anew at a side of a chunk.
fn get_side(renew: &PointMap<Sides>, origin: Point, dir: Dir) -> (value: Renew)
    requires
        renew.wf(),
    ensures
        value == renew_at(renew@, origin, dir),
{
    match renew.get(&origin) {
        Some(sides) => sides[dir.num()],
        None => Renew::No,
    }
}

/// Two different corners at a side are all that there are.
proof fn lemma_corners(r: Region, dir: Dir, a: Point, b: Point, c: Point)
    requires
        r.contains(a) && is_at_side(r, a, dir) && is_at_corner(r, a),
        r.contains(b) && is_at_side(r, b, dir) && is_at_corner(r, b),
        r.contains(c) && is_at_side(r, c, dir) && is_at_corner(r, c),
        a != b,
    ensures
        c == a || c == b,
{
}

impl<N: Neighborhood> PathCache<N> {
    /// Notes the change of a tile.
    #[verifier::rlimit(30)]
    fn note_change(
        &self,
        p: Point,
        renew: &mut PointMap<Sides>,
        Ghost(before): Ghost<Seq<Point>>,
    )
        requires
            self.wf(),
            on_grid(p, self.size()),
            old(renew).wf(),
            is_justified(old(renew)@, before, self.settings().chunk_size, self.size()),
            are_noted(old(renew)@, before, self.settings().chunk_size, self.size()),
        ensures
            final(renew).wf(),
            is_justified(final(renew)@, before.push(p), self.settings().chunk_size, self.size()),
            are_noted(final(renew)@, before.push(p), self.settings().chunk_size, self.size()),
    {
        let cs: usize = self.config.chunk_size;
        let size: (usize, usize) = (self.width, self.height);
        let ghost tiles = before.push(p);
        let ghost r = region_of(p, cs, size);
        let chunk: &Chunk = self.get_chunk(p);
        let cp: Point = self.get_chunk_pos(p);
        let corner: bool = chunk.is_corner(p);
        let dirs: [Dir; 4] = Dir::all();
        proof {
            lemma_origin(p, cs, size);
            assert(tiles[before.len() as int] == p);
            assert forall|q: Point| before.contains(q) implies tiles.contains(q) by {
                let i = choose|i: int| 0 <= i < before.len() && before[i] == q;
                assert(tiles[i] == q);
            }
            assert forall|c: Point| is_affected(before, c, cs, size) implies is_affected(
                tiles,
                c,
                cs,
                size,
            ) by {
                let q = choose|q: Point| #[trigger]
                    before.contains(q) && is_beside(region_of(c, cs, size), q);
                assert(tiles.contains(q));
            }
            assert forall|c: Point, d: Dir|
                is_side_changed(before, c, d, cs, size) implies #[trigger] is_side_changed(
                tiles,
                c,
                d,
                cs,
                size,
            ) by {
                let q = choose|q: Point| #[trigger]
                    before.contains(q) && is_facing(q, c, d, cs, size);
                assert(tiles.contains(q));
            }
            assert(is_justified(renew@, tiles, cs, size));
        }
        for i in 0..4
            invariant
                self.wf(),
                cs == self.config.chunk_size,
                0 < cs,
                size == self.size(),
                on_grid(p, size),
                r == region_of(p, cs, size),
                r.contains(p),
                cp == chunk_origin(p, cs, size),
                is_origin(cp, cs, size),
                region_of(cp, cs, size) == r,
                chunk.wf(cs, size),
                chunk.tiles() == r,
                corner == is_at_corner(r, p),
                forall|k: int| 0 <= k < 4 ==> #[trigger] dirs@[k] == Dir::numbered(k),
                tiles == before.push(p),
                tiles.contains(p),
                renew.wf(),
                is_justified(renew@, tiles, cs, size),
                are_noted(renew@, before, cs, size),
                forall|dir: Dir|
                    dir.number() < i && is_at_border(p, dir, cs, size) ==> #[trigger] is_noted(
                        renew@,
                        p,
                        dir,
                        cs,
                        size,
                    ),
        {
            let dir: Dir = dirs[i];
            assert(dir == Dir::numbered(i as int) && dir.number() == i);
            if chunk.sides[dir.num()] && chunk.at_side(p, dir) {
                proof {
                    lemma_chunk_across(p, dir, cs, size);
                    lemma_region_of(p, cs, size);
                }
                let ghost q = next_tile(p, dir, size)->0;
                let across: Option<Point> = jump_in_dir(cp, dir, cs, (0, 0), size);
                let other_pos: Point = across.unwrap();
                let ghost previous = renew@;
                let own: Renew = get_side(renew, cp, dir);
                set_side(renew, cp, dir, own.after_change(p, corner));
                let ghost middle = renew@;
                let other: Renew = get_side(renew, other_pos, dir.opposite());
                set_side(renew, other_pos, dir.opposite(), other.at_least_inner());
                proof {
                    let o = region_of(q, cs, size);
                    lemma_origin(q, cs, size);
                    lemma_region_of(q, cs, size);
                    assert(cp != other_pos);
                    assert(is_beside(r, p));
                    assert(o.contains(q));
                    assert(is_beside(o, p));
                    assert(dir.back().back() == dir);
                    assert(is_facing(p, cp, dir, cs, size));
                    assert(is_facing(p, other_pos, dir.back(), cs, size));
                    assert forall|c: Point| #[trigger] renew@.contains_key(c) implies is_origin(
                        c,
                        cs,
                        size,
                    ) by {
                        assert(renew@.dom().contains(c));
                        assert(middle.dom().contains(c) || c == other_pos);
                        assert(previous.dom().contains(c) || c == cp || c == other_pos);
                    }
                    assert forall|c: Point, d: Dir|
                        renew@.contains_key(c) && !(#[trigger] renew_at(
                            renew@,
                            c,
                            d,
                        ) is No) implies {
                        let s = region_of(c, cs, size);
                        &&& has_border(s, d, size)
                        &&& is_affected(tiles, c, cs, size)
                        &&& is_side_changed(tiles, c, d, cs, size)
                        &&& forall|x: Point|
                            s.contains(x) && is_at_side(s, x, d) && is_at_corner(s, x) && renew_at(
                                renew@,
                                c,
                                d,
                            ).includes(x, true) ==> #[trigger] tiles.contains(x)
                        &&& renew_at(renew@, c, d) matches Renew::Corner(y) ==> s.contains(y)
                            && is_at_side(s, y, d) && is_at_corner(s, y)
                    } by {
                        let s = region_of(c, cs, size);
                        let was = renew_at(previous, c, d);
                        assert(renew_at(middle, c, d) == if c == cp && d == dir {
                            renew_at(middle, c, d)
                        } else {
                            was
                        });
                        if !(was is No) {
                            assert(previous.contains_key(c));
                        }
                        if c == cp && d == dir {
                            assert forall|x: Point|
                                s.contains(x) && is_at_side(s, x, d) && is_at_corner(s, x)
                                    && renew_at(renew@, c, d).includes(
                                    x,
                                    true,
                                ) implies #[trigger] tiles.contains(x) by {
                                if was is Corner && corner && was->Corner_0 != p {
                                    let y = was->Corner_0;
                                    assert(was.includes(y, true));
                                    assert(tiles.contains(y));
                                    lemma_corners(r, dir, y, p, x);
                                }
                            }
                        }
                    }
                    assert forall|k: int, d: Dir|
                        0 <= k < before.len() && is_at_border(
                            before[k],
                            d,
                            cs,
                            size,
                        ) implies #[trigger] is_noted(renew@, before[k], d, cs, size) by {
                        assert(is_noted(previous, before[k], d, cs, size));
                        lemma_note_kept(previous, middle, cp, dir, before[k], d, cs, size);
                        lemma_note_kept(
                            middle,
                            renew@,
                            other_pos,
                            dir.back(),
                            before[k],
                            d,
                            cs,
                            size,
                        );
                    }
                    assert forall|d: Dir|
                        d.number() < i + 1 && is_at_border(p, d, cs, size) implies #[trigger] is_noted(
                        renew@,
                        p,
                        d,
                        cs,
                        size,
                    ) by {
                        if d.number() < i {
                            assert(is_noted(previous, p, d, cs, size));
                            lemma_note_kept(previous, middle, cp, dir, p, d, cs, size);
                            lemma_note_kept(
                                middle,
                                renew@,
                                other_pos,
                                dir.back(),
                                p,
                                d,
                                cs,
                                size,
                            );
                        } else {
                            assert(d == dir);
                        }
                    }
                }
            } else {
                proof {
                    assert forall|d: Dir|
                        d.number() < i + 1 && is_at_border(p, d, cs, size) implies #[trigger] is_noted(
                        renew@,
                        p,
                        d,
                        cs,
                        size,
                    ) by {
                        if d.number() == i {
                            assert(d == dir);
                        }
                    }
                }
            }
        }
        proof {
            assert forall|k: int, d: Dir|
                0 <= k < tiles.len() && is_at_border(
                    tiles[k],
                    d,
                    cs,
                    size,
                ) implies #[trigger] is_noted(renew@, tiles[k], d, cs, size) by {
                if k < before.len() {
                    assert(tiles[k] == before[k]);
                    assert(is_noted(renew@, before[k], d, cs, size));
                } else {
                    assert(d.number() < 4);
                }
            }
        }
    }

    /// The chunks in which tiles have changed, and what has to be created anew.
    pub(super) fn note_changes(&self, tiles: &[Point]) -> (noted: (PointSet, PointMap<Sides>))
        requires
            self.wf(),
            forall|i: int| 0 <= i < tiles@.len() ==> on_grid(#[trigger] tiles@[i], self.size()),
        ensures
            noted.0.wf(),
            forall|cp: Point| #[trigger]
                noted.0@.contains_key(cp) <==> exists|i: int|
                    0 <= i < tiles@.len() && chunk_origin(
                        #[trigger] tiles@[i],
                        self.settings().chunk_size,
                        self.size(),
                    ) == cp,
            noted.1.wf(),
            is_justified(noted.1@, tiles@, self.settings().chunk_size, self.size()),
            are_noted(noted.1@, tiles@, self.settings().chunk_size, self.size()),
    {
        let ghost cs = self.config.chunk_size;
        let mut dirty: PointSet = PointSet::new();
        let mut renew: PointMap<Sides> = PointMap::new();
        for i in 0..tiles.len()
            invariant
                self.wf(),
                cs == self.config.chunk_size,
                forall|k: int| 0 <= k < tiles@.len() ==> on_grid(#[trigger] tiles@[k], self.size()),
                dirty.wf(),
                forall|cp: Point| #[trigger]
                    dirty@.contains_key(cp) <==> exists|k: int|
                        0 <= k < i && chunk_origin(#[trigger] tiles@[k], cs, self.size()) == cp,
                renew.wf(),
                is_justified(renew@, tiles@.take(i as int), cs, self.size()),
                are_noted(renew@, tiles@.take(i as int), cs, self.size()),
        {
            let p: Point = tiles[i];
            let ghost previous = dirty@;
            let cp: Point = self.get_chunk_pos(p);
            dirty.insert(cp, ());
            self.note_change(p, &mut renew, Ghost(tiles@.take(i as int)));
            proof {
                assert(tiles@.take(i as int).push(p) =~= tiles@.take(i + 1));
                assert forall|c: Point| #[trigger] dirty@.contains_key(c) <==> exists|k: int|
                    0 <= k < i + 1 && chunk_origin(
                        #[trigger] tiles@[k],
                        cs,
                        self.size(),
                    ) == c by {
                    if previous.contains_key(c) {
                        let k = choose|k: int|
                            0 <= k < i && chunk_origin(#[trigger] tiles@[k], cs, self.size()) == c;
                        assert(0 <= k < i + 1);
                    }
                    if c == cp {
                        assert(chunk_origin(tiles@[i as int], cs, self.size()) == c);
                    }
                }
            }
        }
        assert(tiles@.take(tiles@.len() as int) =~= tiles@);
        (dirty, renew)
    }
}

/// What was noted of a change stays noted.
proof fn lemma_note_kept(
    before: Map<Point, Sides>,
    after: Map<Point, Sides>,
    origin: Point,
    dir: Dir,
    p: Point,
    d: Dir,
    chunk_size: usize,
    size: (usize, usize),
)
    requires
        is_noted(before, p, d, chunk_size, size),
        forall|c: Point, e: Dir|
            (c != origin || e != dir) ==> #[trigger] renew_at(after, c, e) == renew_at(
                before,
                c,
                e,
            ),
        !(renew_at(after, origin, dir) is No),
        forall|q: Point, corner: bool|
            renew_at(before, origin, dir).includes(q, corner) ==> #[trigger] renew_at(
                after,
                origin,
                dir,
            ).includes(q, corner),
    ensures
        is_noted(after, p, d, chunk_size, size),
{
}

} // verus!

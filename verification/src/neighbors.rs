//! Which tiles of a grid lie next to each other.

use vstd::prelude::*;

use crate::{Cost, Point};

verus! {

/// `p` lies on a grid of the given width and height.
pub open spec fn on_grid(p: Point, size: (usize, usize)) -> bool {
    p.0 < size.0 && p.1 < size.1
}

/// Whether two positions are the same.
pub fn is_same_point(a: Point, b: Point) -> (same: bool)
    ensures
        same == (a == b),
{
    a.0 == b.0 && a.1 == b.1
}

/// The difference of two coordinates.
pub open spec fn gap(a: usize, b: usize) -> nat {
    if a <= b {
        (b - a) as nat
    } else {
        (a - b) as nat
    }
}

/// Tells which tiles can be entered from a tile.
///
/// The tiles next to a tile are some of the eight that surround it, at least the four in
/// the straight directions, and being next to each other is mutual.
pub trait Neighborhood: Clone {
    /// The width and height of the grid.
    spec fn size(&self) -> (usize, usize);

    /// The tile `b` lies next to the tile `a`.
    spec fn adjacent(&self, a: Point, b: Point) -> bool;

    /// The estimated distance of two tiles.
    spec fn distance(&self, a: Point, b: Point) -> Cost;

    /// Tiles next to each other lie on the grid, touch, and are next to each other both ways.
    proof fn lemma_adjacent(&self, a: Point, b: Point)
        requires
            self.adjacent(a, b),
        ensures
            on_grid(a, self.size()),
            on_grid(b, self.size()),
            a != b,
            gap(a.0, b.0) <= 1,
            gap(a.1, b.1) <= 1,
            self.adjacent(b, a),
    ;

    /// Tiles that share a side lie next to each other.
    proof fn lemma_straight(&self, a: Point, b: Point)
        requires
            on_grid(a, self.size()),
            on_grid(b, self.size()),
            gap(a.0, b.0) + gap(a.1, b.1) == 1,
        ensures
            self.adjacent(a, b),
    ;

    /// A clone describes the same grid.
    proof fn lemma_clone(source: Self, copy: Self)
        requires
            cloned(source, copy),
        ensures
            copy.size() == source.size(),
            forall|a: Point, b: Point| #[trigger]
                copy.adjacent(a, b) == source.adjacent(a, b),
            forall|a: Point, b: Point| #[trigger]
                copy.distance(a, b) == source.distance(a, b),
    ;

    /// The width and height of the grid.
    fn dimensions(&self) -> (size: (usize, usize))
        ensures
            size == self.size(),
    ;

    /// Appends the tiles next to `point` to `target`.
    fn get_all_neighbors(&self, point: Point, target: &mut Vec<Point>)
        requires
            on_grid(point, self.size()),
        ensures
            old(target)@.is_prefix_of(final(target)@),
            forall|i: int|
                old(target)@.len() <= i < final(target)@.len() ==> self.adjacent(
                    point,
                    #[trigger] final(target)@[i],
                ),
            forall|q: Point| #[trigger]
                self.adjacent(point, q) ==> final(target)@.skip(old(target)@.len() as int).contains(
                    q,
                ),
    ;

    /// Estimates the cost of a path between two tiles.
    fn heuristic(&self, point: Point, goal: Point) -> (estimate: Cost)
        requires
            on_grid(point, self.size()),
            on_grid(goal, self.size()),
        ensures
            estimate == self.distance(point, goal),
    ;
}

/// Whether the tile `b` lies next to the tile `a`.
pub fn is_adjacent<N: Neighborhood>(neighborhood: &N, a: Point, b: Point) -> (adjacent: bool)
    requires
        on_grid(a, neighborhood.size()),
    ensures
        adjacent == neighborhood.adjacent(a, b),
{
    let mut tiles: Vec<Point> = Vec::new();
    neighborhood.get_all_neighbors(a, &mut tiles);
    let count: usize = tiles.len();
    for i in 0..count
        invariant
            count == tiles@.len(),
            forall|k: int| 0 <= k < tiles@.len() ==> neighborhood.adjacent(a, #[trigger] tiles@[k]),
            forall|k: int| 0 <= k < i ==> #[trigger] tiles@[k] != b,
    {
        if is_same_point(tiles[i], b) {
            return true;
        }
    }
    proof {
        if neighborhood.adjacent(a, b) {
            assert(tiles@.skip(0) == tiles@);
            assert(tiles@.contains(b));
        }
    }
    false
}

/// `after` is `before` with the tiles of `tiles` appended, each once, in some order.
spec fn appended(before: Seq<Point>, after: Seq<Point>, tiles: Set<Point>) -> bool {
    &&& before.is_prefix_of(after)
    &&& forall|i: int| before.len() <= i < after.len() ==> tiles.contains(#[trigger] after[i])
    &&& forall|q: Point| #[trigger]
        tiles.contains(q) ==> after.skip(before.len() as int).contains(q)
    &&& after.skip(before.len() as int).no_duplicates()
}

/// Appends a tile.
fn append(
    target: &mut Vec<Point>,
    p: Point,
    Ghost(before): Ghost<Seq<Point>>,
    Ghost(tiles): Ghost<Set<Point>>,
)
    requires
        appended(before, old(target)@, tiles),
        !tiles.contains(p),
    ensures
        appended(before, final(target)@, tiles.insert(p)),
{
    let ghost n = before.len() as int;
    let ghost previous = target@;
    target.push(p);
    proof {
        assert forall|q: Point| #[trigger] tiles.insert(p).contains(q) implies target@.skip(
            n,
        ).contains(q) by {
            if tiles.contains(q) {
                let i = choose|i: int|
                    0 <= i < previous.skip(n).len() && previous.skip(n)[i] == q;
                assert(target@.skip(n)[i] == q);
            } else {
                assert(target@.skip(n)[previous.len() - n] == p);
            }
        }
        assert(target@.skip(n) =~= previous.skip(n).push(p));
        assert forall|i: int| 0 <= i < previous.skip(n).len() implies previous.skip(n)[i] != p by {
            assert(tiles.contains(previous[n + i]));
        }
    }
}

/// The difference of two coordinates.
fn difference(a: usize, b: usize) -> (d: usize)
    ensures
        d == gap(a, b),
{
    if a <= b {
        b - a
    } else {
        a - b
    }
}

/// The neighborhood of the four straight directions.
#[derive(Clone, Copy, Debug)]
pub struct ManhattanNeighborhood {
    width: usize,
    height: usize,
}

impl ManhattanNeighborhood {
    /// The width and height of the grid.
    pub closed spec fn extent(&self) -> (usize, usize) {
        (self.width, self.height)
    }

    /// The neighborhood on a grid of the given width and height.
    pub fn new(width: usize, height: usize) -> (neighborhood: Self)
        ensures
            neighborhood.extent() == (width, height),
    {
        ManhattanNeighborhood { width, height }
    }
}

impl Neighborhood for ManhattanNeighborhood {
    open spec fn size(&self) -> (usize, usize) {
        self.extent()
    }

    open spec fn adjacent(&self, a: Point, b: Point) -> bool {
        &&& on_grid(a, self.size())
        &&& on_grid(b, self.size())
        &&& gap(a.0, b.0) + gap(a.1, b.1) == 1
    }

    /// The number of straight steps from one tile to the other.
    open spec fn distance(&self, a: Point, b: Point) -> Cost {
        if gap(a.0, b.0) + gap(a.1, b.1) <= usize::MAX {
            (gap(a.0, b.0) + gap(a.1, b.1)) as Cost
        } else {
            usize::MAX
        }
    }

    proof fn lemma_adjacent(&self, a: Point, b: Point) {
    }

    proof fn lemma_straight(&self, a: Point, b: Point) {
    }

    proof fn lemma_clone(source: Self, copy: Self) {
    }

    fn dimensions(&self) -> (size: (usize, usize)) {
        (self.width, self.height)
    }

    fn get_all_neighbors(&self, point: Point, target: &mut Vec<Point>)
        ensures
            final(target)@.skip(old(target)@.len() as int).no_duplicates(),
    {
        let ghost before = target@;
        let ghost mut tiles = Set::<Point>::empty();
        let (x, y) = point;
        if y > 0 {
            append(target, (x, y - 1), Ghost(before), Ghost(tiles));
            proof {
                tiles = tiles.insert((x, (y - 1) as usize));
            }
        }
        if x < self.width - 1 {
            append(target, (x + 1, y), Ghost(before), Ghost(tiles));
            proof {
                tiles = tiles.insert(((x + 1) as usize, y));
            }
        }
        if y < self.height - 1 {
            append(target, (x, y + 1), Ghost(before), Ghost(tiles));
            proof {
                tiles = tiles.insert((x, (y + 1) as usize));
            }
        }
        if x > 0 {
            append(target, (x - 1, y), Ghost(before), Ghost(tiles));
            proof {
                tiles = tiles.insert(((x - 1) as usize, y));
            }
        }
        assert forall|q: Point| #[trigger] self.adjacent(point, q) implies tiles.contains(q) by {}
    }

    fn heuristic(&self, point: Point, goal: Point) -> (estimate: Cost) {
        difference(point.0, goal.0).saturating_add(difference(point.1, goal.1))
    }
}

/// The neighborhood of the eight straight and diagonal directions.
#[derive(Clone, Copy, Debug)]
pub struct MooreNeighborhood {
    width: usize,
    height: usize,
}

impl MooreNeighborhood {
    /// The width and height of the grid.
    pub closed spec fn extent(&self) -> (usize, usize) {
        (self.width, self.height)
    }

    /// The neighborhood on a grid of the given width and height.
    pub fn new(width: usize, height: usize) -> (neighborhood: Self)
        ensures
            neighborhood.extent() == (width, height),
    {
        MooreNeighborhood { width, height }
    }
}

impl Neighborhood for MooreNeighborhood {
    open spec fn size(&self) -> (usize, usize) {
        self.extent()
    }

    open spec fn adjacent(&self, a: Point, b: Point) -> bool {
        &&& on_grid(a, self.size())
        &&& on_grid(b, self.size())
        &&& a != b && gap(a.0, b.0) <= 1 && gap(a.1, b.1) <= 1
    }

    /// The number of steps from one tile to the other, diagonal steps included.
    open spec fn distance(&self, a: Point, b: Point) -> Cost {
        if gap(a.0, b.0) >= gap(a.1, b.1) {
            gap(a.0, b.0) as Cost
        } else {
            gap(a.1, b.1) as Cost
        }
    }

    proof fn lemma_adjacent(&self, a: Point, b: Point) {
    }

    proof fn lemma_straight(&self, a: Point, b: Point) {
    }

    proof fn lemma_clone(source: Self, copy: Self) {
    }

    fn dimensions(&self) -> (size: (usize, usize)) {
        (self.width, self.height)
    }

    fn get_all_neighbors(&self, point: Point, target: &mut Vec<Point>)
        ensures
            final(target)@.skip(old(target)@.len() as int).no_duplicates(),
    {
        let ghost before = target@;
        let ghost mut tiles = Set::<Point>::empty();
        let (x, y) = point;
        if y > 0 {
            append(target, (x, y - 1), Ghost(before), Ghost(tiles));
            proof {
                tiles = tiles.insert((x, (y - 1) as usize));
            }
        }
        if x < self.width - 1 {
            append(target, (x + 1, y), Ghost(before), Ghost(tiles));
            proof {
                tiles = tiles.insert(((x + 1) as usize, y));
            }
        }
        if y < self.height - 1 {
            append(target, (x, y + 1), Ghost(before), Ghost(tiles));
            proof {
                tiles = tiles.insert((x, (y + 1) as usize));
            }
        }
        if x > 0 {
            append(target, (x - 1, y), Ghost(before), Ghost(tiles));
            proof {
                tiles = tiles.insert(((x - 1) as usize, y));
            }
        }
        if x > 0 && y > 0 {
            append(target, (x - 1, y - 1), Ghost(before), Ghost(tiles));
            proof {
                tiles = tiles.insert(((x - 1) as usize, (y - 1) as usize));
            }
        }
        if x < self.width - 1 && y > 0 {
            append(target, (x + 1, y - 1), Ghost(before), Ghost(tiles));
            proof {
                tiles = tiles.insert(((x + 1) as usize, (y - 1) as usize));
            }
        }
        if x > 0 && y < self.height - 1 {
            append(target, (x - 1, y + 1), Ghost(before), Ghost(tiles));
            proof {
                tiles = tiles.insert(((x - 1) as usize, (y + 1) as usize));
            }
        }
        if x < self.width - 1 && y < self.height - 1 {
            append(target, (x + 1, y + 1), Ghost(before), Ghost(tiles));
            proof {
                tiles = tiles.insert(((x + 1) as usize, (y + 1) as usize));
            }
        }
        assert forall|q: Point| #[trigger] self.adjacent(point, q) implies tiles.contains(q) by {}
    }

    fn heuristic(&self, point: Point, goal: Point) -> (estimate: Cost) {
        let dx: usize = difference(point.0, goal.0);
        let dy: usize = difference(point.1, goal.1);
        if dx >= dy {
            dx
        } else {
            dy
        }
    }
}

/// Both neighborhoods describe the same grid.
pub open spec fn is_same_neighborhood<N: Neighborhood>(a: N, b: N) -> bool {
    &&& a.size() == b.size()
    &&& forall|p: Point, q: Point| #[trigger] a.adjacent(p, q) == b.adjacent(p, q)
    &&& forall|p: Point, q: Point| #[trigger] a.distance(p, q) == b.distance(p, q)
}

} // verus!

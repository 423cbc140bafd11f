//! The grid as seen by the specifications: its tiles, their costs, and the steps between
//! them.

use vstd::prelude::*;

use crate::neighbors::{gap, on_grid, Neighborhood};
use crate::walk::{
    connects, is_walk, lemma_walk_prepends, lemma_walk_reverses, lemma_walk_stays, linked, reaches,
    subgraph, two_way, walk_cost, Edges,
};
use crate::{Cost, Point};

verus! {

/// A rectangle of tiles: those from `left` up to but not including `right`, and from `top`
/// up to but not including `bottom`.
#[derive(Clone, Copy, Debug)]
pub struct Region {
    pub left: usize,
    pub top: usize,
    pub right: usize,
    pub bottom: usize,
}

impl Region {
    /// The tile lies in the rectangle.
    pub open spec fn contains(self, p: Point) -> bool {
        &&& self.left <= p.0 < self.right
        &&& self.top <= p.1 < self.bottom
    }

    /// The number of tiles.
    pub open spec fn area(self) -> int {
        if self.left <= self.right && self.top <= self.bottom {
            (self.right - self.left) * (self.bottom - self.top)
        } else {
            0
        }
    }

    /// The rectangle lies on a grid of the given width and height.
    pub open spec fn within(self, size: (usize, usize)) -> bool {
        self.right <= size.0 && self.bottom <= size.1
    }

    /// Whether the tile lies in the rectangle.
    pub fn has(&self, p: Point) -> (inside: bool)
        ensures
            inside == self.contains(p),
    {
        self.left <= p.0 && p.0 < self.right && self.top <= p.1 && p.1 < self.bottom
    }
}

/// A grid: its size, which tiles lie next to each other, and the cost of walking over each
/// tile. Tiles of negative cost are solid.
pub struct Terrain {
    pub size: (usize, usize),
    pub adjacent: spec_fn(Point, Point) -> bool,
    pub cost: spec_fn(Point) -> int,
}

/// The tiles of the grid lie next to each other as the neighborhood says.
pub open spec fn is_ground<N: Neighborhood>(t: Terrain, neighborhood: N) -> bool {
    &&& t.size == neighborhood.size()
    &&& forall|a: Point, b: Point| #[trigger] (t.adjacent)(a, b) == neighborhood.adjacent(a, b)
}

/// `get_cost` can be asked for every tile of the grid, and gives its cost.
pub open spec fn is_cost_fn<F: FnMut(Point) -> isize>(get_cost: F, t: Terrain) -> bool {
    &&& forall|p: Point| on_grid(p, t.size) ==> #[trigger] call_requires(get_cost, (p,))
    &&& forall|p: Point, c: isize|
        on_grid(p, t.size) && #[trigger] call_ensures(get_cost, (p,), c) ==> c == (t.cost)(p)
}

/// `get_cost` can be asked for every tile of the grid, and gives the same cost each time.
pub open spec fn is_definite<F: FnMut(Point) -> isize>(get_cost: F, size: (usize, usize)) -> bool {
    &&& forall|p: Point| on_grid(p, size) ==> #[trigger] call_requires(get_cost, (p,))
    &&& forall|p: Point, c: isize, d: isize|
        on_grid(p, size) && #[trigger] call_ensures(get_cost, (p,), c)
            && #[trigger] call_ensures(get_cost, (p,), d) ==> c == d
}

/// The cost that a cost function gives for a tile; where it gives none, the tile is solid.
///
/// Calling a cost function that always gives the same costs shows the cost of the tile.
pub open spec fn cost_at<F: FnMut(Point) -> isize>(get_cost: F, p: Point) -> isize {
    if exists|c: isize| call_ensures(get_cost, (p,), c) {
        choose|c: isize| call_ensures(get_cost, (p,), c)
    } else {
        -1isize
    }
}

/// The grid that a neighborhood and a cost function describe.
pub open spec fn terrain<N: Neighborhood, F: FnMut(Point) -> isize>(
    neighborhood: N,
    get_cost: F,
) -> Terrain {
    Terrain {
        size: neighborhood.size(),
        adjacent: |a: Point, b: Point| neighborhood.adjacent(a, b),
        cost: |p: Point| cost_at(get_cost, p) as int,
    }
}

impl Terrain {
    /// The tile can be walked over.
    pub open spec fn open(self, p: Point) -> bool {
        on_grid(p, self.size) && (self.cost)(p) >= 0
    }

    /// One can walk from the tile `a` to the tile `b` in a single step.
    pub open spec fn step(self, a: Point, b: Point) -> bool {
        self.open(a) && self.open(b) && (self.adjacent)(a, b)
    }

    /// The steps that lead from tile to tile within a rectangle. A step costs what it costs
    /// to walk over the tile that it leaves.
    pub open spec fn edges(self, r: Region) -> Edges<Point> {
        |a: Point, b: Point|
            if r.contains(a) && r.contains(b) && self.step(a, b) {
                Some((self.cost)(a) as nat)
            } else {
                None
            }
    }

    /// Both grids have the same size, neighbors and costs.
    pub open spec fn agrees_with(self, other: Terrain) -> bool {
        &&& self.size == other.size
        &&& forall|a: Point, b: Point| #[trigger]
            (self.adjacent)(a, b) == (other.adjacent)(a, b)
        &&& forall|p: Point|
            on_grid(p, self.size) ==> #[trigger] (self.cost)(p) == (other.cost)(p)
    }

    /// The whole grid.
    pub open spec fn whole(self) -> Region {
        Region { left: 0, top: 0, right: self.size.0, bottom: self.size.1 }
    }

    /// The tiles of `s` lead from `a` to `b`, within the rectangle, at the given cost.
    pub open spec fn is_route(self, r: Region, s: Seq<Point>, a: Point, b: Point, cost: nat) -> bool {
        &&& connects(self.edges(r), s, a, b)
        &&& walk_cost(self.edges(r), s) == cost
    }

    /// There is a path from the tile `a` to the tile `b`.
    pub open spec fn has_path(self, a: Point, b: Point) -> bool {
        &&& self.open(a)
        &&& self.open(b)
        &&& reaches(self.edges(self.whole()), a, b)
    }

    /// There is a path from the tile `a` to the tile `b` that does not leave the rectangle.
    pub open spec fn has_path_in(self, r: Region, a: Point, b: Point) -> bool {
        &&& self.open(a)
        &&& self.open(b)
        &&& r.contains(a)
        &&& r.contains(b)
        &&& reaches(self.edges(r), a, b)
    }

    /// Being next to each other is mutual, holds for tiles that share a side, and only for
    /// tiles that touch.
    pub open spec fn wf(self) -> bool {
        &&& forall|a: Point, b: Point| #[trigger]
            (self.adjacent)(a, b) ==> {
                &&& on_grid(a, self.size)
                &&& on_grid(b, self.size)
                &&& a != b
                &&& gap(a.0, b.0) <= 1
                &&& gap(a.1, b.1) <= 1
                &&& (self.adjacent)(b, a)
            }
        &&& forall|a: Point, b: Point|
            on_grid(a, self.size) && on_grid(b, self.size) && gap(a.0, b.0) + gap(a.1, b.1) == 1
                ==> #[trigger] (self.adjacent)(a, b)
    }
}

/// No tile of the rectangle costs more than `weight`, and no path within it gets too
/// expensive for a [`Cost`].
pub open spec fn is_affordable(t: Terrain, r: Region, weight: nat) -> bool {
    &&& r.area() * weight <= usize::MAX
    &&& forall|p: Point|
        r.contains(p) && on_grid(p, t.size) ==> #[trigger] (t.cost)(p) <= weight
}

/// The estimates never drop by more than a step costs, and stay small enough to be added to
/// a cost up to `limit`.
pub open spec fn estimates_are_steady<N: Neighborhood>(
    neighborhood: N,
    e: Edges<Point>,
    goal: Point,
    limit: nat,
) -> bool {
    &&& forall|a: Point, b: Point|
        (#[trigger] e(a, b)) is Some ==> neighborhood.distance(a, goal) <= e(a, b)->0
            + neighborhood.distance(b, goal)
    &&& forall|p: Point|
        on_grid(p, neighborhood.size()) ==> #[trigger] neighborhood.distance(p, goal) + limit
            <= usize::MAX
}

/// The estimates of a search: the distance to the target, where there is one.
pub open spec fn estimates<N: Neighborhood>(neighborhood: N, target: Option<Point>) -> spec_fn(
    Point,
) -> Cost {
    |p: Point|
        match target {
            Some(goal) if on_grid(p, neighborhood.size()) => neighborhood.distance(p, goal),
            _ => 0,
        }
}

/// What is known of being next to each other holds on a grid with a neighborhood.
pub proof fn lemma_ground_wf<N: Neighborhood>(t: Terrain, neighborhood: N)
    requires
        is_ground(t, neighborhood),
    ensures
        t.wf(),
{
    assert forall|a: Point, b: Point| #[trigger] (t.adjacent)(a, b) implies {
        &&& on_grid(a, t.size)
        &&& on_grid(b, t.size)
        &&& a != b
        &&& gap(a.0, b.0) <= 1
        &&& gap(a.1, b.1) <= 1
        &&& (t.adjacent)(b, a)
    } by {
        neighborhood.lemma_adjacent(a, b);
    }
    assert forall|a: Point, b: Point|
        on_grid(a, t.size) && on_grid(b, t.size) && gap(a.0, b.0) + gap(a.1, b.1)
            == 1 implies #[trigger] (t.adjacent)(a, b) by {
        neighborhood.lemma_straight(a, b);
    }
}

/// On grids that agree the same steps are possible, at the same costs.
pub proof fn lemma_agreeing(t: Terrain, u: Terrain, r: Region)
    requires
        t.agrees_with(u),
    ensures
        u.edges(r) == t.edges(r),
        forall|p: Point| #[trigger] u.open(p) == t.open(p),
{
    let (e, f) = (t.edges(r), u.edges(r));
    assert forall|p: Point| #[trigger] u.open(p) == t.open(p) by {
        if on_grid(p, t.size) {
            assert((t.cost)(p) == (u.cost)(p));
        }
    }
    assert forall|a: Point, b: Point| #[trigger] f(a, b) == e(a, b) by {
        assert((t.adjacent)(a, b) == (u.adjacent)(a, b));
        assert(u.open(a) == t.open(a) && u.open(b) == t.open(b));
        if on_grid(a, t.size) {
            assert((t.cost)(a) == (u.cost)(a));
        }
    }
    assert(f =~= e);
}

/// Agreeing is mutual.
pub proof fn lemma_agreement_mutual(t: Terrain, u: Terrain)
    requires
        t.agrees_with(u),
    ensures
        u.agrees_with(t),
{
    assert forall|a: Point, b: Point| #[trigger] (u.adjacent)(a, b) == (t.adjacent)(a, b) by {
        assert((t.adjacent)(a, b) == (u.adjacent)(a, b));
    }
    assert forall|p: Point| on_grid(p, u.size) implies #[trigger] (u.cost)(p) == (t.cost)(p) by {
        assert((t.cost)(p) == (u.cost)(p));
    }
}

/// A cost function that always gives the same costs is that of the grid that it describes.
pub proof fn lemma_described<N: Neighborhood, F: FnMut(Point) -> isize>(
    neighborhood: N,
    get_cost: F,
)
    requires
        is_definite(get_cost, neighborhood.size()),
    ensures
        is_ground(terrain(neighborhood, get_cost), neighborhood),
        is_cost_fn(get_cost, terrain(neighborhood, get_cost)),
{
}

/// A reference to a cost function gives the same costs.
pub proof fn lemma_shared_cost_fn<F: Fn(Point) -> isize>(get_cost: &F, t: Terrain)
    requires
        is_cost_fn(*get_cost, t),
    ensures
        is_cost_fn(get_cost, t),
{
}

/// Steps can be taken back.
pub proof fn lemma_steps_two_way(t: Terrain, r: Region)
    requires
        t.wf(),
    ensures
        two_way(t.edges(r)),
{
    let e = t.edges(r);
    assert forall|a: Point, b: Point| (#[trigger] e(a, b)) is Some implies e(b, a) is Some by {
        assert((t.adjacent)(a, b));
    }
}

/// The steps within a rectangle are steps on the grid.
pub proof fn lemma_region_subgraph(t: Terrain, r: Region)
    ensures
        subgraph(t.edges(r), t.edges(t.whole())),
{
}

/// A walk within a rectangle stays in it.
pub proof fn lemma_walk_in_region(t: Terrain, r: Region, a: Point, b: Point)
    requires
        reaches(t.edges(r), a, b),
        r.contains(a),
    ensures
        r.contains(b),
        t.open(a) ==> t.open(b),
{
    let e = t.edges(r);
    let s = choose|s: Seq<Point>| #[trigger] connects(e, s, a, b);
    let inside = |p: Point| r.contains(p) && (t.open(a) ==> t.open(p));
    lemma_walk_stays(e, inside, s);
    assert(inside(s[s.len() - 1]));
}

/// A rectangle cannot hold more tiles than its area.
pub proof fn lemma_tiles_fit(r: Region, tiles: Seq<Point>)
    requires
        tiles.no_duplicates(),
        forall|i: int| 0 <= i < tiles.len() ==> r.contains(#[trigger] tiles[i]),
    ensures
        tiles.len() <= r.area(),
{
    if tiles.len() == 0 {
        if r.left <= r.right && r.top <= r.bottom {
            assert(0 <= (r.right - r.left) * (r.bottom - r.top)) by (nonlinear_arith)
                requires
                    r.left <= r.right,
                    r.top <= r.bottom,
            ;
        }
        return ;
    }
    assert(r.contains(tiles[0]));
    let w = r.right - r.left;
    let h = r.bottom - r.top;
    let number = |p: Point| (p.1 - r.top) * w + (p.0 - r.left);
    let numbers = tiles.map_values(number);
    assert forall|i: int, j: int|
        0 <= i < numbers.len() && 0 <= j < numbers.len() && i != j implies numbers[i]
        != numbers[j] by {
        let (p, q) = (tiles[i], tiles[j]);
        assert(r.contains(p) && r.contains(q));
        if numbers[i] == numbers[j] {
            assert(p.1 == q.1) by (nonlinear_arith)
                requires
                    (p.1 - r.top) * w + (p.0 - r.left) == (q.1 - r.top) * w + (q.0 - r.left),
                    0 <= p.0 - r.left < w,
                    0 <= q.0 - r.left < w,
            ;
            assert(p.0 == q.0);
            assert(tiles[i] == tiles[j]);
        }
    }
    assert forall|i: int| 0 <= i < numbers.len() implies 0 <= #[trigger] numbers[i] < w * h by {
        let p = tiles[i];
        assert(r.contains(p));
        assert(0 <= (p.1 - r.top) * w + (p.0 - r.left) < w * h) by (nonlinear_arith)
            requires
                0 <= p.0 - r.left < w,
                0 <= p.1 - r.top < h,
        ;
    }
    let all = vstd::set_lib::set_int_range(0, w * h);
    vstd::set_lib::lemma_int_range(0, w * h);
    numbers.unique_seq_to_set();
    assert(numbers.to_set().subset_of(all));
    vstd::set_lib::lemma_len_subset(numbers.to_set(), all);
}

/// A step costs what it costs to walk over the tile that it leaves, so a path taken back
/// costs the last tile in place of the first.
pub proof fn lemma_reversed_cost(t: Terrain, r: Region, s: Seq<Point>)
    requires
        t.wf(),
        is_walk(t.edges(r), s),
    ensures
        connects(t.edges(r), s.reverse(), s.last(), s[0]),
        s.len() > 1 ==> walk_cost(t.edges(r), s.reverse()) + (t.cost)(s[0]) == walk_cost(
            t.edges(r),
            s,
        ) + (t.cost)(s.last()),
    decreases s.len(),
{
    let e = t.edges(r);
    lemma_steps_two_way(t, r);
    lemma_walk_reverses(e, s);
    if s.len() > 1 {
        let d = s.drop_last();
        assert forall|i: int| 0 <= i < d.len() - 1 implies #[trigger] linked(e, d, i) by {
            assert(linked(e, s, i));
        }
        assert(linked(e, s, s.len() - 2));
        lemma_reversed_cost(t, r, d);
        assert(e(s.last(), d.last()) is Some);
        assert(is_walk(e, d.reverse()));
        lemma_walk_prepends(e, s.last(), d.reverse());
        assert(seq![s.last()] + d.reverse() =~= s.reverse());
        if d.len() == 1 {
            assert(walk_cost(e, d) == 0);
            assert(walk_cost(e, d.reverse()) == 0);
        }
    }
}

/// A path costs at most the highest cost of a tile, once for each step.
pub proof fn lemma_walk_cost_bound(t: Terrain, r: Region, s: Seq<Point>, weight: nat)
    requires
        is_walk(t.edges(r), s),
        forall|p: Point| r.contains(p) && on_grid(p, t.size) ==> #[trigger] (t.cost)(p) <= weight,
    ensures
        walk_cost(t.edges(r), s) <= (s.len() - 1) * weight,
        s.len() > 1 ==> (t.cost)(s[0]) <= walk_cost(t.edges(r), s),
    decreases s.len(),
{
    let e = t.edges(r);
    if s.len() > 1 {
        let d = s.drop_last();
        assert forall|i: int| 0 <= i < d.len() - 1 implies #[trigger] linked(e, d, i) by {
            assert(linked(e, s, i));
        }
        assert(linked(e, s, s.len() - 2));
        lemma_walk_cost_bound(t, r, d, weight);
        assert((d.len() - 1) * weight + weight == (s.len() - 1) * weight) by (nonlinear_arith)
            requires
                s.len() == d.len() + 1,
        ;
        if d.len() == 1 {
            assert(walk_cost(e, d) == 0);
        }
    }
}

} // verus!

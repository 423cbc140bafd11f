//! Which grids and which cost functions a cache can be created for.

use vstd::prelude::*;

use crate::neighbors::Neighborhood;
use crate::path_cache::CacheInspector;
use crate::path_cache::changes::is_changed_cost_fn;
use crate::path_cache::limits::{chunk_area, fits, step_limit, tile_limit};
use crate::terrain::{is_definite, Terrain};
use crate::{NodeID, Point};

verus! {

/// A number for each tile of the grid and two more, times the tiles of a chunk and one more,
/// times the cost, fits in a machine word.
pub open spec fn is_small(size: (usize, usize), chunk_size: usize, cost: int) -> bool {
    (size.0 * size.1 + 2) * (chunk_size * chunk_size + 1) * cost <= usize::MAX
}

/// A cost with which all of this fits is no higher than the highest one.
proof fn lemma_small(size: (usize, usize), chunk_size: usize, cost: int)
    requires
        0 < chunk_size,
        1 <= cost,
        is_small(size, chunk_size, cost),
    ensures
        step_limit(size, chunk_size) <= usize::MAX,
        cost <= tile_limit(size, chunk_size),
{
    let (w, h, cs) = (size.0 as int, size.1 as int, chunk_size as int);
    let (a, n) = (chunk_area(size, chunk_size), size.0 * size.1);
    let (l, m) = (step_limit(size, chunk_size), usize::MAX as int);
    assert(0 <= n) by (nonlinear_arith)
        requires
            n == w * h,
            0 <= w,
            0 <= h,
    ;
    let (x, y) = (if cs < w {
        cs
    } else {
        w
    }, if cs < h {
        cs
    } else {
        h
    });
    assert(0 <= x * y <= cs * cs) by (nonlinear_arith)
        requires
            0 <= x <= cs,
            0 <= y <= cs,
    ;
    assert(a == x * y);
    assert(0 < l && l * cost <= m) by (nonlinear_arith)
        requires
            l == (n + 2) * (a + 1),
            (n + 2) * (cs * cs + 1) * cost <= m,
            0 <= n,
            0 <= a <= cs * cs,
            1 <= cost,
    ;
    assert(l <= m && cost <= m / l) by (nonlinear_arith)
        requires
            0 < l,
            l * cost <= m,
            1 <= cost,
    ;
}

/// A cache can be created for every grid that is small enough for the costs of its tiles, or for
/// costs of one if these are lower.
pub proof fn law_small_grids_fit(t: Terrain, chunk_size: usize, highest: int)
    requires
        0 < chunk_size,
        1 <= highest,
        forall|p: Point|
            p.0 < t.size.0 && p.1 < t.size.1 ==> #[trigger] (t.cost)(p) <= highest,
        is_small(t.size, chunk_size, highest),
    ensures
        fits(t, chunk_size),
{
    lemma_small(t.size, chunk_size, highest);
}

/// A cache can be created with every function that can be asked for the tiles of the grid and
/// gives the same cost each time.
pub proof fn law_cost_functions_are_definite<F: FnMut(Point) -> isize>(
    get_cost: F,
    size: (usize, usize),
)
    requires
        forall|p: Point|
            p.0 < size.0 && p.1 < size.1 ==> #[trigger] call_requires(get_cost, (p,)),
        forall|p: Point, c: isize, d: isize|
            p.0 < size.0 && p.1 < size.1 && #[trigger] call_ensures(get_cost, (p,), c)
                && #[trigger] call_ensures(get_cost, (p,), d) ==> c == d,
    ensures
        is_definite(get_cost, size),
{
}

/// A cache can be updated with every such function that gives the old costs for tiles that have
/// not changed, and for those that have costs for which the grid is small enough.
pub proof fn law_changed_cost_functions<F: FnMut(Point) -> isize>(
    get_cost: F,
    before: Terrain,
    chunk_size: usize,
    tiles: Seq<Point>,
    highest: int,
)
    requires
        0 < chunk_size,
        1 <= highest,
        is_small(before.size, chunk_size, highest),
        forall|p: Point|
            p.0 < before.size.0 && p.1 < before.size.1 ==> #[trigger] call_requires(
                get_cost,
                (p,),
            ),
        forall|p: Point, c: isize, d: isize|
            p.0 < before.size.0 && p.1 < before.size.1 && #[trigger] call_ensures(
                get_cost,
                (p,),
                c,
            ) && #[trigger] call_ensures(get_cost, (p,), d) ==> c == d,
        forall|p: Point, c: isize| #[trigger]
            call_ensures(get_cost, (p,), c) ==> if tiles.contains(p) {
                c <= highest
            } else {
                c == (before.cost)(p)
            },
    ensures
        is_changed_cost_fn(get_cost, before, chunk_size, tiles),
{
    lemma_small(before.size, chunk_size, highest);
}

/// Each node of a cache is handed out once, in the order of the numbers.
pub proof fn law_each_node_is_handed_out<'a, N: Neighborhood>(
    inspector: CacheInspector<'a, N>,
    id: NodeID,
)
    requires
        inspector.wf(),
    ensures
        inspector.graph().contains_key(id) <==> exists|i: int|
            0 <= i < inspector.ids().len() && #[trigger] inspector.ids()[i] == id,
        forall|i: int, j: int|
            0 <= i < j < inspector.ids().len() ==> (#[trigger] inspector.ids()[i]) < (
            #[trigger] inspector.ids()[j]),
{
    let ids = inspector.ids();
    if inspector.graph().contains_key(id) {
        assert(ids.contains(id));
        let i = choose|i: int| 0 <= i < ids.len() && ids[i] == id;
        assert(ids[i] == id);
    }
    if exists|i: int| 0 <= i < ids.len() && #[trigger] ids[i] == id {
        assert(ids.contains(id));
    }
}

} // verus!

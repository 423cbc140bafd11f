//! The Dijkstra search from tile to tile.

use vstd::prelude::*;

use super::explore::explore;
use super::Element;
use crate::course::by_cost;
use crate::key_map::{PointMap, PointSet};
use crate::neighbors::Neighborhood;
use crate::path::Path;
use crate::search::{are_cheapest_paths, are_found, ranks, to_set, Explored};
use crate::terrain::{is_affordable, is_cost_fn, is_ground, Region, Terrain};
use crate::Point;

verus! {

/// Finds paths from `start` to `goals` that do not leave the rectangle, in the order of
/// their costs.
pub(crate) fn dijkstra_search<N: Neighborhood, F: FnMut(Point) -> isize>(
    neighborhood: &N,
    region: Region,
    get_cost: &mut F,
    start: Point,
    goals: &[Point],
    only_closest: bool,
    Ghost(t): Ghost<Terrain>,
    Ghost(weight): Ghost<nat>,
) -> (paths: PointMap<Path<Point>>)
    requires
        is_ground(t, *neighborhood),
        is_cost_fn(*old(get_cost), t),
        region.within(neighborhood.size()),
        region.contains(start),
        is_affordable(t, region, weight),
    ensures
        *final(get_cost) == *old(get_cost),
        paths.wf(),
        are_cheapest_paths(
            t.edges(region),
            start,
            goals@,
            only_closest,
            region.area(),
            weight,
            paths@,
        ),
        are_found(t.edges(region), by_cost(), start, goals@, only_closest, paths@),
{
    let wanted: PointSet = to_set(goals);
    let ghost rest = |p: Point| 0nat;
    let explored: Explored<Point, Element<Point>> = explore(
        neighborhood,
        region,
        get_cost,
        start,
        &wanted,
        only_closest,
        None,
        Ghost(rest),
        Ghost(t),
        Ghost(weight),
    );
    proof {
        assert(ranks::<Point, Element<Point>>(explored.search.estimate()) =~= by_cost());
    }
    explored.to_paths(Ghost(goals@), Ghost(only_closest), Ghost(region.area()))
}

} // verus!

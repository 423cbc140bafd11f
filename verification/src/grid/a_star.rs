//! The A* search from tile to tile.

use vstd::prelude::*;

use super::explore::explore;
use super::HeuristicElement;
use crate::course::{by_estimate, is_found};
use crate::key_map::PointSet;
use crate::neighbors::Neighborhood;
use crate::path::Path;
use crate::search::{is_cheapest, ranks, Explored};
use crate::terrain::{
    estimates, estimates_are_steady, is_affordable, is_cost_fn, is_ground, lemma_walk_in_region,
    Region, Terrain,
};
use crate::walk::reaches;
use crate::Point;

verus! {

/// Finds a path from `start` to `goal` that does not leave the rectangle, looking at the
/// tiles that seem closest to the goal first.
pub(crate) fn a_star_search<N: Neighborhood, F: FnMut(Point) -> isize>(
    neighborhood: &N,
    region: Region,
    get_cost: &mut F,
    start: Point,
    goal: Point,
    Ghost(t): Ghost<Terrain>,
    Ghost(weight): Ghost<nat>,
) -> (path: Option<Path<Point>>)
    requires
        is_ground(t, *neighborhood),
        is_cost_fn(*old(get_cost), t),
        region.within(neighborhood.size()),
        region.contains(start),
        is_affordable(t, region, weight),
    ensures
        *final(get_cost) == *old(get_cost),
        ({
            let e = t.edges(region);
            match path {
                Some(path) => {
                    &&& t.is_route(region, path.points(), start, goal, path.total() as nat)
                    &&& path.points().len() <= region.area()
                    &&& path.total() <= region.area() * weight
                    &&& is_found(
                        e,
                        by_estimate(estimates(*neighborhood, Some(goal))),
                        start,
                        goal,
                        path.points(),
                        path.total() as nat,
                    )
                    &&& estimates_are_steady(
                        *neighborhood,
                        e,
                        goal,
                        (region.area() * weight) as nat,
                    ) ==> is_cheapest(e, start, goal, path.total() as nat)
                },
                None => !reaches(e, start, goal),
            }
        }),
{
    let ghost e = t.edges(region);
    let ghost limit = (region.area() * weight) as nat;
    if !region.has(goal) {
        proof {
            if reaches(e, start, goal) {
                lemma_walk_in_region(t, region, start, goal);
            }
        }
        return None;
    }
    let mut goals: PointSet = PointSet::new();
    goals.insert(goal, ());
    let ghost rest = |p: Point| estimates(*neighborhood, Some(goal))(p) as nat;
    let explored: Explored<Point, HeuristicElement<Point>> = explore(
        neighborhood,
        region,
        get_cost,
        start,
        &goals,
        true,
        Some(goal),
        Ghost(rest),
        Ghost(t),
        Ghost(weight),
    );
    if explored.found.len() == 0 {
        assert(goals@.dom().contains(goal));
        return None;
    }
    proof {
        assert(goals@.dom().contains(explored.found@[0]));
        assert(explored.found@[0] == goal);
        if estimates_are_steady(*neighborhood, e, goal, limit) {
            assert(explored.search.guided());
        }
        explored.lemma_found(goals@.dom(), true, goal);
        let estimate = estimates(*neighborhood, Some(goal));
        assert(ranks::<Point, HeuristicElement<Point>>(estimate) =~= by_estimate(estimate));
        assert(explored.search.order().len() * weight <= region.area() * weight)
            by (nonlinear_arith)
            requires
                explored.search.order().len() <= region.area(),
        ;
    }
    Some(explored.path_to(goal, Ghost(goals@.dom()), Ghost(true)))
}

} // verus!

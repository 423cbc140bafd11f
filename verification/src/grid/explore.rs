//! What the searches from tile to tile have in common.

use vstd::prelude::*;

use crate::course::{
    expanded, is_course, lemma_course_begins, lemma_course_goes_on, lemma_expansion_begins,
    lemma_expansion_ends, lemma_expansion_goes_on, lemma_reached_begins, lemma_reached_goes_on,
    partly_expanded, reached,
};
use crate::heap::QueueEntry;
use crate::key_map::PointSet;
use crate::neighbors::{on_grid, Neighborhood};
use crate::search::{
    is_search_tree, lemma_all_found, lemma_goal_found, lemma_search_is_exhaustive, lemma_tree_walk,
    ranks, Explored, Reached, Search,
};
use crate::terrain::{
    estimates, is_affordable, is_cost_fn, is_ground, lemma_ground_wf, lemma_tiles_fit, Region,
    Terrain,
};
use crate::walk::{connects, is_walk, reaches, walk_cost};
use crate::{Cost, Point};

verus! {

/// The estimate for a tile.
fn estimate<N: Neighborhood>(neighborhood: &N, p: Point, target: Option<Point>) -> (cost: Cost)
    requires
        on_grid(p, neighborhood.size()),
        target matches Some(goal) ==> on_grid(goal, neighborhood.size()),
    ensures
        cost == estimates(*neighborhood, target)(p),
{
    match target {
        Some(goal) => neighborhood.heuristic(p, goal),
        None => 0,
    }
}

/// A search does not leave its rectangle.
proof fn lemma_stays_in_region(
    t: Terrain,
    r: Region,
    start: Point,
    best: Reached<Point>,
    order: Seq<Point>,
    weight: nat,
)
    requires
        is_search_tree(t.edges(r), start, best, order, weight),
        r.contains(start),
    ensures
        forall|p: Point| #[trigger] best.contains_key(p) ==> r.contains(p),
        order.len() <= r.area(),
{
    assert forall|i: int| 0 <= i < order.len() implies r.contains(#[trigger] order[i]) by {
        assert(best.contains_key(order[i]));
    }
    lemma_tiles_fit(r, order);
}

/// Searches a rectangle of the grid for goals.
///
/// The search ends when all goals have been found, or, with `only_closest`, when the first
/// one has been found. With a target, tiles closer to it are looked at first.
pub(crate) fn explore<N: Neighborhood, F: FnMut(Point) -> isize, T: QueueEntry<Point>>(
    neighborhood: &N,
    region: Region,
    get_cost: &mut F,
    start: Point,
    goals: &PointSet,
    only_closest: bool,
    target: Option<Point>,
    Ghost(rest): Ghost<spec_fn(Point) -> nat>,
    Ghost(t): Ghost<Terrain>,
    Ghost(weight): Ghost<nat>,
) -> (explored: Explored<Point, T>)
    requires
        is_ground(t, *neighborhood),
        is_cost_fn(*old(get_cost), t),
        region.within(neighborhood.size()),
        region.contains(start),
        target matches Some(goal) ==> on_grid(goal, neighborhood.size()),
        goals.wf(),
        is_affordable(t, region, weight),
    ensures
        *final(get_cost) == *old(get_cost),
        explored.answers(goals@.dom(), only_closest),
        explored.search.edges() == t.edges(region),
        explored.search.start() == start,
        explored.search.estimate() == estimates(*neighborhood, target),
        explored.search.rest() == rest,
        explored.search.weight() == weight,
        explored.search.limit() == region.area() * weight,
        explored.search.order().len() <= region.area(),
{
    let ghost cost_fn = *get_cost;
    let ghost e = t.edges(region);
    let ghost limit = (region.area() * weight) as nat;
    let ghost goal_set = goals@.dom();
    proof {
        lemma_ground_wf(t, *neighborhood);
        goals.lemma_len();
    }
    let first: Cost = estimate(neighborhood, start, target);
    let mut search: Search<Point, T> = Search::new(
        start,
        first,
        Ghost(e),
        Ghost(estimates(*neighborhood, target)),
        Ghost(rest),
        Ghost(weight),
        Ghost(limit),
    );
    let mut found: Vec<Point> = Vec::new();
    let mut around: Vec<Point> = Vec::new();
    proof {
        lemma_course_begins(e, ranks::<Point, T>(search.estimate()), start);
        lemma_reached_begins(e, start);
        assert(search.order().take(0) =~= search.order());
    }
    if goals.len() == 0 {
        return Explored { search, found, expanded: Ghost(0) };
    }
    loop
        invariant
            cost_fn == *old(get_cost),
            *get_cost == cost_fn,
            is_ground(t, *neighborhood),
            t.wf(),
            e == t.edges(region),
            limit == region.area() * weight,
            is_cost_fn(cost_fn, t),
            region.within(neighborhood.size()),
            region.contains(start),
            target matches Some(goal) ==> on_grid(goal, neighborhood.size()),
            goals.wf(),
            goal_set == goals@.dom(),
            goal_set.finite(),
            goal_set.len() == goals.entries().len(),
            is_affordable(t, region, weight),
            search.wf(search.order().len() as int),
            search.edges() == e,
            search.start() == start,
            search.estimate() == estimates(*neighborhood, target),
            search.rest() == rest,
            search.weight() == weight,
            search.limit() == limit,
            is_course(e, ranks::<Point, T>(search.estimate()), start, search.order()),
            search.best() == reached(e, start, search.order()),
            found@.no_duplicates(),
            found@.len() < goals.entries().len(),
            only_closest ==> found@.len() == 0,
            forall|i: int|
                0 <= i < found@.len() ==> {
                    &&& goal_set.contains(#[trigger] found@[i])
                    &&& search.order().contains(found@[i])
                },
            forall|g: Point|
                search.order().contains(g) && #[trigger] goal_set.contains(g) ==> found@.contains(
                    g,
                ),
        decreases region.area() - search.order().len(),
    {
        let ghost before = search.order();
        proof {
            search.lemma_wf(before.len() as int);
            lemma_stays_in_region(t, region, start, search.best(), before, weight);
        }
        let (current, cost) = match search.next() {
            Some(next) => next,
            None => {
                proof {
                    assert(before.take(before.len() as int) =~= before);
                    assert forall|g: Point| #[trigger] goal_set.contains(g) implies (
                    found@.contains(g) <==> reaches(e, start, g)) by {
                        search.lemma_wf(before.len() as int);
                        lemma_search_is_exhaustive(e, start, search.best(), before, weight, g);
                        if found@.contains(g) {
                            assert(before.contains(g));
                        }
                    }
                }
                return Explored { search, found, expanded: Ghost(before.len() as int) };
            },
        };
        let ghost n = before.len() as int;
        proof {
            lemma_course_goes_on(e, ranks::<Point, T>(search.estimate()), start, before, current);
            assert(search.order().take(n) =~= before);
            assert(search.order().drop_last() =~= before);
            lemma_reached_goes_on(e, start, search.order());
            search.lemma_wf(n);
            lemma_stays_in_region(t, region, start, search.best(), search.order(), weight);
            assert forall|p: Point| before.contains(p) implies search.order().contains(p) by {
                let i = choose|i: int| 0 <= i < before.len() && before[i] == p;
                assert(search.order()[i] == p);
            }
            assert(search.order()[n] == current);
            assert forall|p: Point| search.order().contains(p) && p != current implies before.contains(p) by {
                let i = choose|i: int| 0 <= i < search.order().len() && search.order()[i] == p;
                assert(before[i] == p);
            }
        }
        if goals.contains_key(&current) {
            proof {
                assert(goal_set.contains(current));
            }
            let ghost previous = found@;
            found.push(current);
            proof {
                lemma_goal_found(previous, current, before, search.order(), goal_set);
            }
            if only_closest {
                proof {
                    assert(found@[0] == current);
                    assert forall|i: int| 0 <= i < search.order().len() - 1 implies !goal_set.contains(
                        #[trigger] search.order()[i],
                    ) by {
                        assert(before.contains(before[i]));
                    }
                    if search.guided() {
                        assert forall|g: Point, s: Seq<Point>|
                            goal_set.contains(g) && #[trigger] connects(
                                e,
                                s,
                                start,
                                g,
                            ) implies search.best()[current].0 + rest(current) <= walk_cost(e, s)
                            + rest(g) by {
                            if before.contains(g) {
                                assert(previous.contains(g));
                            }
                            assert(is_walk(e, s));
                        }
                    }
                }
                return Explored { search, found, expanded: Ghost(n) };
            }
            if found.len() == goals.len() {
                proof {
                    lemma_all_found(found@, goal_set);
                    assert forall|g: Point| #[trigger] goal_set.contains(g) implies (
                    found@.contains(g) <==> reaches(e, start, g)) by {
                        let i = choose|i: int| 0 <= i < found@.len() && found@[i] == g;
                        assert(search.order().contains(found@[i]));
                        let j = choose|j: int|
                            0 <= j < search.order().len() && search.order()[j] == g;
                        assert(search.best().contains_key(search.order()[j]));
                        let s = lemma_tree_walk(
                            e,
                            start,
                            search.best(),
                            search.order(),
                            weight,
                            g,
                        );
                        assert(connects(e, s, start, g));
                    }
                }
                return Explored { search, found, expanded: Ghost(n) };
            }
        }
        expand(
            neighborhood,
            region,
            get_cost,
            current,
            cost,
            target,
            &mut around,
            &mut search,
            Ghost(t),
            Ghost(weight),
        );
    }
}

/// Reaches the tiles next to the tile finished last.
fn expand<N: Neighborhood, F: FnMut(Point) -> isize, T: QueueEntry<Point>>(
    neighborhood: &N,
    region: Region,
    get_cost: &mut F,
    current: Point,
    cost: Cost,
    target: Option<Point>,
    around: &mut Vec<Point>,
    search: &mut Search<Point, T>,
    Ghost(t): Ghost<Terrain>,
    Ghost(weight): Ghost<nat>,
)
    requires
        is_ground(t, *neighborhood),
        is_cost_fn(*old(get_cost), t),
        region.within(neighborhood.size()),
        region.contains(current),
        region.contains(old(search).start()),
        target matches Some(goal) ==> on_grid(goal, neighborhood.size()),
        is_affordable(t, region, weight),
        old(search).order().len() > 0,
        old(search).wf(old(search).order().len() - 1),
        old(search).order().last() == current,
        old(search).best().contains_key(current),
        old(search).best()[current].0 == cost,
        old(search).edges() == t.edges(region),
        old(search).estimate() == estimates(*neighborhood, target),
        old(search).weight() == weight,
        old(search).limit() == region.area() * weight,
    ensures
        *final(get_cost) == *old(get_cost),
        final(search).same_search(old(search)),
        final(search).order() == old(search).order(),
        final(search).wf(old(search).order().len() as int),
        final(search).best() == expanded(
            old(search).edges(),
            old(search).best(),
            old(search).order(),
        ),
{
    let ghost cost_fn = *get_cost;
    let ghost e = t.edges(region);
    let ghost n = search.order().len() - 1;
    proof {
        lemma_ground_wf(t, *neighborhood);
        search.lemma_wf(n);
        lemma_stays_in_region(t, region, search.start(), search.best(), search.order(), weight);
        assert(search.order()[n] == current);
        assert((n + 1) * weight <= region.area() * weight) by (nonlinear_arith)
            requires
                n + 1 <= region.area(),
        ;
        assert(n * weight + weight == (n + 1) * weight) by (nonlinear_arith);
    }
    let leave: isize = (*get_cost)(current);
    if leave < 0 {
        proof {
            search.lemma_expanded();
            lemma_expansion_begins(e, search.best(), search.order());
            lemma_expansion_ends(e, search.best(), search.order(), Set::<Point>::empty());
        }
        return ;
    }
    let step: Cost = leave as usize;
    proof {
        assert((t.cost)(current) == leave);
    }
    let next_cost: Cost = cost + step;
    around.clear();
    neighborhood.get_all_neighbors(current, around);
    proof {
        assert(around@.skip(0) =~= around@);
    }
    let ghost initial = *search;
    let ghost mut done = Set::<Point>::empty();
    proof {
        lemma_expansion_begins(e, search.best(), search.order());
    }
    for i in 0..around.len()
        invariant
            *get_cost == cost_fn,
            is_ground(t, *neighborhood),
            t.wf(),
            e == t.edges(region),
            is_cost_fn(cost_fn, t),
            region.within(neighborhood.size()),
            region.contains(current),
            target matches Some(goal) ==> on_grid(goal, neighborhood.size()),
            is_affordable(t, region, weight),
            n == search.order().len() - 1,
            0 <= n,
            search.wf(n),
            search.same_search(&initial),
            search.order() == initial.order(),
            search.order().last() == current,
            search.best().contains_key(current),
            search.best()[current].0 == cost,
            search.edges() == e,
            search.estimate() == estimates(*neighborhood, target),
            search.weight() == weight,
            initial.best()[current].0 == cost,
            search.best() == partly_expanded(e, initial.best(), initial.order(), done),
            t.open(current),
            (t.cost)(current) == step,
            next_cost == cost + step,
            next_cost <= search.limit(),
            forall|j: int|
                0 <= j < around@.len() ==> neighborhood.adjacent(current, #[trigger] around@[j]),
            forall|j: int|
                0 <= j < i && t.open(#[trigger] around@[j]) && region.contains(around@[j])
                    ==> done.contains(around@[j]),
            forall|j: int|
                0 <= j < i && t.open(#[trigger] around@[j]) && region.contains(around@[j])
                    && !search.order().contains(around@[j]) ==> {
                    &&& search.best().contains_key(around@[j])
                    &&& search.best()[around@[j]].0 <= next_cost
                },
    {
        let other: Point = around[i];
        proof {
            assert((t.adjacent)(current, other));
        }
        if region.has(other) && (*get_cost)(other) >= 0 {
            proof {
                assert(e(current, other) == Some(step as nat));
            }
            let rank: Cost = estimate(neighborhood, other, target);
            let ghost previous = *search;
            search.reach(current, other, next_cost, rank);
            proof {
                lemma_expansion_goes_on(
                    e,
                    initial.best(),
                    initial.order(),
                    done,
                    other,
                    next_cost,
                );
                done = done.insert(other);
                assert forall|j: int|
                    0 <= j < i && t.open(#[trigger] around@[j]) && region.contains(around@[j])
                        && !search.order().contains(around@[j]) implies {
                    &&& search.best().contains_key(around@[j])
                    &&& search.best()[around@[j]].0 <= next_cost
                } by {
                    assert(previous.best().contains_key(around@[j]));
                }
            }
        }
    }
    proof {
        assert forall|v: Point|
            (#[trigger] search.edges()(search.order().last(), v)) is Some
                && !search.order().contains(v) implies {
            &&& search.best().contains_key(v)
            &&& search.best()[v].0 <= search.best()[search.order().last()].0 + search.edges()(
                search.order().last(),
                v,
            )->0
        } by {
            assert((t.adjacent)(current, v));
            assert(neighborhood.adjacent(current, v));
            assert(around@.contains(v));
            let j = choose|j: int| 0 <= j < around@.len() && around@[j] == v;
            assert(t.open(around@[j]));
        }
        search.lemma_expanded();
        assert forall|v: Point| (#[trigger] e(initial.order().last(), v)) is Some implies done.contains(
            v,
        ) by {
            assert((t.adjacent)(current, v));
            assert(neighborhood.adjacent(current, v));
            assert(around@.contains(v));
            let j = choose|j: int| 0 <= j < around@.len() && around@[j] == v;
            assert(t.open(around@[j]));
        }
        lemma_expansion_ends(e, initial.best(), initial.order(), done);
    }
}

} // verus!
